//! What every planner offers, and the set of blocked cells it plans around.

use super::computable_grid::{key_of, key_order, ComputeGrid, ComputeGridNode};
use std::collections::HashSet;
use vstd::prelude::*;

verus! {

broadcast use vstd::std_specs::hash::group_hash_axioms;

/// The cells that no path may enter.
#[derive(Debug)]
pub struct ObstacleSet {
    keys: HashSet<u64>,
}

impl View for ObstacleSet {
    type V = Set<ComputeGridNode>;

    closed spec fn view(&self) -> Set<ComputeGridNode> {
        Set::new(|node: ComputeGridNode| self.keys@.contains(key_of(node) as u64))
    }
}

/// `HashSet::clone` of std: a set with the same keys.
#[verifier::external_body]
fn clone_keys(keys: &HashSet<u64>) -> (copy: HashSet<u64>)
    ensures
        copy@ == keys@,
{
    keys.clone()
}

impl Clone for ObstacleSet {
    fn clone(&self) -> (copy: Self)
        ensures
            copy@ == self@,
    {
        let copy = ObstacleSet { keys: clone_keys(&self.keys) };
        assert(copy@ =~= self@);
        copy
    }
}

impl Default for ObstacleSet {
    fn default() -> (obstacles: Self)
        ensures
            obstacles@ == Set::<ComputeGridNode>::empty(),
    {
        ObstacleSet::new()
    }
}

impl ObstacleSet {
    /// The set that blocks no cell.
    pub fn new() -> (obstacles: Self)
        ensures
            obstacles@ == Set::<ComputeGridNode>::empty(),
    {
        let obstacles = ObstacleSet { keys: HashSet::new() };
        assert(obstacles@ =~= Set::<ComputeGridNode>::empty());
        obstacles
    }

    /// Blocks `node`, and tells whether it was free before.
    pub fn insert(&mut self, node: ComputeGridNode) -> (fresh: bool)
        ensures
            final(self)@ == old(self)@.insert(node),
            fresh == !old(self)@.contains(node),
    {
        let fresh = self.keys.insert(node.key());
        proof {
            assert forall|other: ComputeGridNode|
                self@.contains(other) == old(self)@.insert(node).contains(other) by {
                key_order(other, node);
            }
            assert(self@ =~= old(self)@.insert(node));
        }
        fresh
    }

    /// Frees `node`, and tells whether it was blocked before.
    pub fn remove(&mut self, node: &ComputeGridNode) -> (blocked: bool)
        ensures
            final(self)@ == old(self)@.remove(*node),
            blocked == old(self)@.contains(*node),
    {
        let key = node.key();
        let blocked = self.keys.remove(&key);
        proof {
            assert forall|other: ComputeGridNode|
                self@.contains(other) == old(self)@.remove(*node).contains(other) by {
                key_order(other, *node);
            }
            assert(self@ =~= old(self)@.remove(*node));
        }
        blocked
    }

    /// Frees every cell.
    pub fn clear(&mut self)
        ensures
            final(self)@ == Set::<ComputeGridNode>::empty(),
    {
        self.keys.clear();
        assert(self@ =~= Set::<ComputeGridNode>::empty());
    }

    /// Whether `node` is blocked.
    pub fn contains(&self, node: &ComputeGridNode) -> (blocked: bool)
        ensures
            blocked == self@.contains(*node),
    {
        let key = node.key();
        self.keys.contains(&key)
    }

    /// The set that blocks exactly the cells of `nodes`.
    pub fn from_nodes(nodes: &Vec<ComputeGridNode>) -> (obstacles: Self)
        ensures
            forall|node: ComputeGridNode| obstacles@.contains(node) <==> nodes@.contains(node),
    {
        let mut obstacles = ObstacleSet::new();
        let mut i: usize = 0;
        while i < nodes.len()
            invariant
                i <= nodes.len(),
                forall|node: ComputeGridNode|
                    obstacles@.contains(node) <==> nodes@.take(i as int).contains(node),
            decreases nodes.len() - i,
        {
            obstacles.insert(nodes[i]);
            proof {
                let before = nodes@.take(i as int);
                let after = nodes@.take(i + 1);
                assert(after =~= before.push(nodes@[i as int]));
                assert forall|node: ComputeGridNode|
                    obstacles@.contains(node) <==> after.contains(node) by {
                    if before.contains(node) {
                        let j = choose|j: int| 0 <= j < before.len() && before[j] == node;
                        assert(after[j] == node);
                    }
                    if node == nodes@[i as int] {
                        assert(after[i as int] == node);
                    }
                }
            }
            i += 1;
        }
        assert(nodes@.take(nodes.len() as int) =~= nodes@);
        obstacles
    }
}

/// Makes a planner for a grid and the cells blocked on it.
pub trait NewComputer: Sized {
    fn new(grid: ComputeGrid, obstacles: ObstacleSet) -> Self;
}

/// Plans a path between two cells.
pub trait ComputePath {
    /// Whether the nodes of a path are to be drawn connected.
    fn draw_connections(&self) -> bool;

    /// The path from `start` to `end`; empty where there is none.
    fn path(&self, start: ComputeGridNode, end: ComputeGridNode) -> (path: Vec<ComputeGridNode>)
        ensures
            start == end ==> path@ == seq![start],
    ;
}

} // verus!
