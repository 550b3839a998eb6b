//! A map keyed by grid cells.

use crate::traits::computable_grid::{
    key_of, key_order, key_round_trip, node_of_key, ComputeGridNode,
};
use std::collections::HashMap;
use vstd::prelude::*;

verus! {

broadcast use vstd::std_specs::hash::group_hash_axioms;

/// A finite map from cells to values. Cells are filed under their keys.
pub struct NodeMap<V> {
    entries: HashMap<u64, V>,
}

impl<V> View for NodeMap<V> {
    type V = Map<ComputeGridNode, V>;

    closed spec fn view(&self) -> Map<ComputeGridNode, V> {
        Map::new(
            |node: ComputeGridNode| self.entries@.contains_key(key_of(node) as u64),
            |node: ComputeGridNode| self.entries@[key_of(node) as u64],
        )
    }
}

impl<V> NodeMap<V> {
    /// The number of cells that have a value.
    pub closed spec fn count(&self) -> nat {
        self.entries@.len()
    }

    /// The cells that have a value are finitely many, and `count` counts them.
    pub proof fn count_is_size(&self)
        ensures
            self@.dom().finite(),
            self@.dom().len() == self.count(),
    {
        let keys = self.entries@.dom();
        let cells = self@.dom();
        let cell_of = |key: u64| node_of_key(key as int);
        assert forall|a: u64, b: u64|
            keys.contains(a) && keys.contains(b) && #[trigger] cell_of(a) == #[trigger] cell_of(
                b,
            ) implies a == b by {
            key_round_trip(a as int);
            key_round_trip(b as int);
        }
        assert forall|cell: ComputeGridNode| keys.map(cell_of).contains(cell) == cells.contains(
            cell,
        ) by {
            if cells.contains(cell) {
                let key = key_of(cell) as u64;
                key_order(cell, cell);
                key_round_trip(key as int);
                key_order(cell, cell_of(key));
                assert(keys.contains(key) && cell_of(key) == cell);
            }
            if keys.map(cell_of).contains(cell) {
                let key = choose|key: u64| keys.contains(key) && cell_of(key) == cell;
                key_round_trip(key as int);
            }
        }
        assert(keys.map(cell_of) =~= cells);
        vstd::set_lib::lemma_map_size(keys, cells, cell_of);
    }

    pub fn new() -> (map: Self)
        ensures
            map@ == Map::<ComputeGridNode, V>::empty(),
            map.count() == 0,
    {
        let map = NodeMap { entries: HashMap::new() };
        assert(map@ =~= Map::<ComputeGridNode, V>::empty());
        map
    }

    /// Gives `node` the value `value`.
    pub fn insert(&mut self, node: ComputeGridNode, value: V)
        ensures
            final(self)@ == old(self)@.insert(node, value),
            final(self).count() == old(self).count() + (if old(self)@.contains_key(node) {
                0nat
            } else {
                1nat
            }),
    {
        self.entries.insert(node.key(), value);
        proof {
            assert forall|other: ComputeGridNode|
                self@.contains_key(other) == old(self)@.insert(node, value).contains_key(
                    other,
                ) by {
                key_order(other, node);
            }
            assert forall|other: ComputeGridNode| #[trigger]
                self@.contains_key(other) implies self@[other] == old(self)@.insert(
                node,
                value,
            )[other] by {
                key_order(other, node);
            }
            assert(self@ =~= old(self)@.insert(node, value));
            key_order(node, node);
        }
    }

    /// The value of `node`, where it has one.
    pub fn get(&self, node: &ComputeGridNode) -> (value: Option<&V>)
        ensures
            match value {
                Some(v) => self@.contains_key(*node) && *v == self@[*node],
                None => !self@.contains_key(*node),
            },
    {
        let key = node.key();
        self.entries.get(&key)
    }

    pub fn len(&self) -> (len: usize)
        ensures
            len == self.count(),
    {
        self.entries.len()
    }
}

} // verus!
