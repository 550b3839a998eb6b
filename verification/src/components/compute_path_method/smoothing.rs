//! The moves that straighten a path of Theta*: sliding a node along a
//! compass direction, and cutting a bend short.

use super::a_star::PathIterator;
use super::straight_line_wide::{has_line_of_sight, line_of_sight, sight_needs_free_ends};
use crate::traits::computable_grid::{
    compass_direction, gap, manhattan, unit_spec, ComputeGrid, ComputeGridNode,
};
use crate::traits::compute_path::ObstacleSet;
use vstd::prelude::*;

verus! {

/// The number of steps of a king of chess between two cells.
pub open spec fn king_distance(a: ComputeGridNode, b: ComputeGridNode) -> int {
    if gap(a.x as int, b.x as int) > gap(a.y as int, b.y as int) {
        gap(a.x as int, b.x as int)
    } else {
        gap(a.y as int, b.y as int)
    }
}

/// The cell one compass step from `from` towards `target`; `from` itself
/// where `target` lies in no compass direction.
pub open spec fn toward(from: ComputeGridNode, target: ComputeGridNode) -> ComputeGridNode {
    match compass_direction(from, target) {
        Some((dx, dy)) => ComputeGridNode { x: (from.x + dx) as i32, y: (from.y + dy) as i32 },
        None => from,
    }
}

/// Whether `cell` lies within the rectangle that `a` and `b` span.
pub open spec fn between(a: ComputeGridNode, cell: ComputeGridNode, b: ComputeGridNode) -> bool {
    &&& (a.x <= cell.x <= b.x || b.x <= cell.x <= a.x)
    &&& (a.y <= cell.y <= b.y || b.y <= cell.y <= a.y)
}

/// A compass step towards a target comes one step closer to it, keeps the
/// direction, and stays between where it began and the target.
pub proof fn toward_comes_closer(from: ComputeGridNode, target: ComputeGridNode)
    requires
        compass_direction(from, target).is_some(),
    ensures
        king_distance(toward(from, target), target) == king_distance(from, target) - 1,
        toward(from, target).x == from.x + compass_direction(from, target).unwrap().0,
        toward(from, target).y == from.y + compass_direction(from, target).unwrap().1,
        between(from, toward(from, target), target),
        toward(from, target) != from,
        toward(from, target) != target ==> compass_direction(toward(from, target), target)
            == compass_direction(from, target),
        forall|origin: ComputeGridNode| #[trigger]
            between(origin, from, target) ==> between(origin, toward(from, target), target),
{
}

/// The cell one compass step from `from` towards `target`.
pub fn step_toward(from: &ComputeGridNode, target: &ComputeGridNode) -> (moved: ComputeGridNode)
    ensures
        moved == toward(*from, *target),
{
    match from.eight_sided_direction_to(target) {
        Some(direction) => {
            proof {
                toward_comes_closer(*from, *target);
            }
            ComputeGridNode { x: from.x + direction.x, y: from.y + direction.y }
        },
        None => *from,
    }
}

/// Where `node` comes to rest when it slides towards `target` one compass
/// step at a time, as long as the next cell is not `target` and sees both
/// `target` and `other`.
pub open spec fn slide(
    obstacles: Set<ComputeGridNode>,
    node: ComputeGridNode,
    target: ComputeGridNode,
    other: ComputeGridNode,
) -> ComputeGridNode
    decreases king_distance(node, target),
{
    let moved = toward(node, target);
    if compass_direction(node, target).is_none() || moved == target || !line_of_sight(
        obstacles,
        moved,
        target,
    ) || !line_of_sight(obstacles, moved, other) {
        node
    } else {
        slide(obstacles, moved, target, other)
    }
}

/// Whether a unit step moves along both axes.
pub open spec fn is_diagonal_direction(direction: (int, int)) -> bool {
    direction.0 != 0 && direction.1 != 0
}

/// Whether the path bends at `node`: `last` and `next` both lie in a
/// compass direction from it, one of them diagonal and one along an axis.
pub open spec fn is_bend(node: ComputeGridNode, last: ComputeGridNode, next: ComputeGridNode) -> bool {
    &&& compass_direction(node, last).is_some()
    &&& compass_direction(node, next).is_some()
    &&& is_diagonal_direction(compass_direction(node, last).unwrap()) != is_diagonal_direction(
        compass_direction(node, next).unwrap(),
    )
}

/// The better of `best` and the pairs of `to_last` with the cells from
/// `to_next` towards `next`: a pair replaces the best so far where its two
/// cells see each other and lie further apart; the first pair that does not
/// ends the search.
pub open spec fn inner_scan(
    obstacles: Set<ComputeGridNode>,
    to_last: ComputeGridNode,
    to_next: ComputeGridNode,
    next: ComputeGridNode,
    best: (ComputeGridNode, ComputeGridNode),
) -> (ComputeGridNode, ComputeGridNode)
    decreases king_distance(to_next, next),
{
    if to_next == next || compass_direction(to_next, next).is_none() {
        best
    } else if line_of_sight(obstacles, to_last, to_next) && manhattan(to_last, to_next)
        > manhattan(best.0, best.1) {
        inner_scan(obstacles, to_last, toward(to_next, next), next, (to_last, to_next))
    } else {
        best
    }
}

/// The best pair over the cells from `to_last` towards `last`, each paired
/// with the cells from `node` towards `next`.
pub open spec fn outer_scan(
    obstacles: Set<ComputeGridNode>,
    node: ComputeGridNode,
    to_last: ComputeGridNode,
    last: ComputeGridNode,
    next: ComputeGridNode,
    best: (ComputeGridNode, ComputeGridNode),
) -> (ComputeGridNode, ComputeGridNode)
    decreases king_distance(to_last, last),
{
    if to_last == last || compass_direction(to_last, last).is_none() {
        best
    } else {
        outer_scan(
            obstacles,
            node,
            toward(to_last, last),
            last,
            next,
            inner_scan(obstacles, to_last, toward(node, next), next, best),
        )
    }
}

/// What takes the place of `node` between `last` and `next`: at a bend the
/// best pair of cells on its two legs, where there is one; else `node`.
pub open spec fn overriding(
    obstacles: Set<ComputeGridNode>,
    node: ComputeGridNode,
    last: ComputeGridNode,
    next: ComputeGridNode,
) -> Seq<ComputeGridNode> {
    if !is_bend(node, last, next) {
        seq![node]
    } else {
        let best = outer_scan(obstacles, node, toward(node, last), last, next, (node, node));
        if best != (node, node) {
            seq![best.0, best.1]
        } else {
            seq![node]
        }
    }
}

/// The index, among the first `n` cells of `nodes`, of the last cell after
/// the first that the first one sees; where it sees none, the index 1.
pub open spec fn furthest_visible(
    obstacles: Set<ComputeGridNode>,
    nodes: Seq<ComputeGridNode>,
    n: int,
) -> int
    decreases n,
{
    if n <= 2 {
        1
    } else if line_of_sight(obstacles, nodes[0], nodes[n - 1]) {
        n - 1
    } else {
        furthest_visible(obstacles, nodes, n - 1)
    }
}

/// `nodes` without the cells that can be passed over: after each cell comes
/// the furthest one that it sees.
pub open spec fn cleaned(obstacles: Set<ComputeGridNode>, nodes: Seq<ComputeGridNode>) -> Seq<
    ComputeGridNode,
>
    decreases nodes.len(),
    via cleaned_gets_shorter
{
    if nodes.len() == 0 {
        Seq::empty()
    } else if nodes.len() == 1 {
        seq![nodes[0]]
    } else {
        seq![nodes[0]] + cleaned(
            obstacles,
            nodes.skip(furthest_visible(obstacles, nodes, nodes.len() as int)),
        )
    }
}

#[via_fn]
proof fn cleaned_gets_shorter(obstacles: Set<ComputeGridNode>, nodes: Seq<ComputeGridNode>) {
    if nodes.len() >= 2 {
        furthest_visible_is_inside(obstacles, nodes, nodes.len() as int);
    }
}

/// Where the furthest visible cell is found.
pub proof fn furthest_visible_is_inside(
    obstacles: Set<ComputeGridNode>,
    nodes: Seq<ComputeGridNode>,
    n: int,
)
    requires
        2 <= n,
    ensures
        1 <= furthest_visible(obstacles, nodes, n) < n,
    decreases n,
{
    if n > 2 {
        furthest_visible_is_inside(obstacles, nodes, n - 1);
    }
}

/// Each inner node of `nodes` slid towards the node before it and then
/// towards the node after it; the two ends stay.
pub open spec fn positioned(obstacles: Set<ComputeGridNode>, nodes: Seq<ComputeGridNode>) -> Seq<
    ComputeGridNode,
> {
    Seq::new(
        nodes.len(),
        |i: int|
            if 0 < i < nodes.len() - 1 {
                slide(
                    obstacles,
                    slide(obstacles, nodes[i], nodes[i - 1], nodes[i + 1]),
                    nodes[i + 1],
                    nodes[i - 1],
                )
            } else {
                nodes[i]
            },
    )
}

/// What takes the place of node `i` of `nodes`.
pub open spec fn merged_part(
    obstacles: Set<ComputeGridNode>,
    nodes: Seq<ComputeGridNode>,
    i: int,
) -> Seq<ComputeGridNode> {
    if 0 < i < nodes.len() - 1 {
        overriding(obstacles, nodes[i], nodes[i - 1], nodes[i + 1])
    } else {
        seq![nodes[i]]
    }
}

/// What takes the place of the first `n` nodes of `nodes`.
pub open spec fn merged_upto(
    obstacles: Set<ComputeGridNode>,
    nodes: Seq<ComputeGridNode>,
    n: int,
) -> Seq<ComputeGridNode>
    decreases n,
{
    if n <= 0 {
        Seq::empty()
    } else {
        merged_upto(obstacles, nodes, n - 1) + merged_part(obstacles, nodes, n - 1)
    }
}

/// `nodes` with their positions improved: every inner node slid along its
/// legs, and then every bend cut short.
pub open spec fn optimized(obstacles: Set<ComputeGridNode>, nodes: Seq<ComputeGridNode>) -> Seq<
    ComputeGridNode,
> {
    let second = positioned(obstacles, nodes);
    merged_upto(obstacles, second, second.len() as int)
}

/// A walk through a ledger that passes over the cells it can see past.
pub struct CleanedPathIterator<'a> {
    obstacles: &'a ObstacleSet,
    nodes: Vec<ComputeGridNode>,
    position: usize,
}

impl PathIterator {
    /// The same walk without the cells that can be passed over.
    pub fn remove_redundant_nodes<'a>(self, obstacles: &'a ObstacleSet) -> (cleaned:
        CleanedPathIterator<'a>)
        ensures
            cleaned.obstacles() == obstacles@,
            cleaned.remaining() == self::cleaned(obstacles@, self.remaining()),
    {
        let nodes = self.collect();
        let cleaned = CleanedPathIterator { obstacles, nodes, position: 0 };
        assert(cleaned.nodes@.skip(0) =~= cleaned.nodes@);
        cleaned
    }
}

impl<'a> CleanedPathIterator<'a> {
    pub closed spec fn obstacles(&self) -> Set<ComputeGridNode> {
        self.obstacles@
    }

    #[verifier::type_invariant]
    spec fn is_within(&self) -> bool {
        self.position <= self.nodes@.len()
    }

    /// The cells still to come.
    pub closed spec fn remaining(&self) -> Seq<ComputeGridNode> {
        cleaned(self.obstacles@, self.nodes@.skip(self.position as int))
    }

    /// The number of cells of the walk that have not been looked at yet.
    pub closed spec fn unseen(&self) -> nat {
        (self.nodes@.len() - self.position) as nat
    }

    /// Slides `node` towards `target` as far as it keeps both `target` and
    /// `other` in sight.
    pub fn try_move_closer_to(
        node: &mut ComputeGridNode,
        target: &ComputeGridNode,
        other_los_node: &ComputeGridNode,
        obstacles: &ObstacleSet,
    )
        ensures
            *final(node) == slide(obstacles@, *old(node), *target, *other_los_node),
    {
        if node.eight_sided_direction_to(target).is_none() {
            return ;
        }
        loop
            invariant
                compass_direction(*node, *target).is_some(),
                slide(obstacles@, *node, *target, *other_los_node) == slide(
                    obstacles@,
                    *old(node),
                    *target,
                    *other_los_node,
                ),
            decreases king_distance(*node, *target),
        {
            proof {
                toward_comes_closer(*node, *target);
            }
            let moved = step_toward(node, target);
            if moved.x == target.x && moved.y == target.y {
                return ;
            }
            if !has_line_of_sight(obstacles, moved, *target) {
                return ;
            }
            if !has_line_of_sight(obstacles, moved, *other_los_node) {
                return ;
            }
            *node = moved;
        }
    }

    /// What takes the place of `node` between `last` and `next`.
    pub fn try_override_nodes(
        obstacles: &ObstacleSet,
        node: &ComputeGridNode,
        last: &ComputeGridNode,
        next: &ComputeGridNode,
    ) -> (nodes: Vec<ComputeGridNode>)
        ensures
            nodes@ == overriding(obstacles@, *node, *last, *next),
    {
        let dir_last = match node.eight_sided_direction_to(last) {
            Some(direction) => direction,
            None => {
                return vec![*node];
            },
        };
        let dir_next = match node.eight_sided_direction_to(next) {
            Some(direction) => direction,
            None => {
                return vec![*node];
            },
        };
        if dir_last.is_diagonal() && dir_next.is_diagonal() {
            return vec![*node];
        }
        if dir_last.is_straight() && dir_next.is_straight() {
            return vec![*node];
        }
        let mut override_nodes = (*node, *node);
        let mut to_last = step_toward(node, last);
        let ghost goal = outer_scan(obstacles@, *node, to_last, *last, *next, override_nodes);
        proof {
            toward_comes_closer(*node, *last);
        }
        while to_last.x != last.x || to_last.y != last.y
            invariant
                compass_direction(*node, *next).is_some(),
                to_last == *last || compass_direction(to_last, *last).is_some(),
                outer_scan(obstacles@, *node, to_last, *last, *next, override_nodes) == goal,
            decreases king_distance(to_last, *last),
        {
            let mut to_next = step_toward(node, next);
            let ghost inner_goal = inner_scan(
                obstacles@,
                to_last,
                to_next,
                *next,
                override_nodes,
            );
            proof {
                toward_comes_closer(*node, *next);
            }
            while to_next.x != next.x || to_next.y != next.y
                invariant
                    to_next == *next || compass_direction(to_next, *next).is_some(),
                    inner_scan(obstacles@, to_last, to_next, *next, override_nodes) == inner_goal,
                ensures
                    override_nodes == inner_goal,
                decreases king_distance(to_next, *next),
            {
                if has_line_of_sight(obstacles, to_last, to_next) && to_last.right_angle_distance(
                    &to_next,
                ) > override_nodes.0.right_angle_distance(&override_nodes.1) {
                    override_nodes = (to_last, to_next);
                } else {
                    break ;
                }
                proof {
                    toward_comes_closer(to_next, *next);
                }
                to_next = step_toward(&to_next, next);
            }
            assert(override_nodes == inner_goal);
            proof {
                toward_comes_closer(to_last, *last);
            }
            to_last = step_toward(&to_last, last);
        }
        if override_nodes.0.x != node.x || override_nodes.0.y != node.y || override_nodes.1.x
            != node.x || override_nodes.1.y != node.y {
            vec![override_nodes.0, override_nodes.1]
        } else {
            vec![*node]
        }
    }

    /// The next cell of the walk: the furthest one that the cell before sees.
    pub fn next(&mut self) -> (node: Option<ComputeGridNode>)
        ensures
            final(self).obstacles() == old(self).obstacles(),
            match node {
                Some(n) => {
                    &&& old(self).remaining().len() > 0
                    &&& n == old(self).remaining()[0]
                    &&& final(self).remaining() == old(self).remaining().drop_first()
                    &&& final(self).unseen() < old(self).unseen()
                },
                None => old(self).remaining().len() == 0 && final(self).remaining().len() == 0,
            },
    {
        proof {
            use_type_invariant(&*self);
        }
        let len = self.nodes.len();
        let position = self.position;
        let ghost rest = self.nodes@.skip(position as int);
        if position >= len {
            return None;
        }
        let current = self.nodes[position];
        if len - position == 1 {
            self.position = len;
            proof {
                assert(self.nodes@.skip(len as int) =~= Seq::empty());
                assert(old(self).remaining() =~= seq![current]);
            }
            return Some(current);
        }
        let mut visible: usize = position + 1;
        let mut j: usize = position + 2;
        while j < len
            invariant
                position + 2 <= j <= len,
                len == self.nodes@.len(),
                rest == self.nodes@.skip(position as int),
                current == self.nodes@[position as int],
                position < visible < j,
                visible - position == furthest_visible(self.obstacles@, rest, j - position),
            decreases len - j,
        {
            if has_line_of_sight(self.obstacles, current, self.nodes[j]) {
                visible = j;
            }
            j += 1;
        }
        self.position = visible;
        proof {
            let hops = furthest_visible(self.obstacles@, rest, rest.len() as int);
            assert(rest.skip(hops) =~= self.nodes@.skip(visible as int));
            assert(old(self).remaining() =~= seq![current] + self.remaining());
            assert(self.remaining() =~= old(self).remaining().drop_first());
        }
        Some(current)
    }

    /// All the cells of the walk.
    pub fn collect(self) -> (nodes: Vec<ComputeGridNode>)
        ensures
            nodes@ == self.remaining(),
    {
        let mut iterator = self;
        let mut nodes: Vec<ComputeGridNode> = Vec::new();
        loop
            invariant
                nodes@ + iterator.remaining() == self.remaining(),
            ensures
                nodes@ == self.remaining(),
            decreases iterator.unseen(),
        {
            let ghost before = iterator.remaining();
            match iterator.next() {
                Some(node) => {
                    nodes.push(node);
                    assert(nodes@ + iterator.remaining() =~= self.remaining()) by {
                        assert(before =~= seq![node] + iterator.remaining());
                    }
                },
                None => {
                    assert(nodes@ + iterator.remaining() =~= nodes@);
                    break ;
                },
            }
        }
        nodes
    }

    /// All the cells of the walk with their positions improved: every inner
    /// node slid along its legs, and then every bend cut short.
    pub fn collect_with_optimized_node_positions(self) -> (nodes: Vec<ComputeGridNode>)
        ensures
            nodes@ == optimized(self.obstacles(), self.remaining()),
    {
        let obstacles = self.obstacles;
        let first_pass = self.collect();
        let mut second_pass: Vec<ComputeGridNode> = Vec::new();
        let mut i: usize = 0;
        while i < first_pass.len()
            invariant
                i <= first_pass@.len(),
                second_pass@.len() == i,
                forall|j: int|
                    0 <= j < i ==> second_pass@[j] == positioned(obstacles@, first_pass@)[j],
            decreases first_pass.len() - i,
        {
            let mut node = first_pass[i];
            if i > 0 && i + 1 < first_pass.len() {
                let last = first_pass[i - 1];
                let next = first_pass[i + 1];
                Self::try_move_closer_to(&mut node, &last, &next, obstacles);
                Self::try_move_closer_to(&mut node, &next, &last, obstacles);
            }
            second_pass.push(node);
            i += 1;
        }
        assert(second_pass@ =~= positioned(obstacles@, first_pass@));
        let mut nodes: Vec<ComputeGridNode> = Vec::new();
        let mut i: usize = 0;
        while i < second_pass.len()
            invariant
                i <= second_pass@.len(),
                nodes@ == merged_upto(obstacles@, second_pass@, i as int),
            decreases second_pass.len() - i,
        {
            let node = second_pass[i];
            let ghost before = nodes@;
            if i > 0 && i + 1 < second_pass.len() {
                let last = second_pass[i - 1];
                let next = second_pass[i + 1];
                let mut part = Self::try_override_nodes(obstacles, &node, &last, &next);
                nodes.append(&mut part);
            } else {
                nodes.push(node);
            }
            assert(nodes@ =~= before + merged_part(obstacles@, second_pass@, i as int));
            i += 1;
        }
        nodes
    }
}

/// Whether `node` is a cell of the grid that is not blocked.
pub open spec fn is_clear(
    grid: ComputeGrid,
    obstacles: Set<ComputeGridNode>,
    node: ComputeGridNode,
) -> bool {
    grid.contains(node) && !obstacles.contains(node)
}

/// A clear node that slides towards a cell of the grid comes to rest on a
/// clear cell.
pub proof fn slide_stays_clear(
    grid: ComputeGrid,
    obstacles: Set<ComputeGridNode>,
    node: ComputeGridNode,
    target: ComputeGridNode,
    other: ComputeGridNode,
)
    requires
        is_clear(grid, obstacles, node),
        grid.contains(target),
    ensures
        is_clear(grid, obstacles, slide(obstacles, node, target, other)),
    decreases king_distance(node, target),
{
    let moved = toward(node, target);
    if compass_direction(node, target).is_none() || moved == target || !line_of_sight(
        obstacles,
        moved,
        target,
    ) || !line_of_sight(obstacles, moved, other) {
    } else {
        toward_comes_closer(node, target);
        sight_needs_free_ends(obstacles, moved, target);
        slide_stays_clear(grid, obstacles, moved, target, other);
    }
}

proof fn inner_scan_stays_clear(
    grid: ComputeGrid,
    obstacles: Set<ComputeGridNode>,
    to_last: ComputeGridNode,
    to_next: ComputeGridNode,
    next: ComputeGridNode,
    best: (ComputeGridNode, ComputeGridNode),
)
    requires
        grid.contains(to_last),
        grid.contains(to_next),
        grid.contains(next),
        is_clear(grid, obstacles, best.0),
        is_clear(grid, obstacles, best.1),
    ensures
        is_clear(grid, obstacles, inner_scan(obstacles, to_last, to_next, next, best).0),
        is_clear(grid, obstacles, inner_scan(obstacles, to_last, to_next, next, best).1),
    decreases king_distance(to_next, next),
{
    if to_next == next || compass_direction(to_next, next).is_none() {
    } else if line_of_sight(obstacles, to_last, to_next) && manhattan(to_last, to_next)
        > manhattan(best.0, best.1) {
        toward_comes_closer(to_next, next);
        sight_needs_free_ends(obstacles, to_last, to_next);
        inner_scan_stays_clear(
            grid,
            obstacles,
            to_last,
            toward(to_next, next),
            next,
            (to_last, to_next),
        );
    }
}

proof fn outer_scan_stays_clear(
    grid: ComputeGrid,
    obstacles: Set<ComputeGridNode>,
    node: ComputeGridNode,
    to_last: ComputeGridNode,
    last: ComputeGridNode,
    next: ComputeGridNode,
    best: (ComputeGridNode, ComputeGridNode),
)
    requires
        grid.contains(node),
        grid.contains(to_last),
        grid.contains(last),
        grid.contains(next),
        is_clear(grid, obstacles, best.0),
        is_clear(grid, obstacles, best.1),
    ensures
        is_clear(grid, obstacles, outer_scan(obstacles, node, to_last, last, next, best).0),
        is_clear(grid, obstacles, outer_scan(obstacles, node, to_last, last, next, best).1),
    decreases king_distance(to_last, last),
{
    if to_last == last || compass_direction(to_last, last).is_none() {
    } else {
        toward_comes_closer(to_last, last);
        if compass_direction(node, next).is_some() {
            toward_comes_closer(node, next);
        }
        inner_scan_stays_clear(grid, obstacles, to_last, toward(node, next), next, best);
        outer_scan_stays_clear(
            grid,
            obstacles,
            node,
            toward(to_last, last),
            last,
            next,
            inner_scan(obstacles, to_last, toward(node, next), next, best),
        );
    }
}

/// What takes the place of a clear node between two cells of the grid is
/// clear.
pub proof fn overriding_stays_clear(
    grid: ComputeGrid,
    obstacles: Set<ComputeGridNode>,
    node: ComputeGridNode,
    last: ComputeGridNode,
    next: ComputeGridNode,
)
    requires
        is_clear(grid, obstacles, node),
        grid.contains(last),
        grid.contains(next),
    ensures
        forall|j: int|
            0 <= j < overriding(obstacles, node, last, next).len() ==> is_clear(
                grid,
                obstacles,
                #[trigger] overriding(obstacles, node, last, next)[j],
            ),
{
    if is_bend(node, last, next) {
        toward_comes_closer(node, last);
        outer_scan_stays_clear(
            grid,
            obstacles,
            node,
            toward(node, last),
            last,
            next,
            (node, node),
        );
    }
}

proof fn merged_stays_clear(
    grid: ComputeGrid,
    obstacles: Set<ComputeGridNode>,
    nodes: Seq<ComputeGridNode>,
    n: int,
)
    requires
        0 <= n <= nodes.len(),
        forall|i: int| 0 <= i < nodes.len() ==> is_clear(grid, obstacles, #[trigger] nodes[i]),
    ensures
        forall|j: int|
            0 <= j < merged_upto(obstacles, nodes, n).len() ==> is_clear(
                grid,
                obstacles,
                #[trigger] merged_upto(obstacles, nodes, n)[j],
            ),
    decreases n,
{
    if n > 0 {
        merged_stays_clear(grid, obstacles, nodes, n - 1);
        let i = n - 1;
        let before = merged_upto(obstacles, nodes, n - 1);
        let part = merged_part(obstacles, nodes, i);
        assert(is_clear(grid, obstacles, nodes[i]));
        if 0 < i < nodes.len() - 1 {
            assert(is_clear(grid, obstacles, nodes[i - 1]));
            assert(is_clear(grid, obstacles, nodes[i + 1]));
            overriding_stays_clear(grid, obstacles, nodes[i], nodes[i - 1], nodes[i + 1]);
        }
        assert forall|j: int| 0 <= j < merged_upto(obstacles, nodes, n).len() implies is_clear(
            grid,
            obstacles,
            #[trigger] merged_upto(obstacles, nodes, n)[j],
        ) by {
            if j < before.len() {
                assert(merged_upto(obstacles, nodes, n)[j] == before[j]);
            } else {
                assert(merged_upto(obstacles, nodes, n)[j] == part[j - before.len()]);
            }
        }
    }
}

/// Improving the positions of a path brings in no node outside the grid
/// and none on an obstacle: where every node of a path is a free cell of
/// the grid, so is every node of the improved path.
pub proof fn optimized_stays_clear(
    grid: ComputeGrid,
    obstacles: Set<ComputeGridNode>,
    nodes: Seq<ComputeGridNode>,
)
    requires
        forall|i: int| 0 <= i < nodes.len() ==> is_clear(grid, obstacles, #[trigger] nodes[i]),
    ensures
        forall|j: int|
            0 <= j < optimized(obstacles, nodes).len() ==> is_clear(
                grid,
                obstacles,
                #[trigger] optimized(obstacles, nodes)[j],
            ),
{
    let second = positioned(obstacles, nodes);
    assert forall|i: int| 0 <= i < second.len() implies is_clear(
        grid,
        obstacles,
        #[trigger] second[i],
    ) by {
        assert(is_clear(grid, obstacles, nodes[i]));
        if 0 < i < nodes.len() - 1 {
            assert(is_clear(grid, obstacles, nodes[i - 1]));
            assert(is_clear(grid, obstacles, nodes[i + 1]));
            slide_stays_clear(grid, obstacles, nodes[i], nodes[i - 1], nodes[i + 1]);
            slide_stays_clear(
                grid,
                obstacles,
                slide(obstacles, nodes[i], nodes[i - 1], nodes[i + 1]),
                nodes[i + 1],
                nodes[i - 1],
            );
        }
    }
    merged_stays_clear(grid, obstacles, second, second.len() as int);
}

/// Improving the positions of a path keeps its two ends.
pub proof fn optimized_keeps_ends(obstacles: Set<ComputeGridNode>, nodes: Seq<ComputeGridNode>)
    requires
        nodes.len() > 0,
    ensures
        optimized(obstacles, nodes).len() >= nodes.len(),
        optimized(obstacles, nodes)[0] == nodes[0],
        optimized(obstacles, nodes).last() == nodes.last(),
{
    let second = positioned(obstacles, nodes);
    merged_keeps_start(obstacles, second, second.len() as int);
    let n = second.len() as int;
    let before = merged_upto(obstacles, second, n - 1);
    assert(merged_part(obstacles, second, n - 1) =~= seq![second[n - 1]]);
    assert(merged_upto(obstacles, second, n) =~= before + seq![second[n - 1]]);
    if n > 1 {
        merged_keeps_start(obstacles, second, n - 1);
    }
}

proof fn merged_keeps_start(obstacles: Set<ComputeGridNode>, nodes: Seq<ComputeGridNode>, n: int)
    requires
        0 < n <= nodes.len(),
    ensures
        merged_upto(obstacles, nodes, n).len() >= n,
        merged_upto(obstacles, nodes, n)[0] == nodes[0],
    decreases n,
{
    let before = merged_upto(obstacles, nodes, n - 1);
    let part = merged_part(obstacles, nodes, n - 1);
    assert(part.len() >= 1);
    if n == 1 {
        assert(before =~= Seq::empty());
        assert(part =~= seq![nodes[0]]);
        assert(merged_upto(obstacles, nodes, n) =~= part);
    } else {
        merged_keeps_start(obstacles, nodes, n - 1);
        assert(merged_upto(obstacles, nodes, n)[0] == before[0]);
    }
}

} // verus!
