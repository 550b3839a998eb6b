//! The measure by which a search is seen to end: every cell of the grid
//! weighs the cost at which it has been reached, and each step of the
//! search that reaches a cell at a lower cost makes the sum drop.

use crate::traits::computable_grid::{ComputeGrid, ComputeGridNode};
use vstd::prelude::*;

verus! {

/// The sum of the numbers of `s`.
pub open spec fn total(s: Seq<int>) -> int
    decreases s.len(),
{
    if s.len() == 0 {
        0
    } else {
        s.last() + total(s.drop_last())
    }
}

/// Changing one number changes the sum by as much.
pub proof fn total_update(s: Seq<int>, i: int, v: int)
    requires
        0 <= i < s.len(),
    ensures
        total(s.update(i, v)) == total(s) - s[i] + v,
    decreases s.len(),
{
    let t = s.update(i, v);
    if i == s.len() - 1 {
        assert(t.drop_last() =~= s.drop_last());
    } else {
        assert(t.drop_last() =~= s.drop_last().update(i, v));
        total_update(s.drop_last(), i, v);
    }
}

/// A sum of numbers that are not negative is not negative.
pub proof fn total_not_negative(s: Seq<int>)
    requires
        forall|j: int| 0 <= j < s.len() ==> s[j] >= 0,
    ensures
        total(s) >= 0,
    decreases s.len(),
{
    if s.len() > 0 {
        total_not_negative(s.drop_last());
    }
}

/// The place of a cell of the grid in a row-by-row count of its cells.
pub open spec fn slot(grid: ComputeGrid, node: ComputeGridNode) -> int {
    (node.x - grid.min.x) * (grid.max.y - grid.min.y + 1) + (node.y - grid.min.y)
}

/// Each cell of the grid has a place of its own in the count.
pub proof fn slot_is_one_to_one(grid: ComputeGrid, a: ComputeGridNode, b: ComputeGridNode)
    requires
        grid.contains(a),
        grid.contains(b),
    ensures
        0 <= slot(grid, a) < grid.cell_count(),
        slot(grid, a) == slot(grid, b) ==> a == b,
{
    let h = grid.max.y - grid.min.y + 1;
    let w = grid.max.x - grid.min.x + 1;
    let xa = a.x - grid.min.x;
    let xb = b.x - grid.min.x;
    let ya = a.y - grid.min.y;
    let yb = b.y - grid.min.y;
    assert(0 <= xa * h + ya < w * h) by (nonlinear_arith)
        requires
            0 <= xa < w,
            0 <= ya < h,
    ;
    assert(xa * h + ya == xb * h + yb ==> xa == xb) by (nonlinear_arith)
        requires
            0 <= ya < h,
            0 <= yb < h,
    ;
}

/// How the measure of progress follows the scores: each cell of the grid
/// weighs its cost, or `limit`, a number beyond every cost, while it is not
/// reached.
#[verifier::opaque]
pub open spec fn potential_ok(
    grid: ComputeGrid,
    scores: Map<ComputeGridNode, u128>,
    potential: Seq<int>,
    limit: int,
) -> bool {
    &&& potential.len() == grid.cell_count() + 1
    &&& forall|j: int| 0 <= j < potential.len() ==> 0 <= #[trigger] potential[j] <= limit
    &&& forall|n: ComputeGridNode| #[trigger]
        grid.contains(n) ==> potential[slot(grid, n)] == (if scores.contains_key(n) {
            scores[n] as int
        } else {
            limit
        })
}

/// The measure of progress with which a search from `start` begins.
pub open spec fn first_potential(grid: ComputeGrid, start: ComputeGridNode, limit: int) -> Seq<int> {
    let base = Seq::new((grid.cell_count() + 1) as nat, |j: int| limit);
    if grid.contains(start) {
        base.update(slot(grid, start), 0)
    } else {
        base
    }
}

/// The first measure of progress follows the first scores.
pub proof fn first_potential_ok(grid: ComputeGrid, start: ComputeGridNode, limit: int)
    requires
        limit >= 0,
    ensures
        potential_ok(
            grid,
            Map::<ComputeGridNode, u128>::empty().insert(start, 0),
            first_potential(grid, start, limit),
            limit,
        ),
{
    reveal(potential_ok);
    let scores = Map::<ComputeGridNode, u128>::empty().insert(start, 0);
    let potential = first_potential(grid, start, limit);
    if grid.contains(start) {
        slot_is_one_to_one(grid, start, start);
    }
    assert forall|n: ComputeGridNode| #[trigger] grid.contains(n) implies potential[slot(grid, n)]
        == (if scores.contains_key(n) {
        scores[n] as int
    } else {
        limit
    }) by {
        slot_is_one_to_one(grid, n, n);
        if grid.contains(start) {
            slot_is_one_to_one(grid, n, start);
        }
    }
}

/// The measure of progress drops with every cell of the grid that is
/// reached at a lower cost than before.
pub proof fn potential_drops(
    grid: ComputeGrid,
    scores: Map<ComputeGridNode, u128>,
    potential: Seq<int>,
    limit: int,
    node: ComputeGridNode,
    g: u128,
)
    requires
        potential_ok(grid, scores, potential, limit),
        grid.contains(node),
        g < limit,
        !scores.contains_key(node) || g < scores[node],
    ensures
        0 <= slot(grid, node) < potential.len(),
        potential_ok(grid, scores.insert(node, g), potential.update(slot(grid, node), g as int), limit),
        0 <= total(potential.update(slot(grid, node), g as int)) < total(potential),
{
    reveal(potential_ok);
    let scores2 = scores.insert(node, g);
    let potential2 = potential.update(slot(grid, node), g as int);
    slot_is_one_to_one(grid, node, node);
    assert forall|n: ComputeGridNode| #[trigger] grid.contains(n) implies potential2[slot(grid, n)]
        == (if scores2.contains_key(n) {
        scores2[n] as int
    } else {
        limit
    }) by {
        slot_is_one_to_one(grid, n, node);
    }
    total_update(potential, slot(grid, node), g as int);
    total_not_negative(potential2);
}

/// The measure of progress is never negative.
pub proof fn potential_not_negative(
    grid: ComputeGrid,
    scores: Map<ComputeGridNode, u128>,
    potential: Seq<int>,
    limit: int,
)
    requires
        potential_ok(grid, scores, potential, limit),
    ensures
        total(potential) >= 0,
{
    reveal(potential_ok);
    total_not_negative(potential);
}

} // verus!
