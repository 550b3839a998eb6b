//! The widened line: Bresenham's line together with the cells beside each of
//! its diagonal steps, so that no sight passes between two obstacles that
//! touch at a corner.

use super::straight_line::{
    line_cell, line_cells, line_reverses, line_runs_from_end_to_end, steps, Line,
};
use crate::traits::computable_grid::{ComputeGrid, ComputeGridNode};
use crate::traits::compute_path::{ComputePath, NewComputer, ObstacleSet};
use vstd::prelude::*;

verus! {

/// The cell beside step `k` of the line from `a` to `b` that shares its row
/// with the cell before the step.
pub open spec fn beside_along_x(a: ComputeGridNode, b: ComputeGridNode, k: int) -> ComputeGridNode {
    ComputeGridNode { x: line_cell(a, b, k + 1).x, y: line_cell(a, b, k).y }
}

/// The cell beside step `k` of the line from `a` to `b` that shares its
/// column with the cell before the step.
pub open spec fn beside_along_y(a: ComputeGridNode, b: ComputeGridNode, k: int) -> ComputeGridNode {
    ComputeGridNode { x: line_cell(a, b, k).x, y: line_cell(a, b, k + 1).y }
}

/// Whether step `k` of the line from `a` to `b` moves along both axes.
pub open spec fn is_diagonal_step(a: ComputeGridNode, b: ComputeGridNode, k: int) -> bool {
    &&& 0 <= k < steps(a, b)
    &&& line_cell(a, b, k).x != line_cell(a, b, k + 1).x
    &&& line_cell(a, b, k).y != line_cell(a, b, k + 1).y
}

/// Cell `k` of the line, followed by the two cells beside the step that
/// leaves it where that step is diagonal.
pub open spec fn wide_part(a: ComputeGridNode, b: ComputeGridNode, k: int) -> Seq<ComputeGridNode> {
    if is_diagonal_step(a, b, k) {
        seq![line_cell(a, b, k), beside_along_x(a, b, k), beside_along_y(a, b, k)]
    } else {
        seq![line_cell(a, b, k)]
    }
}

/// The widened parts of the first `n` cells of the line.
pub open spec fn wide_cells_upto(a: ComputeGridNode, b: ComputeGridNode, n: int) -> Seq<
    ComputeGridNode,
>
    decreases n,
{
    if n <= 0 {
        Seq::empty()
    } else {
        wide_cells_upto(a, b, n - 1) + wide_part(a, b, n - 1)
    }
}

/// The cells of the widened line from `a` to `b`.
pub open spec fn wide_cells(a: ComputeGridNode, b: ComputeGridNode) -> Seq<ComputeGridNode> {
    wide_cells_upto(a, b, steps(a, b) + 1)
}

/// Whether `a` sees `b`: no cell of the widened line between them is blocked.
pub open spec fn line_of_sight(
    obstacles: Set<ComputeGridNode>,
    a: ComputeGridNode,
    b: ComputeGridNode,
) -> bool {
    forall|i: int| 0 <= i < wide_cells(a, b).len() ==> !obstacles.contains(#[trigger] wide_cells(a, b)[i])
}

/// Whether `cell` belongs to the widened part of one of the first `n` cells
/// of the line.
pub open spec fn in_wide_part(a: ComputeGridNode, b: ComputeGridNode, n: int, cell: ComputeGridNode) -> bool {
    exists|k: int, j: int|
        0 <= k < n && 0 <= j < wide_part(a, b, k).len() && #[trigger] wide_part(a, b, k)[j] == cell
}

/// The widened line holds the widened part of each of its cells, and
/// nothing else.
pub proof fn wide_cells_are_parts(a: ComputeGridNode, b: ComputeGridNode, n: int)
    requires
        0 <= n,
    ensures
        forall|k: int, j: int|
            0 <= k < n && 0 <= j < wide_part(a, b, k).len() ==> wide_cells_upto(a, b, n).contains(
                #[trigger] wide_part(a, b, k)[j],
            ),
        forall|i: int|
            0 <= i < wide_cells_upto(a, b, n).len() ==> in_wide_part(
                a,
                b,
                n,
                #[trigger] wide_cells_upto(a, b, n)[i],
            ),
    decreases n,
{
    if n > 0 {
        wide_cells_are_parts(a, b, n - 1);
        let before = wide_cells_upto(a, b, n - 1);
        let part = wide_part(a, b, n - 1);
        let all = wide_cells_upto(a, b, n);
        assert(all =~= before + part);
        assert forall|k: int, j: int| 0 <= k < n && 0 <= j < wide_part(a, b, k).len() implies all.contains(
            #[trigger] wide_part(a, b, k)[j],
        ) by {
            if k < n - 1 {
                assert(before.contains(wide_part(a, b, k)[j]));
                let i = choose|i: int| 0 <= i < before.len() && before[i] == wide_part(a, b, k)[j];
                assert(all[i] == before[i]);
            } else {
                assert(all[before.len() + j] == part[j]);
            }
        }
        assert forall|i: int| 0 <= i < all.len() implies in_wide_part(a, b, n, #[trigger] all[i]) by {
            if i < before.len() {
                assert(all[i] == before[i]);
                assert(in_wide_part(a, b, n - 1, before[i]));
                let (k, j) = choose|k: int, j: int|
                    0 <= k < n - 1 && 0 <= j < wide_part(a, b, k).len() && #[trigger] wide_part(
                        a,
                        b,
                        k,
                    )[j] == before[i];
                assert(wide_part(a, b, k)[j] == all[i]);
            } else {
                assert(wide_part(a, b, n - 1)[i - before.len()] == all[i]);
            }
        }
    }
}

/// Sight from `a` to `b` is free cells all along the line between them and
/// on both sides of each of its steps.
pub proof fn sight_along_line(obstacles: Set<ComputeGridNode>, a: ComputeGridNode, b: ComputeGridNode)
    ensures
        line_of_sight(obstacles, a, b) <==> {
            &&& forall|k: int|
                0 <= k <= steps(a, b) ==> !obstacles.contains(#[trigger] line_cell(a, b, k))
            &&& forall|k: int|
                0 <= k < steps(a, b) ==> !obstacles.contains(#[trigger] beside_along_x(a, b, k))
                    && !obstacles.contains(beside_along_y(a, b, k))
        },
{
    let n = steps(a, b);
    let wide = wide_cells(a, b);
    wide_cells_are_parts(a, b, n + 1);
    if line_of_sight(obstacles, a, b) {
        assert forall|k: int| 0 <= k <= n implies !obstacles.contains(
            #[trigger] line_cell(a, b, k),
        ) by {
            assert(wide.contains(wide_part(a, b, k)[0]));
        }
        assert forall|k: int| 0 <= k < n implies !obstacles.contains(
            #[trigger] beside_along_x(a, b, k),
        ) && !obstacles.contains(beside_along_y(a, b, k)) by {
            if is_diagonal_step(a, b, k) {
                assert(wide.contains(wide_part(a, b, k)[1]));
                assert(wide.contains(wide_part(a, b, k)[2]));
            } else {
                assert(wide.contains(wide_part(a, b, k)[0]));
                assert(wide.contains(wide_part(a, b, k + 1)[0]));
            }
        }
    }
    if (forall|k: int| 0 <= k <= n ==> !obstacles.contains(#[trigger] line_cell(a, b, k)))
        && (forall|k: int|
        0 <= k < n ==> !obstacles.contains(#[trigger] beside_along_x(a, b, k))
            && !obstacles.contains(beside_along_y(a, b, k))) {
        assert forall|i: int| 0 <= i < wide.len() implies !obstacles.contains(#[trigger] wide[i]) by {
            assert(in_wide_part(a, b, n + 1, wide[i]));
            let (k, j) = choose|k: int, j: int|
                0 <= k < n + 1 && 0 <= j < wide_part(a, b, k).len() && #[trigger] wide_part(a, b, k)[j]
                    == wide[i];
            assert(!obstacles.contains(line_cell(a, b, k)));
            if is_diagonal_step(a, b, k) {
                assert(!obstacles.contains(beside_along_x(a, b, k)));
            }
        }
    }
}

/// Where `a` sees `b`, `b` sees `a`.
pub proof fn sight_is_mutual(obstacles: Set<ComputeGridNode>, a: ComputeGridNode, b: ComputeGridNode)
    ensures
        line_of_sight(obstacles, a, b) == line_of_sight(obstacles, b, a),
{
    sight_goes_back(obstacles, a, b);
    sight_goes_back(obstacles, b, a);
}

proof fn sight_goes_back(obstacles: Set<ComputeGridNode>, a: ComputeGridNode, b: ComputeGridNode)
    ensures
        line_of_sight(obstacles, a, b) ==> line_of_sight(obstacles, b, a),
{
    let n = steps(a, b);
    sight_along_line(obstacles, a, b);
    sight_along_line(obstacles, b, a);
    line_reverses(a, b);
    if line_of_sight(obstacles, a, b) {
        assert forall|k: int| 0 <= k <= n implies !obstacles.contains(
            #[trigger] line_cell(b, a, k),
        ) by {
            assert(!obstacles.contains(line_cell(a, b, n - k)));
        }
        assert forall|k: int| 0 <= k < n implies !obstacles.contains(
            #[trigger] beside_along_x(b, a, k),
        ) && !obstacles.contains(beside_along_y(b, a, k)) by {
            assert(line_cell(b, a, k) == line_cell(a, b, n - k));
            assert(line_cell(b, a, k + 1) == line_cell(a, b, n - k - 1));
            assert(beside_along_x(b, a, k) == beside_along_y(a, b, n - k - 1));
            assert(beside_along_y(b, a, k) == beside_along_x(a, b, n - k - 1));
            assert(!obstacles.contains(beside_along_x(a, b, n - k - 1)));
        }
    }
}

/// Who sees is free, and so is who is seen.
pub proof fn sight_needs_free_ends(
    obstacles: Set<ComputeGridNode>,
    a: ComputeGridNode,
    b: ComputeGridNode,
)
    requires
        line_of_sight(obstacles, a, b),
    ensures
        !obstacles.contains(a),
        !obstacles.contains(b),
{
    sight_along_line(obstacles, a, b);
    line_runs_from_end_to_end(a, b, 0);
    assert(!obstacles.contains(line_cell(a, b, 0)));
    assert(!obstacles.contains(line_cell(a, b, steps(a, b))));
}

/// No sight passes a diagonal step of the line with an obstacle on each
/// side of it.
pub proof fn no_sight_through_diagonal_gap(
    obstacles: Set<ComputeGridNode>,
    a: ComputeGridNode,
    b: ComputeGridNode,
    k: int,
)
    requires
        is_diagonal_step(a, b, k),
        obstacles.contains(beside_along_x(a, b, k)),
        obstacles.contains(beside_along_y(a, b, k)),
    ensures
        !line_of_sight(obstacles, a, b),
{
    sight_along_line(obstacles, a, b);
}

/// Two cells a step of a king of chess apart see each other where both are
/// free and, where the step is diagonal, so are the two cells beside it.
pub proof fn sight_between_neighbors(
    obstacles: Set<ComputeGridNode>,
    a: ComputeGridNode,
    b: ComputeGridNode,
)
    requires
        -1 <= a.x - b.x <= 1,
        -1 <= a.y - b.y <= 1,
        a != b,
    ensures
        line_of_sight(obstacles, a, b) <==> {
            &&& !obstacles.contains(a)
            &&& !obstacles.contains(b)
            &&& !obstacles.contains(ComputeGridNode { x: b.x, y: a.y })
            &&& !obstacles.contains(ComputeGridNode { x: a.x, y: b.y })
        },
{
    sight_along_line(obstacles, a, b);
    line_runs_from_end_to_end(a, b, 0);
    assert(steps(a, b) == 1);
    assert(line_cell(a, b, 0) == a);
    assert(line_cell(a, b, 1) == b);
    assert(beside_along_x(a, b, 0) == ComputeGridNode { x: b.x, y: a.y });
    assert(beside_along_y(a, b, 0) == ComputeGridNode { x: a.x, y: b.y });
    if !obstacles.contains(a) && !obstacles.contains(b) && !obstacles.contains(
        ComputeGridNode { x: b.x, y: a.y },
    ) && !obstacles.contains(ComputeGridNode { x: a.x, y: b.y }) {
        assert forall|k: int| 0 <= k <= 1 implies !obstacles.contains(
            #[trigger] line_cell(a, b, k),
        ) by {}
        assert forall|k: int| 0 <= k < 1 implies !obstacles.contains(
            #[trigger] beside_along_x(a, b, k),
        ) && !obstacles.contains(beside_along_y(a, b, k)) by {}
    }
}

/// Two cells that touch at a corner do not see each other between two
/// obstacles that touch at the same corner.
pub proof fn no_sight_between_touching_obstacles(
    obstacles: Set<ComputeGridNode>,
    a: ComputeGridNode,
    b: ComputeGridNode,
)
    requires
        a.x - b.x == 1 || b.x - a.x == 1,
        a.y - b.y == 1 || b.y - a.y == 1,
        obstacles.contains(ComputeGridNode { x: a.x, y: b.y }),
        obstacles.contains(ComputeGridNode { x: b.x, y: a.y }),
    ensures
        !line_of_sight(obstacles, a, b),
{
    line_runs_from_end_to_end(a, b, 0);
    assert(steps(a, b) == 1);
    assert(is_diagonal_step(a, b, 0));
    no_sight_through_diagonal_gap(obstacles, a, b, 0);
}

/// The cells of the widened line, handed out one by one.
pub struct LineWide {
    cells: Vec<ComputeGridNode>,
    taken: usize,
}

impl LineWide {
    #[verifier::type_invariant]
    spec fn is_within(&self) -> bool {
        self.taken <= self.cells@.len()
    }

    /// The cells still to come.
    pub closed spec fn remaining(&self) -> Seq<ComputeGridNode> {
        self.cells@.skip(self.taken as int)
    }

    /// The cells of the widened line from `start` to `end`.
    pub fn rasterize(start: ComputeGridNode, end: ComputeGridNode) -> (cells: Vec<ComputeGridNode>)
        ensures
            cells@ == wide_cells(start, end),
    {
        let line = Line::rasterize(start, end);
        let mut cells: Vec<ComputeGridNode> = Vec::new();
        let mut k: usize = 0;
        while k < line.len()
            invariant
                k <= line@.len(),
                line@ == line_cells(start, end),
                line@.len() == steps(start, end) + 1,
                cells@ == wide_cells_upto(start, end, k as int),
            decreases line.len() - k,
        {
            let cell = line[k];
            let ghost before = cells@;
            cells.push(cell);
            if k + 1 < line.len() {
                let next = line[k + 1];
                if cell.x != next.x && cell.y != next.y {
                    cells.push(ComputeGridNode { x: next.x, y: cell.y });
                    cells.push(ComputeGridNode { x: cell.x, y: next.y });
                }
            }
            proof {
                assert(line@[k as int] == line_cell(start, end, k as int));
                if k + 1 < line@.len() {
                    assert(line@[k + 1] == line_cell(start, end, k + 1));
                }
                assert(cells@ =~= before + wide_part(start, end, k as int));
            }
            k += 1;
        }
        cells
    }

    /// The widened line from `start` to `end`, with all its cells to come.
    pub fn new(start: ComputeGridNode, end: ComputeGridNode) -> (line: Self)
        ensures
            line.remaining() == wide_cells(start, end),
    {
        let cells = LineWide::rasterize(start, end);
        let line = LineWide { cells, taken: 0 };
        assert(line.cells@.skip(0) =~= line.cells@);
        line
    }

    /// The next cell of the widened line.
    pub fn next(&mut self) -> (cell: Option<ComputeGridNode>)
        ensures
            match cell {
                Some(c) => {
                    &&& old(self).remaining().len() > 0
                    &&& c == old(self).remaining()[0]
                    &&& final(self).remaining() == old(self).remaining().drop_first()
                },
                None => old(self).remaining().len() == 0 && final(self).remaining().len() == 0,
            },
    {
        proof {
            use_type_invariant(&*self);
        }
        if self.taken >= self.cells.len() {
            return None;
        }
        let cell = self.cells[self.taken];
        self.taken += 1;
        assert(self.remaining() =~= old(self).remaining().drop_first());
        Some(cell)
    }
}

/// Whether `a` sees `b` past `obstacles`.
pub fn has_line_of_sight(obstacles: &ObstacleSet, a: ComputeGridNode, b: ComputeGridNode) -> (sight:
    bool)
    ensures
        sight == line_of_sight(obstacles@, a, b),
{
    let cells = LineWide::rasterize(a, b);
    let mut i: usize = 0;
    while i < cells.len()
        invariant
            i <= cells@.len(),
            cells@ == wide_cells(a, b),
            forall|j: int| 0 <= j < i ==> !obstacles@.contains(#[trigger] cells@[j]),
        decreases cells.len() - i,
    {
        if obstacles.contains(&cells[i]) {
            return false;
        }
        i += 1;
    }
    true
}

/// The planner that draws the widened line and looks at no obstacle.
pub struct StraightLineWide;

impl NewComputer for StraightLineWide {
    fn new(_grid: ComputeGrid, _obstacles: ObstacleSet) -> Self {
        StraightLineWide
    }
}

impl ComputePath for StraightLineWide {
    fn draw_connections(&self) -> (draw: bool)
        ensures
            draw,
    {
        true
    }

    /// The cells of the widened line from `start` to `end`.
    fn path(&self, start: ComputeGridNode, end: ComputeGridNode) -> (path: Vec<ComputeGridNode>)
        ensures
            path@ == wide_cells(start, end),
    {
        let cells = LineWide::rasterize(start, end);
        proof {
            if start == end {
                line_runs_from_end_to_end(start, end, 0);
                assert(wide_cells_upto(start, end, 0) =~= Seq::empty());
                assert(wide_cells(start, end) =~= wide_part(start, end, 0));
                assert(wide_cells(start, end) =~= seq![start]);
            }
        }
        cells
    }
}

} // verus!
