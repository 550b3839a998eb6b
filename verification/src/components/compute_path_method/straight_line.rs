//! Bresenham's line between two cells.

use crate::traits::computable_grid::{gap, ComputeGrid, ComputeGridNode};
use crate::traits::compute_path::{ComputePath, NewComputer, ObstacleSet};
use vstd::prelude::*;

verus! {

/// Whether the line from `a` to `b` takes one step along `x` per cell, which
/// it does where it is wider than it is high.
pub open spec fn runs_along_x(a: ComputeGridNode, b: ComputeGridNode) -> bool {
    gap(a.x as int, b.x as int) > gap(a.y as int, b.y as int)
}

/// The number of steps of the line along its main axis.
pub open spec fn steps(a: ComputeGridNode, b: ComputeGridNode) -> int {
    if runs_along_x(a, b) {
        gap(a.x as int, b.x as int)
    } else {
        gap(a.y as int, b.y as int)
    }
}

/// The distance that the line covers along its other axis.
pub open spec fn drift(a: ComputeGridNode, b: ComputeGridNode) -> int {
    if runs_along_x(a, b) {
        gap(a.y as int, b.y as int)
    } else {
        gap(a.x as int, b.x as int)
    }
}

/// Whether the cells of the line from `a` to `b` are stepped through
/// beginning at `b`: stepping always climbs along the main axis.
pub open spec fn is_flipped(a: ComputeGridNode, b: ComputeGridNode) -> bool {
    if runs_along_x(a, b) {
        a.x >= b.x
    } else {
        a.y >= b.y
    }
}

/// How far a line has moved along its other axis after `k` steps along its
/// main axis: `k * d_low / d_high`, rounded to the nearest integer, a half
/// rounded down.
pub open spec fn minor_offset(k: int, d_low: int, d_high: int) -> int {
    if d_high > 0 {
        (2 * k * d_low + d_high - 1) / (2 * d_high)
    } else {
        0
    }
}

/// The direction of the line from `from` to `to` along its other axis.
pub open spec fn minor_sign(from: ComputeGridNode, to: ComputeGridNode) -> int {
    if runs_along_x(from, to) {
        if to.y > from.y {
            1
        } else {
            -1
        }
    } else {
        if to.x > from.x {
            1
        } else {
            -1
        }
    }
}

/// The cell that stepping from `from` towards `to` reaches after `k` steps.
pub open spec fn stepped_cell(from: ComputeGridNode, to: ComputeGridNode, k: int) -> ComputeGridNode {
    let moved = minor_sign(from, to) * minor_offset(k, drift(from, to), steps(from, to));
    if runs_along_x(from, to) {
        ComputeGridNode { x: (from.x + k) as i32, y: (from.y + moved) as i32 }
    } else {
        ComputeGridNode { x: (from.x + moved) as i32, y: (from.y + k) as i32 }
    }
}

/// The `k`-th cell of the line from `a` to `b`, counted from `a`.
pub open spec fn line_cell(a: ComputeGridNode, b: ComputeGridNode, k: int) -> ComputeGridNode {
    if is_flipped(a, b) {
        stepped_cell(b, a, steps(a, b) - k)
    } else {
        stepped_cell(a, b, k)
    }
}

/// The cells of the line from `a` to `b`: one for each step along the main
/// axis, both ends included.
pub open spec fn line_cells(a: ComputeGridNode, b: ComputeGridNode) -> Seq<ComputeGridNode> {
    Seq::new((steps(a, b) + 1) as nat, |k: int| line_cell(a, b, k))
}

/// `minor_offset` is the one integer within a half of `k * d_low / d_high`,
/// the upper half excluded.
pub proof fn minor_offset_is_nearest(k: int, d_low: int, d_high: int, m: int)
    requires
        d_high > 0,
        2 * (k * d_low) - d_high <= 2 * (m * d_high) < 2 * (k * d_low) + d_high,
    ensures
        minor_offset(k, d_low, d_high) == m,
{
    let n = 2 * k * d_low + d_high - 1;
    let d = 2 * d_high;
    assert(2 * k * d_low == 2 * (k * d_low)) by (nonlinear_arith);
    assert(m * d == 2 * (m * d_high)) by (nonlinear_arith)
        requires
            d == 2 * d_high,
    ;
    assert(m * d <= n < m * d + d);
    vstd::arithmetic::div_mod::lemma_fundamental_div_mod_converse(n, d, m, n - m * d);
}

/// `minor_offset` lies within a half of `k * d_low / d_high`.
pub proof fn minor_offset_bracket(k: int, d_low: int, d_high: int)
    requires
        d_high > 0,
    ensures
        2 * (k * d_low) - d_high <= 2 * (minor_offset(k, d_low, d_high) * d_high) < 2 * (k
            * d_low) + d_high,
{
    let n = 2 * k * d_low + d_high - 1;
    let d = 2 * d_high;
    let m = minor_offset(k, d_low, d_high);
    vstd::arithmetic::div_mod::lemma_fundamental_div_mod(n, d);
    vstd::arithmetic::div_mod::lemma_mod_bound(n, d);
    assert(2 * k * d_low == 2 * (k * d_low)) by (nonlinear_arith);
    assert(d * m == 2 * (m * d_high)) by (nonlinear_arith)
        requires
            d == 2 * d_high,
    ;
}

/// A line begins with no offset and ends with all of its drift, and the
/// offset grows by one or not at all with each step.
pub proof fn minor_offset_grows(k: int, d_low: int, d_high: int)
    requires
        0 <= d_low <= d_high,
        0 <= k <= d_high,
    ensures
        minor_offset(0, d_low, d_high) == 0,
        minor_offset(d_high, d_low, d_high) == d_low,
        0 <= minor_offset(k, d_low, d_high) <= d_low,
        k < d_high ==> minor_offset(k, d_low, d_high) <= minor_offset(k + 1, d_low, d_high)
            <= minor_offset(k, d_low, d_high) + 1,
{
    if d_high > 0 {
        assert(0 * d_low == 0 && 0 * d_high == 0) by (nonlinear_arith);
        minor_offset_is_nearest(0, d_low, d_high, 0);
        assert(d_high * d_low == d_low * d_high) by (nonlinear_arith);
        minor_offset_is_nearest(d_high, d_low, d_high, d_low);
        minor_offset_bracket(k, d_low, d_high);
        let m = minor_offset(k, d_low, d_high);
        assert(m >= 0) by (nonlinear_arith)
            requires
                2 * (m * d_high) >= 2 * (k * d_low) - d_high,
                d_high > 0,
                k >= 0,
                d_low >= 0,
        ;
        assert(m <= d_low) by (nonlinear_arith)
            requires
                2 * (m * d_high) < 2 * (k * d_low) + d_high,
                0 <= k <= d_high,
                0 <= d_low,
                d_high > 0,
        ;
        if k < d_high {
            minor_offset_bracket(k + 1, d_low, d_high);
            let m2 = minor_offset(k + 1, d_low, d_high);
            assert((k + 1) * d_low == k * d_low + d_low) by (nonlinear_arith);
            assert(m <= m2 <= m + 1) by (nonlinear_arith)
                requires
                    2 * (m2 * d_high) > 2 * (m * d_high) - 2 * d_high,
                    2 * (m2 * d_high) < 2 * (m * d_high) + 4 * d_high,
                    d_high > 0,
            ;
        }
    }
}

/// The cells of a line lie one step apart along its main axis, begin with
/// its first end and end with its second.
pub proof fn line_runs_from_end_to_end(a: ComputeGridNode, b: ComputeGridNode, k: int)
    requires
        0 <= k <= steps(a, b),
    ensures
        line_cell(a, b, 0) == a,
        line_cell(a, b, steps(a, b)) == b,
        gap(line_cell(a, b, k).x as int, a.x as int) <= gap(a.x as int, b.x as int),
        gap(line_cell(a, b, k).x as int, b.x as int) <= gap(a.x as int, b.x as int),
        gap(line_cell(a, b, k).y as int, a.y as int) <= gap(a.y as int, b.y as int),
        gap(line_cell(a, b, k).y as int, b.y as int) <= gap(a.y as int, b.y as int),
        k < steps(a, b) ==> gap(line_cell(a, b, k).x as int, line_cell(a, b, k + 1).x as int)
            <= 1 && gap(line_cell(a, b, k).y as int, line_cell(a, b, k + 1).y as int) <= 1
            && line_cell(a, b, k) != line_cell(a, b, k + 1),
{
    let n = steps(a, b);
    let d = drift(a, b);
    let (from, to) = if is_flipped(a, b) {
        (b, a)
    } else {
        (a, b)
    };
    let s = minor_sign(from, to);
    assert(steps(from, to) == n && drift(from, to) == d);
    minor_offset_grows(k, d, n);
    minor_offset_grows(n - k, d, n);
    minor_offset_grows(0, d, n);
    minor_offset_grows(n, d, n);
    if k < n {
        minor_offset_grows(n - k - 1, d, n);
        minor_offset_grows(k + 1, d, n);
    }
    signed_offset(s, minor_offset(k, d, n));
    signed_offset(s, minor_offset(n - k, d, n));
    signed_offset(s, minor_offset(k + 1, d, n));
    signed_offset(s, minor_offset(n - k - 1, d, n));
    signed_offset(s, 0);
    signed_offset(s, d);
}

proof fn signed_offset(s: int, m: int)
    requires
        s == 1 || s == -1,
    ensures
        s == 1 ==> s * m == m,
        s == -1 ==> s * m == -m,
{
    assert(s == 1 ==> s * m == m) by (nonlinear_arith);
    assert(s == -1 ==> s * m == -m) by (nonlinear_arith);
}

/// The line from `b` to `a` holds the cells of the line from `a` to `b`,
/// the last one first.
pub proof fn line_reverses(a: ComputeGridNode, b: ComputeGridNode)
    ensures
        steps(b, a) == steps(a, b),
        forall|k: int|
            0 <= k <= steps(a, b) ==> #[trigger] line_cell(b, a, k) == line_cell(
                a,
                b,
                steps(a, b) - k,
            ),
        line_cells(b, a) == line_cells(a, b).reverse(),
{
    let n = steps(a, b);
    assert forall|k: int| 0 <= k <= n implies #[trigger] line_cell(b, a, k) == line_cell(
        a,
        b,
        n - k,
    ) by {
        if a == b {
        } else {
            assert(is_flipped(a, b) != is_flipped(b, a));
        }
    }
    assert(line_cells(b, a) =~= line_cells(a, b).reverse());
}

/// The accumulator of Bresenham's algorithm: it keeps the coordinate along
/// the other axis while the line steps along its main axis.
#[derive(Debug, Clone, Copy)]
pub struct LowStepper {
    pub v_low: i64,
    pub i_low: i64,
    pub d_low: i64,
    pub d_high: i64,
    pub d: i64,
}

impl LowStepper {
    /// The limits within which a step cannot leave the machine's integers.
    pub open spec fn in_range(&self) -> bool {
        &&& 0 <= self.d_low <= self.d_high <= u32::MAX
        &&& -1 <= self.i_low <= 1
        &&& -0x4_0000_0000 <= self.v_low <= 0x4_0000_0000
        &&& -0x4_0000_0000 <= self.d <= 0x4_0000_0000
    }

    /// Takes one step along the main axis: moves along the other axis where
    /// the accumulated error is positive.
    pub fn step(&mut self)
        requires
            old(self).in_range(),
        ensures
            final(self).i_low == old(self).i_low,
            final(self).d_low == old(self).d_low,
            final(self).d_high == old(self).d_high,
            old(self).d <= 0 ==> final(self).v_low == old(self).v_low,
            old(self).d <= 0 ==> final(self).d == old(self).d + 2 * old(self).d_low,
            old(self).d > 0 ==> final(self).v_low == old(self).v_low + old(self).i_low,
            old(self).d > 0 ==> final(self).d == old(self).d + 2 * (old(self).d_low - old(self).d_high),
    {
        if self.d <= 0 {
            self.d += 2 * self.d_low;
            return ;
        }
        self.v_low += self.i_low;
        self.d += 2 * (self.d_low - self.d_high);
    }
}

/// The cells of a line in the order of stepping: climbing along the main axis.
pub struct Line {
    from: ComputeGridNode,
    to: ComputeGridNode,
    along_x: bool,
    flipped: bool,
    v_high: i32,
    exhausted: bool,
    low_stepper: LowStepper,
}

impl Line {
    /// The number of cells handed out so far.
    pub closed spec fn taken(&self) -> int {
        if self.exhausted {
            steps(self.from, self.to) + 1
        } else if self.along_x {
            self.v_high - self.from.x
        } else {
            self.v_high - self.from.y
        }
    }

    /// The end at which stepping begins.
    pub closed spec fn from(&self) -> ComputeGridNode {
        self.from
    }

    /// The end at which stepping stops.
    pub closed spec fn to(&self) -> ComputeGridNode {
        self.to
    }

    /// Whether stepping begins at the end that the caller named second.
    pub closed spec fn flipped(&self) -> bool {
        self.flipped
    }

    #[verifier::type_invariant]
    spec fn steps_as_planned(&self) -> bool {
        let k = self.taken();
        let d_low = drift(self.from, self.to);
        let d_high = steps(self.from, self.to);
        let m = minor_offset(k, d_low, d_high);
        &&& self.along_x == runs_along_x(self.from, self.to)
        &&& (self.from == self.to || !is_flipped(self.from, self.to))
        &&& 0 <= k <= d_high + 1
        &&& self.low_stepper.d_low == d_low
        &&& self.low_stepper.d_high == d_high
        &&& self.low_stepper.i_low == minor_sign(self.from, self.to)
        &&& !self.exhausted ==> {
            &&& k <= d_high
            &&& self.low_stepper.v_low == (if self.along_x {
                self.from.y
            } else {
                self.from.x
            }) + self.low_stepper.i_low * m
            &&& self.low_stepper.d == 2 * d_low - d_high + 2 * (k * d_low) - 2 * (m * d_high)
            &&& d_high > 0 ==> 2 * (k * d_low) - d_high <= 2 * (m * d_high) < 2 * (k * d_low)
                + d_high
        }
    }

    /// The cells still to come, in the order of stepping.
    pub open spec fn remaining(&self) -> Seq<ComputeGridNode> {
        Seq::new(
            (steps(self.from(), self.to()) + 1 - self.taken()) as nat,
            |j: int| stepped_cell(self.from(), self.to(), self.taken() + j),
        )
    }

    /// The line between `start` and `end`. Stepping begins at the end that is
    /// lower along the main axis.
    pub fn new(start: ComputeGridNode, end: ComputeGridNode) -> (line: Self)
        ensures
            line.taken() == 0,
            line.flipped() == (start != end && is_flipped(start, end)),
            line.from() == (if line.flipped() {
                end
            } else {
                start
            }),
            line.to() == (if line.flipped() {
                start
            } else {
                end
            }),
    {
        let dx = crate::traits::computable_grid::abs_diff(end.x, start.x);
        let dy = crate::traits::computable_grid::abs_diff(end.y, start.y);
        let along_x = dx > dy;
        let flipped = if along_x {
            start.x >= end.x
        } else {
            start.y >= end.y && (start.x != end.x || start.y != end.y)
        };
        let (from, to) = if flipped {
            (end, start)
        } else {
            (start, end)
        };
        let (low, high) = if along_x {
            ((from.y, to.y), (from.x, to.x))
        } else {
            ((from.x, to.x), (from.y, to.y))
        };
        let (i_low, d_low): (i64, i64) = if low.1 > low.0 {
            (1, low.1 as i64 - low.0 as i64)
        } else {
            (-1, low.0 as i64 - low.1 as i64)
        };
        let d_high: i64 = high.1 as i64 - high.0 as i64;
        proof {
            assert(0 * d_low == 0) by (nonlinear_arith);
            assert(0 * d_high == 0) by (nonlinear_arith);
            if d_high > 0 {
                minor_offset_is_nearest(0, d_low as int, d_high as int, 0);
            }
            assert(minor_offset(0, d_low as int, d_high as int) == 0);
            assert(i_low * 0 == 0) by (nonlinear_arith);
        }
        Line {
            from,
            to,
            along_x,
            flipped,
            v_high: high.0,
            exhausted: false,
            low_stepper: LowStepper { d: (2 * d_low) - d_high, v_low: low.0 as i64, i_low, d_low, d_high },
        }
    }

    /// The next cell in the order of stepping.
    pub fn next(&mut self) -> (cell: Option<ComputeGridNode>)
        ensures
            final(self).from() == old(self).from(),
            final(self).to() == old(self).to(),
            final(self).flipped() == old(self).flipped(),
            match cell {
                Some(c) => {
                    &&& old(self).remaining().len() > 0
                    &&& c == old(self).remaining()[0]
                    &&& final(self).taken() == old(self).taken() + 1
                },
                None => {
                    &&& old(self).remaining().len() == 0
                    &&& final(self).taken() == old(self).taken()
                },
            },
    {
        proof {
            use_type_invariant(&*self);
        }
        if self.exhausted {
            return None;
        }
        let ghost k = self.taken();
        let ghost d_low = drift(self.from, self.to);
        let ghost d_high = steps(self.from, self.to);
        let ghost m = minor_offset(k, d_low, d_high);
        proof {
            assert(0 <= m <= k) by {
                if d_high > 0 {
                    assert(0 <= k * d_low <= k * d_high) by (nonlinear_arith)
                        requires
                            0 <= k,
                            0 <= d_low <= d_high,
                    ;
                    assert(m >= 0) by (nonlinear_arith)
                        requires
                            2 * (m * d_high) > -d_high,
                            d_high > 0,
                    ;
                    assert(m <= k) by (nonlinear_arith)
                        requires
                            2 * (m * d_high) < 2 * (k * d_high) + d_high,
                            d_high > 0,
                    ;
                }
            }
            assert(self.low_stepper.i_low * m == m || self.low_stepper.i_low * m == -m)
                by (nonlinear_arith)
                requires
                    self.low_stepper.i_low == 1 || self.low_stepper.i_low == -1,
            ;
            assert(k * d_low <= k * d_high && 0 <= k * d_low) by (nonlinear_arith)
                requires
                    0 <= k,
                    0 <= d_low <= d_high,
            ;
            assert(k * d_high <= d_high * d_high) by (nonlinear_arith)
                requires
                    0 <= k <= d_high,
            ;
        }
        let v_high = self.v_high;
        let v_low = self.low_stepper.v_low;
        proof {
            // the cell lies between the two ends along the other axis
            assert(m <= d_low) by {
                if d_high > 0 {
                    assert(m <= d_low) by (nonlinear_arith)
                        requires
                            2 * (m * d_high) < 2 * (k * d_low) + d_high,
                            0 <= k <= d_high,
                            0 <= d_low,
                            d_high > 0,
                    ;
                }
            }
        }
        let node = if self.along_x {
            ComputeGridNode { x: v_high, y: v_low as i32 }
        } else {
            ComputeGridNode { x: v_low as i32, y: v_high }
        };
        let last = if self.along_x {
            self.to.x
        } else {
            self.to.y
        };
        if v_high >= last {
            self.exhausted = true;
        } else {
            proof {
                assert(d_high > 0);
                assert(self.low_stepper.d <= 2 * d_low);
                assert(self.low_stepper.d > 2 * d_low - 2 * d_high);
            }
            let mut low_stepper = self.low_stepper;
            low_stepper.step();
            proof {
                let m2 = if self.low_stepper.d > 0 {
                    m + 1
                } else {
                    m
                };
                assert((k + 1) * d_low == k * d_low + d_low) by (nonlinear_arith);
                assert((m + 1) * d_high == m * d_high + d_high) by (nonlinear_arith);
                minor_offset_is_nearest(k + 1, d_low, d_high, m2);
                assert(low_stepper.i_low * (m + 1) == low_stepper.i_low * m + low_stepper.i_low)
                    by (nonlinear_arith);
            }
            *self = Line {
                from: self.from,
                to: self.to,
                along_x: self.along_x,
                flipped: self.flipped,
                v_high: v_high + 1,
                exhausted: false,
                low_stepper,
            };
        }
        proof {
            assert(node == stepped_cell(old(self).from, old(self).to, k));
        }
        Some(node)
    }

    /// The cells of the line from `start` to `end`, in that order.
    pub fn rasterize(start: ComputeGridNode, end: ComputeGridNode) -> (cells: Vec<ComputeGridNode>)
        ensures
            cells@ == line_cells(start, end),
    {
        let mut line = Line::new(start, end);
        let mut cells: Vec<ComputeGridNode> = Vec::new();
        let ghost from = line.from();
        let ghost to = line.to();
        loop
            invariant
                line.from() == from,
                line.to() == to,
                line.flipped() == (start != end && is_flipped(start, end)),
                from == (if line.flipped() {
                    end
                } else {
                    start
                }),
                to == (if line.flipped() {
                    start
                } else {
                    end
                }),
                cells@.len() == line.taken(),
                forall|j: int| 0 <= j < cells@.len() ==> cells@[j] == stepped_cell(from, to, j),
            ensures
                line.flipped() == (start != end && is_flipped(start, end)),
                from == (if line.flipped() {
                    end
                } else {
                    start
                }),
                to == (if line.flipped() {
                    start
                } else {
                    end
                }),
                cells@.len() == steps(from, to) + 1,
                forall|j: int| 0 <= j < cells@.len() ==> cells@[j] == stepped_cell(from, to, j),
            decreases steps(from, to) + 1 - line.taken(),
        {
            proof {
                use_type_invariant(&line);
            }
            match line.next() {
                Some(cell) => {
                    cells.push(cell);
                },
                None => {
                    break ;
                },
            }
        }
        if line.flipped {
            let mut turned: Vec<ComputeGridNode> = Vec::new();
            let mut i: usize = cells.len();
            while i > 0
                invariant
                    i <= cells@.len(),
                    turned@.len() == cells@.len() - i,
                    forall|j: int|
                        0 <= j < turned@.len() ==> turned@[j] == cells@[cells@.len() - 1 - j],
                decreases i,
            {
                i -= 1;
                turned.push(cells[i]);
            }
            assert(turned@ =~= line_cells(start, end));
            turned
        } else {
            assert(cells@ =~= line_cells(start, end));
            cells
        }
    }
}

/// The planner that draws a straight line and looks at no obstacle.
pub struct StraightLine;

impl NewComputer for StraightLine {
    fn new(_grid: ComputeGrid, _obstacles: ObstacleSet) -> Self {
        StraightLine
    }
}

impl ComputePath for StraightLine {
    fn draw_connections(&self) -> (draw: bool)
        ensures
            draw,
    {
        true
    }

    /// The cells of Bresenham's line from `start` to `end`.
    fn path(&self, start: ComputeGridNode, end: ComputeGridNode) -> (path: Vec<ComputeGridNode>)
        ensures
            path@ == line_cells(start, end),
    {
        let cells = Line::rasterize(start, end);
        proof {
            if start == end {
                assert(line_cells(start, end) =~= seq![start]);
            }
        }
        cells
    }
}

} // verus!
