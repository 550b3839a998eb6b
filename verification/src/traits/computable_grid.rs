//! Grid cells and grid bounds.

use vstd::prelude::*;

verus! {

/// The inclusive bounds of a rectangular grid.
#[derive(Debug, PartialEq, Eq, Structural, Default, Clone, Copy)]
pub struct ComputeGrid {
    pub min: ComputeGridNode,
    pub max: ComputeGridNode,
}

/// A grid cell, ordered by `x` first and `y` second.
#[derive(Debug, PartialEq, Eq, Structural, PartialOrd, Ord, Hash, Default, Clone, Copy)]
pub struct ComputeGridNode {
    pub x: i32,
    pub y: i32,
}

/// The distance between two integers.
pub open spec fn gap(a: int, b: int) -> int {
    if a >= b {
        a - b
    } else {
        b - a
    }
}

/// The sign of a non-zero step: `-1` below zero, `1` otherwise.
pub open spec fn unit_spec(value: int) -> int {
    if value < 0 {
        -1
    } else {
        1
    }
}

/// The number of unit steps along the axes between two cells.
pub open spec fn manhattan(a: ComputeGridNode, b: ComputeGridNode) -> int {
    gap(a.x as int, b.x as int) + gap(a.y as int, b.y as int)
}

/// The eight compass directions as unit steps.
pub open spec fn is_compass_step(dx: int, dy: int) -> bool {
    -1 <= dx <= 1 && -1 <= dy <= 1 && (dx != 0 || dy != 0)
}

/// The compass direction from `from` to `to`, where `to` lies on one of the
/// eight compass rays that leave `from`.
pub open spec fn compass_direction(from: ComputeGridNode, to: ComputeGridNode) -> Option<(int, int)> {
    let dx = to.x - from.x;
    let dy = to.y - from.y;
    if dx == 0 && dy == 0 {
        None
    } else if dx == 0 {
        Some((0int, unit_spec(dy)))
    } else if dy == 0 {
        Some((unit_spec(dx), 0int))
    } else if gap(dx, 0) == gap(dy, 0) {
        Some((unit_spec(dx), unit_spec(dy)))
    } else {
        None
    }
}

/// The position of a cell in the order of cells: `x` decides, then `y`.
pub open spec fn key_of(node: ComputeGridNode) -> int {
    (node.x - i32::MIN) * 0x1_0000_0000 + (node.y - i32::MIN)
}

/// The cell that has the given place in the order of cells.
pub open spec fn node_of_key(key: int) -> ComputeGridNode {
    ComputeGridNode {
        x: (key / 0x1_0000_0000 + i32::MIN) as i32,
        y: (key % 0x1_0000_0000 + i32::MIN) as i32,
    }
}

/// The sign of a non-zero step.
pub fn unit(value: i32) -> (sign: i32)
    ensures
        sign == unit_spec(value as int),
{
    if value < 0 {
        -1
    } else {
        1
    }
}

/// The distance between two coordinates.
pub fn abs_diff(a: i32, b: i32) -> (d: u32)
    ensures
        d == gap(a as int, b as int),
{
    if a >= b {
        (a as i64 - b as i64) as u32
    } else {
        (b as i64 - a as i64) as u32
    }
}

impl ComputeGrid {
    /// Whether `node` lies within the bounds, both edges included.
    pub open spec fn contains(&self, node: ComputeGridNode) -> bool {
        &&& self.min.x <= node.x <= self.max.x
        &&& self.min.y <= node.y <= self.max.y
    }

    /// Whether the bounds are in order: the lower corner is not beyond the
    /// upper one. Bounds that are not hold no cell.
    pub open spec fn well_formed(&self) -> bool {
        self.min.x <= self.max.x && self.min.y <= self.max.y
    }

    /// The number of cells within the bounds.
    pub open spec fn cell_count(&self) -> int {
        if self.min.x <= self.max.x && self.min.y <= self.max.y {
            (self.max.x - self.min.x + 1) * (self.max.y - self.min.y + 1)
        } else {
            0
        }
    }

    /// Whether the bounds are in order.
    pub fn is_well_formed(&self) -> (ordered: bool)
        ensures
            ordered == self.well_formed(),
            ordered == (exists|node: ComputeGridNode| self.contains(node)),
    {
        let ordered = self.min.x <= self.max.x && self.min.y <= self.max.y;
        proof {
            if ordered {
                assert(self.contains(self.min));
            }
        }
        ordered
    }

    /// Whether `node` lies within the bounds.
    pub fn is_inside(&self, node: ComputeGridNode) -> (inside: bool)
        ensures
            inside == self.contains(node),
    {
        node.x <= self.max.x && node.x >= self.min.x && node.y <= self.max.y && node.y >= self.min.y
    }
}

impl ComputeGridNode {
    pub fn new(x: i32, y: i32) -> (node: Self)
        ensures
            node.x == x,
            node.y == y,
    {
        Self { x, y }
    }

    /// The cell's place in the order of cells as a machine word. Distinct
    /// cells have distinct keys, and a cell that sorts first has the smaller key.
    pub fn key(&self) -> (key: u64)
        ensures
            key == key_of(*self),
    {
        let kx: u64 = (self.x as i64 + 0x8000_0000) as u64;
        let ky: u64 = (self.y as i64 + 0x8000_0000) as u64;
        kx * 0x1_0000_0000 + ky
    }

    /// The cell that has the given key.
    pub fn from_key(key: u64) -> (node: Self)
        ensures
            node == node_of_key(key as int),
            key_of(node) == key,
    {
        let kx: u64 = key / 0x1_0000_0000;
        let ky: u64 = key % 0x1_0000_0000;
        Self { x: (kx as i64 - 0x8000_0000) as i32, y: (ky as i64 - 0x8000_0000) as i32 }
    }

    /// The sum of the distances from the origin along both axes.
    pub fn right_angle_len(&self) -> (len: u32)
        requires
            manhattan(*self, ComputeGridNode { x: 0, y: 0 }) <= u32::MAX,
        ensures
            len == manhattan(*self, ComputeGridNode { x: 0, y: 0 }),
    {
        abs_diff(self.x, 0) + abs_diff(self.y, 0)
    }

    /// The number of unit steps along the axes from this cell to `other`.
    pub fn right_angle_distance(&self, other: &ComputeGridNode) -> (len: u64)
        ensures
            len == manhattan(*self, *other),
    {
        abs_diff(self.x, other.x) as u64 + abs_diff(self.y, other.y) as u64
    }

    /// Whether this offset runs along exactly one axis.
    pub fn is_straight(&self) -> (straight: bool)
        ensures
            straight == ((self.x == 0) != (self.y == 0)),
    {
        (self.x == 0 && self.y != 0) || (self.x != 0 && self.y == 0)
    }

    /// Whether this offset is equally long along both axes.
    pub fn is_diagonal(&self) -> (diagonal: bool)
        ensures
            diagonal == (gap(self.x as int, 0) == gap(self.y as int, 0)),
    {
        abs_diff(self.x, 0) == abs_diff(self.y, 0)
    }

    /// The unit step towards `target`, where `target` is another cell on the
    /// same row, column or diagonal.
    pub fn eight_sided_direction_to(&self, target: &ComputeGridNode) -> (direction: Option<
        ComputeGridNode,
    >)
        ensures
            match compass_direction(*self, *target) {
                Some((dx, dy)) => direction == Some(ComputeGridNode { x: dx as i32, y: dy as i32 }),
                None => direction.is_none(),
            },
    {
        if self.x == target.x && self.y == target.y {
            return None;
        }
        let dx: i64 = target.x as i64 - self.x as i64;
        let dy: i64 = target.y as i64 - self.y as i64;

        if dx == 0 && dy != 0 {
            return Some(ComputeGridNode { x: 0, y: unit_of(dy) });
        }
        if dy == 0 && dx != 0 {
            return Some(ComputeGridNode { x: unit_of(dx), y: 0 });
        }
        if abs_diff(target.x, self.x) == abs_diff(target.y, self.y) {
            return Some(ComputeGridNode { x: unit_of(dx), y: unit_of(dy) });
        }
        None
    }

    /// The cell one `direction` away, where that cell has coordinates that
    /// fit the machine's integers.
    pub fn step(&self, direction: ComputeGridNode) -> (moved: Option<ComputeGridNode>)
        ensures
            match moved {
                Some(m) => m.x == self.x + direction.x && m.y == self.y + direction.y,
                None => !(i32::MIN <= self.x + direction.x <= i32::MAX && i32::MIN <= self.y
                    + direction.y <= i32::MAX),
            },
    {
        let x = self.x.checked_add(direction.x);
        let y = self.y.checked_add(direction.y);
        match (x, y) {
            (Some(x), Some(y)) => Some(ComputeGridNode { x, y }),
            _ => None,
        }
    }
}

impl core::ops::Add for ComputeGridNode {
    type Output = Self;

    /// The cell at the offset `rhs` from this cell.
    fn add(self, rhs: Self) -> (sum: Self) {
        Self { x: self.x + rhs.x, y: self.y + rhs.y }
    }
}

impl vstd::std_specs::ops::AddSpecImpl for ComputeGridNode {
    open spec fn obeys_add_spec() -> bool {
        true
    }

    open spec fn add_req(self, rhs: Self) -> bool {
        &&& i32::MIN <= self.x + rhs.x <= i32::MAX
        &&& i32::MIN <= self.y + rhs.y <= i32::MAX
    }

    open spec fn add_spec(self, rhs: Self) -> Self {
        ComputeGridNode { x: (self.x + rhs.x) as i32, y: (self.y + rhs.y) as i32 }
    }
}

impl core::ops::AddAssign for ComputeGridNode {
    /// Moves this cell by the offset `rhs`.
    fn add_assign(&mut self, rhs: Self)
        requires
            i32::MIN <= old(self).x + rhs.x <= i32::MAX,
            i32::MIN <= old(self).y + rhs.y <= i32::MAX,
        ensures
            final(self).x == old(self).x + rhs.x,
            final(self).y == old(self).y + rhs.y,
    {
        self.x = self.x + rhs.x;
        self.y = self.y + rhs.y;
    }
}

impl core::ops::Sub for ComputeGridNode {
    type Output = Self;

    /// The offset of this cell from `rhs`.
    fn sub(self, rhs: Self) -> (difference: Self) {
        Self { x: self.x - rhs.x, y: self.y - rhs.y }
    }
}

impl vstd::std_specs::ops::SubSpecImpl for ComputeGridNode {
    open spec fn obeys_sub_spec() -> bool {
        true
    }

    open spec fn sub_req(self, rhs: Self) -> bool {
        &&& i32::MIN <= self.x - rhs.x <= i32::MAX
        &&& i32::MIN <= self.y - rhs.y <= i32::MAX
    }

    open spec fn sub_spec(self, rhs: Self) -> Self {
        ComputeGridNode { x: (self.x - rhs.x) as i32, y: (self.y - rhs.y) as i32 }
    }
}

fn unit_of(value: i64) -> (sign: i32)
    ensures
        sign == unit_spec(value as int),
{
    if value < 0 {
        -1
    } else {
        1
    }
}

/// Distinct cells have distinct keys, and the order of the keys is the
/// order of the cells: by `x`, then by `y`.
pub proof fn key_order(a: ComputeGridNode, b: ComputeGridNode)
    ensures
        0 <= key_of(a) <= u64::MAX,
        key_of(a) == key_of(b) <==> a == b,
        key_of(a) < key_of(b) <==> (a.x < b.x || (a.x == b.x && a.y < b.y)),
{
}

/// Every key is the key of one cell.
pub proof fn key_round_trip(key: int)
    requires
        0 <= key <= u64::MAX,
    ensures
        key_of(node_of_key(key)) == key,
{
}

} // verus!
