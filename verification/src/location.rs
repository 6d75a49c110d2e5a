//! Axis-aligned regions of world space and the grid cells they cover.
//!
//! Coordinates are fixed-point integers. A grid of square cells of side `unit`
//! partitions the plane; the cell with index `k` along an axis spans the
//! coordinates `k * unit ..= k * unit + unit - 1`.

use vstd::prelude::*;
use vstd::arithmetic::div_mod::lemma_div_is_ordered;

verus! {

/// Index, along one axis, of the cell that holds `coord`: the quotient rounded
/// toward negative infinity.
pub open spec fn cell_index(coord: int, unit: int) -> int {
    coord / unit
}

/// Whether `(x, y)` is a cell index that the grid can address.
pub open spec fn in_grid(x: int, y: int) -> bool {
    i32::MIN <= x <= i32::MAX && i32::MIN <= y <= i32::MAX
}

/// Computes the index of the cell that holds `coord`.
pub fn cell_of(coord: i32, unit: u32) -> (cell: i32)
    requires
        unit > 0,
    ensures
        cell == cell_index(coord as int, unit as int),
{
    let c: i64 = coord as i64;
    let u: i64 = unit as i64;
    if c >= 0 {
        (c / u) as i32
    } else {
        let q: i64 = (-c - 1) / u;
        assert(-q - 1 == (c as int) / (u as int)) by (nonlinear_arith)
            requires
                c < 0,
                u > 0,
                q == (-c - 1) as int / (u as int),
        ;
        (-q - 1) as i32
    }
}

/// A bounding region: the closed rectangle `left..=right` by `down..=up`.
///
/// A region whose bounds are out of order holds no point and covers no cell.
#[derive(Clone, Copy, Debug, PartialEq, Eq, Structural)]
pub struct Location {
    pub left: i32,
    pub right: i32,
    pub down: i32,
    pub up: i32,
}

impl Location {
    /// The region holds at least one point.
    pub open spec fn is_valid(self) -> bool {
        self.left <= self.right && self.down <= self.up
    }

    /// The overlap test: neither region ends before the other begins, along
    /// either axis. For two valid regions it says that they share a point.
    pub open spec fn overlaps(self, other: Location) -> bool {
        &&& self.left <= other.right
        &&& other.left <= self.right
        &&& self.down <= other.up
        &&& other.down <= self.up
    }

    /// Lowest and highest cell index along x and along y.
    pub open spec fn min_x(self, unit: int) -> int {
        cell_index(self.left as int, unit)
    }

    pub open spec fn max_x(self, unit: int) -> int {
        cell_index(self.right as int, unit)
    }

    pub open spec fn min_y(self, unit: int) -> int {
        cell_index(self.down as int, unit)
    }

    pub open spec fn max_y(self, unit: int) -> int {
        cell_index(self.up as int, unit)
    }

    /// The cell `(x, y)` of a grid with cells of side `unit` meets the region.
    pub open spec fn covers(self, unit: int, x: int, y: int) -> bool {
        &&& self.min_x(unit) <= x <= self.max_x(unit)
        &&& self.min_y(unit) <= y <= self.max_y(unit)
    }

    pub fn new(left: i32, right: i32, down: i32, up: i32) -> (loc: Location)
        ensures
            loc == (Location { left, right, down, up }),
    {
        Location { left, right, down, up }
    }

    /// Tests whether the two regions overlap.
    pub fn intersects(&self, other: &Location) -> (hit: bool)
        ensures
            hit == self.overlaps(*other),
    {
        self.left <= other.right && other.left <= self.right && self.down <= other.up
            && other.down <= self.up
    }

    /// Two valid regions that overlap cover a common cell, whatever the cell
    /// size: the cell of their lowest common point.
    pub proof fn lemma_overlap_shares_cell(self, other: Location, unit: int) -> (cell: (int, int))
        requires
            unit > 0,
            self.is_valid(),
            other.is_valid(),
            self.overlaps(other),
        ensures
            self.covers(unit, cell.0, cell.1),
            other.covers(unit, cell.0, cell.1),
            in_grid(cell.0, cell.1),
    {
        let px: int = if self.left >= other.left { self.left as int } else { other.left as int };
        let py: int = if self.down >= other.down { self.down as int } else { other.down as int };
        lemma_div_is_ordered(self.left as int, px, unit);
        lemma_div_is_ordered(other.left as int, px, unit);
        lemma_div_is_ordered(px, self.right as int, unit);
        lemma_div_is_ordered(px, other.right as int, unit);
        lemma_div_is_ordered(self.down as int, py, unit);
        lemma_div_is_ordered(other.down as int, py, unit);
        lemma_div_is_ordered(py, self.up as int, unit);
        lemma_div_is_ordered(py, other.up as int, unit);
        lemma_cell_index_in_range(px, unit);
        lemma_cell_index_in_range(py, unit);
        (cell_index(px, unit), cell_index(py, unit))
    }
}

/// The cell index of a 32-bit coordinate is itself a 32-bit number.
pub proof fn lemma_cell_index_in_range(coord: int, unit: int)
    requires
        unit > 0,
        i32::MIN <= coord <= i32::MAX,
    ensures
        i32::MIN <= cell_index(coord, unit) <= i32::MAX,
{
    assert(i32::MIN <= coord / unit <= i32::MAX) by (nonlinear_arith)
        requires
            unit > 0,
            i32::MIN <= coord <= i32::MAX,
    ;
}

} // verus!
