//! Positions on a signed integer grid and the distances between them.

use vstd::prelude::*;

verus! {

/// Coordinates of a cell, as the key search tables use.
pub type Cell = (i32, i32);

/// A cell of a two-dimensional grid. Coordinates are signed because planners
/// look at cells just outside the grid before rejecting them.
#[derive(Debug, Clone, Copy, PartialEq, Eq, Hash, Structural)]
pub struct GridPos {
    pub x: i32,
    pub y: i32,
}

/// Absolute value of the difference of two integers.
pub open spec fn gap(a: int, b: int) -> int {
    if a >= b {
        a - b
    } else {
        b - a
    }
}

/// Manhattan distance between two cells, as a mathematical integer.
pub open spec fn manhattan(a: GridPos, b: GridPos) -> int {
    gap(a.x as int, b.x as int) + gap(a.y as int, b.y as int)
}

/// Chebyshev distance between two cells, as a mathematical integer.
pub open spec fn chebyshev(a: GridPos, b: GridPos) -> int {
    let dx = gap(a.x as int, b.x as int);
    let dy = gap(a.y as int, b.y as int);
    if dx >= dy {
        dx
    } else {
        dy
    }
}

/// Squared Euclidean distance between two cells, as a mathematical integer.
pub open spec fn euclidean_sq(a: GridPos, b: GridPos) -> int {
    (a.x - b.x) * (a.x - b.x) + (a.y - b.y) * (a.y - b.y)
}

/// Exact absolute difference of two 32-bit coordinates.
pub fn gap_wide(a: i32, b: i32) -> (d: i64)
    ensures
        d == gap(a as int, b as int),
        0 <= d <= 0xffff_ffff,
{
    let a64: i64 = a as i64;
    let b64: i64 = b as i64;
    if a64 >= b64 {
        a64 - b64
    } else {
        b64 - a64
    }
}

impl GridPos {
    /// The cell at column `x` of row `y`.
    pub fn new(x: i32, y: i32) -> (p: GridPos)
        ensures
            p.x == x,
            p.y == y,
    {
        GridPos { x, y }
    }

    /// Manhattan distance without any bound on the operands.
    pub fn manhattan_wide(&self, other: &GridPos) -> (d: i64)
        ensures
            d == manhattan(*self, *other),
    {
        gap_wide(self.x, other.x) + gap_wide(self.y, other.y)
    }

    /// Chebyshev distance without any bound on the operands.
    pub fn chebyshev_wide(&self, other: &GridPos) -> (d: i64)
        ensures
            d == chebyshev(*self, *other),
    {
        let dx: i64 = gap_wide(self.x, other.x);
        let dy: i64 = gap_wide(self.y, other.y);
        if dx >= dy {
            dx
        } else {
            dy
        }
    }

    /// Manhattan distance; the two cells must be close enough for it to fit.
    pub fn manhattan_distance(&self, other: &GridPos) -> (d: i32)
        requires
            manhattan(*self, *other) <= i32::MAX,
        ensures
            d == manhattan(*self, *other),
    {
        let wide: i64 = self.manhattan_wide(other);
        wide as i32
    }

    /// Squared Euclidean distance; the two cells must be close enough for it
    /// to fit.
    pub fn euclidean_distance_sq(&self, other: &GridPos) -> (d: i32)
        requires
            euclidean_sq(*self, *other) <= i32::MAX,
        ensures
            d == euclidean_sq(*self, *other),
    {
        let dx: i64 = self.x as i64 - other.x as i64;
        let dy: i64 = self.y as i64 - other.y as i64;
        assert(-0x1_0000_0000 < dx < 0x1_0000_0000 && -0x1_0000_0000 < dy < 0x1_0000_0000);
        assert(0 <= dx * dx <= 0x1_0000_0000 * 0x1_0000_0000) by (nonlinear_arith)
            requires
                -0x1_0000_0000 < dx < 0x1_0000_0000,
        ;
        assert(0 <= dy * dy <= 0x1_0000_0000 * 0x1_0000_0000) by (nonlinear_arith)
            requires
                -0x1_0000_0000 < dy < 0x1_0000_0000,
        ;
        let sx: i128 = (dx as i128) * (dx as i128);
        let sy: i128 = (dy as i128) * (dy as i128);
        (sx + sy) as i32
    }
}

} // verus!
