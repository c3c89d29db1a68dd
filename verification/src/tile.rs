//! Grid coordinates: a position on the tile grid, or a displacement
//! between two positions.

use vstd::prelude::*;

verus! {

/// Whether `p` lies on a grid `w` tiles wide and `h` tiles high.
pub open spec fn in_grid(p: (int, int), w: int, h: int) -> bool {
    0 <= p.0 < w && 0 <= p.1 < h
}

/// Squared Euclidean distance between two grid points.
pub open spec fn dist_sq(a: (int, int), b: (int, int)) -> int {
    (a.0 - b.0) * (a.0 - b.0) + (a.1 - b.1) * (a.1 - b.1)
}

/// A tile position on the grid, or a displacement between two tiles
/// (in which case the coordinates may be negative).
#[derive(Clone, Copy, PartialEq, Eq, Structural, Hash, Debug)]
pub struct TileTransform {
    pub x: i32,
    pub y: i32,
}

impl View for TileTransform {
    type V = (int, int);

    open spec fn view(&self) -> (int, int) {
        (self.x as int, self.y as int)
    }
}

impl TileTransform {
    pub fn new(x: i32, y: i32) -> (t: Self)
        ensures
            t@ == (x as int, y as int),
    {
        TileTransform { x, y }
    }

    /// Squared Euclidean distance to `other`; wide enough to be exact
    /// for every pair of positions.
    pub fn distance_sq(&self, other: &TileTransform) -> (d: u128)
        ensures
            d == dist_sq(self@, other@),
    {
        let dx: i128 = self.x as i128 - other.x as i128;
        let dy: i128 = self.y as i128 - other.y as i128;
        proof {
            assert(0 <= dx * dx < 0x1_0000_0000_0000_0000) by (nonlinear_arith)
                requires -0x1_0000_0000 < dx < 0x1_0000_0000;
            assert(0 <= dy * dy < 0x1_0000_0000_0000_0000) by (nonlinear_arith)
                requires -0x1_0000_0000 < dy < 0x1_0000_0000;
        }
        (dx * dx + dy * dy) as u128
    }
}

} // verus!
