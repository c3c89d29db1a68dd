//! A light source attached to a tile: the falloff radius of the light
//! it casts, in tiles.

use vstd::prelude::*;

verus! {

/// Descriptor of one light source.  A non-positive radius is a defined
/// degenerate case: such a light illuminates only its own tile.
#[derive(Clone, Copy, PartialEq, Eq, Structural, Hash, Debug)]
pub struct PointLight {
    pub radius: i32,
}

impl PointLight {
    pub fn new(radius: i32) -> (l: Self)
        ensures
            l.radius == radius,
    {
        PointLight { radius }
    }
}

} // verus!
