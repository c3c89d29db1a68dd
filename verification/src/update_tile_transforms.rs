//! Converting tile coordinates to positions on screen.

use vstd::prelude::*;

use crate::tile::TileTransform;

verus! {

/// Width and height of one tile sprite, in pixels.
pub const TILE_WIDTH_HEIGHT: i64 = 8;

/// Offset x to have a tile anchored to its centre rather than corner.
pub const TILE_WIDTH: i64 = 4;

/// Offset y to have a tile anchored to its centre rather than corner.
pub const TILE_HEIGHT: i64 = 4;

/// System that turns tile coordinates into screen transforms.
pub struct UpdateTileTransforms;

impl UpdateTileTransforms {
    /// Converts a tile position to an x/y position on screen, on a
    /// grid `height` tiles high.  The vertical axis is flipped on
    /// screen, and both coordinates anchor the tile to its centre.
    pub fn tile_to_xyz(tile: TileTransform, height: i32) -> (r: (i64, i64))
        ensures
            r.0 == TILE_WIDTH_HEIGHT * tile@.0 + TILE_WIDTH,
            r.1 == (height - tile@.1) * TILE_WIDTH_HEIGHT - TILE_HEIGHT,
    {
        let x: i64 = tile.x as i64 * TILE_WIDTH_HEIGHT + TILE_WIDTH;
        let y: i64 = (height as i64 - tile.y as i64) * TILE_WIDTH_HEIGHT - TILE_HEIGHT;
        (x, y)
    }
}

} // verus!
