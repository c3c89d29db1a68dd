//! Verified core of a tile-based puzzle game: the fog-of-war lighting
//! engine (per-tile illumination factors with a configuration-keyed
//! cache), the grid coordinate type it works on, and the plain data
//! types shared with the surrounding game states.

pub mod colliders;
pub mod colliders_list_system;
pub mod fog;
pub mod paused_state;
pub mod point_light;
pub mod sqrt;
pub mod tile;
pub mod update_tile_transforms;
pub mod visibility;
