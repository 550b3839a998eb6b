//! The planners, and the rules of the tiles they plan on.

pub mod compute_path_method;
pub mod despawn;
pub mod tile_type;
