//! Grid pathfinding: a Bresenham line rasterizer, an A* planner on the
//! four-connected grid, a Theta* planner with line-of-sight shortcuts and
//! path smoothing. Beside them stand the rules of a grid editor and a small
//! typed parser for hex colour strings.

pub mod components;
pub mod parsers;
pub mod states;
pub mod traits;
