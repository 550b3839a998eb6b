//! The ways to compute a path: a straight line, A* and Theta*.

pub mod a_star;
mod a_star_proof;
pub mod min_heap;
pub mod node_map;
pub mod path_ends;
mod progress;
pub mod route;
pub mod smoothing;
pub mod straight_line;
pub mod straight_line_wide;
pub mod theta_star;
mod theta_star_proof;
