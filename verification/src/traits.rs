//! The vocabulary shared by the planners and the parsers.

pub mod computable_grid;
pub mod compute_path;
pub mod concat;
pub mod parse;
pub mod set_value;
