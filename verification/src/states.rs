//! The states of the editor.

pub mod path_placement;
