//! A parser that gathers typed parts from the front of a string, and the
//! parts of a hex colour.

pub mod hex_color;
pub mod parsed;
pub mod string_parser;
