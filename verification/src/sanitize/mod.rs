//! Turn raw terminal output into clean, normalised text.

pub mod unwrap;
pub mod normalize;
pub mod ansi;
