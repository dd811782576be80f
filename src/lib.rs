//! Exercise tracking: completion markers in exercise sources, the context
//! shown around an unfinished exercise, and the exercise records themselves.
//!
//! `marker` holds the grammar of the marker line, `text` splits source text
//! into lines, and `exercise` derives an exercise's state from its source
//! text and removes its markers.

pub mod exercise;
pub mod marker;
pub mod text;
