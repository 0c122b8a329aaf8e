//! Patterns of first appearance, and how many lines of a batch share theirs.
//!
//! The pattern of a line ranks its symbols in the order in which they first
//! appear: `"ABAB"` and `"CDCD"` both have the pattern `0 1 0 1`. Lines have the
//! same pattern exactly when they are renamings of each other.
//!
//! - [`generate_pattern`] gives the pattern of one line of ASCII symbols.
//! - [`text_to_patterns`] gives the patterns of the lines of a text, and fails at
//!   the first line that has none.
//! - [`count_frequency`] counts the patterns of a batch that occur in it more
//!   than once, each as often as it occurs.

pub mod frequency;
pub mod pattern;
mod table;
pub mod text;

pub use frequency::count_frequency;
pub use pattern::{generate_pattern, AlphabetRangeError};
pub use text::{gather_patterns, text_to_patterns, LineError};
