//! Splitting of compound words into two constituents by n-gram scores.
pub mod evaluation;
pub mod splitter;
pub mod text;

pub use crate::splitter::{cut_off_fugen_s, CharSplitter, ScoreTable, SCORE_ONE};
pub use crate::text::{titlecase, CharString};
