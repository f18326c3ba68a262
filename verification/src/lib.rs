//! Append-novel-lines engine: an insertion-ordered set of normalized byte
//! lines that suppresses duplicates, and the natural-order comparator used
//! for optional sorting.
pub mod engine;
pub mod lines;
pub mod natural;
pub mod seen;
