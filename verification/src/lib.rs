//! A streaming quantile sketch with leveled, randomized compaction.
//!
//! The sketch ingests a stream of values one at a time and answers
//! approximate rank and quantile queries in space sublinear in the number
//! of insertions.  Values live in a stack of level buffers; each item in
//! the level at height `h` stands for `2^h` original insertions.  When a
//! level overflows its capacity it is sorted and shrunk by two elements,
//! one of its two largest being promoted to the next level by a coin flip.

pub mod bignat;
pub mod sorting;
pub mod sketch;
