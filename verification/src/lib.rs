//! Lazy, pull-based combinators that merge already-sorted sequences into one
//! sorted sequence. The merge family comes in two shapes: a two-source
//! streaming merge that keeps a single buffered element, and a dynamic k-way
//! merge that keeps a sorted frontier of (value, source) entries. Each merge
//! is itself a sequence producer, so merges compose.

pub mod dedup;
pub mod frontier;
pub mod merge;
pub mod merge_sorted;
pub mod merge_spec;
pub mod order;
pub mod producer;

pub use producer::Producer;
pub use producer::Source;
