//! Vector storage and similarity scoring for nearest-neighbour search.
//!
//! Vectors live in a flat table of fixed-size records next to a table of
//! deletion flags. Both tables are kept as the byte images of the two files
//! that hold them on disk; the program around this library maps the files
//! and keeps them in step with the images.
//!
//! Vector elements and scores are IEEE-754 single-precision numbers, carried
//! here as their 32-bit patterns: the library moves, encodes and orders them,
//! and leaves the arithmetic on them to the metric that the caller supplies.

pub mod types;
pub mod top_scores;
pub mod encoding;
pub mod storage_model;
pub mod mmap_vectors;
pub mod metric;
pub mod raw_scorer;
pub mod vector_storage;
pub mod memmap_vector_storage;
pub mod point_scorer;
