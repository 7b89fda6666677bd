//! Line-level multiset diff engine for large text files.
//!
//! Two input files are scanned line by line; every non-empty line is
//! fingerprinted to a 64-bit hash, the two resulting multisets of hashes are
//! reduced against each other, and for each hash that occurs more often on one
//! side than on the other a `unique_line` event is produced with the line's
//! text and 1-based line number.

pub mod codec;
pub mod counts;
pub mod engine;
pub mod hash;
pub mod laws;
pub mod merge;
pub mod partition;
pub mod payloads;
pub mod reduce;
pub mod retrieve;
pub mod resolve;
pub mod scan;
pub mod sort;
