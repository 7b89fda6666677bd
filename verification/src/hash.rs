//! Line fingerprinting.
//!
//! A line's fingerprint is a 64-bit non-cryptographic hash of its bytes
//! (after the trailing `\r`, if any, has been stripped).  The whole diff
//! algebra is built on the fingerprints being a fixed function of the line
//! bytes for the duration of a comparison.  The hasher is unkeyed, so equal
//! byte sequences always fingerprint alike; hash collisions between distinct
//! lines are an accepted trade for speed.

use std::collections::hash_map::DefaultHasher;
use vstd::prelude::*;
use vstd::std_specs::hash::DefaultHasherAdditionalSpecFns;

verus! {

/// The fingerprint of a line's bytes: the 64-bit value an unkeyed
/// `DefaultHasher` yields after writing exactly `line`.
pub open spec fn line_hash(line: Seq<u8>) -> u64 {
    DefaultHasher::spec_finish(seq![line])
}

/// Fingerprint one (already cleaned) line.
pub fn hash_line(line: &[u8]) -> (r: u64)
    ensures
        r == line_hash(line@),
{
    let mut hasher = DefaultHasher::new();
    std::hash::Hasher::write(&mut hasher, line);
    let r = std::hash::Hasher::finish(&hasher);
    proof {
        assert(hasher@ =~= seq![line@]);
    }
    r
}

} // verus!
