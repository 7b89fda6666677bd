//! Fixed-width binary record codec.
//!
//! A line record pairs a 64-bit fingerprint with the byte offset of the
//! line's first byte in its source file.  On disk a record is 16 bytes:
//! the hash, then the offset, both little-endian.  The newline index is
//! persisted as a packed array of 64-bit little-endian positions; a file
//! whose length is not a multiple of 8 is rejected outright.

use vstd::bytes::{
    lemma_auto_spec_u64_to_from_le_bytes, spec_u64_from_le_bytes, spec_u64_to_le_bytes,
    u64_from_le_bytes, u64_to_le_bytes,
};
use vstd::prelude::*;
use vstd::slice::slice_subrange;

verus! {

/// A line record: `.0` is the line's fingerprint, `.1` the byte offset of
/// the line's first byte within its source file.
#[derive(Debug, PartialEq, Eq, Structural, Clone, Copy)]
pub struct HashOffset(pub u64, pub u64);

/// An engine error with a distinct kind per cause.
#[derive(Debug, PartialEq, Eq, Structural, Clone, Copy)]
pub enum DiffError {
    /// A persisted newline index whose byte length is not a multiple of 8.
    InvalidNewlineIndexSize,
}

/// The 16-byte encoding of one record.
pub open spec fn spec_encode_record(r: HashOffset) -> Seq<u8> {
    spec_u64_to_le_bytes(r.0) + spec_u64_to_le_bytes(r.1)
}

/// The concatenated encoding of a record sequence.
pub open spec fn spec_encode_records(rs: Seq<HashOffset>) -> Seq<u8>
    decreases rs.len(),
{
    if rs.len() == 0 {
        Seq::empty()
    } else {
        spec_encode_records(rs.drop_last()) + spec_encode_record(rs.last())
    }
}

/// The record held in one 16-byte frame.
pub open spec fn spec_decode_record(frame: Seq<u8>) -> HashOffset {
    HashOffset(
        spec_u64_from_le_bytes(frame.subrange(0, 8)),
        spec_u64_from_le_bytes(frame.subrange(8, 16)),
    )
}

/// All whole 16-byte frames of `bytes`, decoded in order.  A trailing
/// partial frame carries no record: it is treated as end of stream.
pub open spec fn spec_decode_records(bytes: Seq<u8>) -> Seq<HashOffset> {
    Seq::new((bytes.len() / 16) as nat, |i: int| spec_decode_record(bytes.subrange(16 * i, 16 * i + 16)))
}

pub proof fn lemma_encode_records_len(rs: Seq<HashOffset>)
    ensures
        spec_encode_records(rs).len() == 16 * rs.len(),
    decreases rs.len(),
{
    lemma_auto_spec_u64_to_from_le_bytes();
    if rs.len() > 0 {
        lemma_encode_records_len(rs.drop_last());
    }
}

/// Round trip: decoding an encoded record sequence gives the sequence back.
pub proof fn lemma_records_round_trip(rs: Seq<HashOffset>)
    ensures
        spec_decode_records(spec_encode_records(rs)) == rs,
    decreases rs.len(),
{
    lemma_auto_spec_u64_to_from_le_bytes();
    lemma_encode_records_len(rs);
    if rs.len() == 0 {
        assert(spec_decode_records(spec_encode_records(rs)) =~= rs);
    } else {
        let pre = rs.drop_last();
        lemma_records_round_trip(pre);
        lemma_encode_records_len(pre);
        let enc = spec_encode_records(rs);
        let enc_pre = spec_encode_records(pre);
        assert forall|i: int| 0 <= i < rs.len() implies #[trigger] spec_decode_records(enc)[i]
            == rs[i] by {
            if i < pre.len() {
                assert(enc.subrange(16 * i, 16 * i + 16) =~= enc_pre.subrange(
                    16 * i,
                    16 * i + 16,
                ));
                assert(spec_decode_records(enc_pre)[i] == pre[i]);
            } else {
                let last = rs.last();
                assert(enc.subrange(16 * i, 16 * i + 8) =~= spec_u64_to_le_bytes(last.0));
                assert(enc.subrange(16 * i + 8, 16 * i + 16) =~= spec_u64_to_le_bytes(last.1));
                assert(enc.subrange(16 * i, 16 * i + 16).subrange(0, 8) =~= enc.subrange(
                    16 * i,
                    16 * i + 8,
                ));
                assert(enc.subrange(16 * i, 16 * i + 16).subrange(8, 16) =~= enc.subrange(
                    16 * i + 8,
                    16 * i + 16,
                ));
            }
        }
        assert(spec_decode_records(enc) =~= rs);
    }
}

impl HashOffset {
    /// Append this record's 16-byte encoding to `out`.
    pub fn encode(&self, out: &mut Vec<u8>)
        ensures
            final(out)@ == old(out)@ + spec_encode_record(*self),
    {
        proof {
            lemma_auto_spec_u64_to_from_le_bytes();
        }
        let mut hash_bytes = u64_to_le_bytes(self.0);
        let mut offset_bytes = u64_to_le_bytes(self.1);
        out.append(&mut hash_bytes);
        out.append(&mut offset_bytes);
    }

    /// Decode the 16-byte frame of `bytes` that starts at `pos`.
    pub fn decode(bytes: &[u8], pos: usize) -> (r: HashOffset)
        requires
            pos + 16 <= bytes@.len(),
        ensures
            r == spec_decode_record(bytes@.subrange(pos as int, pos + 16)),
    {
        let n = bytes.len();
        let hash = u64_from_le_bytes(slice_subrange(bytes, pos, pos + 8));
        let offset = u64_from_le_bytes(slice_subrange(bytes, pos + 8, pos + 16));
        proof {
            let frame = bytes@.subrange(pos as int, pos + 16);
            assert(frame.subrange(0, 8) =~= bytes@.subrange(pos as int, pos + 8));
            assert(frame.subrange(8, 16) =~= bytes@.subrange(pos + 8, pos + 16));
        }
        HashOffset(hash, offset)
    }
}

/// Encode a whole record sequence, as written to a partition file.
pub fn encode_records(rs: &Vec<HashOffset>) -> (out: Vec<u8>)
    ensures
        out@ == spec_encode_records(rs@),
{
    let mut out: Vec<u8> = Vec::new();
    let mut i: usize = 0;
    while i < rs.len()
        invariant
            i <= rs@.len(),
            out@ == spec_encode_records(rs@.take(i as int)),
        decreases rs@.len() - i,
    {
        proof {
            assert(rs@.take(i + 1).drop_last() =~= rs@.take(i as int));
            assert(rs@.take(i + 1).last() == rs@[i as int]);
        }
        rs[i].encode(&mut out);
        i = i + 1;
    }
    proof {
        assert(rs@.take(rs@.len() as int) =~= rs@);
    }
    out
}

/// Decode every whole 16-byte frame of `bytes`; a trailing partial frame is
/// treated as end of stream.
pub fn decode_records(bytes: &[u8]) -> (rs: Vec<HashOffset>)
    ensures
        rs@ == spec_decode_records(bytes@),
{
    let mut rs: Vec<HashOffset> = Vec::new();
    let len = bytes.len();
    let n = len / 16;
    let mut i: usize = 0;
    while i < n
        invariant
            i <= n,
            len == bytes@.len(),
            n == len / 16,
            rs@.len() == i,
            forall|j: int|
                0 <= j < i ==> rs@[j] == spec_decode_record(
                    bytes@.subrange(16 * j, 16 * j + 16),
                ),
        decreases n - i,
    {
        assert(16 * i + 16 <= len) by {
            assert(i < n);
            assert(16 * n <= len) by (nonlinear_arith)
                requires
                    n == len / 16,
            ;
            assert(16 * i + 16 <= 16 * n) by (nonlinear_arith)
                requires
                    i < n,
            ;
        }
        let r = HashOffset::decode(bytes, 16 * i);
        rs.push(r);
        i = i + 1;
    }
    proof {
        assert(rs@ =~= spec_decode_records(bytes@));
    }
    rs
}

/// The packed encoding of the newline index: each position as 8 bytes,
/// little-endian, concatenated in order.
pub open spec fn spec_encode_positions(ps: Seq<u64>) -> Seq<u8>
    decreases ps.len(),
{
    if ps.len() == 0 {
        Seq::empty()
    } else {
        spec_encode_positions(ps.drop_last()) + spec_u64_to_le_bytes(ps.last())
    }
}

/// The positions held in a packed newline-index image of valid length.
pub open spec fn spec_decode_positions(bytes: Seq<u8>) -> Seq<u64> {
    Seq::new((bytes.len() / 8) as nat, |i: int| spec_u64_from_le_bytes(bytes.subrange(8 * i, 8 * i + 8)))
}

pub proof fn lemma_encode_positions_len(ps: Seq<u64>)
    ensures
        spec_encode_positions(ps).len() == 8 * ps.len(),
    decreases ps.len(),
{
    lemma_auto_spec_u64_to_from_le_bytes();
    if ps.len() > 0 {
        lemma_encode_positions_len(ps.drop_last());
    }
}

/// Round trip: decoding an encoded newline index gives the positions back.
pub proof fn lemma_positions_round_trip(ps: Seq<u64>)
    ensures
        spec_decode_positions(spec_encode_positions(ps)) == ps,
    decreases ps.len(),
{
    lemma_auto_spec_u64_to_from_le_bytes();
    lemma_encode_positions_len(ps);
    if ps.len() == 0 {
        assert(spec_decode_positions(spec_encode_positions(ps)) =~= ps);
    } else {
        let pre = ps.drop_last();
        lemma_positions_round_trip(pre);
        lemma_encode_positions_len(pre);
        let enc = spec_encode_positions(ps);
        let enc_pre = spec_encode_positions(pre);
        assert forall|i: int| 0 <= i < ps.len() implies #[trigger] spec_decode_positions(enc)[i]
            == ps[i] by {
            if i < pre.len() {
                assert(enc.subrange(8 * i, 8 * i + 8) =~= enc_pre.subrange(8 * i, 8 * i + 8));
                assert(spec_decode_positions(enc_pre)[i] == pre[i]);
            } else {
                assert(enc.subrange(8 * i, 8 * i + 8) =~= spec_u64_to_le_bytes(ps.last()));
            }
        }
        assert(spec_decode_positions(enc) =~= ps);
    }
}

/// Encode the newline index for persistence.
pub fn encode_positions(ps: &Vec<u64>) -> (out: Vec<u8>)
    ensures
        out@ == spec_encode_positions(ps@),
{
    let mut out: Vec<u8> = Vec::new();
    let mut i: usize = 0;
    while i < ps.len()
        invariant
            i <= ps@.len(),
            out@ == spec_encode_positions(ps@.take(i as int)),
        decreases ps@.len() - i,
    {
        proof {
            assert(ps@.take(i + 1).drop_last() =~= ps@.take(i as int));
            assert(ps@.take(i + 1).last() == ps@[i as int]);
        }
        let mut b = u64_to_le_bytes(ps[i]);
        out.append(&mut b);
        i = i + 1;
    }
    proof {
        assert(ps@.take(ps@.len() as int) =~= ps@);
    }
    out
}

/// Decode a persisted newline index.  An image whose length is not a
/// multiple of 8 is corrupt and rejected with a distinct error kind.
pub fn decode_positions(bytes: &[u8]) -> (r: Result<Vec<u64>, DiffError>)
    ensures
        bytes@.len() % 8 == 0 ==> (r matches Ok(ps) && ps@ == spec_decode_positions(bytes@)),
        bytes@.len() % 8 != 0 ==> (r matches Err(e) && e == DiffError::InvalidNewlineIndexSize),
{
    if bytes.len() % 8 != 0 {
        return Err(DiffError::InvalidNewlineIndexSize);
    }
    let len = bytes.len();
    let n = len / 8;
    let mut ps: Vec<u64> = Vec::new();
    let mut i: usize = 0;
    while i < n
        invariant
            i <= n,
            len == bytes@.len(),
            n == len / 8,
            ps@.len() == i,
            forall|j: int|
                0 <= j < i ==> ps@[j] == spec_u64_from_le_bytes(bytes@.subrange(8 * j, 8 * j + 8)),
        decreases n - i,
    {
        assert(8 * i + 8 <= len) by {
            assert(8 * n <= len) by (nonlinear_arith)
                requires
                    n == len / 8,
            ;
            assert(8 * i + 8 <= 8 * n) by (nonlinear_arith)
                requires
                    i < n,
            ;
        }
        let p = u64_from_le_bytes(slice_subrange(bytes, 8 * i, 8 * i + 8));
        ps.push(p);
        i = i + 1;
    }
    proof {
        assert(ps@ =~= spec_decode_positions(bytes@));
    }
    Ok(ps)
}

} // verus!
