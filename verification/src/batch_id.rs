use vstd::prelude::*;

use crate::canonical::{
    decode_u64_le, encode_u64_le, lemma_u64_le_roundtrip, u64_from_le, u64_le_bytes,
};

verus! {

/// Identity of one broadcast batch: the peer's timeline position before the
/// batch and the position the batch advances it to. Serialized canonically
/// into the wire-level request identifier, which receivers treat as opaque.
#[derive(Clone, Copy, PartialEq, Eq, Structural, Hash, Debug)]
pub struct BatchId(pub u64, pub u64);

/// Canonical serialization of a batch identity: both positions in
/// little-endian order, start first.
pub open spec fn spec_serialize_batch_id(b: BatchId) -> Seq<u8> {
    u64_le_bytes(b.0) + u64_le_bytes(b.1)
}

/// The batch identity read back from a request identifier; `None` when the
/// identifier is not 16 bytes long.
pub open spec fn spec_deserialize_batch_id(bytes: Seq<u8>) -> Option<BatchId> {
    if bytes.len() == 16 {
        Some(BatchId(u64_from_le(bytes.subrange(0, 8)), u64_from_le(bytes.subrange(8, 16))))
    } else {
        None
    }
}

pub fn serialize_batch_id(b: &BatchId) -> (r: Vec<u8>)
    ensures
        r@ == spec_serialize_batch_id(*b),
{
    let mut out: Vec<u8> = Vec::new();
    encode_u64_le(&mut out, b.0);
    encode_u64_le(&mut out, b.1);
    proof {
        assert(out@ =~= spec_serialize_batch_id(*b));
    }
    out
}

pub fn deserialize_batch_id(bytes: &Vec<u8>) -> (r: Option<BatchId>)
    ensures
        r == spec_deserialize_batch_id(bytes@),
{
    if bytes.len() != 16 {
        return None;
    }
    let start = decode_u64_le(bytes, 0);
    let end = decode_u64_le(bytes, 8);
    Some(BatchId(start, end))
}

/// A request identifier always reads back as the batch identity it was made
/// from.
pub proof fn lemma_batch_id_roundtrip(b: BatchId)
    ensures
        spec_deserialize_batch_id(spec_serialize_batch_id(b)) == Some(b),
{
    let s = spec_serialize_batch_id(b);
    assert(s.subrange(0, 8) =~= u64_le_bytes(b.0));
    assert(s.subrange(8, 16) =~= u64_le_bytes(b.1));
    lemma_u64_le_roundtrip(b.0);
    lemma_u64_le_roundtrip(b.1);
}

} // verus!
