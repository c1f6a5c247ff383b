use vstd::prelude::*;

verus! {

/// Canonical little-endian encoding of a 64-bit integer.
pub open spec fn u64_le_bytes(x: u64) -> Seq<u8> {
    seq![
        (x & 0xff) as u8,
        ((x >> 8) & 0xff) as u8,
        ((x >> 16) & 0xff) as u8,
        ((x >> 24) & 0xff) as u8,
        ((x >> 32) & 0xff) as u8,
        ((x >> 40) & 0xff) as u8,
        ((x >> 48) & 0xff) as u8,
        ((x >> 56) & 0xff) as u8,
    ]
}

/// The 64-bit integer read back from 8 little-endian bytes.
pub open spec fn u64_from_le(b: Seq<u8>) -> u64 {
    (b[0] as u64) | ((b[1] as u64) << 8) | ((b[2] as u64) << 16) | ((b[3] as u64) << 24) | ((
    b[4] as u64) << 32) | ((b[5] as u64) << 40) | ((b[6] as u64) << 48) | ((b[7] as u64) << 56)
}

pub proof fn lemma_u64_le_roundtrip(x: u64)
    ensures
        u64_from_le(u64_le_bytes(x)) == x,
{
    let b = u64_le_bytes(x);
    assert(b[0] == (x & 0xff) as u8);
    assert(b[1] == ((x >> 8) & 0xff) as u8);
    assert(b[2] == ((x >> 16) & 0xff) as u8);
    assert(b[3] == ((x >> 24) & 0xff) as u8);
    assert(b[4] == ((x >> 32) & 0xff) as u8);
    assert(b[5] == ((x >> 40) & 0xff) as u8);
    assert(b[6] == ((x >> 48) & 0xff) as u8);
    assert(b[7] == ((x >> 56) & 0xff) as u8);
    assert(((x & 0xff) as u8 as u64) | ((((x >> 8) & 0xff) as u8 as u64) << 8) | ((((x >> 16)
        & 0xff) as u8 as u64) << 16) | ((((x >> 24) & 0xff) as u8 as u64) << 24) | ((((x >> 32)
        & 0xff) as u8 as u64) << 32) | ((((x >> 40) & 0xff) as u8 as u64) << 40) | ((((x >> 48)
        & 0xff) as u8 as u64) << 48) | ((((x >> 56) & 0xff) as u8 as u64) << 56) == x)
        by (bit_vector);
}

/// Appends the canonical encoding of `x` to `out`.
pub fn encode_u64_le(out: &mut Vec<u8>, x: u64)
    ensures
        final(out)@ == old(out)@ + u64_le_bytes(x),
{
    let ghost prior = out@;
    out.push(#[verifier::truncate] ((x & 0xff) as u8));
    out.push(#[verifier::truncate] (((x >> 8) & 0xff) as u8));
    out.push(#[verifier::truncate] (((x >> 16) & 0xff) as u8));
    out.push(#[verifier::truncate] (((x >> 24) & 0xff) as u8));
    out.push(#[verifier::truncate] (((x >> 32) & 0xff) as u8));
    out.push(#[verifier::truncate] (((x >> 40) & 0xff) as u8));
    out.push(#[verifier::truncate] (((x >> 48) & 0xff) as u8));
    out.push(#[verifier::truncate] (((x >> 56) & 0xff) as u8));
    proof {
        assert(x & 0xff == (x & 0xff) as u8 as u64) by (bit_vector);
        assert((x >> 8) & 0xff == ((x >> 8) & 0xff) as u8 as u64) by (bit_vector);
        assert((x >> 16) & 0xff == ((x >> 16) & 0xff) as u8 as u64) by (bit_vector);
        assert((x >> 24) & 0xff == ((x >> 24) & 0xff) as u8 as u64) by (bit_vector);
        assert((x >> 32) & 0xff == ((x >> 32) & 0xff) as u8 as u64) by (bit_vector);
        assert((x >> 40) & 0xff == ((x >> 40) & 0xff) as u8 as u64) by (bit_vector);
        assert((x >> 48) & 0xff == ((x >> 48) & 0xff) as u8 as u64) by (bit_vector);
        assert((x >> 56) & 0xff == ((x >> 56) & 0xff) as u8 as u64) by (bit_vector);
        assert(out@ =~= prior + u64_le_bytes(x));
    }
}

/// Reads the 64-bit integer encoded at `pos`.
pub fn decode_u64_le(bytes: &Vec<u8>, pos: usize) -> (r: u64)
    requires
        pos + 8 <= bytes@.len(),
    ensures
        r == u64_from_le(bytes@.subrange(pos as int, pos as int + 8)),
{
    let n = bytes.len();
    let r = (bytes[pos] as u64) | ((bytes[pos + 1] as u64) << 8) | ((bytes[pos + 2] as u64) << 16)
        | ((bytes[pos + 3] as u64) << 24) | ((bytes[pos + 4] as u64) << 32) | ((bytes[pos
        + 5] as u64) << 40) | ((bytes[pos + 6] as u64) << 48) | ((bytes[pos + 7] as u64) << 56);
    proof {
        let s = bytes@.subrange(pos as int, pos as int + 8);
        assert(s[0] == bytes@[pos as int]);
        assert(s[1] == bytes@[pos as int + 1]);
        assert(s[2] == bytes@[pos as int + 2]);
        assert(s[3] == bytes@[pos as int + 3]);
        assert(s[4] == bytes@[pos as int + 4]);
        assert(s[5] == bytes@[pos as int + 5]);
        assert(s[6] == bytes@[pos as int + 6]);
        assert(s[7] == bytes@[pos as int + 7]);
    }
    r
}

/// Canonical little-endian encoding of a 128-bit integer: the low half
/// followed by the high half.
pub open spec fn u128_le_bytes(x: u128) -> Seq<u8> {
    u64_le_bytes((x & 0xffff_ffff_ffff_ffff) as u64) + u64_le_bytes((x >> 64) as u64)
}

/// The 128-bit integer read back from 16 little-endian bytes.
pub open spec fn u128_from_le(b: Seq<u8>) -> u128 {
    (u64_from_le(b.subrange(0, 8)) as u128) | ((u64_from_le(b.subrange(8, 16)) as u128) << 64)
}

pub proof fn lemma_u128_le_roundtrip(x: u128)
    ensures
        u128_from_le(u128_le_bytes(x)) == x,
{
    let lo = (x & 0xffff_ffff_ffff_ffff) as u64;
    let hi = (x >> 64) as u64;
    let b = u128_le_bytes(x);
    assert(b.subrange(0, 8) =~= u64_le_bytes(lo));
    assert(b.subrange(8, 16) =~= u64_le_bytes(hi));
    lemma_u64_le_roundtrip(lo);
    lemma_u64_le_roundtrip(hi);
    assert(((x & 0xffff_ffff_ffff_ffff) as u64 as u128) | (((x >> 64) as u64 as u128) << 64) == x)
        by (bit_vector);
}

/// Appends the canonical encoding of `x` to `out`.
pub fn encode_u128_le(out: &mut Vec<u8>, x: u128)
    ensures
        final(out)@ == old(out)@ + u128_le_bytes(x),
{
    let ghost prior = out@;
    let lo = #[verifier::truncate] ((x & 0xffff_ffff_ffff_ffff) as u64);
    let hi = #[verifier::truncate] ((x >> 64) as u64);
    proof {
        assert(lo == (x & 0xffff_ffff_ffff_ffff) as u64 && hi == (x >> 64) as u64);
    }
    encode_u64_le(out, lo);
    encode_u64_le(out, hi);
    proof {
        assert(out@ =~= prior + u128_le_bytes(x));
    }
}

/// Reads the 128-bit integer encoded at `pos`.
pub fn decode_u128_le(bytes: &Vec<u8>, pos: usize) -> (r: u128)
    requires
        pos + 16 <= bytes@.len(),
    ensures
        r == u128_from_le(bytes@.subrange(pos as int, pos as int + 16)),
{
    let n = bytes.len();
    let lo = decode_u64_le(bytes, pos);
    let hi = decode_u64_le(bytes, pos + 8);
    let r = (lo as u128) | ((hi as u128) << 64);
    proof {
        let s = bytes@.subrange(pos as int, pos as int + 16);
        assert(s.subrange(0, 8) =~= bytes@.subrange(pos as int, pos as int + 8));
        assert(s.subrange(8, 16) =~= bytes@.subrange(pos as int + 8, pos as int + 16));
    }
    r
}

/// Canonical length prefix: a 32-bit count in little-endian order.
pub open spec fn u32_le_bytes(x: u32) -> Seq<u8> {
    seq![
        (x & 0xff) as u8,
        ((x >> 8) & 0xff) as u8,
        ((x >> 16) & 0xff) as u8,
        ((x >> 24) & 0xff) as u8,
    ]
}

/// The 32-bit count read back from 4 little-endian bytes.
pub open spec fn u32_from_le(b: Seq<u8>) -> u32 {
    (b[0] as u32) | ((b[1] as u32) << 8) | ((b[2] as u32) << 16) | ((b[3] as u32) << 24)
}

pub proof fn lemma_u32_le_roundtrip(x: u32)
    ensures
        u32_from_le(u32_le_bytes(x)) == x,
{
    let b = u32_le_bytes(x);
    assert(b[0] == (x & 0xff) as u8);
    assert(b[1] == ((x >> 8) & 0xff) as u8);
    assert(b[2] == ((x >> 16) & 0xff) as u8);
    assert(b[3] == ((x >> 24) & 0xff) as u8);
    assert(((x & 0xff) as u8 as u32) | ((((x >> 8) & 0xff) as u8 as u32) << 8) | ((((x >> 16)
        & 0xff) as u8 as u32) << 16) | ((((x >> 24) & 0xff) as u8 as u32) << 24) == x)
        by (bit_vector);
}

/// Appends the canonical encoding of `x` to `out`.
pub fn encode_u32_le(out: &mut Vec<u8>, x: u32)
    ensures
        final(out)@ == old(out)@ + u32_le_bytes(x),
{
    let ghost prior = out@;
    out.push(#[verifier::truncate] ((x & 0xff) as u8));
    out.push(#[verifier::truncate] (((x >> 8) & 0xff) as u8));
    out.push(#[verifier::truncate] (((x >> 16) & 0xff) as u8));
    out.push(#[verifier::truncate] (((x >> 24) & 0xff) as u8));
    proof {
        assert(x & 0xff == (x & 0xff) as u8 as u32) by (bit_vector);
        assert((x >> 8) & 0xff == ((x >> 8) & 0xff) as u8 as u32) by (bit_vector);
        assert((x >> 16) & 0xff == ((x >> 16) & 0xff) as u8 as u32) by (bit_vector);
        assert((x >> 24) & 0xff == ((x >> 24) & 0xff) as u8 as u32) by (bit_vector);
        assert(out@ =~= prior + u32_le_bytes(x));
    }
}

/// Reads the 32-bit count encoded at `pos`.
pub fn decode_u32_le(bytes: &Vec<u8>, pos: usize) -> (r: u32)
    requires
        pos + 4 <= bytes@.len(),
    ensures
        r == u32_from_le(bytes@.subrange(pos as int, pos as int + 4)),
{
    let n = bytes.len();
    let r = (bytes[pos] as u32) | ((bytes[pos + 1] as u32) << 8) | ((bytes[pos + 2] as u32) << 16)
        | ((bytes[pos + 3] as u32) << 24);
    proof {
        let s = bytes@.subrange(pos as int, pos as int + 4);
        assert(s[0] == bytes@[pos as int]);
        assert(s[1] == bytes@[pos as int + 1]);
        assert(s[2] == bytes@[pos as int + 2]);
        assert(s[3] == bytes@[pos as int + 3]);
    }
    r
}

} // verus!
