//! Little-endian encoding and decoding of the fixed-width integers that
//! the file format uses: 4-byte and 8-byte fields.

use vstd::prelude::*;

verus! {

broadcast use vstd::slice::group_slice_axioms;

/// The four little-endian bytes of a 32-bit value.
pub open spec fn u32_le(v: u32) -> Seq<u8> {
    seq![
        (v & 0xff) as u8,
        ((v >> 8) & 0xff) as u8,
        ((v >> 16) & 0xff) as u8,
        ((v >> 24) & 0xff) as u8,
    ]
}

/// The eight little-endian bytes of a 64-bit value.
pub open spec fn u64_le(v: u64) -> Seq<u8> {
    seq![
        (v & 0xff) as u8,
        ((v >> 8) & 0xff) as u8,
        ((v >> 16) & 0xff) as u8,
        ((v >> 24) & 0xff) as u8,
        ((v >> 32) & 0xff) as u8,
        ((v >> 40) & 0xff) as u8,
        ((v >> 48) & 0xff) as u8,
        ((v >> 56) & 0xff) as u8,
    ]
}

/// The 32-bit value held by four little-endian bytes.
pub open spec fn u32_of_le(s: Seq<u8>) -> u32
    recommends
        s.len() == 4,
{
    (s[0] as u32) | ((s[1] as u32) << 8) | ((s[2] as u32) << 16) | ((s[3] as u32) << 24)
}

/// The 64-bit value held by eight little-endian bytes.
pub open spec fn u64_of_le(s: Seq<u8>) -> u64
    recommends
        s.len() == 8,
{
    (s[0] as u64) | ((s[1] as u64) << 8) | ((s[2] as u64) << 16) | ((s[3] as u64) << 24)
        | ((s[4] as u64) << 32) | ((s[5] as u64) << 40) | ((s[6] as u64) << 48)
        | ((s[7] as u64) << 56)
}

/// Decoding inverts encoding for 32-bit values.
pub proof fn lemma_u32_le_roundtrip(v: u32)
    ensures
        u32_of_le(u32_le(v)) == v,
{
    assert((((v & 0xff) as u8) as u32) | (((((v >> 8) & 0xff) as u8) as u32) << 8)
        | (((((v >> 16) & 0xff) as u8) as u32) << 16) | (((((v >> 24) & 0xff) as u8) as u32)
        << 24) == v) by (bit_vector);
}

/// Decoding inverts encoding for 64-bit values.
pub proof fn lemma_u64_le_roundtrip(v: u64)
    ensures
        u64_of_le(u64_le(v)) == v,
{
    assert((((v & 0xff) as u8) as u64) | (((((v >> 8) & 0xff) as u8) as u64) << 8)
        | (((((v >> 16) & 0xff) as u8) as u64) << 16) | (((((v >> 24) & 0xff) as u8) as u64)
        << 24) | (((((v >> 32) & 0xff) as u8) as u64) << 32) | (((((v >> 40) & 0xff) as u8)
        as u64) << 40) | (((((v >> 48) & 0xff) as u8) as u64) << 48) | (((((v >> 56) & 0xff)
        as u8) as u64) << 56) == v) by (bit_vector);
}

/// A 64-bit signed value survives the trip through its unsigned bit pattern.
pub proof fn lemma_i64_bits_roundtrip(v: i64)
    ensures
        ((v as u64) as i64) == v,
{
    assert(((v as u64) as i64) == v) by (bit_vector);
}

/// Appends the four little-endian bytes of `v`.
pub fn push_u32_le(out: &mut Vec<u8>, v: u32)
    ensures
        final(out)@ == old(out)@ + u32_le(v),
{
    out.push((v & 0xff) as u8);
    out.push(((v >> 8) & 0xff) as u8);
    out.push(((v >> 16) & 0xff) as u8);
    out.push(((v >> 24) & 0xff) as u8);
    proof {
        assert(out@ =~= old(out)@ + u32_le(v));
    }
}

/// Appends the eight little-endian bytes of `v`.
pub fn push_u64_le(out: &mut Vec<u8>, v: u64)
    ensures
        final(out)@ == old(out)@ + u64_le(v),
{
    out.push((v & 0xff) as u8);
    out.push(((v >> 8) & 0xff) as u8);
    out.push(((v >> 16) & 0xff) as u8);
    out.push(((v >> 24) & 0xff) as u8);
    out.push(((v >> 32) & 0xff) as u8);
    out.push(((v >> 40) & 0xff) as u8);
    out.push(((v >> 48) & 0xff) as u8);
    out.push(((v >> 56) & 0xff) as u8);
    proof {
        assert(out@ =~= old(out)@ + u64_le(v));
    }
}

/// Reads the 32-bit value at `pos`.
pub fn read_u32_le(bytes: &[u8], pos: usize) -> (r: u32)
    requires
        pos + 4 <= bytes@.len(),
    ensures
        r == u32_of_le(bytes@.subrange(pos as int, pos as int + 4)),
{
    let n = bytes.len();
    proof {
        assert(pos + 4 <= n);
    }
    let b0 = *vstd::slice::slice_index_get(bytes, pos);
    let b1 = *vstd::slice::slice_index_get(bytes, pos + 1);
    let b2 = *vstd::slice::slice_index_get(bytes, pos + 2);
    let b3 = *vstd::slice::slice_index_get(bytes, pos + 3);
    let r = (b0 as u32) | ((b1 as u32) << 8) | ((b2 as u32) << 16) | ((b3 as u32) << 24);
    proof {
        let s = bytes@.subrange(pos as int, pos as int + 4);
        assert(s[0] == bytes@[pos as int]);
        assert(s[1] == bytes@[pos as int + 1]);
        assert(s[2] == bytes@[pos as int + 2]);
        assert(s[3] == bytes@[pos as int + 3]);
    }
    r
}

/// Reads the 64-bit value at `pos`.
pub fn read_u64_le(bytes: &[u8], pos: usize) -> (r: u64)
    requires
        pos + 8 <= bytes@.len(),
    ensures
        r == u64_of_le(bytes@.subrange(pos as int, pos as int + 8)),
{
    let n = bytes.len();
    proof {
        assert(pos + 8 <= n);
    }
    let b0 = *vstd::slice::slice_index_get(bytes, pos);
    let b1 = *vstd::slice::slice_index_get(bytes, pos + 1);
    let b2 = *vstd::slice::slice_index_get(bytes, pos + 2);
    let b3 = *vstd::slice::slice_index_get(bytes, pos + 3);
    let b4 = *vstd::slice::slice_index_get(bytes, pos + 4);
    let b5 = *vstd::slice::slice_index_get(bytes, pos + 5);
    let b6 = *vstd::slice::slice_index_get(bytes, pos + 6);
    let b7 = *vstd::slice::slice_index_get(bytes, pos + 7);
    let r = (b0 as u64) | ((b1 as u64) << 8) | ((b2 as u64) << 16) | ((b3 as u64) << 24)
        | ((b4 as u64) << 32) | ((b5 as u64) << 40) | ((b6 as u64) << 48) | ((b7 as u64) << 56);
    proof {
        let s = bytes@.subrange(pos as int, pos as int + 8);
        assert(s[0] == bytes@[pos as int]);
        assert(s[1] == bytes@[pos as int + 1]);
        assert(s[2] == bytes@[pos as int + 2]);
        assert(s[3] == bytes@[pos as int + 3]);
        assert(s[4] == bytes@[pos as int + 4]);
        assert(s[5] == bytes@[pos as int + 5]);
        assert(s[6] == bytes@[pos as int + 6]);
        assert(s[7] == bytes@[pos as int + 7]);
    }
    r
}

} // verus!
