//! Big-endian encoding of the 32-bit fields of the wire format.
//!
//! Every multi-byte integer on the wire (a chunk's length field and its
//! checksum field) is stored as four big-endian bytes.

use vstd::prelude::*;
use vstd::slice::slice_index_get;

verus! {

/// The four big-endian bytes of a 32-bit value.
pub open spec fn spec_u32_to_be_bytes(x: u32) -> Seq<u8> {
    seq![
        ((x >> 24) & 0xff) as u8,
        ((x >> 16) & 0xff) as u8,
        ((x >> 8) & 0xff) as u8,
        (x & 0xff) as u8,
    ]
}

/// The 32-bit value read from four big-endian bytes.
pub open spec fn spec_u32_from_be_bytes(s: Seq<u8>) -> u32
    recommends
        s.len() == 4,
{
    (s[0] as u32) << 24 | (s[1] as u32) << 16 | (s[2] as u32) << 8 | (s[3] as u32)
}

/// Reading back the four big-endian bytes of a value yields the value.
pub proof fn lemma_u32_to_from_be_bytes(x: u32)
    ensures
        spec_u32_to_be_bytes(x).len() == 4,
        spec_u32_from_be_bytes(spec_u32_to_be_bytes(x)) == x,
{
    assert({
        &&& (x >> 24) & 0xff < 256
        &&& (x >> 16) & 0xff < 256
        &&& (x >> 8) & 0xff < 256
        &&& x & 0xff < 256
    }) by (bit_vector);
    assert(x == ((x >> 24) & 0xff) << 24 | ((x >> 16) & 0xff) << 16 | ((x >> 8) & 0xff) << 8 | (
    x & 0xff)) by (bit_vector);
}

/// Re-encoding the value read from four bytes yields the same four bytes.
pub proof fn lemma_u32_from_to_be_bytes(s: Seq<u8>)
    requires
        s.len() == 4,
    ensures
        spec_u32_to_be_bytes(spec_u32_from_be_bytes(s)) == s,
{
    let x = spec_u32_from_be_bytes(s);
    let s0 = s[0] as u32;
    let s1 = s[1] as u32;
    let s2 = s[2] as u32;
    let s3 = s[3] as u32;
    assert(((x == s0 << 24 | s1 << 16 | s2 << 8 | s3) && s0 < 256 && s1 < 256 && s2 < 256 && s3
        < 256) ==> s0 == (x >> 24) & 0xff && s1 == (x >> 16) & 0xff && s2 == (x >> 8) & 0xff && s3
        == x & 0xff) by (bit_vector);
    assert(spec_u32_to_be_bytes(spec_u32_from_be_bytes(s)) =~= s);
}

/// Reads the 32-bit big-endian value held by a four-byte slice.
pub fn u32_from_be_bytes(s: &[u8]) -> (x: u32)
    requires
        s@.len() == 4,
    ensures
        x == spec_u32_from_be_bytes(s@),
{
    let b0 = *slice_index_get(s, 0);
    let b1 = *slice_index_get(s, 1);
    let b2 = *slice_index_get(s, 2);
    let b3 = *slice_index_get(s, 3);
    (b0 as u32) << 24 | (b1 as u32) << 16 | (b2 as u32) << 8 | (b3 as u32)
}

/// Appends the four big-endian bytes of `x` to `out`.
pub fn push_u32_be_bytes(out: &mut Vec<u8>, x: u32)
    ensures
        final(out)@ == old(out)@ + spec_u32_to_be_bytes(x),
{
    proof {
        assert({
            &&& (x >> 24) & 0xff < 256
            &&& (x >> 16) & 0xff < 256
            &&& (x >> 8) & 0xff < 256
            &&& x & 0xff < 256
        }) by (bit_vector);
    }
    out.push(((x >> 24) & 0xff) as u8);
    out.push(((x >> 16) & 0xff) as u8);
    out.push(((x >> 8) & 0xff) as u8);
    out.push((x & 0xff) as u8);
    assert(out@ =~= old(out)@ + spec_u32_to_be_bytes(x));
}

} // verus!
