//! Big-endian byte encoding of 64-bit integers.
//!
//! The published-segment footer and the metadata blob store every integer as
//! eight big-endian bytes; this module holds the conversions and their
//! round-trip facts.

use vstd::prelude::*;

verus! {

/// The eight big-endian bytes of `x`, most significant first.
pub open spec fn spec_u64_to_be_bytes(x: u64) -> Seq<u8> {
    seq![
        ((x >> 56) & 0xff) as u8,
        ((x >> 48) & 0xff) as u8,
        ((x >> 40) & 0xff) as u8,
        ((x >> 32) & 0xff) as u8,
        ((x >> 24) & 0xff) as u8,
        ((x >> 16) & 0xff) as u8,
        ((x >> 8) & 0xff) as u8,
        (x & 0xff) as u8,
    ]
}

/// The value of eight big-endian bytes, most significant first.
pub open spec fn spec_u64_from_be_bytes(s: Seq<u8>) -> u64
    recommends
        s.len() == 8,
{
    ((s[0] as u64) << 56) | ((s[1] as u64) << 48) | ((s[2] as u64) << 40) | ((s[3] as u64) << 32)
        | ((s[4] as u64) << 24) | ((s[5] as u64) << 16) | ((s[6] as u64) << 8) | (s[7] as u64)
}

/// Encoding and decoding eight big-endian bytes invert each other.
pub proof fn lemma_u64_to_from_be_bytes(x: u64)
    ensures
        spec_u64_to_be_bytes(x).len() == 8,
        spec_u64_from_be_bytes(spec_u64_to_be_bytes(x)) == x,
{
    assert(((((x >> 56) & 0xff) as u8) as u64) << 56 | ((((x >> 48) & 0xff) as u8) as u64) << 48
        | ((((x >> 40) & 0xff) as u8) as u64) << 40 | ((((x >> 32) & 0xff) as u8) as u64) << 32
        | ((((x >> 24) & 0xff) as u8) as u64) << 24 | ((((x >> 16) & 0xff) as u8) as u64) << 16
        | ((((x >> 8) & 0xff) as u8) as u64) << 8 | (((x & 0xff) as u8) as u64) == x)
        by (bit_vector);
}

/// Appends the eight big-endian bytes of `x` to a buffer.
pub fn u64_write_be_bytes(out: &mut Vec<u8>, x: u64)
    ensures
        final(out)@ == old(out)@ + spec_u64_to_be_bytes(x),
{
    proof {
        assert((x >> 56) & 0xff < 256 && (x >> 48) & 0xff < 256 && (x >> 40) & 0xff < 256 && (x
            >> 32) & 0xff < 256 && (x >> 24) & 0xff < 256 && (x >> 16) & 0xff < 256 && (x >> 8)
            & 0xff < 256 && x & 0xff < 256) by (bit_vector);
    }
    out.push(((x >> 56) & 0xff) as u8);
    out.push(((x >> 48) & 0xff) as u8);
    out.push(((x >> 40) & 0xff) as u8);
    out.push(((x >> 32) & 0xff) as u8);
    out.push(((x >> 24) & 0xff) as u8);
    out.push(((x >> 16) & 0xff) as u8);
    out.push(((x >> 8) & 0xff) as u8);
    out.push((x & 0xff) as u8);
    proof {
        assert(out@ =~= old(out)@ + spec_u64_to_be_bytes(x));
    }
}

/// Reads a big-endian integer from eight bytes of a slice.
pub fn u64_read_be_bytes(buf: &[u8], at: usize) -> (x: u64)
    requires
        at + 8 <= buf@.len(),
    ensures
        x == spec_u64_from_be_bytes(buf@.subrange(at as int, at + 8)),
{
    let n: usize = buf.len();
    assert(at + 8 <= n);
    let b0 = *vstd::slice::slice_index_get(buf, at);
    let b1 = *vstd::slice::slice_index_get(buf, at + 1);
    let b2 = *vstd::slice::slice_index_get(buf, at + 2);
    let b3 = *vstd::slice::slice_index_get(buf, at + 3);
    let b4 = *vstd::slice::slice_index_get(buf, at + 4);
    let b5 = *vstd::slice::slice_index_get(buf, at + 5);
    let b6 = *vstd::slice::slice_index_get(buf, at + 6);
    let b7 = *vstd::slice::slice_index_get(buf, at + 7);
    let x = ((b0 as u64) << 56u64) | ((b1 as u64) << 48u64) | ((b2 as u64) << 40u64) | ((b3
        as u64) << 32u64) | ((b4 as u64) << 24u64) | ((b5 as u64) << 16u64) | ((b6 as u64)
        << 8u64) | (b7 as u64);
    proof {
        let s = buf@.subrange(at as int, at + 8);
        assert(s[0] == b0 && s[1] == b1 && s[2] == b2 && s[3] == b3 && s[4] == b4 && s[5] == b5
            && s[6] == b6 && s[7] == b7);
    }
    x
}

} // verus!
