//! Big-endian byte-order conversions for the wire format.
//!
//! Every multi-byte integer on the wire is big-endian: lengths and counts are
//! 4 bytes, document identifiers are 8 bytes.

use vstd::prelude::*;

verus! {

/// The four big-endian bytes of a 32-bit value, most significant first.
pub open spec fn spec_u32_to_be_bytes(x: u32) -> Seq<u8> {
    seq![
        ((x >> 24) & 0xff) as u8,
        ((x >> 16) & 0xff) as u8,
        ((x >> 8) & 0xff) as u8,
        (x & 0xff) as u8,
    ]
}

/// The 32-bit value read from four big-endian bytes.
pub open spec fn spec_u32_from_be_bytes(s: Seq<u8>) -> u32
    recommends
        s.len() == 4,
{
    ((s[0] as u32) << 24) | ((s[1] as u32) << 16) | ((s[2] as u32) << 8) | (s[3] as u32)
}

/// The eight big-endian bytes of a 64-bit value, most significant first.
pub open spec fn spec_u64_to_be_bytes(x: u64) -> Seq<u8> {
    seq![
        ((x >> 56) & 0xff) as u8,
        ((x >> 48) & 0xff) as u8,
        ((x >> 40) & 0xff) as u8,
        ((x >> 32) & 0xff) as u8,
        ((x >> 24) & 0xff) as u8,
        ((x >> 16) & 0xff) as u8,
        ((x >> 8) & 0xff) as u8,
        (x & 0xff) as u8,
    ]
}

/// The 64-bit value read from eight big-endian bytes.
pub open spec fn spec_u64_from_be_bytes(s: Seq<u8>) -> u64
    recommends
        s.len() == 8,
{
    ((s[0] as u64) << 56) | ((s[1] as u64) << 48) | ((s[2] as u64) << 40) | ((s[3] as u64) << 32)
        | ((s[4] as u64) << 24) | ((s[5] as u64) << 16) | ((s[6] as u64) << 8) | (s[7] as u64)
}

/// Reading back the four bytes of a 32-bit value yields the value, and
/// writing the value read from four bytes yields the bytes.
pub proof fn lemma_u32_be_bytes_round_trip()
    ensures
        forall|x: u32| (#[trigger] spec_u32_to_be_bytes(x)).len() == 4,
        forall|x: u32| spec_u32_from_be_bytes(#[trigger] spec_u32_to_be_bytes(x)) == x,
        forall|s: Seq<u8>|
            s.len() == 4 ==> #[trigger] spec_u32_to_be_bytes(spec_u32_from_be_bytes(s)) == s,
{
    assert forall|x: u32| spec_u32_from_be_bytes(#[trigger] spec_u32_to_be_bytes(x)) == x by {
        assert((x >> 24) & 0xff < 256 && (x >> 16) & 0xff < 256 && (x >> 8) & 0xff < 256 && x
            & 0xff < 256) by (bit_vector);
        assert(((x >> 24) & 0xff) << 24 | ((x >> 16) & 0xff) << 16 | ((x >> 8) & 0xff) << 8 | (x
            & 0xff) == x) by (bit_vector);
    }
    assert forall|s: Seq<u8>|
        s.len() == 4 implies #[trigger] spec_u32_to_be_bytes(spec_u32_from_be_bytes(s)) == s by {
        let x = spec_u32_from_be_bytes(s);
        let s0 = s[0] as u32;
        let s1 = s[1] as u32;
        let s2 = s[2] as u32;
        let s3 = s[3] as u32;
        assert(((x == (s0 << 24) | (s1 << 16) | (s2 << 8) | s3) && s0 < 256 && s1 < 256 && s2 < 256
            && s3 < 256) ==> (s0 == (x >> 24) & 0xff && s1 == (x >> 16) & 0xff && s2 == (x >> 8)
            & 0xff && s3 == x & 0xff)) by (bit_vector);
        assert(spec_u32_to_be_bytes(spec_u32_from_be_bytes(s)) =~= s);
    }
}

/// Reading back the eight bytes of a 64-bit value yields the value, and
/// writing the value read from eight bytes yields the bytes.
pub proof fn lemma_u64_be_bytes_round_trip()
    ensures
        forall|x: u64| (#[trigger] spec_u64_to_be_bytes(x)).len() == 8,
        forall|x: u64| spec_u64_from_be_bytes(#[trigger] spec_u64_to_be_bytes(x)) == x,
        forall|s: Seq<u8>|
            s.len() == 8 ==> #[trigger] spec_u64_to_be_bytes(spec_u64_from_be_bytes(s)) == s,
{
    assert forall|x: u64| spec_u64_from_be_bytes(#[trigger] spec_u64_to_be_bytes(x)) == x by {
        assert((x >> 56) & 0xff < 256 && (x >> 48) & 0xff < 256 && (x >> 40) & 0xff < 256 && (x
            >> 32) & 0xff < 256 && (x >> 24) & 0xff < 256 && (x >> 16) & 0xff < 256 && (x >> 8)
            & 0xff < 256 && x & 0xff < 256) by (bit_vector);
        assert(((x >> 56) & 0xff) << 56 | ((x >> 48) & 0xff) << 48 | ((x >> 40) & 0xff) << 40 | ((x
            >> 32) & 0xff) << 32 | ((x >> 24) & 0xff) << 24 | ((x >> 16) & 0xff) << 16 | ((x >> 8)
            & 0xff) << 8 | (x & 0xff) == x) by (bit_vector);
    }
    assert forall|s: Seq<u8>|
        s.len() == 8 implies #[trigger] spec_u64_to_be_bytes(spec_u64_from_be_bytes(s)) == s by {
        let x = spec_u64_from_be_bytes(s);
        let s0 = s[0] as u64;
        let s1 = s[1] as u64;
        let s2 = s[2] as u64;
        let s3 = s[3] as u64;
        let s4 = s[4] as u64;
        let s5 = s[5] as u64;
        let s6 = s[6] as u64;
        let s7 = s[7] as u64;
        assert(((x == (s0 << 56) | (s1 << 48) | (s2 << 40) | (s3 << 32) | (s4 << 24) | (s5 << 16)
            | (s6 << 8) | s7) && s0 < 256 && s1 < 256 && s2 < 256 && s3 < 256 && s4 < 256 && s5
            < 256 && s6 < 256 && s7 < 256) ==> (s0 == (x >> 56) & 0xff && s1 == (x >> 48) & 0xff
            && s2 == (x >> 40) & 0xff && s3 == (x >> 32) & 0xff && s4 == (x >> 24) & 0xff && s5
            == (x >> 16) & 0xff && s6 == (x >> 8) & 0xff && s7 == x & 0xff)) by (bit_vector);
        assert(spec_u64_to_be_bytes(spec_u64_from_be_bytes(s)) =~= s);
    }
}

/// Append the four big-endian bytes of `x` to `out`.
pub fn push_u32_be(out: &mut Vec<u8>, x: u32)
    ensures
        final(out)@ == old(out)@ + spec_u32_to_be_bytes(x),
{
    out.push(((x >> 24) & 0xff) as u8);
    out.push(((x >> 16) & 0xff) as u8);
    out.push(((x >> 8) & 0xff) as u8);
    out.push((x & 0xff) as u8);
    assert(out@ =~= old(out)@ + spec_u32_to_be_bytes(x));
}

/// Append the eight big-endian bytes of `x` to `out`.
pub fn push_u64_be(out: &mut Vec<u8>, x: u64)
    ensures
        final(out)@ == old(out)@ + spec_u64_to_be_bytes(x),
{
    out.push(((x >> 56) & 0xff) as u8);
    out.push(((x >> 48) & 0xff) as u8);
    out.push(((x >> 40) & 0xff) as u8);
    out.push(((x >> 32) & 0xff) as u8);
    out.push(((x >> 24) & 0xff) as u8);
    out.push(((x >> 16) & 0xff) as u8);
    out.push(((x >> 8) & 0xff) as u8);
    out.push((x & 0xff) as u8);
    assert(out@ =~= old(out)@ + spec_u64_to_be_bytes(x));
}

/// Append every byte of `src` to `out`, in order.
pub fn push_bytes(out: &mut Vec<u8>, src: &[u8])
    ensures
        final(out)@ == old(out)@ + src@,
{
    let mut i: usize = 0;
    while i < src.len()
        invariant
            i <= src@.len(),
            out@ == old(out)@ + src@.subrange(0, i as int),
        decreases src@.len() - i,
    {
        out.push(src[i]);
        i = i + 1;
        assert(out@ =~= old(out)@ + src@.subrange(0, i as int));
    }
    assert(out@ =~= old(out)@ + src@);
}

/// Read the 32-bit value whose big-endian bytes sit at `at .. at + 4` in `bytes`.
pub fn read_u32_be(bytes: &[u8], at: usize) -> (x: u32)
    requires
        at + 4 <= bytes@.len(),
    ensures
        x == spec_u32_from_be_bytes(bytes@.subrange(at as int, at + 4)),
{
    let x = ((bytes[at] as u32) << 24) | ((bytes[at + 1] as u32) << 16) | ((bytes[at
        + 2] as u32) << 8) | (bytes[at + 3] as u32);
    proof {
        let s = bytes@.subrange(at as int, at + 4);
        assert(s[0] == bytes@[at as int] && s[1] == bytes@[at + 1] && s[2] == bytes@[at + 2] && s[3]
            == bytes@[at + 3]);
    }
    x
}

/// Read the 64-bit value whose big-endian bytes sit at `at .. at + 8` in `bytes`.
pub fn read_u64_be(bytes: &[u8], at: usize) -> (x: u64)
    requires
        at + 8 <= bytes@.len(),
    ensures
        x == spec_u64_from_be_bytes(bytes@.subrange(at as int, at + 8)),
{
    let x = ((bytes[at] as u64) << 56) | ((bytes[at + 1] as u64) << 48) | ((bytes[at
        + 2] as u64) << 40) | ((bytes[at + 3] as u64) << 32) | ((bytes[at + 4] as u64) << 24) | ((
    bytes[at + 5] as u64) << 16) | ((bytes[at + 6] as u64) << 8) | (bytes[at + 7] as u64);
    proof {
        let s = bytes@.subrange(at as int, at + 8);
        assert(s[0] == bytes@[at as int] && s[1] == bytes@[at + 1] && s[2] == bytes@[at + 2] && s[3]
            == bytes@[at + 3] && s[4] == bytes@[at + 4] && s[5] == bytes@[at + 5] && s[6] == bytes@[
        at + 6] && s[7] == bytes@[at + 7]);
    }
    x
}

} // verus!
