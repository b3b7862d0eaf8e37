//! Big-endian integers in byte sequences.
use vstd::prelude::*;

verus! {

/// The two big-endian bytes of `v`.
pub open spec fn u16_be(v: u16) -> Seq<u8> {
    seq![(v >> 8u16) as u8, v as u8]
}

/// The four big-endian bytes of `v`.
pub open spec fn u32_be(v: u32) -> Seq<u8> {
    seq![(v >> 24u32) as u8, (v >> 16u32) as u8, (v >> 8u32) as u8, v as u8]
}

/// The eight big-endian bytes of `v`.
pub open spec fn u64_be(v: u64) -> Seq<u8> {
    seq![
        (v >> 56u64) as u8,
        (v >> 48u64) as u8,
        (v >> 40u64) as u8,
        (v >> 32u64) as u8,
        (v >> 24u64) as u8,
        (v >> 16u64) as u8,
        (v >> 8u64) as u8,
        v as u8,
    ]
}

pub open spec fn u16_of(b0: u8, b1: u8) -> u16 {
    ((b0 as u16) << 8u16) | (b1 as u16)
}

pub open spec fn u32_of(b0: u8, b1: u8, b2: u8, b3: u8) -> u32 {
    ((b0 as u32) << 24u32) | ((b1 as u32) << 16u32) | ((b2 as u32) << 8u32) | (b3 as u32)
}

pub open spec fn u64_of(hi: u32, lo: u32) -> u64 {
    ((hi as u64) << 32u64) | (lo as u64)
}

/// The big-endian `u16` at position `i` of `s`.
pub open spec fn u16_at(s: Seq<u8>, i: int) -> u16 {
    u16_of(s[i], s[i + 1])
}

/// The big-endian `u32` at position `i` of `s`.
pub open spec fn u32_at(s: Seq<u8>, i: int) -> u32 {
    u32_of(s[i], s[i + 1], s[i + 2], s[i + 3])
}

/// The big-endian `u64` at position `i` of `s`.
pub open spec fn u64_at(s: Seq<u8>, i: int) -> u64 {
    u64_of(u32_at(s, i), u32_at(s, i + 4))
}

pub fn read_u16(b: &[u8], i: usize) -> (r: u16)
    requires
        i + 2 <= b@.len(),
    ensures
        r == u16_at(b@, i as int),
{
    ((b[i] as u16) << 8u16) | (b[i + 1] as u16)
}

pub fn read_u32(b: &[u8], i: usize) -> (r: u32)
    requires
        i + 4 <= b@.len(),
    ensures
        r == u32_at(b@, i as int),
{
    ((b[i] as u32) << 24u32) | ((b[i + 1] as u32) << 16u32) | ((b[i + 2] as u32) << 8u32) | (
    b[i + 3] as u32)
}

pub fn read_u64(b: &[u8], i: usize) -> (r: u64)
    requires
        i + 8 <= b@.len(),
    ensures
        r == u64_at(b@, i as int),
{
    let n = b.len();
    let hi = read_u32(b, i);
    let lo = read_u32(b, i + 4);
    ((hi as u64) << 32u64) | (lo as u64)
}

pub fn push_u16(out: &mut Vec<u8>, v: u16)
    ensures
        final(out)@ == old(out)@ + u16_be(v),
{
    out.push((v >> 8u16) as u8);
    out.push(v as u8);
    assert(final(out)@ =~= old(out)@ + u16_be(v));
}

pub fn push_u32(out: &mut Vec<u8>, v: u32)
    ensures
        final(out)@ == old(out)@ + u32_be(v),
{
    out.push((v >> 24u32) as u8);
    out.push((v >> 16u32) as u8);
    out.push((v >> 8u32) as u8);
    out.push(v as u8);
    assert(final(out)@ =~= old(out)@ + u32_be(v));
}

pub fn push_u64(out: &mut Vec<u8>, v: u64)
    ensures
        final(out)@ == old(out)@ + u64_be(v),
{
    out.push((v >> 56u64) as u8);
    out.push((v >> 48u64) as u8);
    out.push((v >> 40u64) as u8);
    out.push((v >> 32u64) as u8);
    out.push((v >> 24u64) as u8);
    out.push((v >> 16u64) as u8);
    out.push((v >> 8u64) as u8);
    out.push(v as u8);
    assert(final(out)@ =~= old(out)@ + u64_be(v));
}

/// Reading back the bytes of a `u16` gives the value.
pub proof fn lemma_u16_round_trip(v: u16)
    ensures
        u16_at(u16_be(v), 0) == v,
{
    let (b0, b1) = ((v >> 8u16) as u8, v as u8);
    assert(((((v >> 8u16) as u8) as u16) << 8u16) | ((v as u8) as u16) == v) by (bit_vector);
}

/// Reading back the bytes of a `u32` gives the value.
pub proof fn lemma_u32_round_trip(v: u32)
    ensures
        u32_at(u32_be(v), 0) == v,
{
    assert(((((v >> 24u32) as u8) as u32) << 24u32) | ((((v >> 16u32) as u8) as u32) << 16u32)
        | ((((v >> 8u32) as u8) as u32) << 8u32) | ((v as u8) as u32) == v) by (bit_vector);
}

/// Reading back the bytes of a `u64` gives the value.
pub proof fn lemma_u64_round_trip(v: u64)
    ensures
        u64_at(u64_be(v), 0) == v,
{
    let s = u64_be(v);
    let hi = u32_at(s, 0);
    let lo = u32_at(s, 4);
    assert(hi == (v >> 32u64) as u32) by {
        assert(((((v >> 56u64) as u8) as u32) << 24u32) | ((((v >> 48u64) as u8) as u32) << 16u32)
            | ((((v >> 40u64) as u8) as u32) << 8u32) | (((v >> 32u64) as u8) as u32) == (v
            >> 32u64) as u32) by (bit_vector);
    }
    assert(lo == v as u32) by {
        assert(((((v >> 24u64) as u8) as u32) << 24u32) | ((((v >> 16u64) as u8) as u32) << 16u32)
            | ((((v >> 8u64) as u8) as u32) << 8u32) | ((v as u8) as u32) == v as u32)
            by (bit_vector);
    }
    assert(((((v >> 32u64) as u32) as u64) << 32u64) | ((v as u32) as u64) == v) by (bit_vector);
}

/// Writing back a `u32` read from four bytes gives those bytes.
pub proof fn lemma_u32_bytes_of_read(b0: u8, b1: u8, b2: u8, b3: u8)
    ensures
        u32_be(u32_of(b0, b1, b2, b3)) == seq![b0, b1, b2, b3],
{
    let v = u32_of(b0, b1, b2, b3);
    assert((v >> 24u32) as u8 == b0 && (v >> 16u32) as u8 == b1 && (v >> 8u32) as u8 == b2
        && v as u8 == b3) by (bit_vector)
        requires
            v == ((b0 as u32) << 24u32) | ((b1 as u32) << 16u32) | ((b2 as u32) << 8u32) | (
            b3 as u32),
    ;
    assert(u32_be(v) =~= seq![b0, b1, b2, b3]);
}

} // verus!
