//! Chunk coordinates, region coordinates and the index of a chunk inside its region.
use vstd::prelude::*;

verus! {

/// Side of a region in chunks.
pub const REGION_SIZE: usize = 32;

/// Number of chunks in one region.
pub const CHUNK_COUNT: usize = 1024;

/// Offset that makes every `i32` non-negative; a multiple of the region side.
const SHIFT_OFFSET: i64 = 2147483648;

/// The region coordinate of a chunk coordinate: floor division by 32,
/// which is what an arithmetic shift right by five computes.
pub open spec fn region_of(v: int) -> int {
    v / 32
}

/// The position of a chunk coordinate inside its region, in `[0, 32)`;
/// this is `v & 31` in two's complement.
pub open spec fn local_of(v: int) -> int {
    v % 32
}

/// Index of chunk `(x, z)` in the 32x32 grid of its region.
pub open spec fn index_of(x: int, z: int) -> int {
    local_of(z) * 32 + local_of(x)
}

/// Region coordinate of one axis: `v >> 5`.
pub fn region_axis(v: i32) -> (r: i32)
    ensures
        r as int == region_of(v as int),
{
    let shifted: i64 = v as i64 + SHIFT_OFFSET;
    let q: i64 = shifted / 32;
    (q - 67108864) as i32
}

/// Local coordinate of one axis: `v & 31`.
#[verifier::rlimit(30)]
pub fn local_axis(v: i32) -> (r: usize)
    ensures
        r as int == local_of(v as int),
        r < 32,
{
    let shifted: i64 = v as i64 + SHIFT_OFFSET;
    (shifted % 32) as usize
}

/// Region coordinates `(x >> 5, z >> 5)` of chunk `(x, z)`.
pub fn get_region_coords(x: i32, z: i32) -> (r: (i32, i32))
    ensures
        r.0 as int == region_of(x as int),
        r.1 as int == region_of(z as int),
{
    (region_axis(x), region_axis(z))
}

/// Index `((z & 31) << 5) | (x & 31)` of chunk `(x, z)` inside its region.
pub fn get_chunk_index(x: i32, z: i32) -> (r: usize)
    ensures
        r as int == index_of(x as int, z as int),
        r as int == ((((z & 31i32) << 5i32) | (x & 31i32)) as int),
        r < CHUNK_COUNT,
{
    proof {
        lemma_bitwise_index(x, z);
    }
    let lx = local_axis(x);
    let lz = local_axis(z);
    lz * 32 + lx
}

/// Grid indexing: the region coordinates and the index inside the region
/// together identify a chunk, and the index lies in `[0, 1024)`.
pub proof fn lemma_grid_indexing(x1: int, z1: int, x2: int, z2: int)
    ensures
        0 <= index_of(x1, z1) < 1024,
        (region_of(x1) == region_of(x2) && region_of(z1) == region_of(z2) && index_of(x1, z1)
            == index_of(x2, z2)) ==> (x1 == x2 && z1 == z2),
{
    let (a, b) = (local_of(x1), local_of(z1));
    let (c, d) = (local_of(x2), local_of(z2));
    assert(x1 == 32 * region_of(x1) + a);
    assert(x2 == 32 * region_of(x2) + c);
    assert(z1 == 32 * region_of(z1) + b);
    assert(z2 == 32 * region_of(z2) + d);
    if b * 32 + a == d * 32 + c {
        assert(a == c && b == d) by (nonlinear_arith)
            requires
                b * 32 + a == d * 32 + c,
                0 <= a < 32,
                0 <= b < 32,
                0 <= c < 32,
                0 <= d < 32,
        ;
    }
}

proof fn lemma_low_bits_nonneg(w: i32)
    requires
        w >= 0,
    ensures
        (w & 31i32) as int == (w as int) % 32,
        0 <= (w & 31i32) < 32,
{
    let u = w as u32;
    assert(u as int == w as int);
    assert((w & 31i32) as u32 == u & 31u32 && 0 <= (w & 31i32) < 32) by (bit_vector)
        requires
            u == w as u32,
    ;
    assert(u & 31u32 == u % 32u32) by (bit_vector);
}

/// `v & 31` is the position of `v` inside its region.
pub proof fn lemma_low_bits(v: i32)
    ensures
        (v & 31i32) as int == local_of(v as int),
        0 <= (v & 31i32) < 32,
{
    if v >= 0 {
        lemma_low_bits_nonneg(v);
    } else {
        let w = (v as int + 2147483648) as i32;
        assert(w as int == v as int + 2147483648);
        assert((v & 31i32) == (w & 31i32)) by (bit_vector)
            requires
                v < 0,
                w == v + 2147483616i32 + 32i32,
        ;
        lemma_low_bits_nonneg(w);
        assert((v as int + 2147483648) % 32 == (v as int) % 32);
    }
}

/// The slot index in its bitwise form, `((z & 31) << 5) | (x & 31)`.
pub proof fn lemma_bitwise_index(x: i32, z: i32)
    ensures
        index_of(x as int, z as int) == ((((z & 31i32) << 5i32) | (x & 31i32)) as int),
{
    lemma_low_bits(x);
    lemma_low_bits(z);
    let a = z & 31i32;
    let b = x & 31i32;
    assert(((a << 5i32) | b) == a * 32 + b) by (bit_vector)
        requires
            0 <= a < 32,
            0 <= b < 32,
    ;
}

} // verus!
