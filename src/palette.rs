//! Palette compression of the block states of one sub-chunk: a dense palette of
//! the distinct states and the palette indices packed into 64-bit words.
use indexmap::IndexMap;
use vstd::arithmetic::div_mod::*;
use vstd::arithmetic::power2::*;
use vstd::prelude::*;

use crate::errors::ChunkParsingError;

verus! {

/// Number of block states in one sub-chunk.
pub const SECTION_VOLUME: usize = 4096;

#[verifier::external_type_specification]
#[verifier::external_body]
#[verifier::reject_recursive_types(K)]
#[verifier::reject_recursive_types(V)]
#[verifier::reject_recursive_types(S)]
pub struct ExIndexMap<K, V, S>(IndexMap<K, V, S>);

/// Map from a block state to its palette index.
pub type StateIndex = IndexMap<u16, usize>;

/// The key-to-value mapping held by an `IndexMap` from block states to palette indices.
pub uninterp spec fn index_map_entries(m: StateIndex) -> Map<u16, usize>;

/// Relies on `IndexMap::new`: an empty map.
#[verifier::external_body]
fn index_map_new() -> (r: StateIndex)
    ensures
        index_map_entries(r).dom().is_empty(),
{
    IndexMap::new()
}

/// Relies on `IndexMap::insert`: the key is mapped to the value, other keys are kept.
#[verifier::external_body]
fn index_map_insert(m: &mut StateIndex, k: u16, v: usize)
    ensures
        index_map_entries(*final(m)) == index_map_entries(*old(m)).insert(k, v),
{
    m.insert(k, v);
}

/// Relies on `IndexMap::get`: the value mapped to the key, if any.
#[verifier::external_body]
fn index_map_get(m: &StateIndex, k: u16) -> (r: Option<usize>)
    ensures
        r == (if index_map_entries(*m).contains_key(k) {
            Some(index_map_entries(*m)[k])
        } else {
            None
        }),
{
    m.get(&k).copied()
}

/// The distinct states of `s` in order of first occurrence.
pub open spec fn palette_of(s: Seq<u16>) -> Seq<u16>
    decreases s.len(),
{
    if s.len() == 0 {
        Seq::empty()
    } else {
        let p = palette_of(s.drop_last());
        if p.contains(s.last()) {
            p
        } else {
            p.push(s.last())
        }
    }
}

/// Smallest `k` with `2^k >= n`.
pub open spec fn ceil_log2(n: nat) -> nat
    decreases n,
{
    if n <= 1 {
        0
    } else {
        1 + ceil_log2(n / 2 + n % 2)
    }
}

/// Bits per packed entry for a palette of `p` states.
pub open spec fn bits_for(p: nat) -> nat {
    if p < 16 {
        4
    } else if ceil_log2(p) < 4 {
        4
    } else {
        ceil_log2(p)
    }
}

/// Entries that fit in one 64-bit word; entries never straddle two words.
pub open spec fn per_word(b: nat) -> nat {
    64nat / b
}

/// Number of words that hold `n` entries of `b` bits.
pub open spec fn words_for(n: nat, b: nat) -> nat {
    ((n + per_word(b) - 1) as nat / per_word(b)) as nat
}

/// The word holding `es`, first entry in the least significant bits.
pub open spec fn word_of(es: Seq<nat>, b: nat) -> nat
    decreases es.len(),
{
    if es.len() == 0 {
        0
    } else {
        es[0] + pow2(b) * word_of(es.drop_first(), b)
    }
}

/// Entry `j` of word `w`.
pub open spec fn digit(w: nat, j: nat, b: nat) -> nat
    decreases j,
{
    if j == 0 {
        w % pow2(b)
    } else {
        digit(w / pow2(b), (j - 1) as nat, b)
    }
}

/// Palette index of every state of `s`.
pub open spec fn indices_of(s: Seq<u16>) -> Seq<nat> {
    Seq::new(s.len(), |i: int| palette_of(s).index_of(s[i]) as nat)
}

/// The entries of word `k` when `idx` is packed `b` bits at a time.
pub open spec fn word_entries(idx: Seq<nat>, b: nat, k: int) -> Seq<nat> {
    let start = k * per_word(b);
    let end = if start + per_word(b) < idx.len() {
        start + per_word(b)
    } else {
        idx.len() as int
    };
    idx.subrange(start, end)
}

/// The words that pack `idx`, `b` bits per entry.
pub open spec fn packed(idx: Seq<nat>, b: nat) -> Seq<u64> {
    Seq::new(words_for(idx.len(), b), |k: int| word_of(word_entries(idx, b, k), b) as u64)
}

/// The palette-compressed form of one sub-chunk.
pub struct PalettedSection {
    /// The distinct block states, each at its palette index.
    pub palette: Vec<u16>,
    /// Packed palette indices.
    pub data: Vec<u64>,
}

/// The palette index stored for block `i` in `data`.
pub open spec fn stored_index(data: Seq<u64>, b: nat, i: int) -> nat {
    digit(data[i / per_word(b) as int] as nat, (i % per_word(b) as int) as nat, b)
}

/// Whether `palette` and `data` describe `n` blocks.
pub open spec fn section_valid(palette: Seq<u16>, data: Seq<u64>, n: nat) -> bool {
    let b = bits_for(palette.len());
    &&& palette.len() <= SECTION_VOLUME
    &&& data.len() == words_for(n, b)
    &&& forall|i: int| 0 <= i < n ==> #[trigger] stored_index(data, b, i) < palette.len()
}

/// The `n` blocks that `palette` and `data` describe.
pub open spec fn unpacked(palette: Seq<u16>, data: Seq<u64>, n: nat) -> Seq<u16> {
    Seq::new(n, |i: int| palette[stored_index(data, bits_for(palette.len()), i) as int])
}

proof fn lemma_palette_props(s: Seq<u16>)
    ensures
        palette_of(s).no_duplicates(),
        palette_of(s).len() <= s.len(),
        forall|i: int| 0 <= i < s.len() ==> palette_of(s).contains(#[trigger] s[i]),
        forall|i: int| 0 <= i < palette_of(s).len() ==> s.contains(#[trigger] palette_of(s)[i]),
        s.len() > 0 ==> palette_of(s).len() > 0,
    decreases s.len(),
{
    if s.len() > 0 {
        let t = s.drop_last();
        lemma_palette_props(t);
        let p = palette_of(t);
        assert forall|i: int| 0 <= i < s.len() implies palette_of(s).contains(#[trigger] s[i]) by {
            if i < s.len() - 1 {
                assert(t[i] == s[i]);
                let k = choose|k: int| 0 <= k < p.len() && p[k] == t[i];
                if !p.contains(s.last()) {
                    assert(p.push(s.last())[k] == s[i]);
                }
            } else {
                if !p.contains(s.last()) {
                    assert(p.push(s.last())[p.len() as int] == s[i]);
                }
            }
        }
        assert forall|i: int| 0 <= i < palette_of(s).len() implies s.contains(
            #[trigger] palette_of(s)[i],
        ) by {
            if i < p.len() {
                assert(t.contains(p[i]));
                let k = choose|k: int| 0 <= k < t.len() && t[k] == p[i];
                assert(s[k] == p[i]);
            } else {
                assert(s[s.len() - 1] == s.last());
            }
        }
    }
}

proof fn lemma_ceil_log2(n: nat)
    ensures
        pow2(ceil_log2(n)) >= n,
        n <= 65536 ==> ceil_log2(n) <= 16,
    decreases n,
{
    if n > 1 {
        let m = n / 2 + n % 2;
        lemma_ceil_log2(m);
        let c = ceil_log2(m);
        lemma_pow2_unfold(c + 1);
        assert(pow2(c + 1) == 2 * pow2(c));
    } else {
        lemma_pow2_pos(0);
    }
    if n <= 65536 {
        lemma2_to64();
        lemma_ceil_log2_mono(n, pow2(16));
        lemma_ceil_log2_pow(16);
    }
}

pub proof fn lemma_bits_for(p: nat)
    ensures
        4 <= bits_for(p),
        p <= 65536 ==> bits_for(p) <= 16,
        p > 0 ==> pow2(bits_for(p)) >= p,
{
    lemma_ceil_log2(p);
    if p < 16 {
        lemma2_to64();
    } else if ceil_log2(p) < 4 {
        lemma2_to64();
        lemma_pow2_strictly_increases(ceil_log2(p), 4);
    }
}

/// Entry `j` of a word built from entries below `2^b` is the entry itself.
proof fn lemma_digit_of_word(es: Seq<nat>, j: nat, b: nat)
    requires
        j < es.len(),
        forall|i: int| 0 <= i < es.len() ==> #[trigger] es[i] < pow2(b),
    ensures
        digit(word_of(es, b), j, b) == es[j as int],
    decreases j,
{
    let r = pow2(b);
    lemma_pow2_pos(b);
    let w = word_of(es, b);
    let rest = word_of(es.drop_first(), b);
    assert(w == rest * r + es[0]) by (nonlinear_arith)
        requires
            w == es[0] + r * rest,
    ;
    lemma_fundamental_div_mod_converse(w as int, r as int, rest as int, es[0] as int);
    if j > 0 {
        lemma_digit_of_word(es.drop_first(), (j - 1) as nat, b);
    }
}

/// A word of `m` entries below `2^b` is below `2^(b * m)`.
proof fn lemma_word_bound(es: Seq<nat>, b: nat)
    requires
        forall|i: int| 0 <= i < es.len() ==> #[trigger] es[i] < pow2(b),
    ensures
        word_of(es, b) < pow2(b * es.len()),
    decreases es.len(),
{
    lemma_pow2_pos(b);
    if es.len() == 0 {
        assert(b * es.len() == 0);
        lemma2_to64();
    } else {
        let rest = es.drop_first();
        lemma_pow2_pos(b * rest.len());
        lemma_word_bound(rest, b);
        let r = pow2(b);
        let q = pow2(b * rest.len());
        lemma_pow2_adds(b, b * rest.len());
        assert(b + b * rest.len() == b * es.len()) by (nonlinear_arith)
            requires
                es.len() == rest.len() + 1,
        ;
        let w = word_of(rest, b);
        assert(es[0] + r * w < r * q) by (nonlinear_arith)
            requires
                es[0] < r,
                w < q,
                w + 1 <= q,
        ;
    }
}

/// Ceiling of the base-2 logarithm of `n`.
pub fn ceil_log2_u32(n: u32) -> (r: u32)
    ensures
        r as nat == ceil_log2(n as nat),
        r <= 32,
    decreases n,
{
    if n <= 1 {
        0
    } else {
        proof {
            lemma_ceil_log2_le32(n as nat);
        }
        1 + ceil_log2_u32(n / 2 + n % 2)
    }
}

proof fn lemma_ceil_log2_le32(n: nat)
    requires
        n <= 0xffff_ffff,
    ensures
        ceil_log2(n) <= 32,
{
    lemma2_to64();
    lemma_ceil_log2_mono(n, pow2(32));
    lemma_ceil_log2_pow(32);
}

proof fn lemma_ceil_log2_pow(k: nat)
    ensures
        ceil_log2(pow2(k)) == k,
    decreases k,
{
    if k > 0 {
        let h = pow2((k - 1) as nat);
        lemma_pow2_unfold(k);
        lemma_pow2_pos((k - 1) as nat);
        lemma_ceil_log2_pow((k - 1) as nat);
        assert(pow2(k) == 2 * h);
        assert(pow2(k) / 2 + pow2(k) % 2 == h);
    } else {
        lemma2_to64();
    }
}

proof fn lemma_ceil_log2_mono(a: nat, c: nat)
    requires
        a <= c,
    ensures
        ceil_log2(a) <= ceil_log2(c),
    decreases c,
{
    if a > 1 {
        lemma_ceil_log2_mono(a / 2 + a % 2, c / 2 + c % 2);
    }
}

/// Bits per entry for a palette of `p` states.
pub fn bits_for_palette(p: u32) -> (r: u32)
    ensures
        r as nat == bits_for(p as nat),
{
    if p < 16 {
        4
    } else {
        let l = ceil_log2_u32(p);
        if l < 4 {
            4
        } else {
            l
        }
    }
}

/// `2^b` as a `u64`.
fn radix(b: u32) -> (r: u64)
    requires
        b <= 16,
    ensures
        r as nat == pow2(b as nat),
{
    let mut r: u64 = 1;
    let mut i: u32 = 0;
    proof {
        reveal(pow2);
        lemma_pow2_strictly_increases(b as nat, 64);
        lemma2_to64();
    }
    while i < b
        invariant
            i <= b <= 16,
            r as nat == pow2(i as nat),
            pow2(b as nat) < pow2(64),
            pow2(64) == 0x10000000000000000,
        decreases b - i,
    {
        proof {
            lemma_pow2_unfold((i + 1) as nat);
            if i + 1 < b {
                lemma_pow2_strictly_increases((i + 1) as nat, b as nat);
            }
        }
        r = r * 2;
        i = i + 1;
    }
    r
}

/// Compresses the block states of one sub-chunk: the palette holds the distinct
/// states in order of first occurrence, and each block's palette index takes
/// `bits_for(palette length)` bits, packed least significant first into words that
/// no entry straddles.
pub fn encode_section(blocks: &[u16]) -> (r: PalettedSection)
    requires
        blocks@.len() <= SECTION_VOLUME,
    ensures
        r.palette@ == palette_of(blocks@),
        r.palette@.no_duplicates(),
        r.data@ == packed(indices_of(blocks@), bits_for(r.palette@.len())),
{
    let n = blocks.len();
    let mut palette: Vec<u16> = Vec::new();
    let mut map = index_map_new();
    let mut idx: Vec<usize> = Vec::new();
    let mut i: usize = 0;
    while i < n
        invariant
            n == blocks@.len() <= SECTION_VOLUME,
            i <= n,
            palette@ == palette_of(blocks@.subrange(0, i as int)),
            palette@.no_duplicates(),
            palette@.len() <= i,
            idx@.len() == i,
            forall|t: int| 0 <= t < i ==> #[trigger] idx@[t] < palette@.len() && palette@[idx@[t] as int] == blocks@[t],
            forall|v: u16| index_map_entries(map).contains_key(v) <==> palette@.contains(v),
            forall|v: u16| #[trigger] index_map_entries(map).contains_key(v) ==> index_map_entries(map)[v] < palette@.len() && palette@[index_map_entries(map)[v] as int] == v,
        decreases n - i,
    {
        let v = blocks[i];
        let ghost pre = blocks@.subrange(0, i as int);
        let ghost next = blocks@.subrange(0, i + 1);
        assert(next.drop_last() =~= pre);
        assert(next.last() == v);
        match index_map_get(&map, v) {
            Some(k) => {
                idx.push(k);
            },
            None => {
                let k = palette.len();
                let ghost old_p = palette@;
                assert(!old_p.contains(v));
                index_map_insert(&mut map, v, k);
                palette.push(v);
                idx.push(k);
                proof {
                    assert forall|a: int, c: int|
                        0 <= a < palette@.len() && 0 <= c < palette@.len() && a != c implies palette@[a]
                        != palette@[c] by {
                        if a < k && c < k {
                            assert(old_p[a] != old_p[c]);
                        } else if a == k {
                            assert(palette@[c] == old_p[c]);
                        } else {
                            assert(palette@[a] == old_p[a]);
                        }
                    }
                    assert forall|u: u16|
                        index_map_entries(map).contains_key(u) <==> palette@.contains(u) by {
                        if u == v {
                            assert(palette@[k as int] == v);
                        } else if old_p.contains(u) {
                            let t = choose|t: int| 0 <= t < old_p.len() && old_p[t] == u;
                            assert(palette@[t] == u);
                        } else if palette@.contains(u) {
                            let t = choose|t: int| 0 <= t < palette@.len() && palette@[t] == u;
                            assert(old_p[t] == u);
                        }
                    }
                }
            },
        }
        i = i + 1;
    }
    assert(blocks@.subrange(0, n as int) =~= blocks@);
    proof {
        lemma_palette_props(blocks@);
    }
    let ghost ids = indices_of(blocks@);
    assert forall|t: int| 0 <= t < n implies idx@[t] as nat == #[trigger] ids[t] by {
        let c = palette@.index_of(blocks@[t]);
        assert(palette@.contains(blocks@[t]));
        assert(palette@[c] == blocks@[t]);
    }
    let b = bits_for_palette(palette.len() as u32);
    proof {
        lemma_bits_for(palette@.len());
    }
    let data = pack_indices(&idx, b, palette.len());
    assert(idx@.map_values(|x: usize| x as nat) =~= ids);
    PalettedSection { palette, data }
}

/// Packs `idx`, `b` bits per entry, each entry below `p <= 2^b`.
fn pack_indices(idx: &Vec<usize>, b: u32, p: usize) -> (r: Vec<u64>)
    requires
        4 <= b <= 16,
        p <= pow2(b as nat),
        idx@.len() <= SECTION_VOLUME,
        forall|t: int| 0 <= t < idx@.len() ==> #[trigger] idx@[t] < p,
    ensures
        r@ == packed(idx@.map_values(|x: usize| x as nat), b as nat),
{
    let ghost es = idx@.map_values(|x: usize| x as nat);
    let n = idx.len();
    let per: usize = (64 / b) as usize;
    assert(4 <= per <= 16) by (nonlinear_arith)
        requires
            per == 64int / (b as int),
            4 <= b <= 16,
    ;
    let r = radix(b);
    let nw: usize = (n + per - 1) / per;
    let mut out: Vec<u64> = Vec::new();
    let mut k: usize = 0;
    proof {
        lemma2_to64();
        assert(per * b <= 64) by (nonlinear_arith)
            requires
                per == 64int / (b as int),
                b >= 4,
        ;
        lemma_fundamental_div_mod(64, b as int);
    }
    while k < nw
        invariant
            es == idx@.map_values(|x: usize| x as nat),
            n == idx@.len() <= SECTION_VOLUME,
            4 <= b <= 16,
            per as nat == per_word(b as nat),
            4 <= per <= 16,
            nw == (n + per - 1) as int / (per as int),
            per * b <= 64,
            r as nat == pow2(b as nat),
            nw as nat == words_for(n as nat, b as nat),
            p <= pow2(b as nat),
            forall|t: int| 0 <= t < idx@.len() ==> #[trigger] idx@[t] < p,
            k <= nw,
            out@.len() == k,
            forall|q: int| 0 <= q < k ==> #[trigger] out@[q] == word_of(word_entries(es, b as nat, q), b as nat) as u64,
        decreases nw - k,
    {
        assert(k * per < n) by (nonlinear_arith)
            requires
                k < nw,
                nw == (n + per - 1) as int / (per as int),
                per >= 4,
        ;
        assert(k * per + per <= n + per) by (nonlinear_arith)
            requires k * per < n;
        let start = k * per;
        let end = if start + per < n {
            start + per
        } else {
            n
        };
        let ghost ents = word_entries(es, b as nat, k as int);
        assert(ents =~= es.subrange(start as int, end as int));
        let mut w: u64 = 0;
        let mut j = end;
        proof {
            assert(b * (end - end) == 0);
            lemma_pow2_pos(0);
            assert(es.subrange(end as int, end as int).len() == 0);
        }
        while j > start
            invariant
                start <= j <= end <= n,
                end - start <= per,
                per * b <= 64,
                r as nat == pow2(b as nat),
                4 <= b <= 16,
                p <= pow2(b as nat),
                n == idx@.len(),
                es == idx@.map_values(|x: usize| x as nat),
                forall|t: int| 0 <= t < idx@.len() ==> #[trigger] idx@[t] < p,
                w as nat == word_of(es.subrange(j as int, end as int), b as nat),
                w < pow2((b * (end - j)) as nat),
            decreases j,
        {
            j = j - 1;
            let e = idx[j] as u64;
            let ghost tail = es.subrange(j as int, end as int);
            assert(tail.drop_first() =~= es.subrange(j + 1, end as int));
            assert(tail[0] == e);
            proof {
                lemma_pow2_adds(b as nat, (b * (end - j - 1)) as nat);
                assert(b + b * (end - j - 1) == b * (end - j)) by (nonlinear_arith)
                    requires j < end;
                assert(b * (end - j) <= 64) by (nonlinear_arith)
                    requires end - j <= per, per * b <= 64;
                lemma2_to64();
                if b * (end - j) < 64 {
                    lemma_pow2_strictly_increases((b * (end - j)) as nat, 64);
                }
                let q = pow2((b * (end - j - 1)) as nat);
                assert(e + r * w < r * q) by (nonlinear_arith)
                    requires e < r, w < q;
            }
            w = e + r * w;
        }
        assert(es.subrange(start as int, end as int) =~= ents);
        out.push(w);
        k = k + 1;
    }
    assert(out@ =~= packed(es, b as nat));
    out
}

/// Entry `j` of word `w`, `b` bits per entry, with `r == 2^b`.
fn word_digit(w: u64, j: usize, r: u64, b: u32) -> (d: u64)
    requires
        r as nat == pow2(b as nat),
        r > 0,
    ensures
        d as nat == digit(w as nat, j as nat, b as nat),
{
    let mut cur = w;
    let mut t: usize = 0;
    while t < j
        invariant
            t <= j,
            r as nat == pow2(b as nat),
            r > 0,
            digit(w as nat, j as nat, b as nat) == digit(cur as nat, (j - t) as nat, b as nat),
        decreases j - t,
    {
        cur = cur / r;
        t = t + 1;
    }
    cur % r
}

/// Restores the `n` block states of one sub-chunk from its palette and packed
/// words, `bits_for(palette length)` bits per entry. Fails when the palette has
/// more than 4096 states, when the number of words is not the one that `n`
/// entries take, or when an entry lies outside the palette.
pub fn decode_section(palette: &[u16], data: &[u64], n: usize) -> (r: Result<Vec<u16>, ChunkParsingError>)
    requires
        n <= SECTION_VOLUME,
    ensures
        r is Ok <==> section_valid(palette@, data@, n as nat),
        r matches Ok(v) ==> v@ == unpacked(palette@, data@, n as nat),
        r matches Err(e) ==> e == ChunkParsingError::InvalidSection,
{
    if palette.len() > SECTION_VOLUME {
        return Err(ChunkParsingError::InvalidSection);
    }
    let plen = palette.len();
    let b = bits_for_palette(plen as u32);
    proof {
        lemma_bits_for(plen as nat);
    }
    let per: usize = (64 / b) as usize;
    assert(4 <= per <= 16) by (nonlinear_arith)
        requires
            per == 64int / (b as int),
            4 <= b <= 16,
    ;
    let nw: usize = (n + per - 1) / per;
    if data.len() != nw {
        return Err(ChunkParsingError::InvalidSection);
    }
    let r = radix(b);
    proof {
        lemma_pow2_pos(b as nat);
    }
    let mut out: Vec<u16> = Vec::new();
    let mut i: usize = 0;
    while i < n
        invariant
            i <= n <= SECTION_VOLUME,
            plen == palette@.len() <= SECTION_VOLUME,
            b as nat == bits_for(plen as nat),
            4 <= b <= 16,
            per as nat == per_word(b as nat),
            4 <= per <= 16,
            data@.len() == nw,
            nw == (n + per - 1) as int / (per as int),
            r as nat == pow2(b as nat),
            r > 0,
            out@.len() == i,
            forall|t: int| 0 <= t < i ==> #[trigger] stored_index(data@, b as nat, t) < plen,
            forall|t: int| 0 <= t < i ==> #[trigger] out@[t] == palette@[stored_index(data@, b as nat, t) as int],
        decreases n - i,
    {
        assert(i / per < nw) by (nonlinear_arith)
            requires
                i < n,
                nw == (n + per - 1) as int / (per as int),
                per >= 4,
        ;
        let d = word_digit(data[i / per], i % per, r, b);
        if d >= plen as u64 {
            assert(!section_valid(palette@, data@, n as nat)) by {
                assert(stored_index(data@, b as nat, i as int) >= plen);
            }
            return Err(ChunkParsingError::InvalidSection);
        }
        out.push(palette[d as usize]);
        i = i + 1;
    }
    assert(out@ =~= unpacked(palette@, data@, n as nat));
    Ok(out)
}

/// Decoding the compressed form of a sub-chunk restores its block states exactly,
/// and its palette maps distinct indices to distinct states.
pub proof fn lemma_section_round_trip(s: Seq<u16>)
    requires
        s.len() <= SECTION_VOLUME,
    ensures
        palette_of(s).no_duplicates(),
        section_valid(
            palette_of(s),
            packed(indices_of(s), bits_for(palette_of(s).len())),
            s.len(),
        ),
        unpacked(palette_of(s), packed(indices_of(s), bits_for(palette_of(s).len())), s.len())
            == s,
{
    lemma_palette_props(s);
    let p = palette_of(s);
    let b = bits_for(p.len());
    let idx = indices_of(s);
    let data = packed(idx, b);
    let per = per_word(b);
    lemma_bits_for(p.len());
    assert(4 <= per <= 16) by (nonlinear_arith)
        requires
            per == 64int / (b as int),
            4 <= b <= 16,
    ;
    assert(per * b <= 64) by (nonlinear_arith)
        requires
            per == 64int / (b as int),
            b >= 4,
    ;
    assert forall|i: int| 0 <= i < s.len() implies #[trigger] idx[i] < p.len() && p[idx[i] as int]
        == s[i] by {
        assert(p.contains(s[i]));
    }
    assert forall|i: int| 0 <= i < s.len() implies #[trigger] stored_index(data, b, i) == idx[i] by {
        let k = i / per as int;
        let j = i % per as int;
        lemma_fundamental_div_mod(i, per as int);
        assert(k * per <= i);
        assert(0 <= k < words_for(s.len(), b)) by (nonlinear_arith)
            requires
                k == i / per as int,
                0 <= i < s.len(),
                per >= 4,
                words_for(s.len(), b) == (s.len() + per - 1) as int / (per as int),
        ;
        let ents = word_entries(idx, b, k);
        assert forall|t: int| 0 <= t < ents.len() implies #[trigger] ents[t] < pow2(b) by {
            assert(ents[t] == idx[k * per + t]);
        }
        assert(ents.len() <= per);
        lemma_word_bound(ents, b);
        assert(b * ents.len() <= 64) by (nonlinear_arith)
            requires
                ents.len() <= per,
                per * b <= 64,
        ;
        lemma2_to64();
        if b * ents.len() < 64 {
            lemma_pow2_strictly_increases(b * ents.len(), 64);
        }
        assert(data[k] as nat == word_of(ents, b));
        assert(k * per + j == i) by (nonlinear_arith)
            requires
                i == per * k + j,
        ;
        lemma_digit_of_word(ents, j as nat, b);
    }
    assert(unpacked(p, data, s.len()) =~= s);
}

} // verus!
