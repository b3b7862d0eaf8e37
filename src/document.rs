//! The chunk document in the NBT binary encoding: writing it, and reading back
//! exactly the documents that this module writes.
use vstd::arithmetic::div_mod::*;
use vstd::prelude::*;

use crate::be::{push_u16, push_u32, push_u64, u16_at, u16_be, u32_at, u32_be, u64_at, u64_be};
use crate::palette::PalettedSection;

verus! {

/// Upper bound on the length of every array in a chunk document.
pub const ARRAY_LIMIT: usize = 4096;

/// Number of sections in a chunk.
pub const SECTION_COUNT: usize = 24;

/// Root compound, `DataVersion = 4189` and the header of `xPos`.
pub open spec fn lit_root() -> Seq<u8> {
    seq![10u8, 0, 0, 3, 0, 11, 68, 97, 116, 97, 86, 101, 114, 115, 105, 111, 110, 0, 0, 16, 93,
        3, 0, 4, 120, 80, 111, 115]
}

/// Header of `zPos`.
pub open spec fn lit_z() -> Seq<u8> {
    seq![3u8, 0, 4, 122, 80, 111, 115]
}

/// `Status = "full"`, the `Heightmaps` compound and the header of `MOTION_BLOCKING`.
pub open spec fn lit_heightmaps() -> Seq<u8> {
    seq![8u8, 0, 6, 83, 116, 97, 116, 117, 115, 0, 4, 102, 117, 108, 108, 10, 0, 10, 72, 101,
        105, 103, 104, 116, 109, 97, 112, 115, 12, 0, 15, 77, 79, 84, 73, 79, 78, 95, 66, 76, 79,
        67, 75, 73, 78, 71]
}

/// Header of `WORLD_SURFACE`.
pub open spec fn lit_world_surface() -> Seq<u8> {
    seq![12u8, 0, 13, 87, 79, 82, 76, 68, 95, 83, 85, 82, 70, 65, 67, 69]
}

/// End of `Heightmaps` and the header of the `sections` list of 24 compounds.
pub open spec fn lit_sections() -> Seq<u8> {
    seq![0u8, 9, 0, 8, 115, 101, 99, 116, 105, 111, 110, 115, 10, 0, 0, 0, 24]
}

/// Header of a section's `Y` byte.
pub open spec fn lit_y() -> Seq<u8> {
    seq![1u8, 0, 1, 89]
}

/// The `block_states` compound and the header of its `palette` list of compounds.
pub open spec fn lit_block_states() -> Seq<u8> {
    seq![10u8, 0, 12, 98, 108, 111, 99, 107, 95, 115, 116, 97, 116, 101, 115, 9, 0, 7, 112, 97,
        108, 101, 116, 116, 101, 10]
}

/// A palette entry's `Id` int header and the two high bytes of the id.
pub open spec fn lit_entry() -> Seq<u8> {
    seq![3u8, 0, 2, 73, 100, 0, 0]
}

/// Header of the packed `data` long array.
pub open spec fn lit_data() -> Seq<u8> {
    seq![12u8, 0, 4, 100, 97, 116, 97]
}

/// Ends of `block_states` and of the section compound.
pub open spec fn lit_section_end() -> Seq<u8> {
    seq![0u8, 0]
}

/// End of the root compound.
pub open spec fn lit_end() -> Seq<u8> {
    seq![0u8]
}

/// Records of width `w` laid end to end.
pub open spec fn flat(recs: Seq<Seq<u8>>, w: nat) -> Seq<u8> {
    Seq::new(recs.len() * w, |k: int| recs[k / (w as int)][k % (w as int)])
}

/// A long array payload: its length, then each value big-endian.
pub open spec fn long_array(v: Seq<u64>) -> Seq<u8> {
    u32_be(v.len() as u32) + flat(v.map_values(|x: u64| u64_be(x)), 8)
}

/// One palette entry: a compound holding the state id as an int.
pub open spec fn entry_bytes(state: u16) -> Seq<u8> {
    lit_entry() + u16_be(state) + lit_end()
}

/// The palette list payload: its length, then each entry.
pub open spec fn palette_list(p: Seq<u16>) -> Seq<u8> {
    u32_be(p.len() as u32) + flat(p.map_values(|s: u16| entry_bytes(s)), 10)
}

/// The `Y` byte of section `i`: `i - 4` as a signed byte.
pub open spec fn y_byte(i: int) -> u8 {
    if i < 4 {
        (i + 252) as u8
    } else {
        (i - 4) as u8
    }
}

/// Section `i` with palette `p` and packed words `d`.
pub open spec fn section_bytes(sec: (Seq<u16>, Seq<u64>), i: int) -> Seq<u8> {
    lit_y() + (seq![y_byte(i)] + (lit_block_states() + (palette_list(sec.0) + (lit_data() + (
    long_array(sec.1) + lit_section_end())))))
}

/// Sections `secs`, the first of them being section `i`.
pub open spec fn sections_bytes(secs: Seq<(Seq<u16>, Seq<u64>)>, i: int) -> Seq<u8>
    decreases secs.len(),
{
    if secs.len() == 0 {
        Seq::empty()
    } else {
        section_bytes(secs[0], i) + sections_bytes(secs.drop_first(), i + 1)
    }
}

/// Position, heightmaps and sections of a chunk document.
pub type DocView = (i32, i32, Seq<u64>, Seq<u64>, Seq<(Seq<u16>, Seq<u64>)>);

/// The bytes of the document `d`.
pub open spec fn document_bytes(d: DocView) -> Seq<u8> {
    lit_root() + (u32_be(d.0 as u32) + (lit_z() + (u32_be(d.1 as u32) + (lit_heightmaps() + (
    long_array(d.2) + (lit_world_surface() + (long_array(d.3) + (lit_sections() + (
    sections_bytes(d.4, 0) + lit_end())))))))))
}

/// Whether the arrays of `d` are within the bounds that a document admits.
pub open spec fn doc_wf(d: DocView) -> bool {
    &&& d.2.len() <= ARRAY_LIMIT
    &&& d.3.len() <= ARRAY_LIMIT
    &&& d.4.len() == SECTION_COUNT
    &&& forall|i: int|
        0 <= i < d.4.len() ==> (#[trigger] d.4[i]).0.len() <= ARRAY_LIMIT && d.4[i].1.len()
            <= ARRAY_LIMIT
}

/// `s` without the prefix `lit`, if it starts with it.
pub open spec fn strip(s: Seq<u8>, lit: Seq<u8>) -> Option<Seq<u8>> {
    if lit.len() <= s.len() && s.subrange(0, lit.len() as int) == lit {
        Some(s.skip(lit.len() as int))
    } else {
        None
    }
}

/// A big-endian `u32` at the start of `s`, and what follows it.
pub open spec fn take_u32(s: Seq<u8>) -> Option<(u32, Seq<u8>)> {
    if 4 <= s.len() {
        Some((u32_at(s, 0), s.skip(4)))
    } else {
        None
    }
}

/// A long array payload at the start of `s`, and what follows it.
#[verifier::opaque]
pub open spec fn take_longs(s: Seq<u8>) -> Option<(Seq<u64>, Seq<u8>)> {
    if s.len() < 4 {
        None
    } else {
        let n = u32_at(s, 0) as int;
        if n > ARRAY_LIMIT || s.len() - 4 < 8 * n {
            None
        } else {
            Some((Seq::new(n as nat, |i: int| u64_at(s, 4 + 8 * i)), s.skip(4 + 8 * n)))
        }
    }
}

/// Whether `s` holds a palette entry at `j`.
pub open spec fn entry_ok(s: Seq<u8>, j: int) -> bool {
    s.subrange(j, j + 7) == lit_entry() && s[j + 9] == 0
}

/// A palette list payload at the start of `s`, and what follows it.
#[verifier::opaque]
pub open spec fn take_palette(s: Seq<u8>) -> Option<(Seq<u16>, Seq<u8>)> {
    if s.len() < 4 {
        None
    } else {
        let n = u32_at(s, 0) as int;
        if n > ARRAY_LIMIT || s.len() - 4 < 10 * n {
            None
        } else if !(forall|i: int| 0 <= i < n ==> #[trigger] entry_ok(s, 4 + 10 * i)) {
            None
        } else {
            Some((Seq::new(n as nat, |i: int| u16_at(s, 4 + 10 * i + 7)), s.skip(4 + 10 * n)))
        }
    }
}

/// Section `i` at the start of `s`, and what follows it.
#[verifier::opaque]
pub open spec fn take_section(s: Seq<u8>, i: int) -> Option<((Seq<u16>, Seq<u64>), Seq<u8>)> {
    match strip(s, lit_y()) {
        None => None,
        Some(s1) => if s1.len() < 1 || s1[0] != y_byte(i) {
            None
        } else {
            match strip(s1.skip(1), lit_block_states()) {
                None => None,
                Some(s2) => match take_palette(s2) {
                    None => None,
                    Some((p, s3)) => match strip(s3, lit_data()) {
                        None => None,
                        Some(s4) => match take_longs(s4) {
                            None => None,
                            Some((d, s5)) => match strip(s5, lit_section_end()) {
                                None => None,
                                Some(s6) => Some(((p, d), s6)),
                            },
                        },
                    },
                },
            }
        },
    }
}

/// `n` sections at the start of `s`, the first being section `i`, and what follows them.
pub open spec fn take_sections(s: Seq<u8>, n: nat, i: int) -> Option<
    (Seq<(Seq<u16>, Seq<u64>)>, Seq<u8>),
>
    decreases n,
{
    if n == 0 {
        Some((Seq::empty(), s))
    } else {
        match take_section(s, i) {
            None => None,
            Some((sec, r)) => match take_sections(r, (n - 1) as nat, i + 1) {
                None => None,
                Some((secs, r2)) => Some((seq![sec] + secs, r2)),
            },
        }
    }
}

/// Root header and position at the start of `s`, and what follows them.
#[verifier::opaque]
pub open spec fn take_head(s: Seq<u8>) -> Option<(i32, i32, Seq<u8>)> {
    match strip(s, lit_root()) {
        None => None,
        Some(s1) => match take_u32(s1) {
            None => None,
            Some((x, s2)) => match strip(s2, lit_z()) {
                None => None,
                Some(s3) => match take_u32(s3) {
                    None => None,
                    Some((z, s4)) => Some((x as i32, z as i32, s4)),
                },
            },
        },
    }
}

/// Status and heightmaps at the start of `s`, and what follows them.
#[verifier::opaque]
pub open spec fn take_heightmaps(s: Seq<u8>) -> Option<(Seq<u64>, Seq<u64>, Seq<u8>)> {
    match strip(s, lit_heightmaps()) {
        None => None,
        Some(s1) => match take_longs(s1) {
            None => None,
            Some((mb, s2)) => match strip(s2, lit_world_surface()) {
                None => None,
                Some(s3) => match take_longs(s3) {
                    None => None,
                    Some((ws, s4)) => Some((mb, ws, s4)),
                },
            },
        },
    }
}

/// The document that `s` holds, if `s` is one whole document.
pub open spec fn parse_document(s: Seq<u8>) -> Option<DocView> {
    match take_head(s) {
        None => None,
        Some((x, z, s1)) => match take_heightmaps(s1) {
            None => None,
            Some((mb, ws, s2)) => match strip(s2, lit_sections()) {
                None => None,
                Some(s3) => match take_sections(s3, SECTION_COUNT as nat, 0) {
                    None => None,
                    Some((secs, s4)) => if s4 == lit_end() {
                        Some((x, z, mb, ws, secs))
                    } else {
                        None
                    },
                },
            },
        },
    }
}

/// A chunk document: position, heightmaps and the 24 palette-compressed sections.
pub struct ChunkDocument {
    pub x: i32,
    pub z: i32,
    pub motion_blocking: Vec<u64>,
    pub world_surface: Vec<u64>,
    pub sections: Vec<PalettedSection>,
}

impl View for PalettedSection {
    type V = (Seq<u16>, Seq<u64>);

    open spec fn view(&self) -> (Seq<u16>, Seq<u64>) {
        (self.palette@, self.data@)
    }
}

impl View for ChunkDocument {
    type V = DocView;

    open spec fn view(&self) -> DocView {
        (
            self.x,
            self.z,
            self.motion_blocking@,
            self.world_surface@,
            self.sections@.map_values(|s: PalettedSection| s@),
        )
    }
}

pub proof fn lemma_flat_push(recs: Seq<Seq<u8>>, w: nat, r: Seq<u8>)
    requires
        w > 0,
        r.len() == w,
    ensures
        flat(recs.push(r), w) == flat(recs, w) + r,
{
    let n = recs.len();
    assert((n + 1) * w == n * w + w) by (nonlinear_arith);
    assert forall|k: int| 0 <= k < (n + 1) * w implies #[trigger] flat(recs.push(r), w)[k] == (
    flat(recs, w) + r)[k] by {
        if k < n * w {
            lemma_fundamental_div_mod(k, w as int);
            assert(k / (w as int) < n) by (nonlinear_arith)
                requires
                    k < n * w,
                    k == w * (k / (w as int)) + k % (w as int),
                    0 <= k % (w as int),
                    w > 0,
            ;
            assert(0 <= k / (w as int)) by (nonlinear_arith)
                requires 0 <= k, w > 0;
        } else {
            lemma_fundamental_div_mod_converse(k, w as int, n as int, k - n * w);
        }
    }
    assert(flat(recs.push(r), w) =~= flat(recs, w) + r);
}

pub proof fn lemma_flat_at(recs: Seq<Seq<u8>>, w: nat, i: int)
    requires
        w > 0,
        0 <= i < recs.len(),
        recs[i].len() == w,
    ensures
        i * w + w <= recs.len() * w,
        flat(recs, w).subrange(i * w, i * w + w) == recs[i],
{
    assert(i * w + w <= recs.len() * w) by (nonlinear_arith)
        requires i < recs.len(), w > 0;
    assert forall|t: int| 0 <= t < w implies #[trigger] flat(recs, w).subrange(i * w, i * w + w)[t]
        == recs[i][t] by {
        lemma_fundamental_div_mod_converse(i * w + t, w as int, i, t);
    }
    assert(flat(recs, w).subrange(i * w, i * w + w) =~= recs[i]);
}

pub fn push_bytes(out: &mut Vec<u8>, lit: &[u8])
    ensures
        final(out)@ == old(out)@ + lit@,
{
    let mut i: usize = 0;
    let ghost o = out@;
    while i < lit.len()
        invariant
            i <= lit@.len(),
            out@ == o + lit@.subrange(0, i as int),
        decreases lit@.len() - i,
    {
        out.push(lit[i]);
        i = i + 1;
        assert(out@ =~= o + lit@.subrange(0, i as int));
    }
    assert(lit@.subrange(0, i as int) =~= lit@);
}

fn push_long_array(out: &mut Vec<u8>, v: &[u64])
    requires
        v@.len() <= ARRAY_LIMIT,
    ensures
        final(out)@ == old(out)@ + long_array(v@),
{
    let ghost o = out@;
    push_u32(out, v.len() as u32);
    let mut i: usize = 0;
    while i < v.len()
        invariant
            i <= v@.len() <= ARRAY_LIMIT,
            out@ == o + u32_be(v@.len() as u32) + flat(
                v@.subrange(0, i as int).map_values(|x: u64| u64_be(x)),
                8,
            ),
        decreases v@.len() - i,
    {
        let ghost before = v@.subrange(0, i as int).map_values(|x: u64| u64_be(x));
        push_u64(out, v[i]);
        proof {
            assert(v@.subrange(0, i + 1).map_values(|x: u64| u64_be(x)) =~= before.push(
                u64_be(v@[i as int]),
            ));
            lemma_flat_push(before, 8, u64_be(v@[i as int]));
        }
        i = i + 1;
    }
    assert(v@.subrange(0, i as int) =~= v@);
}

fn push_palette(out: &mut Vec<u8>, p: &[u16])
    requires
        p@.len() <= ARRAY_LIMIT,
    ensures
        final(out)@ == old(out)@ + palette_list(p@),
{
    let ghost o = out@;
    push_u32(out, p.len() as u32);
    let head: [u8; 7] = [3u8, 0, 2, 73, 100, 0, 0];
    assert(head@ =~= lit_entry());
    let mut i: usize = 0;
    while i < p.len()
        invariant
            i <= p@.len() <= ARRAY_LIMIT,
            head@ == lit_entry(),
            out@ == o + u32_be(p@.len() as u32) + flat(
                p@.subrange(0, i as int).map_values(|s: u16| entry_bytes(s)),
                10,
            ),
        decreases p@.len() - i,
    {
        let ghost before = p@.subrange(0, i as int).map_values(|s: u16| entry_bytes(s));
        let ghost mid = out@;
        push_bytes(out, &head);
        push_u16(out, p[i]);
        out.push(0u8);
        proof {
            assert(out@ =~= mid + entry_bytes(p@[i as int]));
            assert(p@.subrange(0, i + 1).map_values(|s: u16| entry_bytes(s)) =~= before.push(
                entry_bytes(p@[i as int]),
            ));
            lemma_flat_push(before, 10, entry_bytes(p@[i as int]));
        }
        i = i + 1;
    }
    assert(p@.subrange(0, i as int) =~= p@);
}

fn y_byte_of(i: usize) -> (r: u8)
    requires
        i < SECTION_COUNT,
    ensures
        r == y_byte(i as int),
{
    if i < 4 {
        (i + 252) as u8
    } else {
        (i - 4) as u8
    }
}

fn push_section(out: &mut Vec<u8>, sec: &PalettedSection, i: usize)
    requires
        i < SECTION_COUNT,
        sec.palette@.len() <= ARRAY_LIMIT,
        sec.data@.len() <= ARRAY_LIMIT,
    ensures
        final(out)@ == old(out)@ + section_bytes(sec@, i as int),
{
    let ghost o = out@;
    let y: [u8; 4] = [1u8, 0, 1, 89];
    assert(y@ =~= lit_y());
    push_bytes(out, &y);
    out.push(y_byte_of(i));
    let bs: [u8; 26] = [10u8, 0, 12, 98, 108, 111, 99, 107, 95, 115, 116, 97, 116, 101, 115, 9,
        0, 7, 112, 97, 108, 101, 116, 116, 101, 10];
    assert(bs@ =~= lit_block_states());
    push_bytes(out, &bs);
    push_palette(out, sec.palette.as_slice());
    let data: [u8; 7] = [12u8, 0, 4, 100, 97, 116, 97];
    assert(data@ =~= lit_data());
    push_bytes(out, &data);
    push_long_array(out, sec.data.as_slice());
    out.push(0u8);
    out.push(0u8);
    assert(out@ =~= o + section_bytes(sec@, i as int));
}

/// Writes the document `doc` in the NBT binary encoding.
#[verifier::rlimit(40)]
pub fn write_document(doc: &ChunkDocument) -> (r: Vec<u8>)
    requires
        doc_wf(doc@),
    ensures
        r@ == document_bytes(doc@),
{
    let mut out: Vec<u8> = Vec::new();
    let root: [u8; 28] = [10u8, 0, 0, 3, 0, 11, 68, 97, 116, 97, 86, 101, 114, 115, 105, 111,
        110, 0, 0, 16, 93, 3, 0, 4, 120, 80, 111, 115];
    assert(root@ =~= lit_root());
    push_bytes(&mut out, &root);
    push_u32(&mut out, doc.x as u32);
    let z: [u8; 7] = [3u8, 0, 4, 122, 80, 111, 115];
    assert(z@ =~= lit_z());
    push_bytes(&mut out, &z);
    push_u32(&mut out, doc.z as u32);
    let hm: [u8; 46] = [8u8, 0, 6, 83, 116, 97, 116, 117, 115, 0, 4, 102, 117, 108, 108, 10, 0,
        10, 72, 101, 105, 103, 104, 116, 109, 97, 112, 115, 12, 0, 15, 77, 79, 84, 73, 79, 78, 95,
        66, 76, 79, 67, 75, 73, 78, 71];
    assert(hm@ =~= lit_heightmaps());
    push_bytes(&mut out, &hm);
    push_long_array(&mut out, doc.motion_blocking.as_slice());
    let ws: [u8; 16] = [12u8, 0, 13, 87, 79, 82, 76, 68, 95, 83, 85, 82, 70, 65, 67, 69];
    assert(ws@ =~= lit_world_surface());
    push_bytes(&mut out, &ws);
    push_long_array(&mut out, doc.world_surface.as_slice());
    let secs: [u8; 17] = [0u8, 9, 0, 8, 115, 101, 99, 116, 105, 111, 110, 115, 10, 0, 0, 0, 24];
    assert(secs@ =~= lit_sections());
    push_bytes(&mut out, &secs);
    let ghost before = out@;
    let ghost sv = doc@.4;
    let mut i: usize = 0;
    assert(sv.skip(0) =~= sv);
    while i < SECTION_COUNT
        invariant
            i <= SECTION_COUNT,
            doc_wf(doc@),
            sv == doc@.4,
            sv.len() == SECTION_COUNT,
            out@ + sections_bytes(sv.skip(i as int), i as int) == before + sections_bytes(sv, 0),
        decreases SECTION_COUNT - i,
    {
        let ghost pre = out@;
        assert(sv[i as int] == doc.sections@[i as int]@);
        assert(doc.sections@[i as int].palette@.len() <= ARRAY_LIMIT && doc.sections@[i as int].data@.len() <= ARRAY_LIMIT) by {
            assert(doc@.4[i as int] == doc.sections@[i as int]@);
        }
        push_section(&mut out, &doc.sections[i], i);
        proof {
            let rest = sv.skip(i as int);
            assert(rest.drop_first() =~= sv.skip(i + 1));
            assert(rest[0] == sv[i as int]);
            assert(pre + sections_bytes(rest, i as int) == pre + (section_bytes(sv[i as int], i as int) + sections_bytes(sv.skip(i + 1), i + 1)));
            assert(pre + (section_bytes(sv[i as int], i as int) + sections_bytes(sv.skip(i + 1), i + 1)) =~= out@ + sections_bytes(sv.skip(i + 1), i + 1));
        }
        i = i + 1;
    }
    proof {
        assert(sv.skip(SECTION_COUNT as int).len() == 0);
        assert(out@ + sections_bytes(sv.skip(SECTION_COUNT as int), SECTION_COUNT as int) =~= out@);
    }
    out.push(0u8);
    assert(out@ =~= document_bytes(doc@));
    out
}

proof fn lemma_strip(lit: Seq<u8>, rest: Seq<u8>)
    ensures
        strip(lit + rest, lit) == Some(rest),
{
    assert((lit + rest).subrange(0, lit.len() as int) =~= lit);
    assert((lit + rest).skip(lit.len() as int) =~= rest);
}

proof fn lemma_u32_prefix(v: u32, rest: Seq<u8>)
    ensures
        take_u32(u32_be(v) + rest) == Some((v, rest)),
{
    let s = u32_be(v) + rest;
    crate::be::lemma_u32_round_trip(v);
    assert(u32_at(s, 0) == u32_at(u32_be(v), 0));
    assert(s.skip(4) =~= rest);
}

proof fn lemma_take_longs(v: Seq<u64>, rest: Seq<u8>)
    requires
        v.len() <= ARRAY_LIMIT,
    ensures
        take_longs(long_array(v) + rest) == Some((v, rest)),
{
    reveal(take_longs);
    let recs = v.map_values(|x: u64| u64_be(x));
    let s = long_array(v) + rest;
    let n = v.len();
    crate::be::lemma_u32_round_trip(n as u32);
    assert(u32_at(s, 0) == u32_at(u32_be(n as u32), 0));
    assert(s.len() == 4 + 8 * n + rest.len());
    assert forall|i: int| 0 <= i < n implies #[trigger] u64_at(s, 4 + 8 * i) == v[i] by {
        lemma_flat_at(recs, 8, i);
        let f = flat(recs, 8);
        assert(recs[i] == u64_be(v[i]));
        crate::be::lemma_u64_round_trip(v[i]);
        assert forall|k: int| 0 <= k < 8 implies s[4 + 8 * i + k] == #[trigger] u64_be(v[i])[k] by {
            assert(s[4 + 8 * i + k] == f[8 * i + k]);
            assert(f.subrange(i * 8, i * 8 + 8)[k] == f[i * 8 + k]);
        }
    }
    assert(Seq::new(n as nat, |i: int| u64_at(s, 4 + 8 * i)) =~= v);
    assert(s.skip(4 + 8 * n as int) =~= rest);
}

proof fn lemma_palette_entry(p: Seq<u16>, rest: Seq<u8>, i: int)
    requires
        p.len() <= ARRAY_LIMIT,
        0 <= i < p.len(),
    ensures
        entry_ok(palette_list(p) + rest, 4 + 10 * i),
        u16_at(palette_list(p) + rest, 4 + 10 * i + 7) == p[i],
{
    let recs = p.map_values(|x: u16| entry_bytes(x));
    let s = palette_list(p) + rest;
    lemma_flat_at(recs, 10, i);
    let f = flat(recs, 10);
    let e = entry_bytes(p[i]);
    assert(recs[i] == e);
    crate::be::lemma_u16_round_trip(p[i]);
    assert(s.subrange(4 + 10 * i, 14 + 10 * i) =~= f.subrange(i * 10, i * 10 + 10));
    let t = s.subrange(4 + 10 * i, 14 + 10 * i);
    assert(t == e);
    assert(s.subrange(4 + 10 * i, 4 + 10 * i + 7) =~= t.subrange(0, 7));
    assert(t.subrange(0, 7) =~= lit_entry());
    assert(s[4 + 10 * i + 9] == t[9]);
    assert(s[4 + 10 * i + 7] == t[7] && s[4 + 10 * i + 8] == t[8]);
    assert(u16_at(s, 4 + 10 * i + 7) == u16_at(u16_be(p[i]), 0));
}

proof fn lemma_take_palette(p: Seq<u16>, rest: Seq<u8>)
    requires
        p.len() <= ARRAY_LIMIT,
    ensures
        take_palette(palette_list(p) + rest) == Some((p, rest)),
{
    reveal(take_palette);
    let s = palette_list(p) + rest;
    let n = p.len();
    crate::be::lemma_u32_round_trip(n as u32);
    assert(u32_at(s, 0) == u32_at(u32_be(n as u32), 0));
    assert(s.len() == 4 + 10 * n + rest.len());
    assert forall|i: int| 0 <= i < n implies #[trigger] entry_ok(s, 4 + 10 * i) by {
        lemma_palette_entry(p, rest, i);
    }
    assert forall|i: int| 0 <= i < n implies #[trigger] u16_at(s, 4 + 10 * i + 7) == p[i] by {
        lemma_palette_entry(p, rest, i);
    }
    assert(Seq::new(n as nat, |i: int| u16_at(s, 4 + 10 * i + 7)) =~= p);
    assert(s.skip(4 + 10 * n as int) =~= rest);
}

proof fn lemma_take_section(sec: (Seq<u16>, Seq<u64>), i: int, rest: Seq<u8>)
    requires
        sec.0.len() <= ARRAY_LIMIT,
        sec.1.len() <= ARRAY_LIMIT,
    ensures
        take_section(section_bytes(sec, i) + rest, i) == Some((sec, rest)),
{
    reveal(take_section);
    let t6 = lit_section_end() + rest;
    let t5 = long_array(sec.1) + t6;
    let t4 = lit_data() + t5;
    let t3 = palette_list(sec.0) + t4;
    let t2 = lit_block_states() + t3;
    let t1 = seq![y_byte(i)] + t2;
    let s = section_bytes(sec, i) + rest;
    assert(s =~= lit_y() + t1);
    lemma_strip(lit_y(), t1);
    assert(t1.skip(1) =~= t2);
    lemma_strip(lit_block_states(), t3);
    lemma_take_palette(sec.0, t4);
    lemma_strip(lit_data(), t5);
    lemma_take_longs(sec.1, t6);
    lemma_strip(lit_section_end(), rest);
}

proof fn lemma_take_sections(secs: Seq<(Seq<u16>, Seq<u64>)>, i: int, rest: Seq<u8>)
    requires
        forall|k: int|
            0 <= k < secs.len() ==> (#[trigger] secs[k]).0.len() <= ARRAY_LIMIT && secs[k].1.len()
                <= ARRAY_LIMIT,
    ensures
        take_sections(sections_bytes(secs, i) + rest, secs.len(), i) == Some((secs, rest)),
    decreases secs.len(),
{
    if secs.len() == 0 {
        assert(sections_bytes(secs, i) + rest =~= rest);
        assert(secs =~= Seq::<(Seq<u16>, Seq<u64>)>::empty());
    } else {
        let tail = secs.drop_first();
        let r1 = sections_bytes(tail, i + 1) + rest;
        assert(sections_bytes(secs, i) + rest =~= section_bytes(secs[0], i) + r1);
        lemma_take_section(secs[0], i, r1);
        assert forall|k: int| 0 <= k < tail.len() implies (#[trigger] tail[k]).0.len()
            <= ARRAY_LIMIT && tail[k].1.len() <= ARRAY_LIMIT by {
            assert(tail[k] == secs[k + 1]);
        }
        lemma_take_sections(tail, i + 1, rest);
        assert(seq![secs[0]] + tail =~= secs);
    }
}

/// Reading a written document gives it back.
pub proof fn lemma_document_round_trip(d: DocView)
    requires
        doc_wf(d),
    ensures
        parse_document(document_bytes(d)) == Some(d),
{
    reveal(take_head);
    reveal(take_heightmaps);
    let t10 = lit_end();
    let t9 = sections_bytes(d.4, 0) + t10;
    let t8 = lit_sections() + t9;
    let t7 = long_array(d.3) + t8;
    let t6 = lit_world_surface() + t7;
    let t5 = long_array(d.2) + t6;
    let t4 = lit_heightmaps() + t5;
    let t3 = u32_be(d.1 as u32) + t4;
    let t2 = lit_z() + t3;
    let t1 = u32_be(d.0 as u32) + t2;
    lemma_strip(lit_root(), t1);
    lemma_u32_prefix(d.0 as u32, t2);
    lemma_strip(lit_z(), t3);
    lemma_u32_prefix(d.1 as u32, t4);
    lemma_strip(lit_heightmaps(), t5);
    lemma_take_longs(d.2, t6);
    lemma_strip(lit_world_surface(), t7);
    lemma_take_longs(d.3, t8);
    lemma_strip(lit_sections(), t9);
    lemma_take_sections(d.4, 0, t10);
    let (x, z) = (d.0, d.1);
    assert((x as u32) as i32 == x) by (bit_vector);
    assert((z as u32) as i32 == z) by (bit_vector);
}

fn read_strip(b: &[u8], pos: usize, lit: &[u8]) -> (r: Option<usize>)
    requires
        pos <= b@.len(),
    ensures
        match strip(b@.skip(pos as int), lit@) {
            Some(rest) => r matches Some(p) && p == pos + lit@.len() && p <= b@.len() && rest
                == b@.skip(p as int),
            None => r is None,
        },
{
    let s = Ghost(b@.skip(pos as int));
    let blen = b.len();
    if lit.len() > blen - pos {
        return None;
    }
    let mut i: usize = 0;
    while i < lit.len()
        invariant
            blen == b@.len(),
            pos + lit@.len() <= b@.len(),
            s@ == b@.skip(pos as int),
            i <= lit@.len(),
            forall|k: int| 0 <= k < i ==> #[trigger] b@[pos + k] == lit@[k],
        decreases lit@.len() - i,
    {
        if b[pos + i] != lit[i] {
            assert(s@.subrange(0, lit@.len() as int)[i as int] != lit@[i as int]);
            return None;
        }
        i = i + 1;
    }
    assert forall|k: int| 0 <= k < lit@.len() implies s@.subrange(0, lit@.len() as int)[k]
        == lit@[k] by {
        assert(s@[k] == b@[pos + k]);
    }
    assert(s@.subrange(0, lit@.len() as int) =~= lit@);
    assert(s@.skip(lit@.len() as int) =~= b@.skip(pos + lit@.len()));
    Some(pos + lit.len())
}

fn read_u32_at(b: &[u8], pos: usize) -> (r: Option<(u32, usize)>)
    requires
        pos <= b@.len(),
    ensures
        match take_u32(b@.skip(pos as int)) {
            Some((v, rest)) => r matches Some((v2, p)) && v2 == v && p == pos + 4 && p <= b@.len()
                && rest == b@.skip(p as int),
            None => r is None,
        },
{
    if b.len() - pos < 4 {
        return None;
    }
    let v = crate::be::read_u32(b, pos);
    let ghost s = b@.skip(pos as int);
    assert(u32_at(s, 0) == u32_at(b@, pos as int));
    assert(s.skip(4) =~= b@.skip(pos + 4));
    Some((v, pos + 4))
}

fn read_longs(b: &[u8], pos: usize) -> (r: Option<(Vec<u64>, usize)>)
    requires
        pos <= b@.len(),
    ensures
        match take_longs(b@.skip(pos as int)) {
            Some((v, rest)) => r matches Some((w, p)) && w@ == v && p <= b@.len() && rest == b@.skip(
                p as int,
            ),
            None => r is None,
        },
{
    reveal(take_longs);
    let ghost s = b@.skip(pos as int);
    if b.len() - pos < 4 {
        return None;
    }
    let n = crate::be::read_u32(b, pos);
    assert(u32_at(s, 0) == u32_at(b@, pos as int));
    if n as usize > ARRAY_LIMIT {
        return None;
    }
    let n = n as usize;
    if (b.len() - pos - 4) / 8 < n {
        return None;
    }
    let blen = b.len();
    let start = pos + 4;
    let mut out: Vec<u64> = Vec::new();
    let mut i: usize = 0;
    while i < n
        invariant
            n <= ARRAY_LIMIT,
            start == pos + 4,
            blen == b@.len(),
            start + 8 * n <= b@.len(),
            s == b@.skip(pos as int),
            i <= n,
            out@.len() == i,
            forall|k: int| 0 <= k < i ==> #[trigger] out@[k] == u64_at(s, 4 + 8 * k),
        decreases n - i,
    {
        let v = crate::be::read_u64(b, start + 8 * i);
        assert(u64_at(s, 4 + 8 * i) == u64_at(b@, start + 8 * i));
        out.push(v);
        i = i + 1;
    }
    assert(out@ =~= Seq::new(n as nat, |k: int| u64_at(s, 4 + 8 * k)));
    assert(s.skip(4 + 8 * n as int) =~= b@.skip(start + 8 * n));
    Some((out, start + 8 * n))
}

fn read_palette(b: &[u8], pos: usize) -> (r: Option<(Vec<u16>, usize)>)
    requires
        pos <= b@.len(),
    ensures
        match take_palette(b@.skip(pos as int)) {
            Some((v, rest)) => r matches Some((w, p)) && w@ == v && p <= b@.len() && rest == b@.skip(
                p as int,
            ),
            None => r is None,
        },
{
    reveal(take_palette);
    let ghost s = b@.skip(pos as int);
    if b.len() - pos < 4 {
        return None;
    }
    let n = crate::be::read_u32(b, pos);
    assert(u32_at(s, 0) == u32_at(b@, pos as int));
    if n as usize > ARRAY_LIMIT {
        return None;
    }
    let n = n as usize;
    if (b.len() - pos - 4) / 10 < n {
        return None;
    }
    let blen = b.len();
    let start = pos + 4;
    let head: [u8; 7] = [3u8, 0, 2, 73, 100, 0, 0];
    assert(head@ =~= lit_entry());
    let mut out: Vec<u16> = Vec::new();
    let mut i: usize = 0;
    while i < n
        invariant
            n <= ARRAY_LIMIT,
            start == pos + 4,
            blen == b@.len(),
            start + 10 * n <= b@.len(),
            s == b@.skip(pos as int),
            head@ == lit_entry(),
            s.len() == b@.len() - pos,
            u32_at(s, 0) as int == n,
            i <= n,
            out@.len() == i,
            forall|k: int| 0 <= k < i ==> #[trigger] entry_ok(s, 4 + 10 * k),
            forall|k: int| 0 <= k < i ==> #[trigger] out@[k] == u16_at(s, 4 + 10 * k + 7),
        decreases n - i,
    {
        let at = start + 10 * i;
        let ok = read_strip(b, at, &head);
        assert(s.subrange(4 + 10 * i, 4 + 10 * i + 7) =~= b@.skip(at as int).subrange(0, 7));
        if ok.is_none() || b[at + 9] != 0 {
            reveal(take_palette);
            assert(!entry_ok(s, 4 + 10 * i));
            assert(!(forall|k: int| 0 <= k < n ==> #[trigger] entry_ok(s, 4 + 10 * k)));
            assert(take_palette(s) is None);
            return None;
        }
        let v = crate::be::read_u16(b, at + 7);
        assert(u16_at(s, 4 + 10 * i + 7) == u16_at(b@, at + 7));
        assert(entry_ok(s, 4 + 10 * i));
        out.push(v);
        i = i + 1;
    }
    reveal(take_palette);
    assert(out@ =~= Seq::new(n as nat, |k: int| u16_at(s, 4 + 10 * k + 7)));
    assert(s.skip(4 + 10 * n as int) =~= b@.skip(start + 10 * n));
    Some((out, start + 10 * n))
}

fn read_section(b: &[u8], pos: usize, i: usize) -> (r: Option<(PalettedSection, usize)>)
    requires
        pos <= b@.len(),
        i < SECTION_COUNT,
    ensures
        match take_section(b@.skip(pos as int), i as int) {
            Some((sec, rest)) => r matches Some((w, p)) && w@ == sec && p <= b@.len() && rest
                == b@.skip(p as int),
            None => r is None,
        },
{
    reveal(take_section);
    let y: [u8; 4] = [1u8, 0, 1, 89];
    assert(y@ =~= lit_y());
    let at1 = match read_strip(b, pos, &y) {
        Some(p) => p,
        None => return None,
    };
    if at1 >= b.len() || b[at1] != y_byte_of(i) {
        return None;
    }
    let bs: [u8; 26] = [10u8, 0, 12, 98, 108, 111, 99, 107, 95, 115, 116, 97, 116, 101, 115, 9,
        0, 7, 112, 97, 108, 101, 116, 116, 101, 10];
    assert(bs@ =~= lit_block_states());
    assert(b@.skip(at1 as int).skip(1) =~= b@.skip(at1 + 1));
    let at2 = match read_strip(b, at1 + 1, &bs) {
        Some(p) => p,
        None => return None,
    };
    let (palette, at3) = match read_palette(b, at2) {
        Some(v) => v,
        None => return None,
    };
    let data: [u8; 7] = [12u8, 0, 4, 100, 97, 116, 97];
    assert(data@ =~= lit_data());
    let at4 = match read_strip(b, at3, &data) {
        Some(p) => p,
        None => return None,
    };
    let (words, at5) = match read_longs(b, at4) {
        Some(v) => v,
        None => return None,
    };
    let end: [u8; 2] = [0u8, 0];
    assert(end@ =~= lit_section_end());
    let at6 = match read_strip(b, at5, &end) {
        Some(p) => p,
        None => return None,
    };
    Some((PalettedSection { palette, data: words }, at6))
}

fn read_head(b: &[u8]) -> (r: Option<(i32, i32, usize)>)
    ensures
        match take_head(b@) {
            Some((x, z, rest)) => r matches Some((x2, z2, p)) && x2 == x && z2 == z && p <= b@.len()
                && rest == b@.skip(p as int),
            None => r is None,
        },
{
    reveal(take_head);
    assert(b@.skip(0) =~= b@);
    let root: [u8; 28] = [10u8, 0, 0, 3, 0, 11, 68, 97, 116, 97, 86, 101, 114, 115, 105, 111,
        110, 0, 0, 16, 93, 3, 0, 4, 120, 80, 111, 115];
    assert(root@ =~= lit_root());
    let at1 = match read_strip(b, 0, &root) {
        Some(p) => p,
        None => return None,
    };
    let (x, at2) = match read_u32_at(b, at1) {
        Some(v) => v,
        None => return None,
    };
    let zl: [u8; 7] = [3u8, 0, 4, 122, 80, 111, 115];
    assert(zl@ =~= lit_z());
    let at3 = match read_strip(b, at2, &zl) {
        Some(p) => p,
        None => return None,
    };
    let (z, at4) = match read_u32_at(b, at3) {
        Some(v) => v,
        None => return None,
    };
    Some((x as i32, z as i32, at4))
}

fn read_heightmaps(b: &[u8], pos: usize) -> (r: Option<(Vec<u64>, Vec<u64>, usize)>)
    requires
        pos <= b@.len(),
    ensures
        match take_heightmaps(b@.skip(pos as int)) {
            Some((mb, ws, rest)) => r matches Some((m, w, p)) && m@ == mb && w@ == ws && p
                <= b@.len() && rest == b@.skip(p as int),
            None => r is None,
        },
{
    reveal(take_heightmaps);
    let hm: [u8; 46] = [8u8, 0, 6, 83, 116, 97, 116, 117, 115, 0, 4, 102, 117, 108, 108, 10, 0,
        10, 72, 101, 105, 103, 104, 116, 109, 97, 112, 115, 12, 0, 15, 77, 79, 84, 73, 79, 78, 95,
        66, 76, 79, 67, 75, 73, 78, 71];
    assert(hm@ =~= lit_heightmaps());
    let at5 = match read_strip(b, pos, &hm) {
        Some(p) => p,
        None => return None,
    };
    let (mb, at6) = match read_longs(b, at5) {
        Some(v) => v,
        None => return None,
    };
    let wsl: [u8; 16] = [12u8, 0, 13, 87, 79, 82, 76, 68, 95, 83, 85, 82, 70, 65, 67, 69];
    assert(wsl@ =~= lit_world_surface());
    let at7 = match read_strip(b, at6, &wsl) {
        Some(p) => p,
        None => return None,
    };
    let (ws, at8) = match read_longs(b, at7) {
        Some(v) => v,
        None => return None,
    };
    Some((mb, ws, at8))
}

/// Reads a whole chunk document; `None` when `b` is not exactly a document in the
/// form that `write_document` produces.
pub fn read_document(b: &[u8]) -> (r: Option<ChunkDocument>)
    ensures
        match parse_document(b@) {
            Some(d) => r matches Some(doc) && doc@ == d,
            None => r is None,
        },
{
    let (x, z, at4) = match read_head(b) {
        Some(v) => v,
        None => return None,
    };
    let (mb, ws, at8) = match read_heightmaps(b, at4) {
        Some(v) => v,
        None => return None,
    };
    let sl: [u8; 17] = [0u8, 9, 0, 8, 115, 101, 99, 116, 105, 111, 110, 115, 10, 0, 0, 0, 24];
    assert(sl@ =~= lit_sections());
    let at9 = match read_strip(b, at8, &sl) {
        Some(p) => p,
        None => return None,
    };
    let (sections, pos) = match read_sections(b, at9) {
        Some(v) => v,
        None => return None,
    };
    if b.len() - pos != 1 || b[pos] != 0 {
        assert(lit_end().len() == 1 && lit_end()[0] == 0u8);
        assert(b@.skip(pos as int).len() != 1 || b@.skip(pos as int)[0] == b@[pos as int]);
        return None;
    }
    assert(b@.skip(pos as int) =~= lit_end());
    let doc = ChunkDocument { x, z, motion_blocking: mb, world_surface: ws, sections };
    Some(doc)
}

/// `res` with `views` put in front of the sections it holds.
spec fn prepend(
    views: Seq<(Seq<u16>, Seq<u64>)>,
    res: Option<(Seq<(Seq<u16>, Seq<u64>)>, Seq<u8>)>,
) -> Option<(Seq<(Seq<u16>, Seq<u64>)>, Seq<u8>)> {
    match res {
        None => None,
        Some((secs, r)) => Some((views + secs, r)),
    }
}

proof fn lemma_prepend_step(views: Seq<(Seq<u16>, Seq<u64>)>, s: Seq<u8>, n: nat, i: int)
    requires
        n > 0,
    ensures
        take_section(s, i) is None ==> prepend(views, take_sections(s, n, i)) is None,
        take_section(s, i) matches Some((sec, r)) ==> prepend(views, take_sections(s, n, i))
            == prepend(views.push(sec), take_sections(r, (n - 1) as nat, i + 1)),
{
    match take_section(s, i) {
        None => {},
        Some((sec, r)) => {
            match take_sections(r, (n - 1) as nat, i + 1) {
                None => {},
                Some((secs, r2)) => {
                    assert(views + (seq![sec] + secs) =~= views.push(sec) + secs);
                },
            }
        },
    }
}

fn read_sections(b: &[u8], start: usize) -> (r: Option<(Vec<PalettedSection>, usize)>)
    requires
        start <= b@.len(),
    ensures
        match take_sections(b@.skip(start as int), SECTION_COUNT as nat, 0) {
            Some((secs, rest)) => r matches Some((w, p)) && w@.map_values(
                |t: PalettedSection| t@,
            ) == secs && p <= b@.len() && rest == b@.skip(p as int),
            None => r is None,
        },
{
    let ghost s0 = b@.skip(start as int);
    let mut sections: Vec<PalettedSection> = Vec::new();
    let ghost mut views: Seq<(Seq<u16>, Seq<u64>)> = Seq::empty();
    let mut pos = start;
    let mut i: usize = 0;
    while i < SECTION_COUNT
        invariant
            i <= SECTION_COUNT,
            pos <= b@.len(),
            s0 == b@.skip(start as int),
            views.len() == i,
            sections@.len() == i,
            forall|k: int| 0 <= k < i ==> (#[trigger] sections@[k])@ == views[k],
            take_sections(s0, SECTION_COUNT as nat, 0) == prepend(
                views,
                take_sections(b@.skip(pos as int), (SECTION_COUNT - i) as nat, i as int),
            ),
        decreases SECTION_COUNT - i,
    {
        proof {
            lemma_prepend_step(views, b@.skip(pos as int), (SECTION_COUNT - i) as nat, i as int);
        }
        match read_section(b, pos, i) {
            Some((sec, next)) => {
                proof {
                    views = views.push(sec@);
                }
                sections.push(sec);
                pos = next;
            },
            None => {
                assert(take_section(b@.skip(pos as int), i as int) is None);
                assert(take_sections(s0, SECTION_COUNT as nat, 0) is None);
                return None;
            },
        }
        i = i + 1;
    }
    assert(sections@.map_values(|t: PalettedSection| t@) =~= views);
    assert(views + Seq::<(Seq<u16>, Seq<u64>)>::empty() =~= views);
    Some((sections, pos))
}

proof fn lemma_sections_len(secs: Seq<(Seq<u16>, Seq<u64>)>, i: int)
    requires
        forall|k: int|
            0 <= k < secs.len() ==> (#[trigger] secs[k]).0.len() <= ARRAY_LIMIT && secs[k].1.len()
                <= ARRAY_LIMIT,
    ensures
        sections_bytes(secs, i).len() <= secs.len() * 73776,
    decreases secs.len(),
{
    if secs.len() > 0 {
        let tail = secs.drop_first();
        assert forall|k: int| 0 <= k < tail.len() implies (#[trigger] tail[k]).0.len()
            <= ARRAY_LIMIT && tail[k].1.len() <= ARRAY_LIMIT by {
            assert(tail[k] == secs[k + 1]);
        }
        lemma_sections_len(tail, i + 1);
        let s0 = secs[0];
        assert(flat(s0.0.map_values(|s: u16| entry_bytes(s)), 10).len() == s0.0.len() * 10);
        assert(flat(s0.1.map_values(|x: u64| u64_be(x)), 8).len() == s0.1.len() * 8);
        let a = s0.0.len();
        let c = s0.1.len();
        let t = tail.len();
        assert(a * 10 + c * 8 + 48 + t * 73776 <= (t + 1) * 73776) by (nonlinear_arith)
            requires
                a <= 4096,
                c <= 4096,
        ;
        assert(section_bytes(s0, i).len() == 48 + a * 10 + c * 8);
    }
}

/// A document within the array bounds takes fewer than two million bytes.
pub proof fn lemma_document_len(d: DocView)
    requires
        doc_wf(d),
    ensures
        document_bytes(d).len() <= 2_000_000,
{
    lemma_sections_len(d.4, 0);
    assert(flat(d.2.map_values(|x: u64| u64_be(x)), 8).len() == d.2.len() * 8);
    assert(flat(d.3.map_values(|x: u64| u64_be(x)), 8).len() == d.3.len() * 8);
}

} // verus!
