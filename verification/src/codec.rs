//! A reversible byte encoding of a font, so a compiled font can be
//! persisted and reloaded: little-endian fixed-width fields, length-prefixed
//! tables, and a tag byte selecting the single-character table's storage.
//! Decoding accepts exactly the canonical encodings: whatever it accepts
//! re-encodes to the same bytes.

use vstd::prelude::*;
use crate::font::{CharTable, Font, PairEntry};
use crate::glyph::Glyph;

verus! {

/// The four little-endian bytes of a 32-bit value.
pub open spec fn enc_u32(v: u32) -> Seq<u8> {
    seq![
        (v & 0xff) as u8,
        ((v >> 8) & 0xff) as u8,
        ((v >> 16) & 0xff) as u8,
        ((v >> 24) & 0xff) as u8,
    ]
}

/// The eight little-endian bytes of a 64-bit value.
pub open spec fn enc_u64(v: u64) -> Seq<u8> {
    enc_u32((v & 0xffffffff) as u32) + enc_u32((v >> 32) as u32)
}

/// The 32-bit value read back from four little-endian bytes.
pub open spec fn le32(b0: u8, b1: u8, b2: u8, b3: u8) -> u32 {
    (b0 as u32) | ((b1 as u32) << 8) | ((b2 as u32) << 16) | ((b3 as u32) << 24)
}

/// The 64-bit value read back from two little-endian 32-bit halves.
pub open spec fn le64(lo: u32, hi: u32) -> u64 {
    (lo as u64) | ((hi as u64) << 32)
}

/// The twelve bytes of one glyph record.
pub open spec fn enc_glyph(g: Glyph) -> Seq<u8> {
    enc_u32(g.pos.0) + enc_u32(g.pos.1) + seq![
        g.size.0,
        g.size.1,
        g.offset.0 as u8,
        g.offset.1 as u8,
    ]
}

/// The all-zero glyph record written for an empty dense slot.
pub open spec fn glyph_zero() -> Glyph {
    Glyph { pos: (0u32, 0u32), size: (0u8, 0u8), offset: (0i8, 0i8) }
}

/// The sixteen bytes of one sparse single-character entry.
pub open spec fn enc_single(e: (char, Glyph)) -> Seq<u8> {
    enc_u32(e.0 as u32) + enc_glyph(e.1)
}

/// The thirteen bytes of one dense slot: a presence flag, then the glyph or
/// an all-zero record.
pub open spec fn enc_slot(o: Option<Glyph>) -> Seq<u8> {
    match o {
        Some(g) => seq![1u8] + enc_glyph(g),
        None => seq![0u8] + enc_glyph(glyph_zero()),
    }
}

/// The twenty bytes of one ligature entry.
pub open spec fn enc_pair(e: PairEntry) -> Seq<u8> {
    enc_u32(e.first as u32) + enc_u32(e.second as u32) + enc_glyph(e.glyph)
}

pub open spec fn enc_singles(s: Seq<(char, Glyph)>) -> Seq<u8>
    decreases s.len(),
{
    if s.len() == 0 {
        Seq::empty()
    } else {
        enc_single(s[0]) + enc_singles(s.drop_first())
    }
}

pub open spec fn enc_slots(s: Seq<Option<Glyph>>) -> Seq<u8>
    decreases s.len(),
{
    if s.len() == 0 {
        Seq::empty()
    } else {
        enc_slot(s[0]) + enc_slots(s.drop_first())
    }
}

pub open spec fn enc_pairs(s: Seq<PairEntry>) -> Seq<u8>
    decreases s.len(),
{
    if s.len() == 0 {
        Seq::empty()
    } else {
        enc_pair(s[0]) + enc_pairs(s.drop_first())
    }
}

/// The single-character table: a storage tag, the entry or slot count, then
/// the entries or slots.
pub open spec fn enc_table(t: CharTable) -> Seq<u8> {
    match t {
        CharTable::Sparse(entries) => seq![0u8] + enc_u64(entries@.len() as u64) + enc_singles(
            entries@,
        ),
        CharTable::Dense(slots) => seq![1u8] + enc_u64(slots@.len() as u64) + enc_slots(slots@),
    }
}

/// The canonical byte encoding of a font: stride, atlas length and bytes,
/// the single-character table, then the counted ligature table.
pub open spec fn spec_encode(f: Font) -> Seq<u8> {
    enc_u32(f.width) + enc_u64(f.bitmap@.len() as u64) + f.bitmap@ + enc_table(f.map1)
        + enc_u64(f.map2@.len() as u64) + enc_pairs(f.map2@)
}

proof fn lemma_enc_singles_push(s: Seq<(char, Glyph)>, x: (char, Glyph))
    ensures
        enc_singles(s.push(x)) == enc_singles(s) + enc_single(x),
    decreases s.len(),
{
    let t = s.push(x);
    assert(t.len() == s.len() + 1);
    if s.len() == 0 {
        assert(t[0] == x);
        assert(t.drop_first() =~= Seq::<(char, Glyph)>::empty());
        assert(enc_singles(t.drop_first()) == Seq::<u8>::empty());
        assert(enc_singles(t) == enc_single(x) + Seq::<u8>::empty());
        assert(enc_single(x) + Seq::<u8>::empty() =~= enc_singles(s) + enc_single(x));
    } else {
        assert(t[0] == s[0]);
        assert(t.drop_first() =~= s.drop_first().push(x));
        lemma_enc_singles_push(s.drop_first(), x);
        assert(enc_singles(t) == enc_single(s[0]) + (enc_singles(s.drop_first()) + enc_single(
            x,
        )));
        assert(enc_single(s[0]) + (enc_singles(s.drop_first()) + enc_single(x)) =~= (enc_single(
            s[0],
        ) + enc_singles(s.drop_first())) + enc_single(x));
        assert(enc_singles(s) == enc_single(s[0]) + enc_singles(s.drop_first()));
    }
}

proof fn lemma_enc_slots_push(s: Seq<Option<Glyph>>, x: Option<Glyph>)
    ensures
        enc_slots(s.push(x)) == enc_slots(s) + enc_slot(x),
    decreases s.len(),
{
    let t = s.push(x);
    assert(t.len() == s.len() + 1);
    if s.len() == 0 {
        assert(t[0] == x);
        assert(t.drop_first() =~= Seq::<Option<Glyph>>::empty());
        assert(enc_slots(t.drop_first()) == Seq::<u8>::empty());
        assert(enc_slots(t) == enc_slot(x) + Seq::<u8>::empty());
        assert(enc_slot(x) + Seq::<u8>::empty() =~= enc_slots(s) + enc_slot(x));
    } else {
        assert(t[0] == s[0]);
        assert(t.drop_first() =~= s.drop_first().push(x));
        lemma_enc_slots_push(s.drop_first(), x);
        assert(enc_slots(t) == enc_slot(s[0]) + (enc_slots(s.drop_first()) + enc_slot(x)));
        assert(enc_slot(s[0]) + (enc_slots(s.drop_first()) + enc_slot(x)) =~= (enc_slot(s[0])
            + enc_slots(s.drop_first())) + enc_slot(x));
        assert(enc_slots(s) == enc_slot(s[0]) + enc_slots(s.drop_first()));
    }
}

proof fn lemma_enc_pairs_push(s: Seq<PairEntry>, x: PairEntry)
    ensures
        enc_pairs(s.push(x)) == enc_pairs(s) + enc_pair(x),
    decreases s.len(),
{
    let t = s.push(x);
    assert(t.len() == s.len() + 1);
    if s.len() == 0 {
        assert(t[0] == x);
        assert(t.drop_first() =~= Seq::<PairEntry>::empty());
        assert(enc_pairs(t.drop_first()) == Seq::<u8>::empty());
        assert(enc_pairs(t) == enc_pair(x) + Seq::<u8>::empty());
        assert(enc_pair(x) + Seq::<u8>::empty() =~= enc_pairs(s) + enc_pair(x));
    } else {
        assert(t[0] == s[0]);
        assert(t.drop_first() =~= s.drop_first().push(x));
        lemma_enc_pairs_push(s.drop_first(), x);
        assert(enc_pairs(t) == enc_pair(s[0]) + (enc_pairs(s.drop_first()) + enc_pair(x)));
        assert(enc_pair(s[0]) + (enc_pairs(s.drop_first()) + enc_pair(x)) =~= (enc_pair(s[0])
            + enc_pairs(s.drop_first())) + enc_pair(x));
        assert(enc_pairs(s) == enc_pair(s[0]) + enc_pairs(s.drop_first()));
    }
}

fn push_u32(out: &mut Vec<u8>, v: u32)
    ensures
        final(out)@ == old(out)@ + enc_u32(v),
{
    out.push((v & 0xff) as u8);
    out.push(((v >> 8) & 0xff) as u8);
    out.push(((v >> 16) & 0xff) as u8);
    out.push(((v >> 24) & 0xff) as u8);
    assert(out@ =~= old(out)@ + enc_u32(v));
}

fn push_u64(out: &mut Vec<u8>, v: u64)
    ensures
        final(out)@ == old(out)@ + enc_u64(v),
{
    push_u32(out, (v & 0xffffffff) as u32);
    push_u32(out, (v >> 32) as u32);
    assert(out@ =~= old(out)@ + enc_u64(v));
}

fn push_glyph(out: &mut Vec<u8>, g: Glyph)
    ensures
        final(out)@ == old(out)@ + enc_glyph(g),
{
    push_u32(out, g.pos.0);
    push_u32(out, g.pos.1);
    out.push(g.size.0);
    out.push(g.size.1);
    out.push(g.offset.0 as u8);
    out.push(g.offset.1 as u8);
    assert(out@ =~= old(out)@ + enc_glyph(g));
}

/// Two fonts hold the same data: equal stride, atlas bytes, storage
/// strategy, table contents and ligature entries.
pub open spec fn font_eqv(f1: Font, f2: Font) -> bool {
    &&& f1.width == f2.width
    &&& f1.bitmap@ == f2.bitmap@
    &&& table_eqv(f1.map1, f2.map1)
    &&& f1.map2@ == f2.map2@
}

/// Two single-character tables use the same strategy and hold the same
/// entries.
pub open spec fn table_eqv(t1: CharTable, t2: CharTable) -> bool {
    match (t1, t2) {
        (CharTable::Sparse(e1), CharTable::Sparse(e2)) => e1@ == e2@,
        (CharTable::Dense(s1), CharTable::Dense(s2)) => s1@ == s2@,
        _ => false,
    }
}

/// The font's tables and atlas are small enough for the length-prefixed
/// encoding's 64-bit counts.
pub open spec fn encodable(f: Font) -> bool {
    &&& f.bitmap@.len() <= u64::MAX
    &&& (match f.map1 {
        CharTable::Sparse(entries) => entries@.len() <= u64::MAX,
        CharTable::Dense(slots) => slots@.len() <= u64::MAX,
    })
    &&& f.map2@.len() <= u64::MAX
}

proof fn lemma_le32_enc(v: u32)
    ensures
        le32(
            (v & 0xff) as u8,
            ((v >> 8) & 0xff) as u8,
            ((v >> 16) & 0xff) as u8,
            ((v >> 24) & 0xff) as u8,
        ) == v,
{
    assert((((v & 0xff) as u8) as u32) | (((((v >> 8) & 0xff) as u8) as u32) << 8) | (((((v
        >> 16) & 0xff) as u8) as u32) << 16) | (((((v >> 24) & 0xff) as u8) as u32) << 24)
        == v) by (bit_vector);
}

proof fn lemma_le64_enc(v: u64)
    ensures
        le64((v & 0xffffffff) as u32, (v >> 32) as u32) == v,
{
    assert((((v & 0xffffffff) as u32) as u64) | ((((v >> 32) as u32) as u64) << 32) == v)
        by (bit_vector);
}

/// Distinct 32-bit values have distinct four-byte encodings.
proof fn lemma_enc_u32_inj(a: u32, b: u32)
    requires
        enc_u32(a) == enc_u32(b),
    ensures
        a == b,
{
    lemma_le32_enc(a);
    lemma_le32_enc(b);
    assert(enc_u32(a)[0] == enc_u32(b)[0]);
    assert(enc_u32(a)[1] == enc_u32(b)[1]);
    assert(enc_u32(a)[2] == enc_u32(b)[2]);
    assert(enc_u32(a)[3] == enc_u32(b)[3]);
}

/// Distinct 64-bit values have distinct eight-byte encodings.
proof fn lemma_enc_u64_inj(a: u64, b: u64)
    requires
        enc_u64(a) == enc_u64(b),
    ensures
        a == b,
{
    lemma_split(
        enc_u32((a & 0xffffffff) as u32),
        enc_u32((a >> 32) as u32),
        enc_u32((b & 0xffffffff) as u32),
        enc_u32((b >> 32) as u32),
    );
    lemma_enc_u32_inj((a & 0xffffffff) as u32, (b & 0xffffffff) as u32);
    lemma_enc_u32_inj((a >> 32) as u32, (b >> 32) as u32);
    lemma_le64_enc(a);
    lemma_le64_enc(b);
}

/// Equal concatenations with equally long first parts have equal parts.
proof fn lemma_split(a: Seq<u8>, b: Seq<u8>, c: Seq<u8>, d: Seq<u8>)
    requires
        a + b == c + d,
        a.len() == c.len(),
    ensures
        a == c,
        b == d,
{
    assert forall|i: int| 0 <= i < a.len() implies a[i] == c[i] by {
        assert((a + b)[i] == a[i]);
        assert((c + d)[i] == c[i]);
    }
    assert(a =~= c);
    assert((a + b).len() == a.len() + b.len());
    assert((c + d).len() == c.len() + d.len());
    assert(b.len() == d.len());
    assert forall|i: int| 0 <= i < b.len() implies b[i] == d[i] by {
        assert((a + b).len() == a.len() + b.len());
        assert((c + d).len() == c.len() + d.len());
        assert(b.len() == d.len());
        assert((a + b)[a.len() + i] == b[i]);
        assert((c + d)[c.len() + i] == d[i]);
    }
    assert(b =~= d);
}

proof fn lemma_enc_singles_len(s: Seq<(char, Glyph)>)
    ensures
        enc_singles(s).len() == 16 * s.len(),
    decreases s.len(),
{
    if s.len() > 0 {
        lemma_enc_singles_len(s.drop_first());
    }
}

proof fn lemma_enc_slots_len(s: Seq<Option<Glyph>>)
    ensures
        enc_slots(s).len() == 13 * s.len(),
    decreases s.len(),
{
    if s.len() > 0 {
        lemma_enc_slots_len(s.drop_first());
    }
}

proof fn lemma_enc_pairs_len(s: Seq<PairEntry>)
    ensures
        enc_pairs(s).len() == 20 * s.len(),
    decreases s.len(),
{
    if s.len() > 0 {
        lemma_enc_pairs_len(s.drop_first());
    }
}

/// Distinct glyph records have distinct twelve-byte encodings.
proof fn lemma_enc_glyph_inj(g1: Glyph, g2: Glyph)
    requires
        enc_glyph(g1) == enc_glyph(g2),
    ensures
        g1 == g2,
{
    let tail1 = seq![g1.size.0, g1.size.1, g1.offset.0 as u8, g1.offset.1 as u8];
    let tail2 = seq![g2.size.0, g2.size.1, g2.offset.0 as u8, g2.offset.1 as u8];
    lemma_split(enc_u32(g1.pos.0) + enc_u32(g1.pos.1), tail1, enc_u32(g2.pos.0) + enc_u32(
        g2.pos.1,
    ), tail2);
    lemma_split(enc_u32(g1.pos.0), enc_u32(g1.pos.1), enc_u32(g2.pos.0), enc_u32(g2.pos.1));
    lemma_enc_u32_inj(g1.pos.0, g2.pos.0);
    lemma_enc_u32_inj(g1.pos.1, g2.pos.1);
    assert(tail1[0] == tail2[0]);
    assert(tail1[1] == tail2[1]);
    assert(tail1[2] == tail2[2]);
    assert(tail1[3] == tail2[3]);
    let a = g1.offset.0;
    let b = g2.offset.0;
    assert(a as u8 == b as u8 ==> a == b) by (bit_vector);
    let c = g1.offset.1;
    let d = g2.offset.1;
    assert(c as u8 == d as u8 ==> c == d) by (bit_vector);
}

/// Every character's scalar value is a Unicode scalar value: not a
/// surrogate, at most 0x10FFFF.
proof fn lemma_char_valid(c: char)
    ensures
        ({
            let v = c as u32;
            v < 0xD800 || (0xE000 <= v && v <= 0x10FFFF)
        }),
{
}

/// Characters with the same scalar value are the same character.
proof fn lemma_char_cast_inj(c1: char, c2: char)
    requires
        c1 as u32 == c2 as u32,
    ensures
        c1 == c2,
{
}

proof fn lemma_enc_single_inj(e1: (char, Glyph), e2: (char, Glyph))
    requires
        enc_single(e1) == enc_single(e2),
    ensures
        e1 == e2,
{
    lemma_split(enc_u32(e1.0 as u32), enc_glyph(e1.1), enc_u32(e2.0 as u32), enc_glyph(e2.1));
    lemma_enc_u32_inj(e1.0 as u32, e2.0 as u32);
    lemma_char_cast_inj(e1.0, e2.0);
    lemma_enc_glyph_inj(e1.1, e2.1);
}

proof fn lemma_enc_slot_inj(o1: Option<Glyph>, o2: Option<Glyph>)
    requires
        enc_slot(o1) == enc_slot(o2),
    ensures
        o1 == o2,
{
    assert(enc_slot(o1)[0] == enc_slot(o2)[0]);
    match (o1, o2) {
        (Some(g1), Some(g2)) => {
            lemma_split(seq![1u8], enc_glyph(g1), seq![1u8], enc_glyph(g2));
            lemma_enc_glyph_inj(g1, g2);
        },
        (None, None) => {
        },
        (Some(g1), None) => {
            assert((seq![1u8] + enc_glyph(g1))[0] == 1u8);
            assert((seq![0u8] + enc_glyph(glyph_zero()))[0] == 0u8);
        },
        (None, Some(g2)) => {
            assert((seq![0u8] + enc_glyph(glyph_zero()))[0] == 0u8);
            assert((seq![1u8] + enc_glyph(g2))[0] == 1u8);
        },
    }
}

proof fn lemma_enc_pair_inj(e1: PairEntry, e2: PairEntry)
    requires
        enc_pair(e1) == enc_pair(e2),
    ensures
        e1 == e2,
{
    lemma_split(
        enc_u32(e1.first as u32) + enc_u32(e1.second as u32),
        enc_glyph(e1.glyph),
        enc_u32(e2.first as u32) + enc_u32(e2.second as u32),
        enc_glyph(e2.glyph),
    );
    lemma_split(
        enc_u32(e1.first as u32),
        enc_u32(e1.second as u32),
        enc_u32(e2.first as u32),
        enc_u32(e2.second as u32),
    );
    lemma_enc_u32_inj(e1.first as u32, e2.first as u32);
    lemma_enc_u32_inj(e1.second as u32, e2.second as u32);
    lemma_char_cast_inj(e1.first, e2.first);
    lemma_char_cast_inj(e1.second, e2.second);
    lemma_enc_glyph_inj(e1.glyph, e2.glyph);
}

proof fn lemma_enc_singles_inj(s1: Seq<(char, Glyph)>, s2: Seq<(char, Glyph)>)
    requires
        enc_singles(s1) == enc_singles(s2),
        s1.len() == s2.len(),
    ensures
        s1 == s2,
    decreases s1.len(),
{
    if s1.len() == 0 {
        assert(s1 =~= s2);
    } else {
        lemma_split(
            enc_single(s1[0]),
            enc_singles(s1.drop_first()),
            enc_single(s2[0]),
            enc_singles(s2.drop_first()),
        );
        lemma_enc_single_inj(s1[0], s2[0]);
        lemma_enc_singles_inj(s1.drop_first(), s2.drop_first());
        assert forall|i: int| 0 <= i < s1.len() implies s1[i] == s2[i] by {
            if i > 0 {
                assert(s1.drop_first()[i - 1] == s1[i]);
                assert(s2.drop_first()[i - 1] == s2[i]);
            }
        }
        assert(s1 =~= s2);
    }
}

proof fn lemma_enc_slots_inj(s1: Seq<Option<Glyph>>, s2: Seq<Option<Glyph>>)
    requires
        enc_slots(s1) == enc_slots(s2),
        s1.len() == s2.len(),
    ensures
        s1 == s2,
    decreases s1.len(),
{
    if s1.len() == 0 {
        assert(s1 =~= s2);
    } else {
        lemma_split(
            enc_slot(s1[0]),
            enc_slots(s1.drop_first()),
            enc_slot(s2[0]),
            enc_slots(s2.drop_first()),
        );
        lemma_enc_slot_inj(s1[0], s2[0]);
        lemma_enc_slots_inj(s1.drop_first(), s2.drop_first());
        assert forall|i: int| 0 <= i < s1.len() implies s1[i] == s2[i] by {
            if i > 0 {
                assert(s1.drop_first()[i - 1] == s1[i]);
                assert(s2.drop_first()[i - 1] == s2[i]);
            }
        }
        assert(s1 =~= s2);
    }
}

proof fn lemma_enc_pairs_inj(s1: Seq<PairEntry>, s2: Seq<PairEntry>)
    requires
        enc_pairs(s1) == enc_pairs(s2),
        s1.len() == s2.len(),
    ensures
        s1 == s2,
    decreases s1.len(),
{
    if s1.len() == 0 {
        assert(s1 =~= s2);
    } else {
        lemma_split(
            enc_pair(s1[0]),
            enc_pairs(s1.drop_first()),
            enc_pair(s2[0]),
            enc_pairs(s2.drop_first()),
        );
        lemma_enc_pair_inj(s1[0], s2[0]);
        lemma_enc_pairs_inj(s1.drop_first(), s2.drop_first());
        assert forall|i: int| 0 <= i < s1.len() implies s1[i] == s2[i] by {
            if i > 0 {
                assert(s1.drop_first()[i - 1] == s1[i]);
                assert(s2.drop_first()[i - 1] == s2[i]);
            }
        }
        assert(s1 =~= s2);
    }
}

proof fn lemma_enc_table_inj(t1: CharTable, t2: CharTable)
    requires
        enc_table(t1) == enc_table(t2),
        match t1 {
            CharTable::Sparse(entries) => entries@.len() <= u64::MAX,
            CharTable::Dense(slots) => slots@.len() <= u64::MAX,
        },
        match t2 {
            CharTable::Sparse(entries) => entries@.len() <= u64::MAX,
            CharTable::Dense(slots) => slots@.len() <= u64::MAX,
        },
    ensures
        table_eqv(t1, t2),
{
    assert(enc_table(t1)[0] == enc_table(t2)[0]);
    match (t1, t2) {
        (CharTable::Sparse(e1), CharTable::Sparse(e2)) => {
            lemma_split(
                seq![0u8] + enc_u64(e1@.len() as u64),
                enc_singles(e1@),
                seq![0u8] + enc_u64(e2@.len() as u64),
                enc_singles(e2@),
            );
            lemma_split(seq![0u8], enc_u64(e1@.len() as u64), seq![0u8], enc_u64(
                e2@.len() as u64,
            ));
            lemma_enc_u64_inj(e1@.len() as u64, e2@.len() as u64);
            assert(e1@.len() == e2@.len());
            lemma_enc_singles_inj(e1@, e2@);
        },
        (CharTable::Dense(s1), CharTable::Dense(s2)) => {
            lemma_split(
                seq![1u8] + enc_u64(s1@.len() as u64),
                enc_slots(s1@),
                seq![1u8] + enc_u64(s2@.len() as u64),
                enc_slots(s2@),
            );
            lemma_split(seq![1u8], enc_u64(s1@.len() as u64), seq![1u8], enc_u64(
                s2@.len() as u64,
            ));
            lemma_enc_u64_inj(s1@.len() as u64, s2@.len() as u64);
            assert(s1@.len() == s2@.len());
            lemma_enc_slots_inj(s1@, s2@);
        },
        (CharTable::Sparse(e1), CharTable::Dense(s2)) => {
            assert(((seq![0u8] + enc_u64(e1@.len() as u64)) + enc_singles(e1@))[0] == 0u8);
            assert(((seq![1u8] + enc_u64(s2@.len() as u64)) + enc_slots(s2@))[0] == 1u8);
        },
        (CharTable::Dense(s1), CharTable::Sparse(e2)) => {
            assert(((seq![1u8] + enc_u64(s1@.len() as u64)) + enc_slots(s1@))[0] == 1u8);
            assert(((seq![0u8] + enc_u64(e2@.len() as u64)) + enc_singles(e2@))[0] == 0u8);
        },
    }
}

/// How long a font's encoding is, by component.
proof fn lemma_spec_encode_len(f: Font)
    ensures
        spec_encode(f).len() == 20 + f.bitmap@.len() + (match f.map1 {
            CharTable::Sparse(entries) => 9 + 16 * entries@.len(),
            CharTable::Dense(slots) => 9 + 13 * slots@.len(),
        }) + 20 * f.map2@.len(),
{
    match f.map1 {
        CharTable::Sparse(entries) => {
            lemma_enc_singles_len(entries@);
        },
        CharTable::Dense(slots) => {
            lemma_enc_slots_len(slots@);
        },
    }
    lemma_enc_pairs_len(f.map2@);
}

/// The encoding identifies the font: two fonts whose encodings are the same
/// byte sequence hold the same data. With the soundness of `decode` this
/// gives the round trip: whatever `decode` returns for a font's encoding is
/// that font.
#[verifier::rlimit(100)]
pub proof fn lemma_encode_injective(f1: Font, f2: Font)
    requires
        spec_encode(f1) == spec_encode(f2),
        encodable(f1),
        encodable(f2),
    ensures
        font_eqv(f1, f2),
{
    let b1 = enc_u64(f1.bitmap@.len() as u64);
    let b2 = enc_u64(f2.bitmap@.len() as u64);
    let n1 = enc_u64(f1.map2@.len() as u64);
    let n2 = enc_u64(f2.map2@.len() as u64);
    let tail1 = enc_table(f1.map1) + (n1 + enc_pairs(f1.map2@));
    let tail2 = enc_table(f2.map1) + (n2 + enc_pairs(f2.map2@));
    assert(spec_encode(f1) =~= enc_u32(f1.width) + (b1 + (f1.bitmap@ + tail1)));
    assert(spec_encode(f2) =~= enc_u32(f2.width) + (b2 + (f2.bitmap@ + tail2)));
    lemma_split(
        enc_u32(f1.width),
        b1 + (f1.bitmap@ + tail1),
        enc_u32(f2.width),
        b2 + (f2.bitmap@ + tail2),
    );
    lemma_enc_u32_inj(f1.width, f2.width);
    lemma_split(b1, f1.bitmap@ + tail1, b2, f2.bitmap@ + tail2);
    lemma_enc_u64_inj(f1.bitmap@.len() as u64, f2.bitmap@.len() as u64);
    assert(f1.bitmap@.len() == f2.bitmap@.len());
    lemma_split(f1.bitmap@, tail1, f2.bitmap@, tail2);
    // The tag byte fixes the strategy, so the tables have the same length.
    match (f1.map1, f2.map1) {
        (CharTable::Sparse(e1), CharTable::Sparse(e2)) => {
            assert(tail1.subrange(0, 9) =~= seq![0u8] + enc_u64(e1@.len() as u64)) by {
                lemma_enc_singles_len(e1@);
            }
            assert(tail2.subrange(0, 9) =~= seq![0u8] + enc_u64(e2@.len() as u64)) by {
                lemma_enc_singles_len(e2@);
            }
            lemma_split(seq![0u8], enc_u64(e1@.len() as u64), seq![0u8], enc_u64(
                e2@.len() as u64,
            ));
            lemma_enc_u64_inj(e1@.len() as u64, e2@.len() as u64);
            assert(e1@.len() == e2@.len());
            lemma_enc_singles_len(e1@);
            lemma_enc_singles_len(e2@);
        },
        (CharTable::Dense(s1), CharTable::Dense(s2)) => {
            assert(tail1.subrange(0, 9) =~= seq![1u8] + enc_u64(s1@.len() as u64)) by {
                lemma_enc_slots_len(s1@);
            }
            assert(tail2.subrange(0, 9) =~= seq![1u8] + enc_u64(s2@.len() as u64)) by {
                lemma_enc_slots_len(s2@);
            }
            lemma_split(seq![1u8], enc_u64(s1@.len() as u64), seq![1u8], enc_u64(
                s2@.len() as u64,
            ));
            lemma_enc_u64_inj(s1@.len() as u64, s2@.len() as u64);
            assert(s1@.len() == s2@.len());
            lemma_enc_slots_len(s1@);
            lemma_enc_slots_len(s2@);
        },
        (CharTable::Sparse(e1), CharTable::Dense(s2)) => {
            assert(tail1[0] == 0u8) by {
                lemma_enc_singles_len(e1@);
            }
            assert(tail2[0] == 1u8) by {
                lemma_enc_slots_len(s2@);
            }
        },
        (CharTable::Dense(s1), CharTable::Sparse(e2)) => {
            assert(tail1[0] == 1u8) by {
                lemma_enc_slots_len(s1@);
            }
            assert(tail2[0] == 0u8) by {
                lemma_enc_singles_len(e2@);
            }
        },
    }
    assert(enc_table(f1.map1).len() == enc_table(f2.map1).len());
    lemma_split(
        enc_table(f1.map1),
        n1 + enc_pairs(f1.map2@),
        enc_table(f2.map1),
        n2 + enc_pairs(f2.map2@),
    );
    lemma_enc_table_inj(f1.map1, f2.map1);
    lemma_split(n1, enc_pairs(f1.map2@), n2, enc_pairs(f2.map2@));
    lemma_enc_u64_inj(f1.map2@.len() as u64, f2.map2@.len() as u64);
    assert(f1.map2@.len() == f2.map2@.len());
    lemma_enc_pairs_inj(f1.map2@, f2.map2@);
}

proof fn lemma_le32_read(b: Seq<u8>, p: int, v: u32)
    requires
        0 <= p,
        p + 4 <= b.len(),
        b.subrange(p, p + 4) == enc_u32(v),
    ensures
        le32(b[p], b[p + 1], b[p + 2], b[p + 3]) == v,
{
    assert(b.subrange(p, p + 4)[0] == b[p]);
    assert(b.subrange(p, p + 4)[1] == b[p + 1]);
    assert(b.subrange(p, p + 4)[2] == b[p + 2]);
    assert(b.subrange(p, p + 4)[3] == b[p + 3]);
    lemma_le32_enc(v);
}

proof fn lemma_le64_read(b: Seq<u8>, p: int, v: u64)
    requires
        0 <= p,
        p + 8 <= b.len(),
        b.subrange(p, p + 8) == enc_u64(v),
    ensures
        le64(
            le32(b[p], b[p + 1], b[p + 2], b[p + 3]),
            le32(b[p + 4], b[p + 5], b[p + 6], b[p + 7]),
        ) == v,
{
    let lo = (v & 0xffffffff) as u32;
    let hi = (v >> 32) as u32;
    assert forall|k: int| 0 <= k < 8 implies b[p + k] == enc_u64(v)[k] by {
        assert(b.subrange(p, p + 8)[k] == b[p + k]);
    }
    assert(enc_u32(lo).len() == 4);
    assert forall|j: int| 0 <= j < 4 implies enc_u64(v)[4 + j] == enc_u32(hi)[j] by {
        assert((enc_u32(lo) + enc_u32(hi))[4 + j] == enc_u32(hi)[j]);
    }
    assert(b.subrange(p, p + 4) =~= enc_u32(lo));
    assert(b.subrange(p + 4, p + 8) =~= enc_u32(hi));
    lemma_le32_read(b, p, lo);
    lemma_le32_read(b, p + 4, hi);
    lemma_le64_enc(v);
}

proof fn lemma_i8_roundtrip(x: i8)
    ensures
        (x as u8) as i8 == x,
{
    assert((x as u8) as i8 == x) by (bit_vector);
}

proof fn lemma_dec_glyph_enc(b: Seq<u8>, p: int, g: Glyph)
    requires
        0 <= p,
        p + 12 <= b.len(),
        b.subrange(p, p + 12) == enc_glyph(g),
    ensures
        dec_glyph(b, p) == g,
{
    let ga = enc_u32(g.pos.0);
    let gb = enc_u32(g.pos.1);
    let gt = seq![g.size.0, g.size.1, g.offset.0 as u8, g.offset.1 as u8];
    assert(ga.len() == 4 && gb.len() == 4 && gt.len() == 4);
    assert forall|k: int| 0 <= k < 12 implies b[p + k] == enc_glyph(g)[k] by {
        assert(b.subrange(p, p + 12)[k] == b[p + k]);
    }
    assert forall|j: int| 0 <= j < 4 implies enc_glyph(g)[4 + j] == gb[j] by {
        assert(((ga + gb) + gt)[4 + j] == (ga + gb)[4 + j]);
        assert((ga + gb)[4 + j] == gb[j]);
    }
    assert forall|j: int| 0 <= j < 4 implies enc_glyph(g)[8 + j] == gt[j] by {
        assert(((ga + gb) + gt)[8 + j] == gt[j]);
    }
    assert(b.subrange(p, p + 4) =~= enc_u32(g.pos.0));
    assert(b.subrange(p + 4, p + 8) =~= enc_u32(g.pos.1));
    lemma_le32_read(b, p, g.pos.0);
    lemma_le32_read(b, p + 4, g.pos.1);
    assert(b[p + 8] == g.size.0);
    assert(b[p + 9] == g.size.1);
    assert(b[p + 10] == g.offset.0 as u8);
    assert(b[p + 11] == g.offset.1 as u8);
    lemma_i8_roundtrip(g.offset.0);
    lemma_i8_roundtrip(g.offset.1);
}

proof fn lemma_singles_step(b: Seq<u8>, p: int, s: Seq<(char, Glyph)>, rest: Seq<u8>)
    requires
        0 <= p <= b.len(),
        b.skip(p) == enc_singles(s) + rest,
        s.len() > 0,
    ensures
        p + 16 <= b.len(),
        b.subrange(p, p + 4) == enc_u32(s[0].0 as u32),
        b.subrange(p + 4, p + 16) == enc_glyph(s[0].1),
        b.skip(p + 16) == enc_singles(s.drop_first()) + rest,
{
    lemma_enc_singles_len(s);
    let es = enc_single(s[0]);
    let tail = enc_singles(s.drop_first());
    lemma_enc_singles_len(s.drop_first());
    assert(enc_singles(s) == es + tail);
    assert(es.len() == 16);
    assert(b.skip(p).len() == b.len() - p);
    assert(p + 16 <= b.len());
    assert forall|k: int| 0 <= k < 16 implies b[p + k] == es[k] by {
        assert(b.skip(p)[k] == b[p + k]);
        assert((enc_singles(s) + rest)[k] == enc_singles(s)[k]);
        assert((es + tail)[k] == es[k]);
    }
    assert(enc_u32(s[0].0 as u32).len() == 4);
    assert(enc_glyph(s[0].1).len() == 12);
    assert forall|j: int| 0 <= j < 12 implies es[4 + j] == enc_glyph(s[0].1)[j] by {
        assert((enc_u32(s[0].0 as u32) + enc_glyph(s[0].1))[4 + j] == enc_glyph(s[0].1)[j]);
    }
    assert(b.subrange(p, p + 4) =~= enc_u32(s[0].0 as u32));
    assert(b.subrange(p + 4, p + 16) =~= enc_glyph(s[0].1));
    assert(b.skip(p + 16) =~= tail + rest) by {
        assert forall|k: int| 0 <= k < b.len() - p - 16 implies b.skip(p + 16)[k] == (tail
            + rest)[k] by {
            assert(b.skip(p + 16)[k] == b[p + 16 + k]);
            assert(b.skip(p)[16 + k] == b[p + 16 + k]);
            assert((enc_singles(s) + rest)[16 + k] == if 16 + k < enc_singles(s).len() {
                enc_singles(s)[16 + k]
            } else {
                rest[16 + k - enc_singles(s).len()]
            });
            if 16 + k < enc_singles(s).len() {
                assert((es + tail)[16 + k] == tail[k]);
                assert((tail + rest)[k] == tail[k]);
            } else {
                assert((tail + rest)[k] == rest[k - tail.len()]);
            }
        }
    }
}

proof fn lemma_slots_step(b: Seq<u8>, p: int, s: Seq<Option<Glyph>>, rest: Seq<u8>)
    requires
        0 <= p <= b.len(),
        b.skip(p) == enc_slots(s) + rest,
        s.len() > 0,
    ensures
        p + 13 <= b.len(),
        s[0] is Some ==> b[p] == 1u8 && b.subrange(p + 1, p + 13) == enc_glyph(s[0]->0),
        s[0] is None ==> b[p] == 0u8,
        b.skip(p + 13) == enc_slots(s.drop_first()) + rest,
{
    lemma_enc_slots_len(s);
    let es = enc_slot(s[0]);
    let tail = enc_slots(s.drop_first());
    lemma_enc_slots_len(s.drop_first());
    assert(enc_slots(s) == es + tail);
    assert(es.len() == 13);
    assert(b.skip(p).len() == b.len() - p);
    assert(p + 13 <= b.len());
    assert forall|k: int| 0 <= k < 13 implies b[p + k] == es[k] by {
        assert(b.skip(p)[k] == b[p + k]);
        assert((enc_slots(s) + rest)[k] == enc_slots(s)[k]);
        assert((es + tail)[k] == es[k]);
    }
    match s[0] {
        Some(g) => {
            assert(es[0] == 1u8);
            assert(enc_glyph(g).len() == 12);
            assert forall|j: int| 0 <= j < 12 implies es[1 + j] == enc_glyph(g)[j] by {
                assert((seq![1u8] + enc_glyph(g))[1 + j] == enc_glyph(g)[j]);
            }
            assert(b.subrange(p + 1, p + 13) =~= enc_glyph(g));
        },
        None => {
            assert(es[0] == 0u8);
        },
    }
    assert(b.skip(p + 13) =~= tail + rest) by {
        assert forall|k: int| 0 <= k < b.len() - p - 13 implies b.skip(p + 13)[k] == (tail
            + rest)[k] by {
            assert(b.skip(p + 13)[k] == b[p + 13 + k]);
            assert(b.skip(p)[13 + k] == b[p + 13 + k]);
            assert((enc_slots(s) + rest)[13 + k] == if 13 + k < enc_slots(s).len() {
                enc_slots(s)[13 + k]
            } else {
                rest[13 + k - enc_slots(s).len()]
            });
            if 13 + k < enc_slots(s).len() {
                assert((es + tail)[13 + k] == tail[k]);
                assert((tail + rest)[k] == tail[k]);
            } else {
                assert((tail + rest)[k] == rest[k - tail.len()]);
            }
        }
    }
}

proof fn lemma_pairs_step(b: Seq<u8>, p: int, s: Seq<PairEntry>, rest: Seq<u8>)
    requires
        0 <= p <= b.len(),
        b.skip(p) == enc_pairs(s) + rest,
        s.len() > 0,
    ensures
        p + 20 <= b.len(),
        b.subrange(p, p + 4) == enc_u32(s[0].first as u32),
        b.subrange(p + 4, p + 8) == enc_u32(s[0].second as u32),
        b.subrange(p + 8, p + 20) == enc_glyph(s[0].glyph),
        b.skip(p + 20) == enc_pairs(s.drop_first()) + rest,
{
    lemma_enc_pairs_len(s);
    let es = enc_pair(s[0]);
    let tail = enc_pairs(s.drop_first());
    lemma_enc_pairs_len(s.drop_first());
    assert(enc_pairs(s) == es + tail);
    assert(es.len() == 20);
    assert(b.skip(p).len() == b.len() - p);
    assert(p + 20 <= b.len());
    assert forall|k: int| 0 <= k < 20 implies b[p + k] == es[k] by {
        assert(b.skip(p)[k] == b[p + k]);
        assert((enc_pairs(s) + rest)[k] == enc_pairs(s)[k]);
        assert((es + tail)[k] == es[k]);
    }
    let pa = enc_u32(s[0].first as u32);
    let pb = enc_u32(s[0].second as u32);
    let pg = enc_glyph(s[0].glyph);
    assert(pa.len() == 4 && pb.len() == 4 && pg.len() == 12);
    assert forall|j: int| 0 <= j < 4 implies es[4 + j] == pb[j] by {
        assert(((pa + pb) + pg)[4 + j] == (pa + pb)[4 + j]);
        assert((pa + pb)[4 + j] == pb[j]);
    }
    assert forall|j: int| 0 <= j < 12 implies es[8 + j] == pg[j] by {
        assert(((pa + pb) + pg)[8 + j] == pg[j]);
    }
    assert(b.subrange(p, p + 4) =~= enc_u32(s[0].first as u32));
    assert(b.subrange(p + 4, p + 8) =~= enc_u32(s[0].second as u32));
    assert(b.subrange(p + 8, p + 20) =~= enc_glyph(s[0].glyph));
    assert(b.skip(p + 20) =~= tail + rest) by {
        assert forall|k: int| 0 <= k < b.len() - p - 20 implies b.skip(p + 20)[k] == (tail
            + rest)[k] by {
            assert(b.skip(p + 20)[k] == b[p + 20 + k]);
            assert(b.skip(p)[20 + k] == b[p + 20 + k]);
            assert((enc_pairs(s) + rest)[20 + k] == if 20 + k < enc_pairs(s).len() {
                enc_pairs(s)[20 + k]
            } else {
                rest[20 + k - enc_pairs(s).len()]
            });
            if 20 + k < enc_pairs(s).len() {
                assert((es + tail)[20 + k] == tail[k]);
                assert((tail + rest)[k] == tail[k]);
            } else {
                assert((tail + rest)[k] == rest[k - tail.len()]);
            }
        }
    }
}

/// Where a suffix of `b` is a concatenation, the first part is the subrange
/// at its position and the rest is the suffix beyond it.
proof fn lemma_skip_shift(b: Seq<u8>, p: int, x: Seq<u8>, y: Seq<u8>)
    requires
        0 <= p <= b.len(),
        b.skip(p) == x + y,
    ensures
        p + x.len() <= b.len(),
        b.subrange(p, p + x.len()) == x,
        b.skip(p + x.len()) == y,
{
    assert(b.skip(p).len() == b.len() - p);
    assert forall|k: int| 0 <= k < x.len() implies b[p + k] == x[k] by {
        assert(b.skip(p)[k] == b[p + k]);
        assert((x + y)[k] == x[k]);
    }
    assert(b.subrange(p, p + x.len()) =~= x);
    assert forall|k: int| 0 <= k < y.len() implies b.skip(p + x.len())[k] == y[k] by {
        assert(b.skip(p + x.len())[k] == b[p + x.len() + k]);
        assert(b.skip(p)[x.len() + k] == b[p + x.len() + k]);
        assert((x + y)[x.len() + k] == y[k]);
    }
    assert(b.skip(p + x.len()) =~= y);
}

/// Relies on char::from_u32: it returns a character exactly when the value
/// is a Unicode scalar value (not a surrogate, at most 0x10FFFF), and the
/// returned character has that scalar value.
#[verifier::external_body]
fn char_from_u32(v: u32) -> (r: Option<char>)
    ensures
        r is Some <==> (v < 0xD800 || (0xE000 <= v && v <= 0x10FFFF)),
        r is Some ==> (r->0 as u32) == v,
{
    char::from_u32(v)
}

/// The glyph record read back from twelve bytes at `p`.
pub open spec fn dec_glyph(b: Seq<u8>, p: int) -> Glyph
    recommends
        0 <= p,
        p + 12 <= b.len(),
{
    Glyph {
        pos: (le32(b[p], b[p + 1], b[p + 2], b[p + 3]), le32(b[p + 4], b[p + 5], b[p + 6], b[p + 7])),
        size: (b[p + 8], b[p + 9]),
        offset: (b[p + 10] as i8, b[p + 11] as i8),
    }
}

fn parse_u8(bytes: &[u8], pos: &mut usize) -> (r: Option<u8>)
    ensures
        r is Some <==> *old(pos) + 1 <= bytes@.len(),
        r is Some ==> *final(pos) == *old(pos) + 1 && r->0 == bytes@[*old(pos) as int],
        r is None ==> *final(pos) == *old(pos),
{
    if *pos < bytes.len() {
        let b = bytes[*pos];
        *pos = *pos + 1;
        Some(b)
    } else {
        None
    }
}

fn parse_u32(bytes: &[u8], pos: &mut usize) -> (r: Option<u32>)
    ensures
        r is Some <==> *old(pos) + 4 <= bytes@.len(),
        r is Some ==> *final(pos) == *old(pos) + 4 && r->0 == le32(
            bytes@[*old(pos) as int],
            bytes@[*old(pos) as int + 1],
            bytes@[*old(pos) as int + 2],
            bytes@[*old(pos) as int + 3],
        ),
        r is None ==> *final(pos) == *old(pos),
{
    let p = *pos;
    if p < bytes.len() && bytes.len() - p >= 4 {
        let b0 = bytes[p];
        let b1 = bytes[p + 1];
        let b2 = bytes[p + 2];
        let b3 = bytes[p + 3];
        *pos = p + 4;
        Some((b0 as u32) | ((b1 as u32) << 8) | ((b2 as u32) << 16) | ((b3 as u32) << 24))
    } else {
        None
    }
}

fn parse_u64(bytes: &[u8], pos: &mut usize) -> (r: Option<u64>)
    ensures
        r is Some <==> *old(pos) + 8 <= bytes@.len(),
        r is Some ==> *final(pos) == *old(pos) + 8 && r->0 == le64(
            le32(
                bytes@[*old(pos) as int],
                bytes@[*old(pos) as int + 1],
                bytes@[*old(pos) as int + 2],
                bytes@[*old(pos) as int + 3],
            ),
            le32(
                bytes@[*old(pos) as int + 4],
                bytes@[*old(pos) as int + 5],
                bytes@[*old(pos) as int + 6],
                bytes@[*old(pos) as int + 7],
            ),
        ),
{
    let lo = match parse_u32(bytes, pos) {
        Some(v) => v,
        None => {
            return None;
        },
    };
    let hi = match parse_u32(bytes, pos) {
        Some(v) => v,
        None => {
            return None;
        },
    };
    Some((lo as u64) | ((hi as u64) << 32))
}

fn parse_glyph(bytes: &[u8], pos: &mut usize) -> (r: Option<Glyph>)
    ensures
        r is Some <==> *old(pos) + 12 <= bytes@.len(),
        r is Some ==> *final(pos) == *old(pos) + 12 && r->0 == dec_glyph(
            bytes@,
            *old(pos) as int,
        ),
{
    let x = match parse_u32(bytes, pos) {
        Some(v) => v,
        None => {
            return None;
        },
    };
    let y = match parse_u32(bytes, pos) {
        Some(v) => v,
        None => {
            return None;
        },
    };
    let w = match parse_u8(bytes, pos) {
        Some(v) => v,
        None => {
            return None;
        },
    };
    let h = match parse_u8(bytes, pos) {
        Some(v) => v,
        None => {
            return None;
        },
    };
    let ox = match parse_u8(bytes, pos) {
        Some(v) => v,
        None => {
            return None;
        },
    };
    let oy = match parse_u8(bytes, pos) {
        Some(v) => v,
        None => {
            return None;
        },
    };
    Some(Glyph { pos: (x, y), size: (w, h), offset: (ox as i8, oy as i8) })
}

fn parse_char(bytes: &[u8], pos: &mut usize) -> (r: Option<char>)
    ensures
        r is Some ==> *final(pos) == *old(pos) + 4 && (r->0 as u32) == le32(
            bytes@[*old(pos) as int],
            bytes@[*old(pos) as int + 1],
            bytes@[*old(pos) as int + 2],
            bytes@[*old(pos) as int + 3],
        ),
        r is Some <==> *old(pos) + 4 <= bytes@.len() && ({
            let v = le32(
                bytes@[*old(pos) as int],
                bytes@[*old(pos) as int + 1],
                bytes@[*old(pos) as int + 2],
                bytes@[*old(pos) as int + 3],
            );
            v < 0xD800 || (0xE000 <= v && v <= 0x10FFFF)
        }),
{
    let v = match parse_u32(bytes, pos) {
        Some(v) => v,
        None => {
            return None;
        },
    };
    char_from_u32(v)
}

fn bytes_eq(a: &Vec<u8>, b: &[u8]) -> (r: bool)
    ensures
        r == (a@ == b@),
{
    if a.len() != b.len() {
        return false;
    }
    let n = a.len();
    let mut i: usize = 0;
    while i < n
        invariant
            n == a@.len(),
            n == b@.len(),
            i <= n,
            forall|k: int| 0 <= k < i ==> a@[k] == b@[k],
        decreases n - i,
    {
        if a[i] != b[i] {
            return false;
        }
        i = i + 1;
    }
    assert(a@ =~= b@);
    true
}

fn parse_table(
    bytes: &[u8],
    pos: &mut usize,
    Ghost(cand): Ghost<Option<(CharTable, Seq<u8>)>>,
) -> (r: Option<CharTable>)
    requires
        cand is Some ==> ({
            &&& *old(pos) <= bytes@.len()
            &&& bytes@.skip(*old(pos) as int) == enc_table((cand->0).0) + (cand->0).1
            &&& (match (cand->0).0 {
                CharTable::Sparse(entries) => entries@.len() <= u64::MAX,
                CharTable::Dense(slots) => slots@.len() <= u64::MAX,
            })
        }),
    ensures
        cand is Some ==> ({
            &&& r is Some
            &&& table_eqv(r->0, (cand->0).0)
            &&& *final(pos) == *old(pos) + enc_table((cand->0).0).len()
        }),
{
    let ghost p0 = *pos as int;
    let ghost ge: Seq<(char, Glyph)> = match cand {
        Some(tr) => match tr.0 {
            CharTable::Sparse(entries) => entries@,
            CharTable::Dense(_) => Seq::empty(),
        },
        None => Seq::empty(),
    };
    let ghost gslots: Seq<Option<Glyph>> = match cand {
        Some(tr) => match tr.0 {
            CharTable::Sparse(_) => Seq::empty(),
            CharTable::Dense(slots) => slots@,
        },
        None => Seq::empty(),
    };
    let ghost grest: Seq<u8> = match cand {
        Some(tr) => tr.1,
        None => Seq::empty(),
    };
    proof {
        if cand is Some {
            match (cand->0).0 {
                CharTable::Sparse(entries) => {
                    lemma_enc_singles_len(ge);
                    assert(bytes@.skip(p0) =~= seq![0u8] + (enc_u64(ge.len() as u64) + (
                    enc_singles(ge) + grest)));
                    lemma_skip_shift(
                        bytes@,
                        p0,
                        seq![0u8],
                        enc_u64(ge.len() as u64) + (enc_singles(ge) + grest),
                    );
                    lemma_skip_shift(
                        bytes@,
                        p0 + 1,
                        enc_u64(ge.len() as u64),
                        enc_singles(ge) + grest,
                    );
                    lemma_le64_read(bytes@, p0 + 1, ge.len() as u64);
                    assert(bytes@.subrange(p0, p0 + 1)[0] == bytes@[p0]);
                    assert(bytes@[p0] == 0u8);
                },
                CharTable::Dense(slots) => {
                    lemma_enc_slots_len(gslots);
                    assert(bytes@.skip(p0) =~= seq![1u8] + (enc_u64(gslots.len() as u64) + (
                    enc_slots(gslots) + grest)));
                    lemma_skip_shift(
                        bytes@,
                        p0,
                        seq![1u8],
                        enc_u64(gslots.len() as u64) + (enc_slots(gslots) + grest),
                    );
                    lemma_skip_shift(
                        bytes@,
                        p0 + 1,
                        enc_u64(gslots.len() as u64),
                        enc_slots(gslots) + grest,
                    );
                    lemma_le64_read(bytes@, p0 + 1, gslots.len() as u64);
                    assert(bytes@.subrange(p0, p0 + 1)[0] == bytes@[p0]);
                    assert(bytes@[p0] == 1u8);
                },
            }
        }
    }
    let tag = match parse_u8(bytes, pos) {
        Some(v) => v,
        None => {
            return None;
        },
    };
    let n64 = match parse_u64(bytes, pos) {
        Some(v) => v,
        None => {
            return None;
        },
    };
    if n64 > bytes.len() as u64 {
        proof {
            if cand is Some {
                assert(bytes@.skip(p0 + 9).len() == bytes@.len() - p0 - 9);
                match (cand->0).0 {
                    CharTable::Sparse(entries) => {
                        assert(ge.len() <= bytes@.len());
                    },
                    CharTable::Dense(slots) => {
                        assert(gslots.len() <= bytes@.len());
                    },
                }
            }
        }
        return None;
    }
    let n = n64 as usize;
    if tag == 0 {
        let mut entries: Vec<(char, Glyph)> = Vec::new();
        let mut i: usize = 0;
        proof {
            if cand is Some {
                assert(ge.skip(0) =~= ge);
            }
        }
        while i < n
            invariant
                i <= n,
                cand is Some ==> ({
                    &&& (cand->0).0 is Sparse
                    &&& n == ge.len()
                    &&& entries@ == ge.take(i as int)
                    &&& *pos == p0 + 9 + 16 * i
                    &&& *pos <= bytes@.len()
                    &&& bytes@.skip(*pos as int) == enc_singles(ge.skip(i as int)) + grest
                }),
            decreases n - i,
        {
            proof {
                if cand is Some {
                    assert(ge.skip(i as int).len() > 0);
                    lemma_singles_step(bytes@, *pos as int, ge.skip(i as int), grest);
                    assert(ge.skip(i as int)[0] == ge[i as int]);
                    lemma_le32_read(bytes@, *pos as int, ge[i as int].0 as u32);
                    lemma_char_valid(ge[i as int].0);
                    lemma_dec_glyph_enc(bytes@, *pos as int + 4, ge[i as int].1);
                    assert(ge.skip(i as int).drop_first() =~= ge.skip(i as int + 1));
                }
            }
            let c = match parse_char(bytes, pos) {
                Some(v) => v,
                None => {
                    return None;
                },
            };
            let g = match parse_glyph(bytes, pos) {
                Some(v) => v,
                None => {
                    return None;
                },
            };
            proof {
                if cand is Some {
                    lemma_char_cast_inj(c, ge[i as int].0);
                    assert(ge.take(i as int).push(ge[i as int]) =~= ge.take(i as int + 1));
                }
            }
            entries.push((c, g));
            i = i + 1;
        }
        proof {
            if cand is Some {
                assert(entries@ == ge.take(ge.len() as int));
                assert(ge.take(ge.len() as int) =~= ge);
                assert(enc_table((cand->0).0).len() == 9 + 16 * ge.len());
            }
        }
        Some(CharTable::Sparse(entries))
    } else if tag == 1 {
        let mut slots: Vec<Option<Glyph>> = Vec::new();
        let mut i: usize = 0;
        proof {
            if cand is Some {
                assert(gslots.skip(0) =~= gslots);
            }
        }
        while i < n
            invariant
                i <= n,
                cand is Some ==> ({
                    &&& (cand->0).0 is Dense
                    &&& n == gslots.len()
                    &&& slots@ == gslots.take(i as int)
                    &&& *pos == p0 + 9 + 13 * i
                    &&& *pos <= bytes@.len()
                    &&& bytes@.skip(*pos as int) == enc_slots(gslots.skip(i as int)) + grest
                }),
            decreases n - i,
        {
            proof {
                if cand is Some {
                    assert(gslots.skip(i as int).len() > 0);
                    lemma_slots_step(bytes@, *pos as int, gslots.skip(i as int), grest);
                    assert(gslots.skip(i as int)[0] == gslots[i as int]);
                    if gslots[i as int] is Some {
                        lemma_dec_glyph_enc(bytes@, *pos as int + 1, gslots[i as int]->0);
                    }
                    assert(gslots.skip(i as int).drop_first() =~= gslots.skip(i as int + 1));
                }
            }
            let flag = match parse_u8(bytes, pos) {
                Some(v) => v,
                None => {
                    return None;
                },
            };
            let g = match parse_glyph(bytes, pos) {
                Some(v) => v,
                None => {
                    return None;
                },
            };
            proof {
                if cand is Some {
                    assert(gslots.take(i as int).push(gslots[i as int]) =~= gslots.take(
                        i as int + 1,
                    ));
                }
            }
            if flag == 0 {
                slots.push(None);
            } else {
                slots.push(Some(g));
            }
            i = i + 1;
        }
        proof {
            if cand is Some {
                assert(slots@ == gslots.take(gslots.len() as int));
                assert(gslots.take(gslots.len() as int) =~= gslots);
                assert(enc_table((cand->0).0).len() == 9 + 13 * gslots.len());
            }
        }
        Some(CharTable::Dense(slots))
    } else {
        None
    }
}

fn parse_pairs(bytes: &[u8], pos: &mut usize, Ghost(cand): Ghost<Option<Seq<PairEntry>>>) -> (r:
    Option<Vec<PairEntry>>)
    requires
        cand is Some ==> ({
            &&& *old(pos) <= bytes@.len()
            &&& cand->0.len() <= u64::MAX
            &&& bytes@.skip(*old(pos) as int) == enc_u64(cand->0.len() as u64) + enc_pairs(
                cand->0,
            )
        }),
    ensures
        cand is Some ==> ({
            &&& r is Some
            &&& r->0@ == cand->0
            &&& *final(pos) == bytes@.len()
        }),
{
    let ghost p0 = *pos as int;
    let ghost gs: Seq<PairEntry> = if cand is Some {
        cand->0
    } else {
        Seq::empty()
    };
    proof {
        if cand is Some {
            lemma_skip_shift(bytes@, p0, enc_u64(gs.len() as u64), enc_pairs(gs));
            lemma_enc_pairs_len(gs);
            lemma_le64_read(bytes@, p0, gs.len() as u64);
        }
    }
    let n64 = match parse_u64(bytes, pos) {
        Some(v) => v,
        None => {
            return None;
        },
    };
    if n64 > bytes.len() as u64 {
        proof {
            if cand is Some {
                assert(bytes@.skip(p0 + 8).len() == bytes@.len() - p0 - 8);
                assert(gs.len() <= bytes@.len());
            }
        }
        return None;
    }
    let n = n64 as usize;
    let mut entries: Vec<PairEntry> = Vec::new();
    let mut i: usize = 0;
    proof {
        if cand is Some {
            assert(gs.skip(0) =~= gs);
            assert(bytes@.skip(p0 + 8) =~= enc_pairs(gs.skip(0)) + Seq::<u8>::empty());
        }
    }
    while i < n
        invariant
            i <= n,
            cand is Some ==> ({
                &&& n == gs.len()
                &&& entries@ == gs.take(i as int)
                &&& *pos == p0 + 8 + 20 * i
                &&& *pos <= bytes@.len()
                &&& bytes@.skip(*pos as int) == enc_pairs(gs.skip(i as int))
                    + Seq::<u8>::empty()
            }),
        decreases n - i,
    {
        proof {
            if cand is Some {
                assert(gs.skip(i as int).len() > 0);
                lemma_pairs_step(bytes@, *pos as int, gs.skip(i as int), Seq::empty());
                assert(gs.skip(i as int)[0] == gs[i as int]);
                lemma_le32_read(bytes@, *pos as int, gs[i as int].first as u32);
                lemma_le32_read(bytes@, *pos as int + 4, gs[i as int].second as u32);
                lemma_dec_glyph_enc(bytes@, *pos as int + 8, gs[i as int].glyph);
                assert(gs.skip(i as int).drop_first() =~= gs.skip(i as int + 1));
            }
        }
        let c1 = match parse_char(bytes, pos) {
            Some(v) => v,
            None => {
                return None;
            },
        };
        let c2 = match parse_char(bytes, pos) {
            Some(v) => v,
            None => {
                return None;
            },
        };
        let g = match parse_glyph(bytes, pos) {
            Some(v) => v,
            None => {
                return None;
            },
        };
        proof {
            if cand is Some {
                lemma_char_cast_inj(c1, gs[i as int].first);
                lemma_char_cast_inj(c2, gs[i as int].second);
                assert(gs.take(i as int).push(gs[i as int]) =~= gs.take(i as int + 1));
            }
        }
        entries.push(PairEntry { first: c1, second: c2, glyph: g });
        i = i + 1;
    }
    proof {
        if cand is Some {
            assert(entries@ == gs.take(gs.len() as int));
            assert(gs.take(gs.len() as int) =~= gs);
            assert(gs.skip(gs.len() as int) =~= Seq::<PairEntry>::empty());
            lemma_enc_pairs_len(gs.skip(gs.len() as int));
            assert(bytes@.skip(*pos as int).len() == 0);
        }
    }
    Some(entries)
}

fn parse_font(bytes: &[u8], Ghost(cand): Ghost<Option<Font>>) -> (r: Option<Font>)
    requires
        cand is Some ==> spec_encode(cand->0) == bytes@ && encodable(cand->0),
    ensures
        cand is Some ==> r is Some && font_eqv(r->0, cand->0),
{
    let ghost gbm: Seq<u8> = if cand is Some {
        (cand->0).bitmap@
    } else {
        Seq::empty()
    };
    let ghost gtail: Seq<u8> = if cand is Some {
        enc_table((cand->0).map1) + (enc_u64((cand->0).map2@.len() as u64) + enc_pairs(
            (cand->0).map2@,
        ))
    } else {
        Seq::empty()
    };
    proof {
        if cand is Some {
            let g = cand->0;
            assert(bytes@ =~= enc_u32(g.width) + (enc_u64(g.bitmap@.len() as u64) + (g.bitmap@
                + gtail)));
            assert(bytes@.skip(0) =~= bytes@);
            lemma_skip_shift(
                bytes@,
                0,
                enc_u32(g.width),
                enc_u64(g.bitmap@.len() as u64) + (g.bitmap@ + gtail),
            );
            lemma_skip_shift(bytes@, 4, enc_u64(g.bitmap@.len() as u64), g.bitmap@ + gtail);
            lemma_le32_read(bytes@, 0, g.width);
            lemma_le64_read(bytes@, 4, g.bitmap@.len() as u64);
            lemma_skip_shift(bytes@, 12, g.bitmap@, gtail);
        }
    }
    let mut pos: usize = 0;
    let width = match parse_u32(bytes, &mut pos) {
        Some(v) => v,
        None => {
            return None;
        },
    };
    let blen64 = match parse_u64(bytes, &mut pos) {
        Some(v) => v,
        None => {
            return None;
        },
    };
    if blen64 > bytes.len() as u64 {
        proof {
            if cand is Some {
                assert(gbm.len() <= bytes@.len());
            }
        }
        return None;
    }
    let blen = blen64 as usize;
    let mut bitmap: Vec<u8> = Vec::new();
    let mut i: usize = 0;
    while i < blen
        invariant
            i <= blen,
            pos == 12 + i,
            cand is Some ==> ({
                &&& blen == gbm.len()
                &&& bitmap@ == gbm.take(i as int)
                &&& 12 + gbm.len() <= bytes@.len()
                &&& bytes@.subrange(12, 12 + gbm.len() as int) == gbm
            }),
        decreases blen - i,
    {
        proof {
            if cand is Some {
                assert(bytes@.subrange(12, 12 + gbm.len() as int)[i as int] == bytes@[12
                    + i as int]);
            }
        }
        let b = match parse_u8(bytes, &mut pos) {
            Some(v) => v,
            None => {
                return None;
            },
        };
        proof {
            if cand is Some {
                assert(gbm.take(i as int).push(gbm[i as int]) =~= gbm.take(i as int + 1));
            }
        }
        bitmap.push(b);
        i = i + 1;
    }
    proof {
        if cand is Some {
            assert(bitmap@ == gbm.take(gbm.len() as int));
            assert(gbm.take(gbm.len() as int) =~= gbm);
        }
    }
    let ghost cand_t: Option<(CharTable, Seq<u8>)> = if cand is Some {
        Some(
            (
                (cand->0).map1,
                enc_u64((cand->0).map2@.len() as u64) + enc_pairs((cand->0).map2@),
            ),
        )
    } else {
        None
    };
    let map1 = match parse_table(bytes, &mut pos, Ghost(cand_t)) {
        Some(v) => v,
        None => {
            return None;
        },
    };
    let ghost cand_p: Option<Seq<PairEntry>> = if cand is Some {
        Some((cand->0).map2@)
    } else {
        None
    };
    proof {
        if cand is Some {
            lemma_skip_shift(
                bytes@,
                12 + gbm.len() as int,
                enc_table((cand->0).map1),
                enc_u64((cand->0).map2@.len() as u64) + enc_pairs((cand->0).map2@),
            );
        }
    }
    let map2 = match parse_pairs(bytes, &mut pos, Ghost(cand_p)) {
        Some(v) => v,
        None => {
            return None;
        },
    };
    if pos != bytes.len() {
        return None;
    }
    Some(Font { bitmap, width, map1, map2 })
}

/// Fonts holding the same data have the same encoding.
proof fn lemma_eqv_encode(f1: Font, f2: Font)
    requires
        font_eqv(f1, f2),
    ensures
        spec_encode(f1) == spec_encode(f2),
{
    match (f1.map1, f2.map1) {
        (CharTable::Sparse(e1), CharTable::Sparse(e2)) => {
            assert(e1@ == e2@);
            assert(enc_table(f1.map1) == enc_table(f2.map1));
        },
        (CharTable::Dense(s1), CharTable::Dense(s2)) => {
            assert(s1@ == s2@);
            assert(enc_table(f1.map1) == enc_table(f2.map1));
        },
        _ => {
            assert(false);
        },
    }
}

impl Font {
    /// Decode a font from its byte representation. It succeeds exactly on a
    /// well-formed font's canonical encoding: whatever it accepts re-encodes
    /// to the same bytes, and it returns the data of whichever font was
    /// encoded.
    pub fn decode(bytes: &[u8]) -> (r: Option<Font>)
        ensures
            r is Some ==> r->0.wf() && spec_encode(r->0) == bytes@,
            r is Some ==> forall|g: Font| spec_encode(g) == bytes@ ==> font_eqv(r->0, g),
            (exists|g: Font| g.wf() && spec_encode(g) == bytes@) ==> r is Some,
    {
        let nb = bytes.len();
        let ghost cand: Option<Font> = if exists|g: Font| g.wf() && spec_encode(g) == bytes@ {
            Some(choose|g: Font| g.wf() && spec_encode(g) == bytes@)
        } else {
            None
        };
        proof {
            if cand is Some {
                lemma_spec_encode_len(cand->0);
                assert(bytes@.len() == nb);
                assert(encodable(cand->0));
            }
        }
        let f = match parse_font(bytes, Ghost(cand)) {
            Some(v) => v,
            None => {
                return None;
            },
        };
        if !f.check_wf() {
            proof {
                if cand is Some {
                    assert(font_eqv(f, cand->0));
                    match (f.map1, (cand->0).map1) {
                        (CharTable::Sparse(e1), CharTable::Sparse(e2)) => {
                            assert(e1@ == e2@);
                        },
                        (CharTable::Dense(_), CharTable::Dense(_)) => {
                        },
                        _ => {
                            assert(false);
                        },
                    }
                    assert(f.wf());
                }
            }
            return None;
        }
        let enc = f.encode();
        let total = enc.len();
        if !bytes_eq(&enc, bytes) {
            proof {
                if cand is Some {
                    lemma_eqv_encode(f, cand->0);
                }
            }
            return None;
        }
        proof {
            lemma_spec_encode_len(f);
            assert(bytes@.len() == total);
            assert(total <= u64::MAX);
            assert(encodable(f));
            assert forall|g: Font| spec_encode(g) == bytes@ implies font_eqv(f, g) by {
                lemma_spec_encode_len(g);
                assert(encodable(g));
                lemma_encode_injective(f, g);
            }
        }
        Some(f)
    }

    /// Encode this font as its canonical byte representation.
    pub fn encode(&self) -> (r: Vec<u8>)
        ensures
            r@ == spec_encode(*self),
    {
        let mut out: Vec<u8> = Vec::new();
        push_u32(&mut out, self.width);
        push_u64(&mut out, self.bitmap.len() as u64);
        let ghost head = enc_u32(self.width) + enc_u64(self.bitmap@.len() as u64);
        let mut i: usize = 0;
        assert(out@ =~= head + self.bitmap@.take(0));
        while i < self.bitmap.len()
            invariant
                i <= self.bitmap@.len(),
                out@ == head + self.bitmap@.take(i as int),
            decreases self.bitmap@.len() - i,
        {
            out.push(self.bitmap[i]);
            proof {
                assert(self.bitmap@.take(i as int + 1) =~= self.bitmap@.take(i as int).push(
                    self.bitmap@[i as int],
                ));
                assert(out@ =~= head + self.bitmap@.take(i as int + 1));
            }
            i = i + 1;
        }
        assert(self.bitmap@.take(self.bitmap@.len() as int) =~= self.bitmap@);
        let ghost head2 = head + self.bitmap@;
        match &self.map1 {
            CharTable::Sparse(entries) => {
                out.push(0u8);
                push_u64(&mut out, entries.len() as u64);
                let ghost head3 = head2 + seq![0u8] + enc_u64(entries@.len() as u64);
                assert(out@ =~= head3 + enc_singles(entries@.take(0)));
                let mut j: usize = 0;
                while j < entries.len()
                    invariant
                        self.map1 == CharTable::Sparse(*entries),
                        j <= entries@.len(),
                        out@ == head3 + enc_singles(entries@.take(j as int)),
                    decreases entries@.len() - j,
                {
                    let e = entries[j];
                    push_u32(&mut out, e.0 as u32);
                    push_glyph(&mut out, e.1);
                    proof {
                        assert(entries@.take(j as int + 1) =~= entries@.take(j as int).push(
                            entries@[j as int],
                        ));
                        lemma_enc_singles_push(entries@.take(j as int), entries@[j as int]);
                        assert(out@ =~= head3 + enc_singles(entries@.take(j as int + 1)));
                    }
                    j = j + 1;
                }
                assert(entries@.take(entries@.len() as int) =~= entries@);
                assert(out@ =~= head2 + enc_table(self.map1));
            },
            CharTable::Dense(slots) => {
                out.push(1u8);
                push_u64(&mut out, slots.len() as u64);
                let ghost head3 = head2 + seq![1u8] + enc_u64(slots@.len() as u64);
                assert(out@ =~= head3 + enc_slots(slots@.take(0)));
                let mut j: usize = 0;
                while j < slots.len()
                    invariant
                        self.map1 == CharTable::Dense(*slots),
                        j <= slots@.len(),
                        out@ == head3 + enc_slots(slots@.take(j as int)),
                    decreases slots@.len() - j,
                {
                    match slots[j] {
                        Some(g) => {
                            out.push(1u8);
                            push_glyph(&mut out, g);
                        },
                        None => {
                            out.push(0u8);
                            push_glyph(&mut out, Glyph { pos: (0, 0), size: (0, 0), offset: (0, 0) });
                        },
                    }
                    proof {
                        assert(slots@.take(j as int + 1) =~= slots@.take(j as int).push(
                            slots@[j as int],
                        ));
                        lemma_enc_slots_push(slots@.take(j as int), slots@[j as int]);
                        assert(out@ =~= head3 + enc_slots(slots@.take(j as int + 1)));
                    }
                    j = j + 1;
                }
                assert(slots@.take(slots@.len() as int) =~= slots@);
                assert(out@ =~= head2 + enc_table(self.map1));
            },
        }
        let ghost head4 = head2 + enc_table(self.map1);
        push_u64(&mut out, self.map2.len() as u64);
        let ghost head5 = head4 + enc_u64(self.map2@.len() as u64);
        assert(out@ =~= head5 + enc_pairs(self.map2@.take(0)));
        let mut k: usize = 0;
        while k < self.map2.len()
            invariant
                k <= self.map2@.len(),
                out@ == head5 + enc_pairs(self.map2@.take(k as int)),
            decreases self.map2@.len() - k,
        {
            let e = self.map2[k];
            push_u32(&mut out, e.first as u32);
            push_u32(&mut out, e.second as u32);
            push_glyph(&mut out, e.glyph);
            proof {
                assert(self.map2@.take(k as int + 1) =~= self.map2@.take(k as int).push(
                    self.map2@[k as int],
                ));
                lemma_enc_pairs_push(self.map2@.take(k as int), self.map2@[k as int]);
                assert(out@ =~= head5 + enc_pairs(self.map2@.take(k as int + 1)));
            }
            k = k + 1;
        }
        assert(self.map2@.take(self.map2@.len() as int) =~= self.map2@);
        assert(out@ =~= spec_encode(*self));
        out
    }
}

} // verus!
