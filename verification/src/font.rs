//! The font table: immutable character-to-glyph tables over a bitmap atlas,
//! and the longest-match-first lookup over a random-access character
//! sequence.

use vstd::prelude::*;
use crate::glyph::{Glyph, GlyphResult};

verus! {

/// One ligature entry: the ordered character pair and its glyph.
#[derive(Debug, Copy, Clone, Eq, PartialEq)]
pub struct PairEntry {
    pub first: char,
    pub second: char,
    pub glyph: Glyph,
}

/// Strictly increasing single-character keys: each key's scalar value is
/// below the next one's, so keys are unique.
pub open spec fn sparse_sorted(s: Seq<(char, Glyph)>) -> bool {
    forall|i: int|
        0 <= i && i + 1 < s.len() ==> (#[trigger] s[i].0 as u32) < (s[i + 1].0 as u32)
}

/// Strictly increasing ligature keys, ordered by first then second scalar
/// value, so keys are unique.
pub open spec fn pairs_sorted(s: Seq<PairEntry>) -> bool {
    forall|i: int| 0 <= i && i + 1 < s.len() ==> pair_key_lt(#[trigger] s[i], s[i + 1])
}

/// What a sequence of single-character entries maps `c` to: the glyph of the
/// first entry whose key is `c`, or nothing.
pub open spec fn single_get(s: Seq<(char, Glyph)>, c: char) -> Option<Glyph>
    decreases s.len(),
{
    if s.len() == 0 {
        None
    } else if s[0].0 == c {
        Some(s[0].1)
    } else {
        single_get(s.drop_first(), c)
    }
}

/// What a sequence of ligature entries maps the ordered pair `(c1, c2)` to.
pub open spec fn pair_get(s: Seq<PairEntry>, c1: char, c2: char) -> Option<Glyph>
    decreases s.len(),
{
    if s.len() == 0 {
        None
    } else if s[0].first == c1 && s[0].second == c2 {
        Some(s[0].glyph)
    } else {
        pair_get(s.drop_first(), c1, c2)
    }
}

/// The single-character table's storage strategy, chosen at font-build time:
/// a sparse ordered list of entries over the full scalar range, or a dense
/// array indexed directly by the code-unit value (out-of-range is absent).
/// Both answer the same lookup contract, `spec_get`.
#[derive(Debug, Clone, Eq, PartialEq)]
pub enum CharTable {
    Sparse(Vec<(char, Glyph)>),
    Dense(Vec<Option<Glyph>>),
}

impl CharTable {
    /// The glyph this table assigns to `c`, if any.
    pub open spec fn spec_get(self, c: char) -> Option<Glyph> {
        match self {
            CharTable::Sparse(entries) => single_get(entries@, c),
            CharTable::Dense(slots) => if (c as int) < slots@.len() {
                slots@[c as int]
            } else {
                None
            },
        }
    }

    /// Well-formed storage: sparse entries strictly ordered by scalar value,
    /// so keys are unique.
    pub open spec fn wf(self) -> bool {
        match self {
            CharTable::Sparse(entries) => sparse_sorted(entries@),
            CharTable::Dense(_) => true,
        }
    }

    pub fn get(&self, c: char) -> (r: Option<Glyph>)
        ensures
            r == self.spec_get(c),
    {
        match self {
            CharTable::Sparse(entries) => {
                let mut i: usize = 0;
                assert(entries@.skip(0) =~= entries@);
                while i < entries.len()
                    invariant
                        *self == CharTable::Sparse(*entries),
                        i <= entries@.len(),
                        single_get(entries@, c) == single_get(entries@.skip(i as int), c),
                    decreases entries@.len() - i,
                {
                    assert(entries@.skip(i as int)[0] == entries@[i as int]);
                    if entries[i].0 == c {
                        assert(single_get(entries@.skip(i as int), c) == Some(
                            entries@[i as int].1,
                        ));
                        return Some(entries[i].1);
                    }
                    assert(entries@.skip(i as int).drop_first() =~= entries@.skip(
                        i as int + 1,
                    ));
                    i = i + 1;
                }
                assert(entries@.skip(i as int) =~= Seq::<(char, Glyph)>::empty());
                None
            },
            CharTable::Dense(slots) => {
                let idx = c as u32 as usize;
                if idx < slots.len() {
                    slots[idx]
                } else {
                    None
                }
            },
        }
    }

    /// Whether this table's storage is well formed.
    pub fn check_wf(&self) -> (r: bool)
        ensures
            r == self.wf(),
    {
        match self {
            CharTable::Sparse(entries) => {
                if entries.len() == 0 {
                    return true;
                }
                let n = entries.len();
                let mut i: usize = 0;
                while i + 1 < n
                    invariant
                        *self == CharTable::Sparse(*entries),
                        n == entries@.len(),
                        i < n,
                        forall|k: int|
                            0 <= k && k + 1 <= i ==> (#[trigger] entries@[k].0 as u32)
                                < (entries@[k + 1].0 as u32),
                    decreases entries@.len() - i,
                {
                    if entries[i].0 as u32 >= entries[i + 1].0 as u32 {
                        proof {
                            if sparse_sorted(entries@) {
                                assert((entries@[i as int].0 as u32) < (entries@[i as int
                                    + 1].0 as u32));
                            }
                        }
                        return false;
                    }
                    i = i + 1;
                }
                true
            },
            CharTable::Dense(_) => true,
        }
    }
}

/// An immutable font: the atlas byte buffer, its row stride, the
/// single-character table and the ligature pair table. Built once by an
/// external font compiler and only read afterwards.
#[derive(Debug, Clone, Eq, PartialEq)]
pub struct Font {
    pub bitmap: Vec<u8>,
    pub width: u32,
    pub map1: CharTable,
    pub map2: Vec<PairEntry>,
}

impl Font {
    /// The glyph for exactly one character, or absent.
    pub open spec fn spec_single(self, c: char) -> Option<Glyph> {
        self.map1.spec_get(c)
    }

    /// The glyph for the ordered pair `(c1, c2)`, or absent. Never matches
    /// the transposed pair.
    pub open spec fn spec_double(self, c1: char, c2: char) -> Option<Glyph> {
        pair_get(self.map2@, c1, c2)
    }

    /// Well-formed tables: each table's keys strictly ordered, so unique;
    /// pair keys ordered by first then second scalar value.
    pub open spec fn wf(self) -> bool {
        &&& self.map1.wf()
        &&& pairs_sorted(self.map2@)
    }

    /// Whether both tables are well formed.
    pub fn check_wf(&self) -> (r: bool)
        ensures
            r == self.wf(),
    {
        if !self.map1.check_wf() {
            return false;
        }
        if self.map2.len() == 0 {
            return true;
        }
        let n = self.map2.len();
        let mut i: usize = 0;
        while i + 1 < n
            invariant
                self.map1.wf(),
                n == self.map2@.len(),
                i < n,
                forall|k: int|
                    0 <= k && k + 1 <= i ==> pair_key_lt(
                        #[trigger] self.map2@[k],
                        self.map2@[k + 1],
                    ),
            decreases self.map2@.len() - i,
        {
            let a = self.map2[i];
            let b = self.map2[i + 1];
            let lt = (a.first as u32) < (b.first as u32) || ((a.first as u32) == (b.first
                as u32) && (a.second as u32) < (b.second as u32));
            if !lt {
                proof {
                    if pairs_sorted(self.map2@) {
                        assert(pair_key_lt(self.map2@[i as int], self.map2@[i as int + 1]));
                    }
                }
                return false;
            }
            i = i + 1;
        }
        true
    }

    /// The outcome at a position strictly inside the sequence: the pair match
    /// if one starts here and a next character exists, else the single match,
    /// else Unknown. The pair always wins over the single match.
    pub open spec fn spec_lookup_at(self, s: Seq<char>, pos: int) -> GlyphResult
        recommends
            0 <= pos < s.len(),
    {
        if pos + 1 < s.len() && self.spec_double(s[pos], s[pos + 1]) is Some {
            GlyphResult::Double(self.spec_double(s[pos], s[pos + 1])->0, [s[pos], s[pos + 1]])
        } else if self.spec_single(s[pos]) is Some {
            GlyphResult::Single(self.spec_single(s[pos])->0, s[pos])
        } else {
            GlyphResult::Unknown(s[pos])
        }
    }

    /// The full lookup contract: an outcome at every position inside the
    /// sequence, and no result at or past its end.
    pub open spec fn spec_lookup(self, s: Seq<char>, pos: int) -> Option<GlyphResult> {
        if 0 <= pos < s.len() {
            Some(self.spec_lookup_at(s, pos))
        } else {
            None
        }
    }

    pub fn lookup_single(&self, c: char) -> (r: Option<Glyph>)
        ensures
            r == self.spec_single(c),
    {
        self.map1.get(c)
    }

    pub fn lookup_double(&self, c1: char, c2: char) -> (r: Option<Glyph>)
        ensures
            r == self.spec_double(c1, c2),
    {
        let mut i: usize = 0;
        assert(self.map2@.skip(0) =~= self.map2@);
        while i < self.map2.len()
            invariant
                i <= self.map2@.len(),
                pair_get(self.map2@, c1, c2) == pair_get(self.map2@.skip(i as int), c1, c2),
            decreases self.map2@.len() - i,
        {
            assert(self.map2@.skip(i as int)[0] == self.map2@[i as int]);
            if self.map2[i].first == c1 && self.map2[i].second == c2 {
                assert(pair_get(self.map2@.skip(i as int), c1, c2) == Some(
                    self.map2@[i as int].glyph,
                ));
                return Some(self.map2[i].glyph);
            }
            assert(self.map2@.skip(i as int).drop_first() =~= self.map2@.skip(i as int + 1));
            i = i + 1;
        }
        assert(self.map2@.skip(i as int) =~= Seq::<PairEntry>::empty());
        None
    }

    /// The single-character fallback: a Single outcome on a hit, else
    /// Unknown. The lookup never fails outright on unmapped input.
    pub(crate) fn lookup_single_gr(&self, ch: char) -> (r: GlyphResult)
        ensures
            r == self.spec_single_gr(ch),
    {
        if let Some(g) = self.lookup_single(ch) {
            GlyphResult::Single(g, ch)
        } else {
            GlyphResult::Unknown(ch)
        }
    }

    /// What the single-character fallback yields for `ch`.
    pub open spec fn spec_single_gr(self, ch: char) -> GlyphResult {
        if self.spec_single(ch) is Some {
            GlyphResult::Single(self.spec_single(ch)->0, ch)
        } else {
            GlyphResult::Unknown(ch)
        }
    }

    /// The core longest-match-first lookup over a random-access character
    /// sequence. Yields a result exactly when `pos` is inside the sequence.
    pub fn lookup(&self, str: &[char], pos: usize) -> (r: Option<GlyphResult>)
        ensures
            r == self.spec_lookup(str@, pos as int),
            r is Some <==> pos < str@.len(),
    {
        if pos < str.len() {
            if pos + 1 < str.len() {
                if let Some(g) = self.lookup_double(str[pos], str[pos + 1]) {
                    return Some(GlyphResult::Double(g, [str[pos], str[pos + 1]]));
                }
            }
            Some(self.lookup_single_gr(str[pos]))
        } else {
            None
        }
    }
}

/// Strict ordering of ligature keys: by first scalar value, then second.
pub open spec fn pair_key_lt(a: PairEntry, b: PairEntry) -> bool {
    (a.first as u32) < (b.first as u32) || ((a.first as u32) == (b.first as u32) && (
    a.second as u32) < (b.second as u32))
}

/// Longest-match precedence: at a position where both the pair `(s[pos],
/// s[pos + 1])` and the single character `s[pos]` could match, the lookup
/// yields the Double outcome, never Single.
pub proof fn lemma_pair_precedence(font: Font, s: Seq<char>, pos: int)
    requires
        0 <= pos,
        pos + 1 < s.len(),
        font.spec_double(s[pos], s[pos + 1]) is Some,
    ensures
        font.spec_lookup(s, pos) == Some(
            GlyphResult::Double(font.spec_double(s[pos], s[pos + 1])->0, [s[pos], s[pos + 1]]),
        ),
        font.spec_lookup(s, pos)->0 is Double,
{
}

} // verus!
