//! The two glyph sequence resolvers: one over a random-access character
//! slice, one over a character-producing stream with one-token lookahead.

use vstd::prelude::*;
use vstd::std_specs::iter::IteratorSpec;
use crate::font::Font;
use crate::glyph::GlyphResult;

verus! {

/// The outcomes of a full pass of the random-access resolver over `s`
/// starting at `pos`: one outcome per consumed run of one or two positions.
pub open spec fn spec_outcomes(font: Font, s: Seq<char>, pos: int) -> Seq<GlyphResult>
    decreases s.len() - pos
        when 0 <= pos <= s.len()
{
    if pos >= s.len() {
        Seq::empty()
    } else {
        seq![font.spec_lookup_at(s, pos)] + spec_outcomes(
            font,
            s,
            pos + font.spec_lookup_at(s, pos).spec_char_len(),
        )
    }
}

/// The sum of the input positions the outcomes consumed.
pub open spec fn total_char_len(rs: Seq<GlyphResult>) -> int
    decreases rs.len(),
{
    if rs.len() == 0 {
        0
    } else {
        rs[0].spec_char_len() + total_char_len(rs.drop_first())
    }
}

/// Consumption accounting: over a full pass from `pos`, the outcomes'
/// consumed lengths sum to exactly the number of remaining input positions,
/// so every position is covered and none is covered twice. In particular a
/// pass never stops early on an unmapped character.
pub proof fn lemma_consumption_accounting(font: Font, s: Seq<char>, pos: int)
    requires
        0 <= pos <= s.len(),
    ensures
        total_char_len(spec_outcomes(font, s, pos)) == s.len() - pos,
        spec_outcomes(font, s, pos).len() > 0 <==> pos < s.len(),
    decreases s.len() - pos,
{
    if pos < s.len() {
        let o = font.spec_lookup_at(s, pos);
        lemma_consumption_accounting(font, s, pos + o.spec_char_len());
        assert(spec_outcomes(font, s, pos).drop_first() =~= spec_outcomes(
            font,
            s,
            pos + o.spec_char_len(),
        ));
    }
}

/// The random-access resolver: a cursor over a fixed character slice,
/// advanced by each outcome's consumed length.
pub struct CharSliceGlyphIterator<'a> {
    pub font: &'a Font,
    pub chars: &'a [char],
    pub pos: usize,
}

impl<'a> CharSliceGlyphIterator<'a> {
    pub fn new(font: &'a Font, str: &'a [char]) -> (it: Self)
        ensures
            it.font == font,
            it.chars@ == str@,
            it.pos == 0,
    {
        Self { font, chars: str, pos: 0 }
    }

    /// The outcomes this resolver has yet to yield.
    pub open spec fn spec_remaining_outcomes(self) -> Seq<GlyphResult> {
        spec_outcomes(*self.font, self.chars@, self.pos as int)
    }

    /// One step: the outcome at the cursor, cursor advanced by its consumed
    /// length; no result exactly at the end of the slice. An Unknown outcome
    /// advances like any other and never ends the pass.
    pub fn next(&mut self) -> (r: Option<GlyphResult>)
        ensures
            final(self).font == old(self).font,
            final(self).chars@ == old(self).chars@,
            r == old(self).font.spec_lookup(old(self).chars@, old(self).pos as int),
            r is Some <==> old(self).pos < old(self).chars@.len(),
            r is None ==> final(self).pos == old(self).pos,
            r is Some ==> final(self).pos == old(self).pos + r->0.spec_char_len(),
            r is Some ==> final(self).pos <= old(self).chars@.len(),
            old(self).pos <= old(self).chars@.len() ==> old(self).spec_remaining_outcomes()
                == (if r is Some {
                    seq![r->0] + final(self).spec_remaining_outcomes()
                } else {
                    Seq::<GlyphResult>::empty()
                }),
    {
        let n = self.chars.len();
        let r = self.font.lookup(self.chars, self.pos);
        match r {
            Some(res) => {
                proof {
                    assert(self.pos as int + res.spec_char_len() <= n as int);
                }
                self.pos = self.pos + res.char_len();
                Some(res)
            },
            None => None,
        }
    }
}

/// The streamed resolver: wraps a character-producing stream and keeps one
/// token of lookahead, so a character peeked as the second half of a failed
/// or successful pair test is re-examined at the next step.
pub struct CharPeekableGlyphIterator<'a, T: Iterator<Item = char>> {
    pub font: &'a Font,
    pub iter: T,
    pub lookahead: Option<char>,
}

/// The characters a streamed resolver state has yet to examine, given what
/// the underlying stream will still produce: the buffered lookahead token,
/// then the stream's remainder.
pub open spec fn spec_pending_with(lookahead: Option<char>, rest: Seq<char>) -> Seq<char> {
    match lookahead {
        Some(c) => seq![c] + rest,
        None => rest,
    }
}

/// The outcome of one streamed step over the pending characters: the pair
/// match on the first two if it exists, else the single-character fallback
/// on the first.
pub open spec fn spec_stream_at(font: Font, s: Seq<char>) -> GlyphResult
    recommends
        s.len() > 0,
{
    if s.len() >= 2 && font.spec_double(s[0], s[1]) is Some {
        GlyphResult::Double(font.spec_double(s[0], s[1])->0, [s[0], s[1]])
    } else {
        font.spec_single_gr(s[0])
    }
}

impl<'a, T: Iterator<Item = char>> CharPeekableGlyphIterator<'a, T> {
    pub fn new(font: &'a Font, iter: T) -> (it: Self)
        ensures
            it.font == font,
            it.iter == iter,
            it.lookahead is None,
    {
        Self { font, iter, lookahead: None }
    }

    /// One step: consume one pending token; yield the pair match with the
    /// peeked following token when one exists, else the single match, else
    /// Unknown; no result only when the stream is exhausted. An Unknown
    /// outcome never ends the sequence.
    pub fn next(&mut self) -> (r: Option<GlyphResult>)
        ensures
            final(self).font == old(self).font,
            old(self).iter.obeys_prophetic_iter_laws() ==> ({
                let oldpend = spec_pending_with(old(self).lookahead, old(self).iter.remaining());
                let newpend = spec_pending_with(
                    final(self).lookahead,
                    final(self).iter.remaining(),
                );
                &&& final(self).iter.obeys_prophetic_iter_laws()
                &&& r is Some <==> oldpend.len() > 0
                &&& r is Some ==> r->0 == spec_stream_at(*old(self).font, oldpend)
                &&& r is Some ==> newpend == oldpend.drop_first()
                &&& r is None ==> newpend.len() == 0
            }),
    {
        let cur = match self.lookahead {
            Some(c) => {
                self.lookahead = None;
                Some(c)
            },
            None => self.iter.next(),
        };
        let nxt = self.iter.next();
        self.lookahead = nxt;
        match cur {
            Some(c) => {
                match nxt {
                    Some(n) => {
                        if let Some(g) = self.font.lookup_double(c, n) {
                            Some(GlyphResult::Double(g, [c, n]))
                        } else {
                            Some(self.font.lookup_single_gr(c))
                        }
                    },
                    None => Some(self.font.lookup_single_gr(c)),
                }
            },
            None => None,
        }
    }
}

impl Font {
    /// A random-access resolver over `str`, starting at its beginning.
    pub fn lookup_slice<'a>(&'a self, str: &'a [char]) -> (it: CharSliceGlyphIterator<'a>)
        ensures
            it.font == self,
            it.chars@ == str@,
            it.pos == 0,
    {
        CharSliceGlyphIterator::new(self, str)
    }

    /// A streamed resolver over any character-producing stream.
    pub fn lookup_peekable<T: Iterator<Item = char>>(&self, iter: T) -> (it:
        CharPeekableGlyphIterator<T>)
        ensures
            it.font == self,
            it.iter == iter,
            it.lookahead is None,
    {
        CharPeekableGlyphIterator::new(self, iter)
    }

    /// A streamed resolver over the characters of `str`.
    pub fn lookup_string<'a>(&'a self, str: &'a str) -> (it: CharPeekableGlyphIterator<
        'a,
        core::str::Chars<'a>,
    >)
        ensures
            it.font == self,
            it.lookahead is None,
            it.iter.obeys_prophetic_iter_laws(),
            it.iter.remaining() == str@,
    {
        self.lookup_peekable(str.chars())
    }
}

} // verus!
