//! The glyph record and the tagged outcome of resolving one input position.

use vstd::prelude::*;

verus! {

/// One renderable symbol's location in the shared bitmap atlas: origin in
/// atlas pixels, cell size in pixels (at most 255 each), and a signed pen
/// adjustment.
#[derive(Debug, Copy, Clone, Eq, PartialEq)]
pub struct Glyph {
    pub pos: (u32, u32),
    pub size: (u8, u8),
    pub offset: (i8, i8),
}

/// The outcome of resolving one input position: an unmapped character, a
/// single-character match, or a two-character ligature match. An unmapped
/// character is a value, not an error: it never stops a pass over the input.
#[derive(Debug, Copy, Clone, Eq, PartialEq)]
pub enum GlyphResult {
    Unknown(char),
    Single(Glyph, char),
    Double(Glyph, [char; 2]),
}

impl GlyphResult {
    /// The first input character this outcome covers.
    pub open spec fn spec_first_char(self) -> char {
        match self {
            GlyphResult::Unknown(c) => c,
            GlyphResult::Single(_, c) => c,
            GlyphResult::Double(_, cs) => cs[0],
        }
    }

    /// How many input positions this outcome consumed: 2 for a ligature,
    /// 1 otherwise.
    pub open spec fn spec_char_len(self) -> int {
        match self {
            GlyphResult::Unknown(_) => 1,
            GlyphResult::Single(_, _) => 1,
            GlyphResult::Double(_, _) => 2,
        }
    }

    pub fn is_unknown(&self) -> (r: bool)
        ensures
            r == (*self is Unknown),
    {
        matches!(self, GlyphResult::Unknown(_))
    }

    pub fn is_single(&self) -> (r: bool)
        ensures
            r == (*self is Single),
    {
        matches!(self, GlyphResult::Single(_, _))
    }

    pub fn is_double(&self) -> (r: bool)
        ensures
            r == (*self is Double),
    {
        matches!(self, GlyphResult::Double(_, _))
    }

    pub fn first_char(&self) -> (r: char)
        ensures
            r == self.spec_first_char(),
    {
        match self {
            GlyphResult::Unknown(c) => *c,
            GlyphResult::Single(_, c) => *c,
            GlyphResult::Double(_, cs) => cs[0],
        }
    }

    pub fn char_len(&self) -> (r: usize)
        ensures
            r == self.spec_char_len(),
    {
        match self {
            GlyphResult::Unknown(_) => 1,
            GlyphResult::Single(_, _) => 1,
            GlyphResult::Double(_, _) => 2,
        }
    }
}

} // verus!
