//! Resolution of character sequences into renderable glyph records drawn
//! from a bitmap font atlas, preferring two-character ligature matches over
//! single-character matches.

pub mod codec;
pub mod font;
pub mod glyph;
pub mod resolve;

pub use crate::font::{CharTable, Font, PairEntry};
pub use crate::glyph::{Glyph, GlyphResult};
pub use crate::resolve::{CharPeekableGlyphIterator, CharSliceGlyphIterator};
