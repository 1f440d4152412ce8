//! Errors of the conversion pipeline.
use vstd::prelude::*;

verus! {

/// Failures while turning a font and a character list into glyph tiles.
#[derive(Debug, Clone, PartialEq, Eq)]
pub enum FontParseErrors {
    /// The font has no outline for this character.
    GlyphOutlineMissing(char),
    /// A tile or image cell is narrower or lower than 4 pixels.
    FontSizeTooSmall,
    /// The tile box has more pixels than a buffer can hold.
    FontSizeTooLarge,
    /// The character list is empty.
    EmptyCharSet,
}

#[derive(Debug, Clone, PartialEq, Eq)]
pub enum GroupedImageError {
    RowIndexOutOfBounds { index: usize, row_len: usize },
}

#[derive(Debug, PartialEq, Eq)]
pub enum AsciiError {
    FontParse(FontParseErrors),
    GroupedImage(GroupedImageError),
    /// No converted image exists yet.
    ConvertNotCalled,
    /// Several failures reported together, in the order they happened.
    ManyErrors(Vec<AsciiError>),
}

} // verus!
