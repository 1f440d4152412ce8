//! Turns raster images into mosaics of font glyphs: the image is cut into tiles
//! the size of the glyph box, and each tile is replaced by the glyph whose
//! coverage pattern comes closest to it.
pub mod asciifier;
pub mod chars;
pub mod coverage;
pub mod error;
pub mod font_handler;
pub mod grouped_image;
pub mod raster;
