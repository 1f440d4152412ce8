use asciifier::asciifier::{Asciifier, FontBuilder, ImageBuilder, ShadeTable};
use asciifier::chars::{Chars, GlyphOutline};
use asciifier::coverage::{Coverage, COVERAGE_ONE};
use asciifier::error::{AsciiError, FontParseErrors};
use asciifier::font_handler::{CharAlignment, CharDistributionType, CharacterBackground};
use asciifier::raster::{Rgb, RgbRaster};

/// A font with two 8 x 8 glyphs: '.' inks a 2 x 2 block in its bottom-right
/// corner, '#' inks every pixel; '=' is as dense as '#'. Anything else is missing.
fn block_outline(character: char) -> Option<GlyphOutline> {
    {
        let full = COVERAGE_ONE;
        let coverage: Vec<u32> = match character {
            '.' => (0..64)
                .map(|i| {
                    let (x, y) = (i % 8, i / 8);
                    if x >= 6 && y >= 6 {
                        full
                    } else {
                        0
                    }
                })
                .collect(),
            '#' | '=' => vec![full; 64],
            _ => return None,
        };
        GlyphOutline::new((3, -8), (11, 0), coverage)
    }
}

/// The block font's answer for every character of `chars`.
fn answer(chars: &[char]) -> Vec<Option<GlyphOutline>> {
    chars.iter().map(|c| block_outline(*c)).collect()
}

fn multiply_table() -> ShadeTable {
    let mut table = Vec::with_capacity(65536);
    for t in 0..256u32 {
        for l in 0..256u32 {
            table.push((t * l / 255) as u8);
        }
    }
    ShadeTable::new(table).unwrap()
}

fn solid(width: usize, height: usize, c: Rgb) -> RgbRaster {
    RgbRaster { width, height, pixels: vec![c; width * height] }
}

const BLACK: Rgb = Rgb { r: 0, g: 0, b: 0 };
const WHITE: Rgb = Rgb { r: 255, g: 255, b: 255 };

fn builder(chars: &str, distribution: CharDistributionType, image: RgbRaster) -> ImageBuilder {
    let mut fb = FontBuilder::new();
    fb.set_chars(chars.to_string());
    fb.font_height(8);
    fb.distribution(distribution);
    fb.background(CharacterBackground::Black);
    fb.alignment(CharAlignment::Left);
    let outlines = answer(&fb.chars);
    Asciifier::new(image).font(fb, outlines).unwrap()
}

#[test]
fn solid_black_image_becomes_dots() {
    let mut b = builder(".#", CharDistributionType::Exact, solid(64, 64, BLACK));
    assert_eq!(b.chars.char_box(), (8, 8));
    let dot = b.chars.rasterized_chars[0].raster_letter.pixels.clone();
    b.convert(&multiply_table()).unwrap();
    let out = b.get_image().unwrap();
    assert_eq!((out.width, out.height), (64, 64));
    for y in 0..64 {
        for x in 0..64 {
            let l = dot[(y % 8) * 8 + x % 8];
            assert_eq!(out.pixels[y * 64 + x], Rgb { r: l, g: l, b: l });
        }
    }
}

#[test]
fn one_white_quadrant_selects_dense_glyph_once() {
    let mut image = solid(16, 16, BLACK);
    for y in 0..8 {
        for x in 8..16 {
            image.pixels[y * 16 + x] = WHITE;
        }
    }
    let mut b = builder(".#", CharDistributionType::ExactAdjustedBlacks, image);
    b.convert(&multiply_table()).unwrap();
    let out = b.get_image().unwrap();
    let mut dense_cells = 0;
    for (cy, cx) in [(0, 0), (0, 1), (1, 0), (1, 1)] {
        // a fully inked tile lights its top-left pixel; the dot tile does not
        if out.pixels[(cy * 8) * 16 + cx * 8].r > 0 {
            dense_cells += 1;
            assert_eq!((cy, cx), (0, 1));
        }
    }
    assert_eq!(dense_cells, 1);
}

#[test]
fn save_before_convert_is_refused() {
    let b = builder(".#", CharDistributionType::Exact, solid(16, 16, BLACK));
    assert!(b.get_image().is_none());
    assert!(matches!(b.output_image(), Err(AsciiError::ConvertNotCalled)));
}

#[test]
fn converting_twice_gives_the_same_image() {
    let mut image = solid(24, 16, BLACK);
    for (i, p) in image.pixels.iter_mut().enumerate() {
        *p = Rgb { r: (i * 7 % 256) as u8, g: (i * 13 % 256) as u8, b: (i * 3 % 256) as u8 };
    }
    let table = multiply_table();
    let mut b = builder(".#", CharDistributionType::ExactAdjustedWhites, image);
    b.convert(&table).unwrap();
    let first = b.get_image().unwrap().clone();
    b.convert(&table).unwrap();
    assert_eq!(&first, b.get_image().unwrap());
}

#[test]
fn partial_tiles_are_cropped() {
    let mut b = builder(".#", CharDistributionType::Exact, solid(21, 19, BLACK));
    b.convert(&multiply_table()).unwrap();
    let out = b.output_image().unwrap();
    assert_eq!((out.width, out.height), (16, 16));
    assert_eq!(out.pixels.len(), 256);
}

#[test]
fn tint_brightens_dark_cells() {
    // a uniform dark red cell: mean (40, 0, 0) and luminance 11, so its coverage
    // is 11 / 255 and every channel gains (255 - 40) * (1 - 11 / 255), rounded down
    let mut b = builder("#", CharDistributionType::Exact, solid(8, 8, Rgb { r: 40, g: 0, b: 0 }));
    b.convert(&multiply_table()).unwrap();
    let out = b.get_image().unwrap();
    assert_eq!(out.pixels[0], Rgb { r: 245, g: 205, b: 205 });
}

#[test]
fn missing_glyphs_are_all_reported() {
    let r = Chars::new(
        vec!['a', '.', 'b'],
        answer(&['a', '.', 'b']),
        8,
        CharAlignment::Center,
        CharDistributionType::Exact,
        CharacterBackground::Black,
    );
    match r {
        Err(AsciiError::ManyErrors(errors)) => assert_eq!(
            errors,
            vec![
                AsciiError::FontParse(FontParseErrors::GlyphOutlineMissing('a')),
                AsciiError::FontParse(FontParseErrors::GlyphOutlineMissing('b')),
            ]
        ),
        _ => panic!("expected the missing glyphs"),
    }
}

#[test]
fn empty_char_set_is_refused() {
    let r = Chars::new(
        vec![],
        answer(&[]),
        8,
        CharAlignment::Center,
        CharDistributionType::Exact,
        CharacterBackground::Black,
    );
    assert!(matches!(r, Err(AsciiError::FontParse(FontParseErrors::EmptyCharSet))));
}

#[test]
fn tile_height_follows_font_height() {
    let mut c = Chars::new(
        vec!['.', '#'],
        answer(&['.', '#']),
        12,
        CharAlignment::Center,
        CharDistributionType::Exact,
        CharacterBackground::Black,
    )
    .unwrap();
    assert_eq!(c.char_box(), (8, 12));
    c.change_font_heigh(20, answer(&['.', '#'])).unwrap();
    assert_eq!(c.char_box(), (8, 20));
    assert_eq!(c.font_height, 20);
    // glyphs sit on the bottom edge: the top rows stay blank
    let t = &c.rasterized_chars[1].raster_letter;
    assert!(t.pixels[..8 * 12].iter().all(|p| *p == 0));
    assert!(t.pixels[8 * 12..].iter().all(|p| *p == 255));
}

#[test]
fn tile_box_is_the_same_twice() {
    let make = || {
        Chars::new(
        vec!['.', '#', '.'],
        answer(&['.', '#', '.']),
            6,
            CharAlignment::Right,
            CharDistributionType::Exact,
            CharacterBackground::Black,
        )
        .unwrap()
        .char_box()
    };
    assert_eq!(make(), make());
    assert_eq!(make(), (8, 8));
}

#[test]
fn best_match_prefers_the_first_of_equal_glyphs() {
    let c = Chars::new(
        vec!['.', '=', '#'],
        answer(&['.', '=', '#']),
        8,
        CharAlignment::Center,
        CharDistributionType::Exact,
        CharacterBackground::Black,
    )
    .unwrap();
    let gray = asciifier::raster::GrayRaster { width: 4, height: 4, pixels: vec![255; 16] };
    let target = Coverage::new(&gray, 0, 0, 4, 4).unwrap();
    assert_eq!(c.best_match(&target).character, '=');
    assert_eq!(c.best_match_index(&target), 1);
}

#[test]
fn changing_distribution_keeps_tiles() {
    let mut c = Chars::new(
        vec!['.', '#'],
        answer(&['.', '#']),
        8,
        CharAlignment::Center,
        CharDistributionType::Exact,
        CharacterBackground::Black,
    )
    .unwrap();
    let before = c.rasterized_chars[0].raster_letter.clone();
    c.change_distribution(CharDistributionType::ExactAdjustedWhites);
    assert_eq!(c.distribution, CharDistributionType::ExactAdjustedWhites);
    assert_eq!(c.rasterized_chars[0].raster_letter, before);
    // whites: (v - 0) / 1.0 leaves these values unchanged
    assert_eq!(c.rasterized_chars[0].adjusted_coverage, c.rasterized_chars[0].coverage);
}

#[test]
fn font_builder_defaults_and_chars() {
    let mut fb = FontBuilder::new();
    assert_eq!(fb.font_height, 12);
    assert_eq!(fb.alignment, CharAlignment::Center);
    assert_eq!(fb.distribution, CharDistributionType::ExactAdjustedBlacks);
    assert_eq!(fb.background, CharacterBackground::Black);
    assert_eq!(fb.chars.len(), 37);
    fb.set_chars("ab".to_string());
    fb.add_chars("c".to_string());
    assert_eq!(fb.chars, vec!['a', 'b', 'c']);
    let mut other = FontBuilder::new();
    other.copy(&fb);
    assert_eq!(other.chars, vec!['a', 'b', 'c']);
}

#[test]
fn char_height_re_rasterizes() {
    let mut b = builder(".#", CharDistributionType::Exact, solid(16, 16, BLACK));
    b.char_height(10, answer(&['.', '#'])).unwrap();
    assert_eq!(b.chars.char_box(), (8, 10));
    b.distribution_type(CharDistributionType::ExactAdjustedBlacks);
    assert_eq!(b.chars.distribution, CharDistributionType::ExactAdjustedBlacks);
}

#[test]
fn white_background_saturates_ink() {
    let c = Chars::new(
        vec!['.'],
        answer(&['.']),
        8,
        CharAlignment::Center,
        CharDistributionType::Exact,
        CharacterBackground::White,
    )
    .unwrap();
    // the reciprocal of any coverage up to full is at least 1, so every ink pixel is 255
    assert!(c.rasterized_chars[0].raster_letter.pixels.iter().all(|p| *p == 255));
}

#[test]
fn default_chars_are_the_operator_set() {
    let fb = FontBuilder::new();
    let expected: Vec<char> = "\u{2207}\u{2215}\u{2211}\u{220f}\u{2207}\u{2206}\u{2203}\u{222b}\u{222c}\u{222e}\u{224b}\u{228b}\u{2282}\u{2283}\u{22aa}\u{22a9}\u{2238}\u{2237}\u{2236}\u{2236}\u{2235}\u{2234}\u{223e}\u{22a2}\u{22af}\u{22ae}\u{22ad}\u{22ac}\u{22ab}\u{22aa}\u{22a9}\u{22a8}\u{22a7}\u{22a6}\u{22a5}\u{22a4}\u{22a3}"
        .chars()
        .collect();
    assert_eq!(fb.chars, expected);
}

#[test]
fn failed_height_change_keeps_the_set() {
    // the block font cannot outline 'x', so rasterizing fails and nothing changes
    let mut c = Chars::new(
        vec!['.', '#'],
        answer(&['.', '#']),
        8,
        CharAlignment::Center,
        CharDistributionType::Exact,
        CharacterBackground::Black,
    )
    .unwrap();
    c.chars.push('x');
    c.rasterized_chars.push(
        Chars::new(vec!['#'], answer(&['#']), 8, CharAlignment::Center, CharDistributionType::Exact, CharacterBackground::Black)
            .unwrap()
            .rasterized_chars
            .remove(0),
    );
    let r = c.change_font_heigh(10, answer(&['.', '#', 'x']));
    assert!(matches!(r, Err(AsciiError::ManyErrors(ref e)) if e.len() == 1));
    assert_eq!(c.font_height, 8);
    assert_eq!(c.char_box(), (8, 8));
}
