//! Glyph tiles: rasterizing a character list into equally sized tiles and
//! finding the tile that best matches a descriptor.
use vstd::prelude::*;

use crate::coverage::{region_squares, sq_dist, valid_squares, Coverage, COVERAGE_ONE};
use crate::error::{AsciiError, FontParseErrors};
use crate::font_handler::{
    adjusted_descriptors, raw_descriptors, CharAlignment, CharDistributionMatch, CharDistributionType, CharacterBackground,
};
use crate::raster::{lemma_pixel_index_in_bounds, GrayRaster};

verus! {

/// A glyph outline as a font renders it: its pixel bounds and the coverage of
/// every pixel inside them, row-major, in fixed point (`COVERAGE_ONE` is fully
/// covered; a font may report more than that).
#[derive(Debug)]
pub struct GlyphOutline {
    min: (i32, i32),
    max: (i32, i32),
    coverage: Vec<u32>,
}

impl GlyphOutline {
    #[verifier::type_invariant]
    spec fn inv(&self) -> bool {
        &&& self.min.0 <= self.max.0
        &&& self.min.1 <= self.max.1
        &&& self.coverage@.len() == (self.max.0 - self.min.0) * (self.max.1 - self.min.1)
    }

    /// Corner of the pixel bounds with the smallest coordinates.
    pub closed spec fn bounds_min(&self) -> (int, int) {
        (self.min.0 as int, self.min.1 as int)
    }

    /// Corner of the pixel bounds with the largest coordinates.
    pub closed spec fn bounds_max(&self) -> (int, int) {
        (self.max.0 as int, self.max.1 as int)
    }

    /// Coverage of the pixels inside the bounds, row-major.
    pub closed spec fn pixels(&self) -> Seq<u32> {
        self.coverage@
    }

    /// Width of the ink box once the padding is removed.
    pub open spec fn ink_width(&self) -> int {
        self.bounds_max().0 - self.bounds_min().0
    }

    /// Height of the ink box once the padding is removed.
    pub open spec fn ink_height(&self) -> int {
        self.bounds_max().1 - self.bounds_min().1
    }

    /// An outline with bounds `min`..`max` and one coverage value per pixel of
    /// them; `None` when the bounds are inverted or the count does not match.
    pub fn new(min: (i32, i32), max: (i32, i32), coverage: Vec<u32>) -> (r: Option<GlyphOutline>)
        ensures
            (min.0 <= max.0 && min.1 <= max.1 && coverage@.len() == (max.0 - min.0) * (max.1
                - min.1)) <==> r is Some,
            r is Some ==> r->Some_0.bounds_min() == (min.0 as int, min.1 as int) && r->Some_0.bounds_max()
                == (max.0 as int, max.1 as int) && r->Some_0.pixels() == coverage@,
    {
        if min.0 > max.0 || min.1 > max.1 {
            return None;
        }
        let w = (max.0 as i64 - min.0 as i64) as u128;
        let h = (max.1 as i64 - min.1 as i64) as u128;
        proof {
            assert(w * h <= 0x1_0000_0000 * 0x1_0000_0000) by (nonlinear_arith)
                requires
                    w <= 0x1_0000_0000,
                    h <= 0x1_0000_0000,
            ;
        }
        if coverage.len() as u128 != w * h {
            return None;
        }
        Some(GlyphOutline { min, max, coverage })
    }

    /// The size of the ink box.
    pub fn ink_size(&self) -> (r: (usize, usize))
        ensures
            r.0 == self.ink_width(),
            r.1 == self.ink_height(),
            r.0 * r.1 == self.pixels().len(),
    {
        proof {
            use_type_invariant(self);
        }
        let (_, max) = remove_padding(self.min, self.max);
        (max.0 as usize, max.1 as usize)
    }
}

/// Shifts a pair of corners so that the first one lands on the origin.
pub fn remove_padding(min: (i32, i32), max: (i32, i32)) -> (r: ((i64, i64), (i64, i64)))
    ensures
        r.0 == (0i64, 0i64),
        r.1.0 == max.0 - min.0,
        r.1.1 == max.1 - min.1,
{
    let dx = 0 - min.0 as i64;
    let dy = 0 - min.1 as i64;
    ((min.0 as i64 + dx, min.1 as i64 + dy), (max.0 as i64 + dx, max.1 as i64 + dy))
}

/// The byte drawn for a pixel of fixed-point coverage `c`: with a black
/// background the coverage scaled to 255, with a white one its reciprocal scaled
/// to 255 (a blank pixel counts as infinitely light); both saturate at 255.
pub open spec fn polarity_value(background: CharacterBackground, c: int) -> int {
    let v = match background {
        CharacterBackground::Black => c * 255 / COVERAGE_ONE as int,
        CharacterBackground::White => if c == 0 {
            255
        } else {
            255 * COVERAGE_ONE / c
        },
    };
    if v > 255 {
        255
    } else {
        v
    }
}

pub fn polarity_byte(background: CharacterBackground, c: u32) -> (r: u8)
    ensures
        r == polarity_value(background, c as int),
{
    let v: u64 = match background {
        CharacterBackground::Black => (c as u64 * 255) / COVERAGE_ONE as u64,
        CharacterBackground::White => if c == 0 {
            255
        } else {
            (255 * COVERAGE_ONE as u64) / c as u64
        },
    };
    if v > 255 {
        255
    } else {
        v as u8
    }
}

/// Column of the tile where an ink box `ink_width` wide starts.
pub open spec fn x_offset(alignment: CharAlignment, box_width: int, ink_width: int) -> int {
    let gap = if box_width >= ink_width {
        box_width - ink_width
    } else {
        0
    };
    match alignment {
        CharAlignment::Left => 0,
        CharAlignment::Center => gap / 2,
        CharAlignment::Right => gap,
    }
}

/// Row of the tile where an ink box `ink_height` high starts: glyphs sit on the
/// bottom edge.
pub open spec fn y_offset(box_height: int, ink_height: int) -> int {
    if box_height >= ink_height {
        box_height - ink_height
    } else {
        0
    }
}

/// Pixel `(x, y)` of the tile of `outline` in a `box_width`-wide box: the
/// outline's pixel it lands on, or 0 where no ink pixel lands.
pub open spec fn tile_pixel(
    outline: GlyphOutline,
    box_width: int,
    box_height: int,
    alignment: CharAlignment,
    background: CharacterBackground,
    x: int,
    y: int,
) -> u8 {
    let w = outline.ink_width();
    let h = outline.ink_height();
    let ox = x_offset(alignment, box_width, w);
    let oy = y_offset(box_height, h);
    if ox <= x < ox + w && oy <= y < oy + h {
        polarity_value(background, outline.pixels()[(y - oy) * w + (x - ox)] as int) as u8
    } else {
        0
    }
}

/// The whole tile of `outline`, row-major.
pub open spec fn tile_pixels(
    outline: GlyphOutline,
    box_width: int,
    box_height: int,
    alignment: CharAlignment,
    background: CharacterBackground,
) -> Seq<u8> {
    Seq::new(
        (box_width * box_height) as nat,
        |i: int|
            tile_pixel(
                outline,
                box_width,
                box_height,
                alignment,
                background,
                i % box_width,
                i / box_width,
            ),
    )
}

/// Renders `outline` into a `box_width` x `box_height` tile: the ink box is
/// placed by `alignment` and sits on the bottom edge; what falls outside the tile
/// is dropped.
pub fn rasterize_glyph(
    outline: &GlyphOutline,
    bounding: (usize, usize),
    alignment: CharAlignment,
    background: CharacterBackground,
) -> (r: GrayRaster)
    requires
        bounding.0 * bounding.1 <= usize::MAX,
    ensures
        r.wf(),
        r.width == bounding.0,
        r.height == bounding.1,
        r.pixels@ == tile_pixels(*outline, bounding.0 as int, bounding.1 as int, alignment, background),
{
    let (box_width, box_height) = bounding;
    proof {
        use_type_invariant(outline);
    }
    let (w, h) = outline.ink_size();
    let gap = if box_width >= w {
        box_width - w
    } else {
        0
    };
    let ox: usize = match alignment {
        CharAlignment::Left => 0,
        CharAlignment::Center => gap / 2,
        CharAlignment::Right => gap,
    };
    let oy: usize = if box_height >= h {
        box_height - h
    } else {
        0
    };
    let ghost target = tile_pixels(*outline, box_width as int, box_height as int, alignment, background);
    let clen = outline.coverage.len();
    let mut pixels: Vec<u8> = Vec::with_capacity(box_width * box_height);
    let mut y: usize = 0;
    while y < box_height
        invariant
            box_width * box_height <= usize::MAX,
            w == outline.ink_width(),
            h == outline.ink_height(),
            w * h == outline.pixels().len(),
            outline.coverage@ == outline.pixels(),
            clen == w * h,
            target.len() == box_width * box_height,
            ox == x_offset(alignment, box_width as int, w as int),
            oy == y_offset(box_height as int, h as int),
            ox <= box_width,
            target == tile_pixels(*outline, box_width as int, box_height as int, alignment, background),
            y <= box_height,
            pixels@.len() == y * box_width,
            forall|i: int| 0 <= i < pixels@.len() ==> pixels@[i] == target[i],
        decreases box_height - y,
    {
        let mut x: usize = 0;
        while x < box_width
            invariant
                box_width * box_height <= usize::MAX,
                w == outline.ink_width(),
                h == outline.ink_height(),
                w * h == outline.pixels().len(),
                outline.coverage@ == outline.pixels(),
                clen == w * h,
                target.len() == box_width * box_height,
                ox == x_offset(alignment, box_width as int, w as int),
                oy == y_offset(box_height as int, h as int),
                ox <= box_width,
                target == tile_pixels(*outline, box_width as int, box_height as int, alignment, background),
                y < box_height,
                x <= box_width,
                pixels@.len() == y * box_width + x,
                forall|i: int| 0 <= i < pixels@.len() ==> pixels@[i] == target[i],
            decreases box_width - x,
        {
            let ghost p = y * box_width + x;
            proof {
                lemma_pixel_index_in_bounds(box_width as int, box_height as int, x as int, y as int);
                vstd::arithmetic::div_mod::lemma_fundamental_div_mod_converse(
                    p,
                    box_width as int,
                    y as int,
                    x as int,
                );
            }
            let v: u8 = if ox <= x && x < ox + w && oy <= y && y < oy + h {
                proof {
                    lemma_pixel_index_in_bounds(w as int, h as int, (x - ox) as int, (y - oy) as int);
                }
                polarity_byte(background, outline.coverage[(y - oy) * w + (x - ox)])
            } else {
                0
            };
            pixels.push(v);
            x += 1;
        }
        proof {
            assert((y + 1) * box_width == y * box_width + box_width) by (nonlinear_arith);
        }
        y += 1;
    }
    proof {
        assert(box_height * box_width == box_width * box_height) by (nonlinear_arith);
        assert(pixels@ =~= target);
    }
    GrayRaster { width: box_width, height: box_height, pixels }
}

/// The widest ink box of a list of outlines.
pub open spec fn widest(outlines: Seq<GlyphOutline>) -> int
    decreases outlines.len(),
{
    if outlines.len() == 0 {
        0
    } else {
        let m = widest(outlines.drop_last());
        if outlines.last().ink_width() > m {
            outlines.last().ink_width()
        } else {
            m
        }
    }
}

/// The tallest ink box of a list of outlines.
pub open spec fn tallest(outlines: Seq<GlyphOutline>) -> int
    decreases outlines.len(),
{
    if outlines.len() == 0 {
        0
    } else {
        let m = tallest(outlines.drop_last());
        if outlines.last().ink_height() > m {
            outlines.last().ink_height()
        } else {
            m
        }
    }
}

/// The tile box of a set of outlines: the widest and the tallest ink box, but
/// never lower than the requested font height nor narrower than `min_width`.
pub open spec fn spec_char_box(outlines: Seq<GlyphOutline>, font_height: int, min_width: int) -> (int, int) {
    let w = widest(outlines);
    let h = tallest(outlines);
    (if w > min_width { w } else { min_width }, if h > font_height { h } else { font_height })
}

/// The size shared by every tile of a set: see `spec_char_box`.
pub fn char_boxing(outlines: &Vec<GlyphOutline>, font_height: usize, min_width: Option<usize>) -> (r: (usize, usize))
    ensures
        r.0 == spec_char_box(outlines@, font_height as int, min_width.unwrap_or(0) as int).0,
        r.1 == spec_char_box(outlines@, font_height as int, min_width.unwrap_or(0) as int).1,
        r.1 >= font_height,
        forall|i: int| 0 <= i < outlines@.len() ==> #[trigger] outlines@[i].ink_width() <= r.0,
        forall|i: int| 0 <= i < outlines@.len() ==> #[trigger] outlines@[i].ink_height() <= r.1,
{
    let mut w: usize = 0;
    let mut h: usize = 0;
    let mut i: usize = 0;
    while i < outlines.len()
        invariant
            i <= outlines@.len(),
            w == widest(outlines@.subrange(0, i as int)),
            h == tallest(outlines@.subrange(0, i as int)),
            forall|k: int| 0 <= k < i ==> #[trigger] outlines@[k].ink_width() <= w,
            forall|k: int| 0 <= k < i ==> #[trigger] outlines@[k].ink_height() <= h,
        decreases outlines@.len() - i,
    {
        let (iw, ih) = outlines[i].ink_size();
        proof {
            let s = outlines@.subrange(0, i + 1);
            assert(s.drop_last() =~= outlines@.subrange(0, i as int));
        }
        if iw > w {
            w = iw;
        }
        if ih > h {
            h = ih;
        }
        i += 1;
    }
    proof {
        assert(outlines@.subrange(0, outlines@.len() as int) =~= outlines@);
    }
    let floor_w = match min_width {
        Some(m) => m,
        None => 0,
    };
    (if w > floor_w { w } else { floor_w }, if h > font_height { h } else { font_height })
}

/// One character rendered into its tile, with its raw and adjusted descriptors.
#[derive(Debug)]
pub struct RasterizedChar {
    pub character: char,
    pub raster_letter: GrayRaster,
    pub size: (usize, usize),
    pub alignment: CharAlignment,
    pub coverage: Coverage,
    pub adjusted_coverage: Coverage,
}

/// `rc` is the tile of `character` drawn from `outline` in a `box_width` x
/// `box_height` box, with the raw descriptor of that tile.
pub open spec fn rasterized_as(
    rc: RasterizedChar,
    character: char,
    outline: GlyphOutline,
    box_width: int,
    box_height: int,
    alignment: CharAlignment,
    background: CharacterBackground,
) -> bool {
    &&& rc.character == character
    &&& rc.raster_letter.wf()
    &&& rc.raster_letter.width == box_width
    &&& rc.raster_letter.height == box_height
    &&& rc.raster_letter.pixels@ == tile_pixels(outline, box_width, box_height, alignment, background)
    &&& rc.size == (box_width as usize, box_height as usize)
    &&& rc.alignment == alignment
    &&& rc.coverage@ == region_squares(
        rc.raster_letter.pixels@,
        box_width,
        0,
        0,
        box_width,
        box_height,
    )
    &&& valid_squares(rc.coverage@)
}

impl RasterizedChar {
    /// Wraps a rendered tile and measures its descriptor; the adjusted
    /// descriptor starts out equal to the raw one.
    pub fn new(
        character: char,
        raster_letter: GrayRaster,
        size: (usize, usize),
        alignment: CharAlignment,
    ) -> (r: Result<RasterizedChar, AsciiError>)
        requires
            raster_letter.wf(),
            raster_letter.width == size.0,
            raster_letter.height == size.1,
        ensures
            (size.0 < 4 || size.1 < 4) <==> r is Err,
            r is Err ==> r == Err::<RasterizedChar, AsciiError>(
                AsciiError::FontParse(FontParseErrors::FontSizeTooSmall),
            ),
            r is Ok ==> {
                let rc = r->Ok_0;
                &&& rc.character == character
                &&& rc.raster_letter == raster_letter
                &&& rc.size == size
                &&& rc.alignment == alignment
                &&& rc.coverage@ == region_squares(
                    raster_letter.pixels@,
                    size.0 as int,
                    0,
                    0,
                    size.0 as int,
                    size.1 as int,
                )
                &&& valid_squares(rc.coverage@)
                &&& rc.adjusted_coverage@ == rc.coverage@
            },
    {
        let coverage = Coverage::new(&raster_letter, 0, 0, size.0, size.1)?;
        let adjusted_coverage = coverage.duplicate();
        Ok(RasterizedChar { character, raster_letter, size, alignment, coverage, adjusted_coverage })
    }

    /// Pairs this glyph with its distance to `target`.
    pub fn match_coverage(&self, target: &Coverage) -> (r: CharDistributionMatch<'_>)
        requires
            valid_squares(self.adjusted_coverage@),
            valid_squares(target@),
        ensures
            r.distance == sq_dist(self.adjusted_coverage@, target@),
            r.rasterized_char == self,
    {
        CharDistributionMatch {
            distance: self.adjusted_coverage.dist_squared(target),
            rasterized_char: self,
        }
    }
}

/// Builds one `RasterizedChar` in two steps: first the tile, then the descriptor.
pub struct RasterizedCharBuilder {
    pub char: char,
    pub outline: GlyphOutline,
    pub alignment: CharAlignment,
    pub background: CharacterBackground,
    pub glyph_box: Option<(usize, usize)>,
    pub rasterized_letter: Option<GrayRaster>,
}

impl RasterizedCharBuilder {
    pub fn new(
        char: char,
        outline: GlyphOutline,
        alignment: CharAlignment,
        background: CharacterBackground,
    ) -> (r: Self)
        ensures
            r.char == char,
            r.outline == outline,
            r.alignment == alignment,
            r.background == background,
            r.glyph_box is None,
            r.rasterized_letter is None,
    {
        RasterizedCharBuilder {
            char,
            outline,
            alignment,
            background,
            glyph_box: None,
            rasterized_letter: None,
        }
    }

    /// Renders the outline into a tile of size `font_box`.
    pub fn rasterize(self, font_box: (usize, usize)) -> (r: Self)
        requires
            font_box.0 * font_box.1 <= usize::MAX,
        ensures
            r.char == self.char,
            r.outline == self.outline,
            r.alignment == self.alignment,
            r.background == self.background,
            r.glyph_box == Some(font_box),
            r.rasterized_letter is Some,
            r.rasterized_letter->Some_0.wf(),
            r.rasterized_letter->Some_0.width == font_box.0,
            r.rasterized_letter->Some_0.height == font_box.1,
            r.rasterized_letter->Some_0.pixels@ == tile_pixels(
                self.outline,
                font_box.0 as int,
                font_box.1 as int,
                self.alignment,
                self.background,
            ),
    {
        let letter = rasterize_glyph(&self.outline, font_box, self.alignment, self.background);
        RasterizedCharBuilder {
            char: self.char,
            outline: self.outline,
            alignment: self.alignment,
            background: self.background,
            glyph_box: Some(font_box),
            rasterized_letter: Some(letter),
        }
    }

    /// The finished glyph; fails when the tile is smaller than 4 x 4.
    pub fn build(self) -> (r: Result<RasterizedChar, AsciiError>)
        requires
            self.glyph_box is Some,
            self.rasterized_letter is Some,
            self.rasterized_letter->Some_0.wf(),
            self.rasterized_letter->Some_0.width == self.glyph_box->Some_0.0,
            self.rasterized_letter->Some_0.height == self.glyph_box->Some_0.1,
            self.rasterized_letter->Some_0.pixels@ == tile_pixels(
                self.outline,
                self.glyph_box->Some_0.0 as int,
                self.glyph_box->Some_0.1 as int,
                self.alignment,
                self.background,
            ),
        ensures
            ({
                let b = self.glyph_box->Some_0;
                &&& (b.0 < 4 || b.1 < 4) <==> r is Err
                &&& r is Err ==> r == Err::<RasterizedChar, AsciiError>(
                    AsciiError::FontParse(FontParseErrors::FontSizeTooSmall),
                )
                &&& r is Ok ==> rasterized_as(
                    r->Ok_0,
                    self.char,
                    self.outline,
                    b.0 as int,
                    b.1 as int,
                    self.alignment,
                    self.background,
                ) && r->Ok_0.raster_letter == self.rasterized_letter->Some_0
                    && r->Ok_0.adjusted_coverage@ == r->Ok_0.coverage@
            }),
    {
        let size = match self.glyph_box {
            Some(b) => b,
            None => (0, 0),
        };
        match self.rasterized_letter {
            Some(letter) => {
                RasterizedChar::new(self.char, letter, size, self.alignment)
            },
            None => Err(AsciiError::FontParse(FontParseErrors::FontSizeTooSmall)),
        }
    }
}

/// The errors for the characters among the first `n` that have no outline, in order.
pub open spec fn missing_glyphs(chars: Seq<char>, outlines: Seq<Option<GlyphOutline>>, n: int) -> Seq<
    AsciiError,
>
    decreases n,
{
    if n <= 0 {
        seq![]
    } else {
        let rest = missing_glyphs(chars, outlines, n - 1);
        if outlines[n - 1] is None {
            rest.push(AsciiError::FontParse(FontParseErrors::GlyphOutlineMissing(chars[n - 1])))
        } else {
            rest
        }
    }
}

/// The outlines of a list in which every outline is present.
pub open spec fn present(outlines: Seq<Option<GlyphOutline>>) -> Seq<GlyphOutline> {
    outlines.map_values(|o: Option<GlyphOutline>| o->Some_0)
}

/// `tiles` and `char_box` are the tile set of `chars` drawn from `outlines`.
pub open spec fn tiles_of(
    chars: Seq<char>,
    outlines: Seq<GlyphOutline>,
    font_height: int,
    alignment: CharAlignment,
    background: CharacterBackground,
    tiles: Seq<RasterizedChar>,
    char_box: (usize, usize),
) -> bool {
    let b = spec_char_box(outlines, font_height, 0);
    &&& char_box.0 == b.0
    &&& char_box.1 == b.1
    &&& tiles.len() == chars.len()
    &&& forall|i: int|
        0 <= i < chars.len() ==> rasterized_as(
            #[trigger] tiles[i],
            chars[i],
            outlines[i],
            b.0,
            b.1,
            alignment,
            background,
        )
}

/// What rasterizing `chars` gives when the font answers `outlines`: no
/// characters, missing outlines (all of them reported), a tile box smaller than
/// 4 x 4 or too large for a buffer are errors; otherwise the tile set.
pub open spec fn rasterization(
    chars: Seq<char>,
    outlines: Seq<Option<GlyphOutline>>,
    font_height: int,
    alignment: CharAlignment,
    background: CharacterBackground,
    r: Result<(Vec<RasterizedChar>, (usize, usize)), AsciiError>,
) -> bool {
    let missing = missing_glyphs(chars, outlines, chars.len() as int);
    let b = spec_char_box(present(outlines), font_height, 0);
    if chars.len() == 0 {
        r == Err::<(Vec<RasterizedChar>, (usize, usize)), AsciiError>(
            AsciiError::FontParse(FontParseErrors::EmptyCharSet),
        )
    } else if missing.len() > 0 {
        &&& r is Err
        &&& r->Err_0 is ManyErrors
        &&& r->Err_0->ManyErrors_0@ == missing
    } else if b.0 < 4 || b.1 < 4 {
        r == Err::<(Vec<RasterizedChar>, (usize, usize)), AsciiError>(
            AsciiError::FontParse(FontParseErrors::FontSizeTooSmall),
        )
    } else if b.0 * b.1 > usize::MAX {
        r == Err::<(Vec<RasterizedChar>, (usize, usize)), AsciiError>(
            AsciiError::FontParse(FontParseErrors::FontSizeTooLarge),
        )
    } else {
        &&& r is Ok
        &&& tiles_of(
            chars,
            present(outlines),
            font_height,
            alignment,
            background,
            r->Ok_0.0@,
            r->Ok_0.1,
        )
    }
}

/// Rasterizing `chars` fails with `e` when the font answers `outlines`.
pub open spec fn rasterization_failure(
    chars: Seq<char>,
    outlines: Seq<Option<GlyphOutline>>,
    font_height: int,
    alignment: CharAlignment,
    background: CharacterBackground,
    e: AsciiError,
) -> bool {
    rasterization(
        chars,
        outlines,
        font_height,
        alignment,
        background,
        Err::<(Vec<RasterizedChar>, (usize, usize)), AsciiError>(e),
    )
}

/// Rasterizing `chars` succeeds when the font answers `outlines`: there are
/// characters, each has an outline, and the tile box is at least 4 x 4 and fits
/// in a buffer.
pub open spec fn rasterizes(chars: Seq<char>, outlines: Seq<Option<GlyphOutline>>, font_height: int) -> bool {
    let b = spec_char_box(present(outlines), font_height, 0);
    &&& chars.len() > 0
    &&& missing_glyphs(chars, outlines, chars.len() as int).len() == 0
    &&& b.0 >= 4
    &&& b.1 >= 4
    &&& b.0 * b.1 <= usize::MAX
}

/// Rasterizes `chars` from the outlines a font gave for them, one per character.
pub fn rasterize_chars(
    chars: &Vec<char>,
    outlines: Vec<Option<GlyphOutline>>,
    font_height: usize,
    alignment: CharAlignment,
    background: CharacterBackground,
) -> (r: Result<(Vec<RasterizedChar>, (usize, usize)), AsciiError>)
    requires
        outlines@.len() == chars@.len(),
    ensures
        rasterization(chars@, outlines@, font_height as int, alignment, background, r),
        r is Ok <==> rasterizes(chars@, outlines@, font_height as int),
        r is Ok ==> r->Ok_0.1.1 >= font_height,
{
    if chars.len() == 0 {
        return Err(AsciiError::FontParse(FontParseErrors::EmptyCharSet));
    }
    let ghost all = outlines@;
    let n = chars.len();
    let mut rest = outlines;
    let mut found: Vec<GlyphOutline> = Vec::new();
    let mut errors: Vec<AsciiError> = Vec::new();
    let mut i: usize = 0;
    while i < n
        invariant
            n == chars@.len(),
            n == all.len(),
            i <= n,
            rest@ == all.subrange(i as int, n as int),
            errors@ == missing_glyphs(chars@, all, i as int),
            errors@.len() == 0 ==> found@ == present(all.subrange(0, i as int)),
        decreases n - i,
    {
        let o = rest.remove(0);
        proof {
            assert(o == all[i as int]);
            assert(all.subrange(0, i + 1).drop_last() =~= all.subrange(0, i as int));
        }
        match o {
            Some(outline) => {
                found.push(outline);
                proof {
                    if errors@.len() == 0 {
                        assert(found@ =~= present(all.subrange(0, i + 1)));
                    }
                }
            },
            None => {
                let ghost before = errors@;
                let e = AsciiError::FontParse(FontParseErrors::GlyphOutlineMissing(chars[i]));
                errors.push(e);
                proof {
                    vstd::seq::axiom_seq_push_len(before, e);
                }
            },
        }
        proof {
            assert(rest@ =~= all.subrange(i + 1, n as int));
        }
        i += 1;
    }
    if errors.len() > 0 {
        return Err(AsciiError::ManyErrors(errors));
    }
    proof {
        assert(all.subrange(0, n as int) =~= all);
    }
    let font_box = char_boxing(&found, font_height, None);
    if font_box.0 < 4 || font_box.1 < 4 {
        return Err(AsciiError::FontParse(FontParseErrors::FontSizeTooSmall));
    }
    proof {
        assert(font_box.0 * font_box.1 <= 0xffff_ffff_ffff_ffff * 0xffff_ffff_ffff_ffff)
            by (nonlinear_arith)
            requires
                font_box.0 <= 0xffff_ffff_ffff_ffff,
                font_box.1 <= 0xffff_ffff_ffff_ffff,
        ;
    }
    if font_box.0 as u128 * font_box.1 as u128 > usize::MAX as u128 {
        return Err(AsciiError::FontParse(FontParseErrors::FontSizeTooLarge));
    }
    let ghost outs = found@;
    let mut tiles: Vec<RasterizedChar> = Vec::new();
    let mut j: usize = 0;
    while j < n
        invariant
            n == chars@.len(),
            n == outs.len(),
            j <= n,
            found@ == outs.subrange(j as int, n as int),
            font_box.0 >= 4,
            font_box.1 >= 4,
            font_box.0 * font_box.1 <= usize::MAX,
            tiles@.len() == j,
            forall|k: int|
                0 <= k < j ==> rasterized_as(
                    #[trigger] tiles@[k],
                    chars@[k],
                    outs[k],
                    font_box.0 as int,
                    font_box.1 as int,
                    alignment,
                    background,
                ),
        decreases n - j,
    {
        let outline = found.remove(0);
        let builder = RasterizedCharBuilder::new(chars[j], outline, alignment, background).rasterize(
            font_box,
        );
        let tile = builder.build();
        match tile {
            Ok(t) => tiles.push(t),
            Err(e) => return Err(e),
        }
        proof {
            assert(found@ =~= outs.subrange(j + 1, n as int));
        }
        j += 1;
    }
    Ok((tiles, font_box))
}

/// Index of the first glyph, among the first `n`, whose adjusted descriptor is
/// closest to `target`.
pub open spec fn first_best(adjusted: Seq<Seq<u32>>, target: Seq<u32>, n: int) -> int
    decreases n,
{
    if n <= 1 {
        0
    } else {
        let b = first_best(adjusted, target, n - 1);
        if sq_dist(adjusted[n - 1], target) < sq_dist(adjusted[b], target) {
            n - 1
        } else {
            b
        }
    }
}

/// Index of the best match for `target`: the nearest glyph, the first one in
/// list order among equally near ones.
pub open spec fn best_index(adjusted: Seq<Seq<u32>>, target: Seq<u32>) -> int {
    first_best(adjusted, target, adjusted.len() as int)
}

/// The best match among the first `n` glyphs is no farther than any of them, and
/// strictly nearer than every glyph before it.
pub proof fn lemma_first_best(adjusted: Seq<Seq<u32>>, target: Seq<u32>, n: int)
    requires
        1 <= n <= adjusted.len(),
    ensures
        0 <= first_best(adjusted, target, n) < n,
        forall|j: int|
            0 <= j < n ==> sq_dist(adjusted[first_best(adjusted, target, n)], target) <= sq_dist(
                #[trigger] adjusted[j],
                target,
            ),
        forall|j: int|
            0 <= j < first_best(adjusted, target, n) ==> sq_dist(
                adjusted[first_best(adjusted, target, n)],
                target,
            ) < sq_dist(#[trigger] adjusted[j], target),
    decreases n,
{
    if n > 1 {
        lemma_first_best(adjusted, target, n - 1);
    }
}

/// Rasterizes `chars` from the font's answer `outlines` and adjusts the
/// descriptors by `distribution`.
fn rasterize_and_adjust(
    chars: &Vec<char>,
    outlines: Vec<Option<GlyphOutline>>,
    font_height: usize,
    alignment: CharAlignment,
    distribution: CharDistributionType,
    background: CharacterBackground,
) -> (r: Result<(Vec<RasterizedChar>, (usize, usize)), AsciiError>)
    requires
        outlines@.len() == chars@.len(),
    ensures
        r is Ok <==> rasterizes(chars@, outlines@, font_height as int),
        r is Err ==> rasterization_failure(
            chars@,
            outlines@,
            font_height as int,
            alignment,
            background,
            r->Err_0,
        ),
        r is Ok ==> {
            let (tiles, b) = r->Ok_0;
            &&& tiles_of(chars@, present(outlines@), font_height as int, alignment, background, tiles@, b)
            &&& tiles@.len() > 0
            &&& b.0 >= 4
            &&& b.1 >= 4
            &&& b.0 * b.1 <= usize::MAX
            &&& forall|i: int|
                0 <= i < tiles@.len() ==> {
                    let t = #[trigger] tiles@[i];
                    &&& valid_squares(t.adjusted_coverage@)
                    &&& t.adjusted_coverage@ == distribution.adjusted(
                        t.coverage@,
                        raw_descriptors(tiles@),
                    )
                }
        },
{
    let ghost answer = outlines@;
    let res = rasterize_chars(chars, outlines, font_height, alignment, background);
    let (mut tiles, char_box) = match res {
        Ok(v) => v,
        Err(e) => return Err(e),
    };
    let ghost before = tiles@;
    let ghost os = present(answer);
    proof {
        assert forall|i: int| 0 <= i < before.len() implies valid_squares(
            #[trigger] before[i].coverage@,
        ) by {
            assert(rasterized_as(
                before[i],
                chars@[i],
                os[i],
                char_box.0 as int,
                char_box.1 as int,
                alignment,
                background,
            ));
        }
    }
    distribution.adjust_coverage(&mut tiles);
    proof {
        let after = tiles@;
        assert(raw_descriptors(after) =~= raw_descriptors(before));
        assert forall|i: int| 0 <= i < after.len() implies rasterized_as(
            #[trigger] after[i],
            chars@[i],
            os[i],
            char_box.0 as int,
            char_box.1 as int,
            alignment,
            background,
        ) by {
            assert(rasterized_as(
                before[i],
                chars@[i],
                os[i],
                char_box.0 as int,
                char_box.1 as int,
                alignment,
                background,
            ));
        }
    }
    Ok((tiles, char_box))
}

/// A rasterized character set: every glyph of `chars` in a tile of the same
/// size, with descriptors adjusted by `distribution`.
pub struct Chars {
    pub chars: Vec<char>,
    pub font_height: usize,
    pub alignment: CharAlignment,
    pub distribution: CharDistributionType,
    pub background: CharacterBackground,
    pub char_box: (usize, usize),
    pub rasterized_chars: Vec<RasterizedChar>,
}

impl Chars {
    pub open spec fn wf(&self) -> bool {
        let tiles = self.rasterized_chars@;
        &&& tiles.len() == self.chars@.len()
        &&& tiles.len() > 0
        &&& self.char_box.0 >= 4
        &&& self.char_box.1 >= 4
        &&& self.char_box.0 * self.char_box.1 <= usize::MAX
        &&& forall|i: int|
            0 <= i < tiles.len() ==> {
                let t = #[trigger] tiles[i];
                &&& t.character == self.chars@[i]
                &&& t.raster_letter.wf()
                &&& t.raster_letter.width == self.char_box.0
                &&& t.raster_letter.height == self.char_box.1
                &&& valid_squares(t.coverage@)
                &&& valid_squares(t.adjusted_coverage@)
                &&& t.adjusted_coverage@ == self.distribution.adjusted(
                    t.coverage@,
                    raw_descriptors(tiles),
                )
            }
    }

    /// The tiles are those of `outlines`, a font's answer for the current
    /// characters at the current height, alignment and background.
    pub open spec fn built_from(&self, outlines: Seq<GlyphOutline>) -> bool {
        tiles_of(
            self.chars@,
            outlines,
            self.font_height as int,
            self.alignment,
            self.background,
            self.rasterized_chars@,
            self.char_box,
        )
    }

    /// The tiles were drawn from some answer of a font.
    pub open spec fn drawn(&self) -> bool {
        exists|outlines: Seq<GlyphOutline>| #[trigger] self.built_from(outlines)
    }

    /// Rasterizes `chars` at `font_height` pixels from `outlines`, the font's
    /// answer for each character in turn (`None` where it has no outline), and
    /// adjusts the descriptors by `distribution`.
    pub fn new(
        chars: Vec<char>,
        outlines: Vec<Option<GlyphOutline>>,
        font_height: usize,
        alignment: CharAlignment,
        distribution: CharDistributionType,
        background: CharacterBackground,
    ) -> (r: Result<Self, AsciiError>)
        requires
            outlines@.len() == chars@.len(),
        ensures
            r is Ok <==> rasterizes(chars@, outlines@, font_height as int),
            r is Err ==> rasterization_failure(
                chars@,
                outlines@,
                font_height as int,
                alignment,
                background,
                r->Err_0,
            ),
            r is Ok ==> {
                let c = r->Ok_0;
                &&& c.wf()
                &&& c.built_from(present(outlines@))
                &&& c.drawn()
                &&& c.chars@ == chars@
                &&& c.font_height == font_height
                &&& c.alignment == alignment
                &&& c.distribution == distribution
                &&& c.background == background
            },
    {
        let ghost answer = outlines@;
        let (rasterized_chars, char_box) = rasterize_and_adjust(
            &chars,
            outlines,
            font_height,
            alignment,
            distribution,
            background,
        )?;
        let r = Chars {
            chars,
            font_height,
            alignment,
            distribution,
            background,
            char_box,
            rasterized_chars,
        };
        proof {
            assert(r.built_from(present(answer)));
        }
        Ok(r)
    }

    /// Re-rasterizes every character from `outlines`, the font's answer for the
    /// current characters and height; on failure nothing changes.
    pub fn re_rasterize(&mut self, outlines: Vec<Option<GlyphOutline>>) -> (r: Result<(), AsciiError>)
        requires
            old(self).wf(),
            outlines@.len() == old(self).chars@.len(),
        ensures
            r is Ok <==> rasterizes(old(self).chars@, outlines@, old(self).font_height as int),
            r is Ok ==> final(self).wf() && final(self).built_from(present(outlines@))
                && final(self).drawn(),
            r is Err ==> *final(self) == *old(self),
            r is Err ==> rasterization_failure(
                old(self).chars@,
                outlines@,
                old(self).font_height as int,
                old(self).alignment,
                old(self).background,
                r->Err_0,
            ),
            final(self).chars == old(self).chars,
            final(self).font_height == old(self).font_height,
            final(self).alignment == old(self).alignment,
            final(self).distribution == old(self).distribution,
            final(self).background == old(self).background,
    {
        let ghost answer = outlines@;
        let (rasterized_chars, char_box) = rasterize_and_adjust(
            &self.chars,
            outlines,
            self.font_height,
            self.alignment,
            self.distribution,
            self.background,
        )?;
        self.rasterized_chars = rasterized_chars;
        self.char_box = char_box;
        proof {
            assert(self.built_from(present(answer)));
        }
        Ok(())
    }

    /// Re-rasterizes the whole set at `font_height` pixels from `outlines`, the
    /// font's answer for the current characters at that height; on failure
    /// nothing changes.
    pub fn change_font_heigh(&mut self, font_height: usize, outlines: Vec<Option<GlyphOutline>>) -> (r:
        Result<(), AsciiError>)
        requires
            old(self).wf(),
            outlines@.len() == old(self).chars@.len(),
        ensures
            r is Ok <==> rasterizes(old(self).chars@, outlines@, font_height as int),
            r is Ok ==> final(self).wf() && final(self).built_from(present(outlines@))
                && final(self).drawn() && final(self).font_height == font_height,
            r is Ok ==> final(self).char_box.1 >= font_height,
            r is Err ==> *final(self) == *old(self),
            r is Err ==> rasterization_failure(
                old(self).chars@,
                outlines@,
                font_height as int,
                old(self).alignment,
                old(self).background,
                r->Err_0,
            ),
            final(self).chars == old(self).chars,
            final(self).alignment == old(self).alignment,
            final(self).distribution == old(self).distribution,
            final(self).background == old(self).background,
    {
        let previous = self.font_height;
        self.font_height = font_height;
        match self.re_rasterize(outlines) {
            Ok(()) => {
                proof {
                    lemma_tile_height_floor(*self);
                }
                Ok(())
            },
            Err(e) => {
                self.font_height = previous;
                Err(e)
            },
        }
    }

    /// Index of the glyph whose adjusted descriptor is nearest to `target`;
    /// among equally near glyphs the first in character-list order.
    pub fn best_match_index(&self, target: &Coverage) -> (r: usize)
        requires
            self.wf(),
            valid_squares(target@),
        ensures
            r == best_index(adjusted_descriptors(self.rasterized_chars@), target@),
            r < self.rasterized_chars@.len(),
    {
        let ghost adj = adjusted_descriptors(self.rasterized_chars@);
        let n = self.rasterized_chars.len();
        let mut best = self.rasterized_chars[0].match_coverage(target);
        let mut best_i: usize = 0;
        let mut i: usize = 1;
        while i < n
            invariant
                self.wf(),
                valid_squares(target@),
                n == self.rasterized_chars@.len(),
                adj == adjusted_descriptors(self.rasterized_chars@),
                1 <= i <= n,
                best_i == first_best(adj, target@, i as int),
                best.distance == sq_dist(adj[best_i as int], target@),
            decreases n - i,
        {
            proof {
                lemma_first_best(adj, target@, i as int);
            }
            let candidate = self.rasterized_chars[i].match_coverage(target);
            if candidate.distance < best.distance {
                best = candidate;
                best_i = i;
            }
            i += 1;
        }
        proof {
            lemma_first_best(adj, target@, n as int);
        }
        best_i
    }

    /// The glyph whose adjusted descriptor is nearest to `target`; among equally
    /// near glyphs the first in character-list order.
    pub fn best_match(&self, target: &Coverage) -> (r: &RasterizedChar)
        requires
            self.wf(),
            valid_squares(target@),
        ensures
            *r == self.rasterized_chars@[best_index(
                adjusted_descriptors(self.rasterized_chars@),
                target@,
            )],
    {
        let i = self.best_match_index(target);
        &self.rasterized_chars[i]
    }

    /// Switches the distribution policy and re-adjusts the descriptors; the
    /// tiles themselves stay as they are.
    pub fn change_distribution(&mut self, distribution: CharDistributionType)
        requires
            old(self).wf(),
        ensures
            final(self).wf(),
            old(self).drawn() ==> final(self).drawn(),
            final(self).distribution == distribution,
            final(self).chars == old(self).chars,
            final(self).font_height == old(self).font_height,
            final(self).alignment == old(self).alignment,
            final(self).background == old(self).background,
            final(self).char_box == old(self).char_box,
            raw_descriptors(final(self).rasterized_chars@) == raw_descriptors(
                old(self).rasterized_chars@,
            ),
            final(self).rasterized_chars@.len() == old(self).rasterized_chars@.len(),
            forall|i: int|
                0 <= i < final(self).rasterized_chars@.len() ==> {
                    let t = #[trigger] final(self).rasterized_chars@[i];
                    let o = old(self).rasterized_chars@[i];
                    &&& t.character == o.character
                    &&& t.raster_letter == o.raster_letter
                    &&& t.size == o.size
                    &&& t.alignment == o.alignment
                    &&& t.coverage == o.coverage
                    &&& t.adjusted_coverage@ == distribution.adjusted(
                        o.coverage@,
                        raw_descriptors(old(self).rasterized_chars@),
                    )
                },
    {
        let ghost before = self.rasterized_chars@;
        self.distribution = distribution;
        self.distribution.adjust_coverage(&mut self.rasterized_chars);
        proof {
            let after = self.rasterized_chars@;
            assert(raw_descriptors(after) =~= raw_descriptors(before));
            if old(self).drawn() {
                let outlines = choose|outlines: Seq<GlyphOutline>|
                    #[trigger] tiles_of(
                        old(self).chars@,
                        outlines,
                        old(self).font_height as int,
                        old(self).alignment,
                        old(self).background,
                        before,
                        old(self).char_box,
                    );
                assert forall|i: int| 0 <= i < after.len() implies rasterized_as(
                    #[trigger] after[i],
                    self.chars@[i],
                    outlines[i],
                    self.char_box.0 as int,
                    self.char_box.1 as int,
                    self.alignment,
                    self.background,
                ) by {
                    assert(rasterized_as(
                        before[i],
                        self.chars@[i],
                        outlines[i],
                        self.char_box.0 as int,
                        self.char_box.1 as int,
                        self.alignment,
                        self.background,
                    ));
                }
                assert(tiles_of(
                    self.chars@,
                    outlines,
                    self.font_height as int,
                    self.alignment,
                    self.background,
                    after,
                    self.char_box,
                ));
                assert(self.built_from(outlines));
            }
        }
    }

    /// The tile box shared by every glyph.
    pub fn char_box(&self) -> (r: (usize, usize))
        ensures
            r == self.char_box,
    {
        self.char_box
    }
}

/// Among glyphs whose adjusted descriptors are identical, the best match is
/// never one that comes after another of them in the character list.
pub proof fn lemma_best_match_prefers_first(adjusted: Seq<Seq<u32>>, target: Seq<u32>, i: int, j: int)
    requires
        0 <= i < j < adjusted.len(),
        adjusted[i] == adjusted[j],
    ensures
        best_index(adjusted, target) != j,
{
    lemma_first_best(adjusted, target, adjusted.len() as int);
    if best_index(adjusted, target) == j {
        assert(sq_dist(adjusted[j], target) < sq_dist(adjusted[i], target));
    }
}

/// The tile box depends on nothing but the ink sizes, the font height and the
/// minimum width: two outline lists with the same ink sizes give the same box.
pub proof fn lemma_char_box_deterministic(
    a: Seq<GlyphOutline>,
    b: Seq<GlyphOutline>,
    font_height: int,
    min_width: int,
)
    requires
        a.len() == b.len(),
        forall|i: int|
            0 <= i < a.len() ==> #[trigger] a[i].ink_width() == b[i].ink_width() && a[i].ink_height()
                == b[i].ink_height(),
    ensures
        spec_char_box(a, font_height, min_width) == spec_char_box(b, font_height, min_width),
{
    lemma_extremes_agree(a, b);
}

proof fn lemma_extremes_agree(a: Seq<GlyphOutline>, b: Seq<GlyphOutline>)
    requires
        a.len() == b.len(),
        forall|i: int|
            0 <= i < a.len() ==> #[trigger] a[i].ink_width() == b[i].ink_width() && a[i].ink_height()
                == b[i].ink_height(),
    ensures
        widest(a) == widest(b),
        tallest(a) == tallest(b),
    decreases a.len(),
{
    if a.len() > 0 {
        let (da, db) = (a.drop_last(), b.drop_last());
        assert forall|i: int| 0 <= i < da.len() implies #[trigger] da[i].ink_width() == db[i].ink_width()
            && da[i].ink_height() == db[i].ink_height() by {
            assert(da[i] == a[i] && db[i] == b[i]);
        }
        lemma_extremes_agree(da, db);
        assert(a.last() == a[a.len() - 1]);
        assert(b.last() == b[b.len() - 1]);
    }
}

/// A rasterized set's tiles are never lower than the font height it was
/// rasterized at.
pub proof fn lemma_tile_height_floor(set: Chars)
    requires
        set.drawn(),
    ensures
        set.char_box.1 >= set.font_height,
{
    let outlines = choose|outlines: Seq<GlyphOutline>|
        #[trigger] tiles_of(
            set.chars@,
            outlines,
            set.font_height as int,
            set.alignment,
            set.background,
            set.rasterized_chars@,
            set.char_box,
        );
}

/// The tiles of a character set depend on nothing but the characters, the
/// font's answer, the height, the alignment and the background: two tile sets
/// drawn from the same answer are equal tile by tile.
pub proof fn lemma_tiles_determined(
    chars: Seq<char>,
    outlines: Seq<GlyphOutline>,
    font_height: int,
    alignment: CharAlignment,
    background: CharacterBackground,
    first: Seq<RasterizedChar>,
    first_box: (usize, usize),
    second: Seq<RasterizedChar>,
    second_box: (usize, usize),
)
    requires
        tiles_of(chars, outlines, font_height, alignment, background, first, first_box),
        tiles_of(chars, outlines, font_height, alignment, background, second, second_box),
    ensures
        first_box == second_box,
        first.len() == second.len(),
        forall|i: int|
            0 <= i < first.len() ==> {
                let a = #[trigger] first[i];
                let b = second[i];
                &&& a.character == b.character
                &&& a.raster_letter.width == b.raster_letter.width
                &&& a.raster_letter.height == b.raster_letter.height
                &&& a.raster_letter.pixels@ == b.raster_letter.pixels@
                &&& a.size == b.size
                &&& a.alignment == b.alignment
                &&& a.coverage@ == b.coverage@
            },
{
    assert forall|i: int| 0 <= i < first.len() implies {
        let a = #[trigger] first[i];
        let b = second[i];
        &&& a.character == b.character
        &&& a.raster_letter.width == b.raster_letter.width
        &&& a.raster_letter.height == b.raster_letter.height
        &&& a.raster_letter.pixels@ == b.raster_letter.pixels@
        &&& a.size == b.size
        &&& a.alignment == b.alignment
        &&& a.coverage@ == b.coverage@
    } by {
        let bx = spec_char_box(outlines, font_height, 0);
        assert(rasterized_as(first[i], chars[i], outlines[i], bx.0, bx.1, alignment, background));
        assert(rasterized_as(second[i], chars[i], outlines[i], bx.0, bx.1, alignment, background));
    }
}

/// Two character sets rasterized from the same font answer with the same
/// settings are equal: same tile box, and tile by tile the same character,
/// raster, raw and adjusted descriptors.
pub proof fn lemma_sets_determined(first: Chars, second: Chars, outlines: Seq<GlyphOutline>)
    requires
        first.wf(),
        second.wf(),
        first.built_from(outlines),
        second.built_from(outlines),
        first.chars@ == second.chars@,
        first.font_height == second.font_height,
        first.alignment == second.alignment,
        first.background == second.background,
        first.distribution == second.distribution,
    ensures
        first.char_box == second.char_box,
        first.rasterized_chars@.len() == second.rasterized_chars@.len(),
        forall|i: int|
            0 <= i < first.rasterized_chars@.len() ==> {
                let a = #[trigger] first.rasterized_chars@[i];
                let b = second.rasterized_chars@[i];
                &&& a.character == b.character
                &&& a.raster_letter.width == b.raster_letter.width
                &&& a.raster_letter.height == b.raster_letter.height
                &&& a.raster_letter.pixels@ == b.raster_letter.pixels@
                &&& a.size == b.size
                &&& a.alignment == b.alignment
                &&& a.coverage@ == b.coverage@
                &&& a.adjusted_coverage@ == b.adjusted_coverage@
            },
{
    let t1 = first.rasterized_chars@;
    let t2 = second.rasterized_chars@;
    lemma_tiles_determined(
        first.chars@,
        outlines,
        first.font_height as int,
        first.alignment,
        first.background,
        t1,
        first.char_box,
        t2,
        second.char_box,
    );
    assert(raw_descriptors(t1) =~= raw_descriptors(t2)) by {
        assert forall|i: int| 0 <= i < t1.len() implies raw_descriptors(t1)[i] == raw_descriptors(
            t2,
        )[i] by {
            assert(t1[i].coverage@ == t2[i].coverage@);
        }
    }
    assert forall|i: int| 0 <= i < t1.len() implies #[trigger] t1[i].adjusted_coverage@
        == t2[i].adjusted_coverage@ by {
        assert(t1[i].coverage@ == t2[i].coverage@);
    }
}

} // verus!
