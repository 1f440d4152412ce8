//! The conversion pipeline: configure a character set, cut the image into
//! cells, pick the best glyph for every cell and composite the tinted glyphs.
use vstd::prelude::*;

use crate::chars::{
    best_index, present, rasterization_failure, rasterizes, Chars, GlyphOutline, RasterizedChar,
};
use crate::coverage::{region_squares, seq_sum, valid_squares};
use crate::error::AsciiError;
use crate::font_handler::{
    adjusted_descriptors, raw_descriptors, CharAlignment, CharDistributionType, CharacterBackground,
};
use crate::grouped_image::{cell_color, GroupedImage};
use crate::raster::{
    get_adjusted_size, lemma_pixel_index_in_bounds, lemma_whole_tiles_bound, luma_pixels,
    pixel_index, whole_tiles, Rgb, RgbRaster,
};

verus! {

/// Number of entries of a shading table: one per (tint, coverage) byte pair.
pub const SHADE_TABLE_LEN: usize = 65536;

/// The channel value drawn for a tint channel and a glyph coverage byte, for
/// every pair of bytes: entry `tint * 256 + coverage`.
#[derive(Debug)]
pub struct ShadeTable {
    table: Vec<u8>,
}

impl View for ShadeTable {
    type V = Seq<u8>;

    closed spec fn view(&self) -> Seq<u8> {
        self.table@
    }
}

/// The entry of `table` for `tint` and `coverage`.
pub open spec fn shade_of(table: Seq<u8>, tint: u8, coverage: u8) -> u8 {
    table[tint * 256 + coverage]
}

impl ShadeTable {
    #[verifier::type_invariant]
    spec fn inv(&self) -> bool {
        self.table@.len() == SHADE_TABLE_LEN
    }

    /// A table from its 65536 entries; `None` for any other count.
    pub fn new(table: Vec<u8>) -> (r: Option<ShadeTable>)
        ensures
            (table@.len() == SHADE_TABLE_LEN) <==> r is Some,
            r is Some ==> r->Some_0@ == table@,
    {
        if table.len() == SHADE_TABLE_LEN {
            Some(ShadeTable { table })
        } else {
            None
        }
    }

    pub fn get(&self, tint: u8, coverage: u8) -> (r: u8)
        ensures
            r == shade_of(self@, tint, coverage),
    {
        proof {
            use_type_invariant(self);
        }
        self.table[tint as usize * 256 + coverage as usize]
    }
}

/// The descriptor of cell `(row, col)` of `image` cut into `bw` x `bh` tiles.
pub open spec fn cell_squares(image: RgbRaster, bw: int, bh: int, row: int, col: int) -> Seq<u32> {
    region_squares(luma_pixels(image), image.width as int, col * bw, row * bh, bw, bh)
}

/// Pixel `(x, y)` of the converted image: the pixel at the same place in the
/// best-matching glyph of the cell holding `(x, y)`, shaded by the cell's tint.
pub open spec fn rendered_pixel(
    tiles: Seq<RasterizedChar>,
    bw: int,
    bh: int,
    image: RgbRaster,
    table: Seq<u8>,
    x: int,
    y: int,
) -> Rgb {
    let row = y / bh;
    let col = x / bw;
    let squares = cell_squares(image, bw, bh, row, col);
    let color = cell_color(image, col * bw, row * bh, bw, bh, seq_sum(squares, 16) / 16);
    let tile = tiles[best_index(adjusted_descriptors(tiles), squares)];
    let coverage = tile.raster_letter.pixels@[pixel_index(bw, x % bw, y % bh)];
    Rgb {
        r: shade_of(table, color.r, coverage),
        g: shade_of(table, color.g, coverage),
        b: shade_of(table, color.b, coverage),
    }
}

/// The converted image of `image` with tiles `tiles` of `bw` x `bh`, row-major;
/// it covers the whole tiles of `image`.
pub open spec fn rendered(tiles: Seq<RasterizedChar>, bw: int, bh: int, image: RgbRaster, table: Seq<u8>) -> Seq<Rgb> {
    let aw = whole_tiles(image.width as int, bw);
    let ah = whole_tiles(image.height as int, bh);
    Seq::new((aw * ah) as nat, |p: int| rendered_pixel(tiles, bw, bh, image, table, p % aw, p / aw))
}

/// The source image with its configured character set, and the converted
/// image once `convert` has run.
pub struct ImageBuilder {
    pub chars: Chars,
    pub image: RgbRaster,
    pub asciified_image: Option<RgbRaster>,
}

impl ImageBuilder {
    pub open spec fn wf(&self) -> bool {
        self.chars.wf() && self.image.wf()
    }

    /// `out` is the conversion of `image` with the character set `chars`.
    pub open spec fn converted(chars: Chars, image: RgbRaster, table: Seq<u8>, out: RgbRaster) -> bool {
        let (bw, bh) = chars.char_box;
        &&& out.wf()
        &&& out.width == whole_tiles(image.width as int, bw as int)
        &&& out.height == whole_tiles(image.height as int, bh as int)
        &&& out.pixels@ == rendered(chars.rasterized_chars@, bw as int, bh as int, image, table)
    }

    /// Re-rasterizes the character set at `new_height` pixels from `outlines`,
    /// the font's answer for its characters at that height.
    pub fn char_height(&mut self, new_height: usize, outlines: Vec<Option<GlyphOutline>>) -> (r:
        Result<(), AsciiError>)
        requires
            old(self).wf(),
            outlines@.len() == old(self).chars.chars@.len(),
        ensures
            final(self).wf(),
            final(self).image == old(self).image,
            final(self).asciified_image == old(self).asciified_image,
            r is Ok <==> rasterizes(old(self).chars.chars@, outlines@, new_height as int),
            r is Ok ==> final(self).chars.font_height == new_height && final(self).chars.built_from(
                present(outlines@),
            ),
            r is Ok ==> final(self).chars.char_box.1 >= new_height,
            r is Err ==> final(self).chars == old(self).chars,
            r is Err ==> rasterization_failure(
                old(self).chars.chars@,
                outlines@,
                new_height as int,
                old(self).chars.alignment,
                old(self).chars.background,
                r->Err_0,
            ),
            final(self).chars.chars == old(self).chars.chars,
            final(self).chars.alignment == old(self).chars.alignment,
            final(self).chars.distribution == old(self).chars.distribution,
            final(self).chars.background == old(self).chars.background,
    {
        self.chars.change_font_heigh(new_height, outlines)
    }

    /// Switches the distribution policy of the character set.
    pub fn distribution_type(&mut self, new_distribution: CharDistributionType)
        requires
            old(self).wf(),
        ensures
            final(self).wf(),
            final(self).chars.distribution == new_distribution,
            final(self).chars.chars == old(self).chars.chars,
            final(self).chars.char_box == old(self).chars.char_box,
            final(self).chars.font_height == old(self).chars.font_height,
            final(self).chars.alignment == old(self).chars.alignment,
            final(self).chars.background == old(self).chars.background,
            old(self).chars.drawn() ==> final(self).chars.drawn(),
            raw_descriptors(final(self).chars.rasterized_chars@) == raw_descriptors(
                old(self).chars.rasterized_chars@,
            ),
            final(self).chars.rasterized_chars@.len() == old(self).chars.rasterized_chars@.len(),
            forall|i: int|
                0 <= i < final(self).chars.rasterized_chars@.len() ==> {
                    let t = #[trigger] final(self).chars.rasterized_chars@[i];
                    let o = old(self).chars.rasterized_chars@[i];
                    &&& t.character == o.character
                    &&& t.raster_letter == o.raster_letter
                    &&& t.size == o.size
                    &&& t.alignment == o.alignment
                    &&& t.coverage == o.coverage
                    &&& t.adjusted_coverage@ == new_distribution.adjusted(
                        o.coverage@,
                        raw_descriptors(old(self).chars.rasterized_chars@),
                    )
                },
            final(self).image == old(self).image,
            final(self).asciified_image == old(self).asciified_image,
    {
        self.chars.change_distribution(new_distribution);
    }

    /// Converts the image: every whole tile of it is replaced by the best
    /// matching glyph, shaded by the tile's tint through `shade`.
    pub fn convert(&mut self, shade: &ShadeTable) -> (r: Result<(), AsciiError>)
        requires
            old(self).wf(),
        ensures
            r is Ok,
            final(self).chars == old(self).chars,
            final(self).image == old(self).image,
            final(self).asciified_image is Some,
            Self::converted(
                old(self).chars,
                old(self).image,
                shade@,
                final(self).asciified_image->Some_0,
            ),
    {
        let (bw, bh) = self.chars.char_box();
        let grouped = GroupedImage::new(bw, bh, &self.image)?;
        let (aw, ah) = get_adjusted_size(self.image.width, self.image.height, bw, bh);
        let ghost tiles = self.chars.rasterized_chars@;
        let ghost adj = adjusted_descriptors(tiles);
        let ghost image = self.image;
        let ghost table = shade@;
        let rows = grouped.groups.len();
        let cols = self.image.width / bw;
        proof {
            lemma_whole_tiles_bound(image.width as int, bw as int);
            lemma_whole_tiles_bound(image.height as int, bh as int);
        }
        let mut matches: Vec<Vec<usize>> = Vec::new();
        let mut r: usize = 0;
        while r < rows
            invariant
                self.wf(),
                self.image == image,
                self.chars.rasterized_chars@ == tiles,
                adj == adjusted_descriptors(tiles),
                grouped.group_width == bw,
                grouped.group_height == bh,
                bw == self.chars.char_box.0,
                bh == self.chars.char_box.1,
                grouped.grid_of(image),
                rows == grouped.groups@.len(),
                cols == image.width as int / bw as int,
                r <= rows,
                matches@.len() == r,
                forall|i: int| 0 <= i < r ==> #[trigger] matches@[i]@.len() == cols,
                forall|i: int, c: int|
                    0 <= i < r && 0 <= c < cols ==> #[trigger] matches@[i]@[c] == best_index(
                        adj,
                        grouped.groups@[i]@[c].coverage@,
                    ) && matches@[i]@[c] < tiles.len(),
            decreases rows - r,
        {
            let mut row: Vec<usize> = Vec::new();
            let mut c: usize = 0;
            while c < cols
                invariant
                    self.wf(),
                    self.chars.rasterized_chars@ == tiles,
                    adj == adjusted_descriptors(tiles),
                    grouped.group_width == bw,
                    grouped.group_height == bh,
                    grouped.grid_of(image),
                    rows == grouped.groups@.len(),
                    cols == image.width as int / bw as int,
                    r < rows,
                    c <= cols,
                    row@.len() == c,
                    forall|k: int|
                        0 <= k < c ==> #[trigger] row@[k] == best_index(
                            adj,
                            grouped.groups@[r as int]@[k].coverage@,
                        ) && row@[k] < tiles.len(),
                decreases cols - c,
            {
                proof {
                    assert(grouped.rectangular(cols as int));
                    assert(grouped.groups@[r as int]@.len() == cols);
                    assert(valid_squares(grouped.groups@[r as int]@[c as int].coverage@));
                }
                let best = self.chars.best_match_index(&grouped.groups[r][c].coverage);
                row.push(best);
                c += 1;
            }
            matches.push(row);
            r += 1;
        }
        proof {
            assert(rows == ah as int / bh as int) by {
                assert(rows == image.height as int / bh as int);
                vstd::arithmetic::div_mod::lemma_div_multiples_vanish(rows as int, bh as int);
                assert(rows * bh == bh * rows) by (nonlinear_arith);
            }
            assert(cols == aw as int / bw as int) by {
                vstd::arithmetic::div_mod::lemma_div_multiples_vanish(cols as int, bw as int);
                assert(cols * bw == bw * cols) by (nonlinear_arith);
            }
            assert(aw * ah <= image.width * image.height) by (nonlinear_arith)
                requires
                    aw <= image.width,
                    ah <= image.height,
            ;
        }
        // the buffer length is a usize, which bounds the pixel count
        let _pixel_count = self.image.pixels.len();
        let ghost target = rendered(tiles, bw as int, bh as int, image, table);
        let mut pixels: Vec<Rgb> = Vec::new();
        let mut y: usize = 0;
        while y < ah
            invariant
                self.wf(),
                self.image == image,
                self.chars.rasterized_chars@ == tiles,
                adj == adjusted_descriptors(tiles),
                table == shade@,
                bw == self.chars.char_box.0,
                bh == self.chars.char_box.1,
                grouped.group_width == bw,
                grouped.group_height == bh,
                grouped.grid_of(image),
                rows == grouped.groups@.len(),
                cols == image.width as int / bw as int,
                aw == whole_tiles(image.width as int, bw as int),
                ah == whole_tiles(image.height as int, bh as int),
                rows == ah as int / bh as int,
                cols == aw as int / bw as int,
                aw * ah <= usize::MAX,
                matches@.len() == rows,
                forall|i: int| 0 <= i < rows ==> #[trigger] matches@[i]@.len() == cols,
                forall|i: int, c: int|
                    0 <= i < rows && 0 <= c < cols ==> #[trigger] matches@[i]@[c] == best_index(
                        adj,
                        grouped.groups@[i]@[c].coverage@,
                    ) && matches@[i]@[c] < tiles.len(),
                target == rendered(tiles, bw as int, bh as int, image, table),
                y <= ah,
                pixels@.len() == y * aw,
                forall|i: int| 0 <= i < pixels@.len() ==> pixels@[i] == target[i],
            decreases ah - y,
        {
            let mut x: usize = 0;
            while x < aw
                invariant
                    self.wf(),
                    self.image == image,
                    self.chars.rasterized_chars@ == tiles,
                    adj == adjusted_descriptors(tiles),
                    table == shade@,
                    bw == self.chars.char_box.0,
                    bh == self.chars.char_box.1,
                    grouped.group_width == bw,
                    grouped.group_height == bh,
                    grouped.grid_of(image),
                    rows == grouped.groups@.len(),
                    cols == image.width as int / bw as int,
                    aw == whole_tiles(image.width as int, bw as int),
                    ah == whole_tiles(image.height as int, bh as int),
                    rows == ah as int / bh as int,
                    cols == aw as int / bw as int,
                    aw * ah <= usize::MAX,
                    matches@.len() == rows,
                    forall|i: int| 0 <= i < rows ==> #[trigger] matches@[i]@.len() == cols,
                    forall|i: int, c: int|
                        0 <= i < rows && 0 <= c < cols ==> #[trigger] matches@[i]@[c] == best_index(
                            adj,
                            grouped.groups@[i]@[c].coverage@,
                        ) && matches@[i]@[c] < tiles.len(),
                    target == rendered(tiles, bw as int, bh as int, image, table),
                    y < ah,
                    x <= aw,
                    pixels@.len() == y * aw + x,
                    forall|i: int| 0 <= i < pixels@.len() ==> pixels@[i] == target[i],
                decreases aw - x,
            {
                let row = y / bh;
                let col = x / bw;
                proof {
                    lemma_row_in_grid(y as int, bh as int, rows as int, ah as int);
                    lemma_row_in_grid(x as int, bw as int, cols as int, aw as int);
                    lemma_pixel_index_in_bounds(aw as int, ah as int, x as int, y as int);
                    vstd::arithmetic::div_mod::lemma_fundamental_div_mod_converse(
                        y * aw + x,
                        aw as int,
                        y as int,
                        x as int,
                    );
                    assert(grouped.rectangular(cols as int));
                    assert(grouped.groups@[row as int]@.len() == cols);
                }
                let cell = &grouped.groups[row][col];
                let best = matches[row][col];
                let tile = &self.chars.rasterized_chars[best];
                let coverage = tile.raster_letter.get(x % bw, y % bh);
                let v = Rgb {
                    r: shade.get(cell.color.r, coverage),
                    g: shade.get(cell.color.g, coverage),
                    b: shade.get(cell.color.b, coverage),
                };
                proof {
                    assert(v == target[y * aw + x]);
                }
                pixels.push(v);
                x += 1;
            }
            proof {
                assert((y + 1) * aw == y * aw + aw) by (nonlinear_arith);
            }
            y += 1;
        }
        proof {
            assert(ah * aw == aw * ah) by (nonlinear_arith);
            assert(pixels@ =~= target);
        }
        self.asciified_image = Some(RgbRaster { width: aw, height: ah, pixels });
        Ok(())
    }

    /// The converted image, if `convert` has run.
    pub fn get_image(&self) -> (r: Option<&RgbRaster>)
        ensures
            r is Some <==> self.asciified_image is Some,
            r is Some ==> *r->Some_0 == self.asciified_image->Some_0,
    {
        match &self.asciified_image {
            Some(image) => Some(image),
            None => None,
        }
    }

    /// The converted image to be saved; `ConvertNotCalled` before `convert` has run.
    pub fn output_image(&self) -> (r: Result<&RgbRaster, AsciiError>)
        ensures
            r is Ok <==> self.asciified_image is Some,
            r is Ok ==> *r->Ok_0 == self.asciified_image->Some_0,
            r is Err ==> r->Err_0 == AsciiError::ConvertNotCalled,
    {
        match &self.asciified_image {
            Some(image) => Ok(image),
            None => Err(AsciiError::ConvertNotCalled),
        }
    }
}

/// A coordinate below `count` whole tiles of `tile` lies in a tile below `count`.
proof fn lemma_row_in_grid(v: int, tile: int, count: int, covered: int)
    requires
        tile > 0,
        0 <= v < covered,
        count == covered / tile,
        covered == whole_tiles(covered, tile),
    ensures
        0 <= v / tile < count,
        0 <= v % tile < tile,
{
    vstd::arithmetic::div_mod::lemma_div_is_ordered(v, covered, tile);
    vstd::arithmetic::div_mod::lemma_div_pos_is_pos(v, tile);
    vstd::arithmetic::div_mod::lemma_mod_bound(v, tile);
    vstd::arithmetic::div_mod::lemma_fundamental_div_mod(v, tile);
    let q = v / tile;
    assert(q < count) by (nonlinear_arith)
        requires
            v == tile * q + v % tile,
            0 <= v % tile,
            v < covered,
            covered == count * tile,
            tile > 0,
    ;
}

/// Converting twice with the same character set, image and shading gives the
/// same image.
pub proof fn lemma_convert_is_stable(
    chars: Chars,
    image: RgbRaster,
    table: Seq<u8>,
    first: RgbRaster,
    second: RgbRaster,
)
    requires
        ImageBuilder::converted(chars, image, table, first),
        ImageBuilder::converted(chars, image, table, second),
    ensures
        first.width == second.width,
        first.height == second.height,
        first.pixels@ == second.pixels@,
{
}

/// The font height a builder starts with.
pub const DEFAULT_FONT_HEIGHT: usize = 12;

/// The characters a builder starts with: mathematical operators and relations.
pub open spec fn default_char_list() -> Seq<char> {
    seq![
        '\u{2207}', '\u{2215}', '\u{2211}', '\u{220f}', '\u{2207}', '\u{2206}',
        '\u{2203}', '\u{222b}', '\u{222c}', '\u{222e}', '\u{224b}', '\u{228b}',
        '\u{2282}', '\u{2283}', '\u{22aa}', '\u{22a9}', '\u{2238}', '\u{2237}',
        '\u{2236}', '\u{2236}', '\u{2235}', '\u{2234}', '\u{223e}', '\u{22a2}',
        '\u{22af}', '\u{22ae}', '\u{22ad}', '\u{22ac}', '\u{22ab}', '\u{22aa}',
        '\u{22a9}', '\u{22a8}', '\u{22a7}', '\u{22a6}', '\u{22a5}', '\u{22a4}',
        '\u{22a3}',
    ]
}

/// The characters a builder starts with.
pub fn default_chars() -> (r: Vec<char>)
    ensures
        r@ == default_char_list(),
{
    let r = vec![
            '\u{2207}', '\u{2215}', '\u{2211}', '\u{220f}', '\u{2207}', '\u{2206}',
            '\u{2203}', '\u{222b}', '\u{222c}', '\u{222e}', '\u{224b}', '\u{228b}',
            '\u{2282}', '\u{2283}', '\u{22aa}', '\u{22a9}', '\u{2238}', '\u{2237}',
            '\u{2236}', '\u{2236}', '\u{2235}', '\u{2234}', '\u{223e}', '\u{22a2}',
            '\u{22af}', '\u{22ae}', '\u{22ad}', '\u{22ac}', '\u{22ab}', '\u{22aa}',
            '\u{22a9}', '\u{22a8}', '\u{22a7}', '\u{22a6}', '\u{22a5}', '\u{22a4}',
            '\u{22a3}',
    ];
    proof {
        assert(r@ =~= default_char_list());
    }
    r
}

/// The settings a character set is built from.
pub struct FontBuilder {
    pub chars: Vec<char>,
    pub font_height: usize,
    pub alignment: CharAlignment,
    pub distribution: CharDistributionType,
    pub background: CharacterBackground,
}

impl FontBuilder {
    /// The default settings: the default characters at 12 pixels, centred, on
    /// a black background, with `ExactAdjustedBlacks`.
    pub fn new() -> (r: Self)
        ensures
            r.chars@ == default_char_list(),
            r.font_height == DEFAULT_FONT_HEIGHT,
            r.alignment == CharAlignment::Center,
            r.distribution == CharDistributionType::ExactAdjustedBlacks,
            r.background == CharacterBackground::Black,
    {
        FontBuilder {
            chars: default_chars(),
            font_height: DEFAULT_FONT_HEIGHT,
            alignment: CharAlignment::default(),
            distribution: CharDistributionType::default(),
            background: CharacterBackground::default(),
        }
    }

    pub fn font_height(&mut self, font_height: usize)
        ensures
            final(self).font_height == font_height,
            final(self).chars == old(self).chars,
            final(self).alignment == old(self).alignment,
            final(self).distribution == old(self).distribution,
            final(self).background == old(self).background,
    {
        self.font_height = font_height;
    }

    /// Appends the characters of `chars` to the character list.
    pub fn add_chars(&mut self, chars: String)
        ensures
            final(self).chars@ == old(self).chars@ + chars@,
            final(self).font_height == old(self).font_height,
            final(self).alignment == old(self).alignment,
            final(self).distribution == old(self).distribution,
            final(self).background == old(self).background,
    {
        let ghost start = self.chars@;
        for c in it: chars.as_str().chars()
            invariant
                self.chars@ == start + it.seq().subrange(0, it.index() as int),
                self.font_height == old(self).font_height,
                self.alignment == old(self).alignment,
                self.distribution == old(self).distribution,
                self.background == old(self).background,
        {
            proof {
                assert(start + it.seq().subrange(0, it.index() + 1) =~= (start + it.seq().subrange(
                    0,
                    it.index() as int,
                )).push(c));
            }
            self.chars.push(c);
        }
    }

    /// Replaces the character list by the characters of `chars`.
    pub fn set_chars(&mut self, chars: String)
        ensures
            final(self).chars@ == chars@,
            final(self).font_height == old(self).font_height,
            final(self).alignment == old(self).alignment,
            final(self).distribution == old(self).distribution,
            final(self).background == old(self).background,
    {
        self.chars.clear();
        self.add_chars(chars);
        proof {
            assert(self.chars@ =~= chars@);
        }
    }

    pub fn alignment(&mut self, alignment: CharAlignment)
        ensures
            final(self).alignment == alignment,
            final(self).chars == old(self).chars,
            final(self).font_height == old(self).font_height,
            final(self).distribution == old(self).distribution,
            final(self).background == old(self).background,
    {
        self.alignment = alignment;
    }

    pub fn distribution(&mut self, distribution: CharDistributionType)
        ensures
            final(self).distribution == distribution,
            final(self).chars == old(self).chars,
            final(self).font_height == old(self).font_height,
            final(self).alignment == old(self).alignment,
            final(self).background == old(self).background,
    {
        self.distribution = distribution;
    }

    pub fn background(&mut self, background: CharacterBackground)
        ensures
            final(self).background == background,
            final(self).chars == old(self).chars,
            final(self).font_height == old(self).font_height,
            final(self).alignment == old(self).alignment,
            final(self).distribution == old(self).distribution,
    {
        self.background = background;
    }

    /// Takes over every setting of `builder`.
    pub fn copy(&mut self, builder: &FontBuilder)
        ensures
            final(self).chars@ == builder.chars@,
            final(self).font_height == builder.font_height,
            final(self).alignment == builder.alignment,
            final(self).distribution == builder.distribution,
            final(self).background == builder.background,
    {
        self.chars = copy_chars(&builder.chars);
        self.font_height = builder.font_height;
        self.alignment = builder.alignment;
        self.distribution = builder.distribution;
        self.background = builder.background;
    }

    /// Rasterizes the configured character set from `outlines`, the font's
    /// answer for the configured characters and height, and pairs it with `image`.
    pub fn build(&mut self, image: RgbRaster, outlines: Vec<Option<GlyphOutline>>) -> (r: Result<
        ImageBuilder,
        AsciiError,
    >)
        requires
            image.wf(),
            outlines@.len() == old(self).chars@.len(),
        ensures
            *final(self) == *old(self),
            r is Ok <==> rasterizes(old(self).chars@, outlines@, old(self).font_height as int),
            r is Err ==> rasterization_failure(
                old(self).chars@,
                outlines@,
                old(self).font_height as int,
                old(self).alignment,
                old(self).background,
                r->Err_0,
            ),
            r is Ok ==> {
                let b = r->Ok_0;
                &&& b.wf()
                &&& b.chars.built_from(present(outlines@))
                &&& b.chars.drawn()
                &&& b.chars.chars@ == old(self).chars@
                &&& b.chars.font_height == old(self).font_height
                &&& b.chars.alignment == old(self).alignment
                &&& b.chars.distribution == old(self).distribution
                &&& b.chars.background == old(self).background
                &&& b.image == image
                &&& b.asciified_image is None
            },
    {
        let chars = Chars::new(
            copy_chars(&self.chars),
            outlines,
            self.font_height,
            self.alignment,
            self.distribution,
            self.background,
        )?;
        Ok(ImageBuilder { chars, image, asciified_image: None })
    }
}

/// A copy of a character list.
fn copy_chars(chars: &Vec<char>) -> (r: Vec<char>)
    ensures
        r@ == chars@,
{
    let mut r: Vec<char> = Vec::with_capacity(chars.len());
    let mut i: usize = 0;
    while i < chars.len()
        invariant
            i <= chars@.len(),
            r@ == chars@.subrange(0, i as int),
        decreases chars@.len() - i,
    {
        r.push(chars[i]);
        proof {
            assert(r@ =~= chars@.subrange(0, i + 1));
        }
        i += 1;
    }
    proof {
        assert(r@ =~= chars@);
    }
    r
}

/// A loaded source image, waiting for its character set.
pub struct Asciifier {
    pub image: RgbRaster,
}

impl Asciifier {
    pub fn new(image: RgbRaster) -> (r: Self)
        ensures
            r.image == image,
    {
        Asciifier { image }
    }

    /// Builds the character set configured in `font_builder` for this image
    /// from `outlines`, the font's answer for the configured characters and
    /// height.
    pub fn font(self, mut font_builder: FontBuilder, outlines: Vec<Option<GlyphOutline>>) -> (r:
        Result<ImageBuilder, AsciiError>)
        requires
            self.image.wf(),
            outlines@.len() == font_builder.chars@.len(),
        ensures
            r is Ok <==> rasterizes(font_builder.chars@, outlines@, font_builder.font_height as int),
            r is Err ==> rasterization_failure(
                font_builder.chars@,
                outlines@,
                font_builder.font_height as int,
                font_builder.alignment,
                font_builder.background,
                r->Err_0,
            ),
            r is Ok ==> {
                let b = r->Ok_0;
                &&& b.wf()
                &&& b.chars.built_from(present(outlines@))
                &&& b.chars.drawn()
                &&& b.chars.chars@ == font_builder.chars@
                &&& b.chars.font_height == font_builder.font_height
                &&& b.chars.alignment == font_builder.alignment
                &&& b.chars.distribution == font_builder.distribution
                &&& b.chars.background == font_builder.background
                &&& b.image == self.image
                &&& b.asciified_image is None
            },
    {
        font_builder.build(self.image, outlines)
    }
}

} // verus!
