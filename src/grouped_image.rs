//! Cutting an image into tile-sized cells and describing each cell.
use vstd::prelude::*;

use crate::coverage::{
    lemma_rect_sum_bounds, lemma_row_sum_bounds, rect_sum, region_squares, row_sum, seq_sum,
    valid_squares, Coverage, COVERAGE_ONE,
};
use crate::error::{AsciiError, FontParseErrors};
use crate::raster::{
    channel_pixels, convert_to_gray, lemma_pixel_index_in_bounds, lemma_whole_tiles_bound,
    luma_pixels, GrayRaster, Rgb, RgbRaster,
};

verus! {

/// Sum of channel `k` over the `w` x `h` rectangle of `image` at `(x, y)`.
pub open spec fn channel_sum(image: RgbRaster, k: int, x: int, y: int, w: int, h: int) -> int {
    rect_sum(channel_pixels(image, k), image.width as int, x, y, w, h)
}

/// The tint of a cell whose mean channels are `r`, `g`, `b` and whose mean
/// coverage is `avg`: every channel is raised by the headroom of the brightest
/// one, scaled by how uncovered the cell is.
pub open spec fn tint(r: int, g: int, b: int, avg: int) -> Rgb {
    let m = if r >= g && r >= b {
        r
    } else if g >= b {
        g
    } else {
        b
    };
    let add = (255 - m) * (COVERAGE_ONE - avg) / COVERAGE_ONE as int;
    Rgb { r: (r + add) as u8, g: (g + add) as u8, b: (b + add) as u8 }
}

/// The colour of the `w` x `h` cell of `image` at `(x, y)` whose descriptor
/// averages `avg`.
pub open spec fn cell_color(image: RgbRaster, x: int, y: int, w: int, h: int, avg: int) -> Rgb {
    let n = w * h;
    tint(
        channel_sum(image, 0, x, y, w, h) / n,
        channel_sum(image, 1, x, y, w, h) / n,
        channel_sum(image, 2, x, y, w, h) / n,
        avg,
    )
}

/// `group` describes the `w` x `h` cell of `image` at `(x, y)`.
pub open spec fn describes(group: PixelGroup, image: RgbRaster, x: int, y: int, w: int, h: int) -> bool {
    &&& group.coverage@ == region_squares(luma_pixels(image), image.width as int, x, y, w, h)
    &&& valid_squares(group.coverage@)
    &&& group.color == cell_color(image, x, y, w, h, seq_sum(group.coverage@, 16) / 16)
}

/// One cell of a grouped image: its descriptor and its tint.
#[derive(Debug)]
pub struct PixelGroup {
    pub color: Rgb,
    pub coverage: Coverage,
}

/// Sums of the three channels over a rectangle of `image`.
fn channel_sums(image: &RgbRaster, x: usize, y: usize, w: usize, h: usize) -> (r: (u128, u128, u128))
    requires
        image.wf(),
        x + w <= image.width,
        y + h <= image.height,
    ensures
        r.0 == channel_sum(*image, 0, x as int, y as int, w as int, h as int),
        r.1 == channel_sum(*image, 1, x as int, y as int, w as int, h as int),
        r.2 == channel_sum(*image, 2, x as int, y as int, w as int, h as int),
{
    let ghost pr = channel_pixels(*image, 0);
    let ghost pg = channel_pixels(*image, 1);
    let ghost pb = channel_pixels(*image, 2);
    let ghost iw = image.width as int;
    let len = image.pixels.len();
    proof {
        assert(w * h <= image.width * image.height) by (nonlinear_arith)
            requires
                w <= image.width,
                h <= image.height,
        ;
    }
    let mut sr: u128 = 0;
    let mut sg: u128 = 0;
    let mut sb: u128 = 0;
    let mut j: usize = 0;
    while j < h
        invariant
            image.wf(),
            len == image.pixels@.len(),
            pr == channel_pixels(*image, 0),
            pg == channel_pixels(*image, 1),
            pb == channel_pixels(*image, 2),
            iw == image.width,
            x + w <= image.width,
            y + h <= image.height,
            w * h <= usize::MAX,
            j <= h,
            sr == rect_sum(pr, iw, x as int, y as int, w as int, j as int),
            sg == rect_sum(pg, iw, x as int, y as int, w as int, j as int),
            sb == rect_sum(pb, iw, x as int, y as int, w as int, j as int),
        decreases h - j,
    {
        let mut rr: u128 = 0;
        let mut rg: u128 = 0;
        let mut rb: u128 = 0;
        let mut i: usize = 0;
        while i < w
            invariant
                image.wf(),
                len == image.pixels@.len(),
                pr == channel_pixels(*image, 0),
                pg == channel_pixels(*image, 1),
                pb == channel_pixels(*image, 2),
                iw == image.width,
                x + w <= image.width,
                y + h <= image.height,
                j < h,
                i <= w,
                rr == row_sum(pr, iw, x as int, (y + j) as int, i as int),
                rg == row_sum(pg, iw, x as int, (y + j) as int, i as int),
                rb == row_sum(pb, iw, x as int, (y + j) as int, i as int),
            decreases w - i,
        {
            proof {
                lemma_row_sum_bounds(pr, iw, x as int, (y + j) as int, i as int);
                lemma_row_sum_bounds(pg, iw, x as int, (y + j) as int, i as int);
                lemma_row_sum_bounds(pb, iw, x as int, (y + j) as int, i as int);
                lemma_pixel_index_in_bounds(
                    image.width as int,
                    image.height as int,
                    (x + i) as int,
                    (y + j) as int,
                );
            }
            let c = image.pixels[(y + j) * image.width + (x + i)];
            rr = rr + c.r as u128;
            rg = rg + c.g as u128;
            rb = rb + c.b as u128;
            i += 1;
        }
        proof {
            lemma_rect_sum_bounds(pr, iw, x as int, y as int, w as int, (j + 1) as int);
            lemma_rect_sum_bounds(pg, iw, x as int, y as int, w as int, (j + 1) as int);
            lemma_rect_sum_bounds(pb, iw, x as int, y as int, w as int, (j + 1) as int);
            assert(255 * w * (j + 1) <= 255 * w * h) by (nonlinear_arith)
                requires
                    j + 1 <= h,
            ;
            assert(255 * w * h <= 255 * (usize::MAX as int)) by (nonlinear_arith)
                requires
                    w * h <= usize::MAX,
            ;
        }
        sr = sr + rr;
        sg = sg + rg;
        sb = sb + rb;
        j += 1;
    }
    (sr, sg, sb)
}

impl PixelGroup {
    /// Describes the `width` x `height` cell of `image` at `(x, y)`; `gray` is
    /// the luminance raster of `image`.  A cell smaller than 4 x 4 is refused
    /// with `FontSizeTooSmall`.
    pub fn new(
        image: &RgbRaster,
        gray: &GrayRaster,
        x: usize,
        y: usize,
        width: usize,
        height: usize,
    ) -> (r: Result<Self, AsciiError>)
        requires
            image.wf(),
            gray.wf(),
            gray.width == image.width,
            gray.height == image.height,
            gray.pixels@ == luma_pixels(*image),
            x + width <= image.width,
            y + height <= image.height,
        ensures
            (width < 4 || height < 4) <==> r is Err,
            r is Err ==> r == Err::<PixelGroup, AsciiError>(
                AsciiError::FontParse(FontParseErrors::FontSizeTooSmall),
            ),
            r is Ok ==> describes(r->Ok_0, *image, x as int, y as int, width as int, height as int),
    {
        let coverage = Coverage::new(gray, x, y, width, height)?;
        let (sr, sg, sb) = channel_sums(image, x, y, width, height);
        proof {
            assert(width * height <= 0xffff_ffff_ffff_ffff * 0xffff_ffff_ffff_ffff) by (nonlinear_arith)
                requires
                    width <= 0xffff_ffff_ffff_ffff,
                    height <= 0xffff_ffff_ffff_ffff,
            ;
        }
        let n: u128 = width as u128 * height as u128;
        proof {
            assert(n > 0) by (nonlinear_arith)
                requires
                    n == width * height,
                    width >= 4,
                    height >= 4,
            ;
            lemma_rect_sum_bounds(channel_pixels(*image, 0), image.width as int, x as int, y as int, width as int, height as int);
            lemma_rect_sum_bounds(channel_pixels(*image, 1), image.width as int, x as int, y as int, width as int, height as int);
            lemma_rect_sum_bounds(channel_pixels(*image, 2), image.width as int, x as int, y as int, width as int, height as int);
            assert(255 * width * height == 255 * n) by (nonlinear_arith)
                requires
                    n == width * height,
            ;
            vstd::arithmetic::div_mod::lemma_div_is_ordered(sr as int, 255 * n, n as int);
            vstd::arithmetic::div_mod::lemma_div_is_ordered(sg as int, 255 * n, n as int);
            vstd::arithmetic::div_mod::lemma_div_is_ordered(sb as int, 255 * n, n as int);
            vstd::arithmetic::div_mod::lemma_div_multiples_vanish(255, n as int);
        }
        let r = (sr / n) as u8;
        let g = (sg / n) as u8;
        let b = (sb / n) as u8;
        let m = if r >= g && r >= b {
            r
        } else if g >= b {
            g
        } else {
            b
        };
        let avg = coverage.avg();
        let ghost headroom = 255 - m;
        let ghost uncovered = COVERAGE_ONE - avg;
        proof {
            assert(headroom * uncovered <= headroom * COVERAGE_ONE) by (nonlinear_arith)
                requires
                    0 <= uncovered <= COVERAGE_ONE,
                    headroom >= 0,
            ;
            assert(0 <= headroom * uncovered) by (nonlinear_arith)
                requires
                    0 <= uncovered,
                    headroom >= 0,
            ;
            vstd::arithmetic::div_mod::lemma_div_is_ordered(
                headroom * uncovered,
                headroom * COVERAGE_ONE,
                COVERAGE_ONE as int,
            );
            vstd::arithmetic::div_mod::lemma_div_multiples_vanish(headroom, COVERAGE_ONE as int);
            assert(headroom * COVERAGE_ONE == COVERAGE_ONE * headroom);
        }
        let add = (((255 - m) as u64 * (COVERAGE_ONE - avg) as u64) / COVERAGE_ONE as u64) as u8;
        let color = Rgb { r: r + add, g: g + add, b: b + add };
        Ok(PixelGroup { color, coverage })
    }
}

/// An image cut into a row-major grid of cells of `group_width` x
/// `group_height` pixels.
#[derive(Debug)]
pub struct GroupedImage {
    pub group_width: usize,
    pub group_height: usize,
    pub groups: Vec<Vec<PixelGroup>>,
}

impl GroupedImage {
    /// Every row holds `cols` cells.
    pub open spec fn rectangular(&self, cols: int) -> bool {
        &&& forall|r: int| 0 <= r < self.groups@.len() ==> #[trigger] self.groups@[r]@.len() == cols
        &&& self.groups@.len() * cols <= usize::MAX
    }

    /// `self` is the grid of `image`: `image.height / group_height` rows of
    /// `image.width / group_width` cells, cell `(r, c)` describing the tile at
    /// `(c * group_width, r * group_height)`; partial tiles at the right and
    /// bottom edges are dropped.
    pub open spec fn grid_of(&self, image: RgbRaster) -> bool {
        let cols = image.width as int / self.group_width as int;
        &&& self.groups@.len() == image.height as int / self.group_height as int
        &&& self.rectangular(cols)
        &&& forall|r: int, c: int|
            0 <= r < self.groups@.len() && 0 <= c < cols ==> describes(
                #[trigger] self.groups@[r]@[c],
                image,
                c * self.group_width,
                r * self.group_height,
                self.group_width as int,
                self.group_height as int,
            )
    }

    /// Cuts `image` into cells of `group_width` x `group_height` and describes
    /// each; cells smaller than 4 x 4 are refused with `FontSizeTooSmall`.
    pub fn new(group_width: usize, group_height: usize, image: &RgbRaster) -> (r: Result<
        GroupedImage,
        AsciiError,
    >)
        requires
            image.wf(),
        ensures
            (group_width < 4 || group_height < 4) <==> r is Err,
            r is Err ==> r == Err::<GroupedImage, AsciiError>(
                AsciiError::FontParse(FontParseErrors::FontSizeTooSmall),
            ),
            r is Ok ==> r->Ok_0.group_width == group_width && r->Ok_0.group_height == group_height
                && r->Ok_0.grid_of(*image),
    {
        if group_width < 4 || group_height < 4 {
            return Err(AsciiError::FontParse(FontParseErrors::FontSizeTooSmall));
        }
        let gray = convert_to_gray(image);
        let rows = image.height / group_height;
        let cols = image.width / group_width;
        proof {
            lemma_whole_tiles_bound(image.width as int, group_width as int);
            lemma_whole_tiles_bound(image.height as int, group_height as int);
            assert(rows * cols <= image.height * image.width) by (nonlinear_arith)
                requires
                    rows * group_height <= image.height,
                    cols * group_width <= image.width,
                    group_width >= 4,
                    group_height >= 4,
                    rows >= 0,
                    cols >= 0,
            ;
            assert(image.height * image.width == image.width * image.height) by (nonlinear_arith);
        }
        // the buffer length is a usize, which bounds the pixel count
        let _pixel_count = image.pixels.len();
        let mut groups: Vec<Vec<PixelGroup>> = Vec::new();
        let mut r: usize = 0;
        while r < rows
            invariant
                image.wf(),
                gray.wf(),
                gray.width == image.width,
                gray.height == image.height,
                gray.pixels@ == luma_pixels(*image),
                group_width >= 4,
                group_height >= 4,
                rows == image.height as int / group_height as int,
                cols == image.width as int / group_width as int,
                rows * group_height <= image.height,
                cols * group_width <= image.width,
                rows * cols <= usize::MAX,
                r <= rows,
                groups@.len() == r,
                forall|i: int| 0 <= i < r ==> #[trigger] groups@[i]@.len() == cols,
                forall|i: int, c: int|
                    0 <= i < r && 0 <= c < cols ==> describes(
                        #[trigger] groups@[i]@[c],
                        *image,
                        c * group_width,
                        i * group_height,
                        group_width as int,
                        group_height as int,
                    ),
            decreases rows - r,
        {
            proof {
                assert((r + 1) * group_height <= rows * group_height) by (nonlinear_arith)
                    requires
                        r + 1 <= rows,
                        group_height >= 0,
                ;
            }
            let mut row: Vec<PixelGroup> = Vec::new();
            let mut c: usize = 0;
            while c < cols
                invariant
                    image.wf(),
                    gray.wf(),
                    gray.width == image.width,
                    gray.height == image.height,
                    gray.pixels@ == luma_pixels(*image),
                    group_width >= 4,
                    group_height >= 4,
                    cols * group_width <= image.width,
                    (r + 1) * group_height <= image.height,
                    c <= cols,
                    row@.len() == c,
                    forall|k: int|
                        0 <= k < c ==> describes(
                            #[trigger] row@[k],
                            *image,
                            k * group_width,
                            r * group_height,
                            group_width as int,
                            group_height as int,
                        ),
                decreases cols - c,
            {
                proof {
                    assert((c + 1) * group_width <= cols * group_width) by (nonlinear_arith)
                        requires
                            c + 1 <= cols,
                            group_width >= 0,
                    ;
                    assert((c + 1) * group_width == c * group_width + group_width) by (nonlinear_arith);
                    assert((r + 1) * group_height == r * group_height + group_height) by (nonlinear_arith);
                }
                let group = PixelGroup::new(
                    image,
                    &gray,
                    c * group_width,
                    r * group_height,
                    group_width,
                    group_height,
                );
                match group {
                    Ok(g) => row.push(g),
                    Err(e) => return Err(e),
                }
                c += 1;
            }
            groups.push(row);
            r += 1;
        }
        Ok(GroupedImage { group_width, group_height, groups })
    }

    pub fn num_rows(&self) -> (r: usize)
        ensures
            r == self.groups@.len(),
    {
        self.groups.len()
    }

    /// Length of the first row; `None` for an empty grid.
    pub fn num_cols(&self) -> (r: Option<usize>)
        ensures
            self.groups@.len() == 0 ==> r is None,
            self.groups@.len() > 0 ==> r is Some && r->Some_0 == self.groups@[0]@.len(),
    {
        if self.groups.len() == 0 {
            None
        } else {
            Some(self.groups[0].len())
        }
    }

    /// The number of cells.
    pub fn num_groups(&self) -> (r: usize)
        requires
            exists|cols: int| self.rectangular(cols),
        ensures
            forall|cols: int| self.rectangular(cols) ==> r == self.groups@.len() * cols,
    {
        let ghost cols = choose|cols: int| self.rectangular(cols);
        let mut total: usize = 0;
        let mut i: usize = 0;
        while i < self.groups.len()
            invariant
                self.rectangular(cols),
                i <= self.groups@.len(),
                total == i * cols,
            decreases self.groups@.len() - i,
        {
            proof {
                assert(cols == self.groups@[i as int]@.len());
                assert((i + 1) * cols <= self.groups@.len() * cols) by (nonlinear_arith)
                    requires
                        i + 1 <= self.groups@.len(),
                        cols >= 0,
                ;
                assert((i + 1) * cols == i * cols + cols) by (nonlinear_arith);
            }
            total = total + self.groups[i].len();
            i += 1;
        }
        proof {
            assert forall|c: int| self.rectangular(c) implies total == self.groups@.len() * c by {
                if self.groups@.len() > 0 {
                    assert(c == self.groups@[0]@.len());
                    assert(cols == self.groups@[0]@.len());
                }
            }
        }
        total
    }
}

} // verus!
