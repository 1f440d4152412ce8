//! Coverage descriptors: the mean luminance of the 4 x 4 sub-regions of a
//! region, in fixed point, where `COVERAGE_ONE` stands for full coverage.
use vstd::prelude::*;

use crate::error::{AsciiError, FontParseErrors};
use crate::raster::{pixel_index, GrayRaster};

verus! {

/// The fixed-point value of full coverage (1.0).
pub const COVERAGE_ONE: u32 = 1_000_000;

/// Sum of the luminance of the `w` pixels of row `y` that start at column `x`.
pub open spec fn row_sum(pix: Seq<u8>, width: int, x: int, y: int, w: int) -> int
    decreases w,
{
    if w <= 0 {
        0
    } else {
        row_sum(pix, width, x, y, w - 1) + pix[pixel_index(width, x + w - 1, y)]
    }
}

/// Sum of the luminance of the `w` x `h` rectangle at `(x, y)`.
pub open spec fn rect_sum(pix: Seq<u8>, width: int, x: int, y: int, w: int, h: int) -> int
    decreases h,
{
    if h <= 0 {
        0
    } else {
        rect_sum(pix, width, x, y, w, h - 1) + row_sum(pix, width, x, y + h - 1, w)
    }
}

/// Mean of `n` luminance values that sum to `sum`, as a fixed-point fraction of 255.
pub open spec fn mean_coverage(sum: int, n: int) -> int {
    sum * COVERAGE_ONE / (255 * n)
}

/// The descriptor of the `w` x `h` region at `(x, y)`: value `4 * i + j` is the
/// mean coverage of the sub-region in column band `i` from the left and row band
/// `j` from the top, each sub-region being `w / 4` x `h / 4`; pixels beyond are
/// left out.
pub open spec fn region_squares(pix: Seq<u8>, width: int, x: int, y: int, w: int, h: int) -> Seq<u32> {
    let sw = w / 4;
    let sh = h / 4;
    Seq::new(
        16,
        |k: int| mean_coverage(rect_sum(pix, width, x + (k / 4) * sw, y + (k % 4) * sh, sw, sh), sw * sh) as u32,
    )
}

/// Every value lies in `[0, COVERAGE_ONE]` and there are 16 of them.
pub open spec fn valid_squares(s: Seq<u32>) -> bool {
    &&& s.len() == 16
    &&& forall|i: int| 0 <= i < 16 ==> s[i] <= COVERAGE_ONE
}

/// Sum of squared differences of two sequences, over the first `n` positions.
pub open spec fn sq_dist_prefix(a: Seq<u32>, b: Seq<u32>, n: int) -> int
    decreases n,
{
    if n <= 0 {
        0
    } else {
        let d = a[n - 1] - b[n - 1];
        sq_dist_prefix(a, b, n - 1) + d * d
    }
}

/// Squared Euclidean distance of two descriptors.
pub open spec fn sq_dist(a: Seq<u32>, b: Seq<u32>) -> int {
    sq_dist_prefix(a, b, 16)
}

/// Largest value of a sequence (0 for the empty one).
pub open spec fn seq_max(s: Seq<u32>) -> int
    decreases s.len(),
{
    if s.len() == 0 {
        0
    } else if s.len() == 1 {
        s[0] as int
    } else {
        let m = seq_max(s.drop_last());
        if s.last() > m {
            s.last() as int
        } else {
            m
        }
    }
}

/// Smallest value of a sequence (0 for the empty one).
pub open spec fn seq_min(s: Seq<u32>) -> int
    decreases s.len(),
{
    if s.len() == 0 {
        0
    } else if s.len() == 1 {
        s[0] as int
    } else {
        let m = seq_min(s.drop_last());
        if s.last() < m {
            s.last() as int
        } else {
            m
        }
    }
}

/// Sum of the first `n` values.
pub open spec fn seq_sum(s: Seq<u32>, n: int) -> int
    decreases n,
{
    if n <= 0 {
        0
    } else {
        seq_sum(s, n - 1) + s[n - 1]
    }
}

pub proof fn lemma_seq_max_is_max(s: Seq<u32>)
    requires
        s.len() > 0,
    ensures
        forall|i: int| 0 <= i < s.len() ==> s[i] <= seq_max(s),
        exists|i: int| 0 <= i < s.len() && s[i] == seq_max(s),
    decreases s.len(),
{
    if s.len() > 1 {
        lemma_seq_max_is_max(s.drop_last());
        let m = seq_max(s.drop_last());
        let j = choose|j: int| 0 <= j < s.drop_last().len() && s.drop_last()[j] == m;
        assert(s[j] == m);
        if s.last() > m {
            assert(s[s.len() - 1] == seq_max(s));
        }
        assert forall|i: int| 0 <= i < s.len() implies s[i] <= seq_max(s) by {
            if i < s.len() - 1 {
                assert(s[i] == s.drop_last()[i]);
            }
        }
    } else {
        assert(s[0] == seq_max(s));
    }
}

pub proof fn lemma_seq_min_is_min(s: Seq<u32>)
    requires
        s.len() > 0,
    ensures
        forall|i: int| 0 <= i < s.len() ==> seq_min(s) <= s[i],
        exists|i: int| 0 <= i < s.len() && s[i] == seq_min(s),
    decreases s.len(),
{
    if s.len() > 1 {
        lemma_seq_min_is_min(s.drop_last());
        let m = seq_min(s.drop_last());
        let j = choose|j: int| 0 <= j < s.drop_last().len() && s.drop_last()[j] == m;
        assert(s[j] == m);
        if s.last() < m {
            assert(s[s.len() - 1] == seq_min(s));
        }
        assert forall|i: int| 0 <= i < s.len() implies seq_min(s) <= s[i] by {
            if i < s.len() - 1 {
                assert(s[i] == s.drop_last()[i]);
            }
        }
    } else {
        assert(s[0] == seq_min(s));
    }
}

pub proof fn lemma_row_sum_bounds(pix: Seq<u8>, width: int, x: int, y: int, w: int)
    requires
        w >= 0,
    ensures
        0 <= row_sum(pix, width, x, y, w) <= 255 * w,
    decreases w,
{
    if w > 0 {
        lemma_row_sum_bounds(pix, width, x, y, w - 1);
    }
}

pub proof fn lemma_rect_sum_bounds(pix: Seq<u8>, width: int, x: int, y: int, w: int, h: int)
    requires
        w >= 0,
        h >= 0,
    ensures
        0 <= rect_sum(pix, width, x, y, w, h) <= 255 * w * h,
    decreases h,
{
    if h > 0 {
        lemma_rect_sum_bounds(pix, width, x, y, w, h - 1);
        lemma_row_sum_bounds(pix, width, x, y + h - 1, w);
        assert(255 * w * (h - 1) + 255 * w == 255 * w * h) by (nonlinear_arith);
    }
}

pub proof fn lemma_mean_coverage_bounds(sum: int, n: int)
    requires
        n > 0,
        0 <= sum <= 255 * n,
    ensures
        0 <= mean_coverage(sum, n) <= COVERAGE_ONE,
{
    let d = 255 * n;
    assert(sum * COVERAGE_ONE <= d * COVERAGE_ONE) by (nonlinear_arith)
        requires
            sum <= d,
    ;
    assert(0 <= sum * COVERAGE_ONE) by (nonlinear_arith)
        requires
            sum >= 0,
    ;
    vstd::arithmetic::div_mod::lemma_div_is_ordered(sum * COVERAGE_ONE, d * COVERAGE_ONE, d);
    vstd::arithmetic::div_mod::lemma_div_multiples_vanish(COVERAGE_ONE as int, d);
    vstd::arithmetic::div_mod::lemma_div_pos_is_pos(sum * COVERAGE_ONE, d);
}

/// Sum of the luminance of a rectangle of `img`.
fn region_sum(img: &GrayRaster, x: usize, y: usize, w: usize, h: usize) -> (s: u128)
    requires
        img.wf(),
        x + w <= img.width,
        y + h <= img.height,
    ensures
        s == rect_sum(img.pixels@, img.width as int, x as int, y as int, w as int, h as int),
{
    let len = img.pixels.len();
    proof {
        assert(w * h <= img.width * img.height) by (nonlinear_arith)
            requires
                w <= img.width,
                h <= img.height,
        ;
        assert(255 * w * h <= 255 * (usize::MAX as int)) by (nonlinear_arith)
            requires
                w * h <= usize::MAX,
        ;
    }
    let mut s: u128 = 0;
    let mut j: usize = 0;
    while j < h
        invariant
            img.wf(),
            len == img.pixels@.len(),
            x + w <= img.width,
            y + h <= img.height,
            w * h <= usize::MAX,
            255 * w * h <= 255 * (usize::MAX as int),
            j <= h,
            s == rect_sum(img.pixels@, img.width as int, x as int, y as int, w as int, j as int),
        decreases h - j,
    {
        proof {
            lemma_rect_sum_bounds(img.pixels@, img.width as int, x as int, y as int, w as int, j as int);
            assert(255 * w * j <= 255 * w * h) by (nonlinear_arith)
                requires
                    j <= h,
            ;
        }
        let mut row: u128 = 0;
        let mut i: usize = 0;
        while i < w
            invariant
                img.wf(),
                len == img.pixels@.len(),
                x + w <= img.width,
                y + h <= img.height,
                j < h,
                i <= w,
                row == row_sum(img.pixels@, img.width as int, x as int, (y + j) as int, i as int),
            decreases w - i,
        {
            proof {
                lemma_row_sum_bounds(img.pixels@, img.width as int, x as int, (y + j) as int, i as int);
                crate::raster::lemma_pixel_index_in_bounds(
                    img.width as int,
                    img.height as int,
                    (x + i) as int,
                    (y + j) as int,
                );
            }
            row = row + img.pixels[(y + j) * img.width + (x + i)] as u128;
            i += 1;
        }
        proof {
            lemma_rect_sum_bounds(img.pixels@, img.width as int, x as int, y as int, w as int, (j + 1) as int);
            assert(255 * w * (j + 1) <= 255 * w * h) by (nonlinear_arith)
                requires
                    j + 1 <= h,
            ;
        }
        s = s + row;
        j += 1;
    }
    s
}

/// The coverage descriptor of a region: see `region_squares`.
#[derive(Debug, Clone, PartialEq)]
pub struct Coverage {
    squares: Vec<u32>,
}

impl View for Coverage {
    type V = Seq<u32>;

    closed spec fn view(&self) -> Seq<u32> {
        self.squares@
    }
}

impl Coverage {
    /// Computes the descriptor of the `width` x `height` region of `view` at `(x, y)`.
    /// A region narrower or lower than 4 pixels is refused with `FontSizeTooSmall`.
    pub fn new(view: &GrayRaster, x: usize, y: usize, width: usize, height: usize) -> (r: Result<
        Coverage,
        AsciiError,
    >)
        requires
            view.wf(),
            x + width <= view.width,
            y + height <= view.height,
        ensures
            (width < 4 || height < 4) <==> r is Err,
            r is Err ==> r == Err::<Coverage, AsciiError>(
                AsciiError::FontParse(FontParseErrors::FontSizeTooSmall),
            ),
            r is Ok ==> r->Ok_0@ == region_squares(
                view.pixels@,
                view.width as int,
                x as int,
                y as int,
                width as int,
                height as int,
            ),
            r is Ok ==> valid_squares(r->Ok_0@),
    {
        if width < 4 || height < 4 {
            return Err(AsciiError::FontParse(FontParseErrors::FontSizeTooSmall));
        }
        let sw = width / 4;
        let sh = height / 4;
        let ghost target = region_squares(
            view.pixels@,
            view.width as int,
            x as int,
            y as int,
            width as int,
            height as int,
        );
        proof {
            assert(sw * 4 <= width && sh * 4 <= height);
            assert(sw * sh > 0) by (nonlinear_arith)
                requires
                    sw > 0,
                    sh > 0,
            ;
            assert(sw * sh <= width * height) by (nonlinear_arith)
                requires
                    sw <= width,
                    sh <= height,
            ;
            assert(width * height <= view.width * view.height) by (nonlinear_arith)
                requires
                    width <= view.width,
                    height <= view.height,
            ;
        }
        // the buffer length is a usize, which bounds the pixel count
        let _pixel_count = view.pixels.len();
        let n: u128 = (sw as u128) * (sh as u128);
        let mut squares: Vec<u32> = Vec::with_capacity(16);
        let mut k: usize = 0;
        while k < 16
            invariant
                view.wf(),
                x + width <= view.width,
                y + height <= view.height,
                width >= 4,
                height >= 4,
                sw == width / 4,
                sh == height / 4,
                n == sw * sh,
                n > 0,
                n <= usize::MAX,
                k <= 16,
                target == region_squares(
                    view.pixels@,
                    view.width as int,
                    x as int,
                    y as int,
                    width as int,
                    height as int,
                ),
                squares@.len() == k,
                forall|i: int| 0 <= i < k ==> squares@[i] == target[i],
                forall|i: int| 0 <= i < k ==> squares@[i] <= COVERAGE_ONE,
            decreases 16 - k,
        {
            let col = k / 4;
            let row = k % 4;
            proof {
                assert(col * sw + sw <= width) by (nonlinear_arith)
                    requires
                        col < 4,
                        sw * 4 <= width,
                ;
                assert(row * sh + sh <= height) by (nonlinear_arith)
                    requires
                        row < 4,
                        sh * 4 <= height,
                ;
            }
            let sum = region_sum(view, x + col * sw, y + row * sh, sw, sh);
            proof {
                lemma_rect_sum_bounds(
                    view.pixels@,
                    view.width as int,
                    (x + col * sw) as int,
                    (y + row * sh) as int,
                    sw as int,
                    sh as int,
                );
                assert(255 * sw * sh == 255 * n) by (nonlinear_arith)
                    requires
                        n == sw * sh,
                ;
                lemma_mean_coverage_bounds(sum as int, n as int);
                assert(sum * 1_000_000 <= 255 * n * 1_000_000) by (nonlinear_arith)
                    requires
                        sum <= 255 * n,
                ;
            }
            let value = (sum * (COVERAGE_ONE as u128)) / (255 * n);
            squares.push(value as u32);
            k += 1;
        }
        proof {
            assert(squares@ =~= target);
        }
        Ok(Coverage { squares })
    }

    /// A copy of this descriptor.
    pub fn duplicate(&self) -> (r: Coverage)
        ensures
            r@ == self@,
    {
        let squares = self.squares.clone();
        proof {
            assert(squares@ =~= self.squares@);
        }
        Coverage { squares }
    }

    /// The descriptor's values.
    pub fn values(&self) -> (r: &Vec<u32>)
        ensures
            r@ == self@,
    {
        &self.squares
    }

    /// Squared Euclidean distance to `other`; ordering by it is ordering by distance.
    pub fn dist_squared(&self, other: &Self) -> (r: u64)
        requires
            valid_squares(self@),
            valid_squares(other@),
        ensures
            r == sq_dist(self@, other@),
            r <= 16_000_000_000_000,
    {
        let mut acc: u64 = 0;
        let mut i: usize = 0;
        while i < 16
            invariant
                valid_squares(self@),
                valid_squares(other@),
                self.squares@ == self@,
                other.squares@ == other@,
                i <= 16,
                acc == sq_dist_prefix(self@, other@, i as int),
                acc <= i * 1_000_000_000_000,
            decreases 16 - i,
        {
            let a = self.squares[i];
            let b = other.squares[i];
            let d: u64 = if a >= b {
                (a - b) as u64
            } else {
                (b - a) as u64
            };
            proof {
                assert(d * d <= 1_000_000_000_000) by (nonlinear_arith)
                    requires
                        d <= 1_000_000,
                ;
                assert((a - b) * (a - b) == d * d) by (nonlinear_arith)
                    requires
                        d == a - b || d == b - a,
                ;
            }
            acc = acc + d * d;
            i += 1;
        }
        acc
    }

    /// Euclidean distance to `other`, rounded down.
    pub fn dist(&self, other: &Self) -> (r: u64)
        requires
            valid_squares(self@),
            valid_squares(other@),
        ensures
            r * r <= sq_dist(self@, other@) < (r + 1) * (r + 1),
    {
        let n = self.dist_squared(other);
        floor_sqrt(n)
    }

    /// Applies `func` to every value.
    pub fn from_func<F: Fn(u32) -> u32>(&self, func: F) -> (r: Coverage)
        requires
            valid_squares(self@),
            forall|v: u32| v <= COVERAGE_ONE ==> #[trigger] func.requires((v,)),
        ensures
            r@.len() == 16,
            forall|i: int| 0 <= i < 16 ==> func.ensures((self@[i],), #[trigger] r@[i]),
    {
        let mut squares: Vec<u32> = Vec::with_capacity(16);
        let mut i: usize = 0;
        while i < 16
            invariant
                valid_squares(self@),
                self.squares@ == self@,
                forall|v: u32| v <= COVERAGE_ONE ==> #[trigger] func.requires((v,)),
                i <= 16,
                squares@.len() == i,
                forall|k: int| 0 <= k < i ==> func.ensures((self@[k],), #[trigger] squares@[k]),
            decreases 16 - i,
        {
            let v = func(self.squares[i]);
            squares.push(v);
            i += 1;
        }
        Coverage { squares }
    }

    /// The mean of the values, rounded down.
    pub fn avg(&self) -> (r: u32)
        requires
            valid_squares(self@),
        ensures
            r == seq_sum(self@, 16) / 16,
            r <= COVERAGE_ONE,
    {
        let mut acc: u64 = 0;
        let mut i: usize = 0;
        while i < 16
            invariant
                valid_squares(self@),
                self.squares@ == self@,
                i <= 16,
                acc == seq_sum(self@, i as int),
                acc <= i * 1_000_000,
            decreases 16 - i,
        {
            acc = acc + self.squares[i] as u64;
            i += 1;
        }
        (acc / 16) as u32
    }

    /// The largest value.
    pub fn max(&self) -> (r: u32)
        requires
            valid_squares(self@),
        ensures
            r == seq_max(self@),
    {
        let mut m: u32 = self.squares[0];
        let mut i: usize = 1;
        while i < 16
            invariant
                valid_squares(self@),
                self.squares@ == self@,
                1 <= i <= 16,
                m == seq_max(self@.subrange(0, i as int)),
            decreases 16 - i,
        {
            let v = self.squares[i];
            proof {
                let s = self@.subrange(0, i + 1);
                assert(s.drop_last() =~= self@.subrange(0, i as int));
            }
            if v > m {
                m = v;
            }
            i += 1;
        }
        proof {
            assert(self@.subrange(0, 16) =~= self@);
        }
        m
    }

    /// The smallest value.
    pub fn min(&self) -> (r: u32)
        requires
            valid_squares(self@),
        ensures
            r == seq_min(self@),
    {
        let mut m: u32 = self.squares[0];
        let mut i: usize = 1;
        while i < 16
            invariant
                valid_squares(self@),
                self.squares@ == self@,
                1 <= i <= 16,
                m == seq_min(self@.subrange(0, i as int)),
            decreases 16 - i,
        {
            let v = self.squares[i];
            proof {
                let s = self@.subrange(0, i + 1);
                assert(s.drop_last() =~= self@.subrange(0, i as int));
            }
            if v < m {
                m = v;
            }
            i += 1;
        }
        proof {
            assert(self@.subrange(0, 16) =~= self@);
        }
        m
    }
}

/// The largest `r` with `r * r <= n`.
fn floor_sqrt(n: u64) -> (r: u64)
    requires
        n <= 16_000_000_000_000,
    ensures
        r * r <= n < (r + 1) * (r + 1),
{
    // invariant: lo * lo <= n < hi * hi
    let mut lo: u64 = 0;
    let mut hi: u64 = 4_000_001;
    while hi - lo > 1
        invariant
            lo < hi <= 4_000_001,
            lo * lo <= n,
            n < hi * hi,
        decreases hi - lo,
    {
        let mid = lo + (hi - lo) / 2;
        proof {
            assert(mid * mid <= 4_000_001 * 4_000_001) by (nonlinear_arith)
                requires
                    mid <= 4_000_001,
            ;
        }
        if mid * mid <= n {
            lo = mid;
        } else {
            hi = mid;
        }
    }
    lo
}

} // verus!
