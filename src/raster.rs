//! Plain raster buffers: a single-channel luminance raster and an RGB raster,
//! both stored row-major.
use vstd::prelude::*;

verus! {

/// One 8-bit RGB pixel.
#[derive(Debug, Clone, Copy, PartialEq, Eq, Structural)]
pub struct Rgb {
    pub r: u8,
    pub g: u8,
    pub b: u8,
}

/// A single-channel 8-bit raster; pixel `(x, y)` is `pixels[y * width + x]`.
#[derive(Debug, Clone, PartialEq, Eq)]
pub struct GrayRaster {
    pub width: usize,
    pub height: usize,
    pub pixels: Vec<u8>,
}

/// An 8-bit RGB raster; pixel `(x, y)` is `pixels[y * width + x]`.
#[derive(Debug, Clone, PartialEq, Eq)]
pub struct RgbRaster {
    pub width: usize,
    pub height: usize,
    pub pixels: Vec<Rgb>,
}

/// Position of pixel `(x, y)` in a row-major buffer `width` pixels wide.
pub open spec fn pixel_index(width: int, x: int, y: int) -> int {
    y * width + x
}

pub proof fn lemma_pixel_index_in_bounds(width: int, height: int, x: int, y: int)
    requires
        0 <= x < width,
        0 <= y < height,
    ensures
        0 <= pixel_index(width, x, y) < width * height,
{
    assert(0 <= y * width + x < width * height) by (nonlinear_arith)
        requires
            0 <= x < width,
            0 <= y < height,
    ;
}

impl GrayRaster {
    pub open spec fn wf(&self) -> bool {
        self.pixels@.len() == self.width * self.height
    }

    /// The luminance of pixel `(x, y)`.
    pub open spec fn at(&self, x: int, y: int) -> u8 {
        self.pixels@[pixel_index(self.width as int, x, y)]
    }

    pub fn get(&self, x: usize, y: usize) -> (r: u8)
        requires
            self.wf(),
            x < self.width,
            y < self.height,
        ensures
            r == self.at(x as int, y as int),
    {
        // the buffer length is a usize, which bounds the pixel count
        let _pixel_count = self.pixels.len();
        proof {
            lemma_pixel_index_in_bounds(self.width as int, self.height as int, x as int, y as int);
        }
        self.pixels[y * self.width + x]
    }
}

impl RgbRaster {
    pub open spec fn wf(&self) -> bool {
        self.pixels@.len() == self.width * self.height
    }

    /// A copy of this raster.
    pub fn duplicate(&self) -> (r: RgbRaster)
        ensures
            r.width == self.width,
            r.height == self.height,
            r.pixels@ == self.pixels@,
    {
        let pixels = self.pixels.clone();
        proof {
            assert(pixels@ =~= self.pixels@);
        }
        RgbRaster { width: self.width, height: self.height, pixels }
    }

    /// The colour of pixel `(x, y)`.
    pub open spec fn at(&self, x: int, y: int) -> Rgb {
        self.pixels@[pixel_index(self.width as int, x, y)]
    }

    pub fn get(&self, x: usize, y: usize) -> (r: Rgb)
        requires
            self.wf(),
            x < self.width,
            y < self.height,
        ensures
            r == self.at(x as int, y as int),
    {
        // the buffer length is a usize, which bounds the pixel count
        let _pixel_count = self.pixels.len();
        proof {
            lemma_pixel_index_in_bounds(self.width as int, self.height as int, x as int, y as int);
        }
        self.pixels[y * self.width + x]
    }
}

/// Luminance of a colour with the weights 0.299, 0.587 and 0.114, rounded down.
pub open spec fn luma_of(c: Rgb) -> int {
    (299 * c.r + 587 * c.g + 114 * c.b) / 1000
}

pub fn luma(c: Rgb) -> (r: u8)
    ensures
        r == luma_of(c),
{
    let s: u32 = 299 * (c.r as u32) + 587 * (c.g as u32) + 114 * (c.b as u32);
    (s / 1000) as u8
}

/// The luminance of every pixel of `image`, in the same order.
pub open spec fn luma_pixels(image: RgbRaster) -> Seq<u8> {
    image.pixels@.map_values(|c: Rgb| luma_of(c) as u8)
}

/// Channel `k` (0 red, 1 green, 2 blue) of a colour.
pub open spec fn channel(c: Rgb, k: int) -> u8 {
    if k == 0 {
        c.r
    } else if k == 1 {
        c.g
    } else {
        c.b
    }
}

/// Channel `k` of every pixel of `image`, in the same order.
pub open spec fn channel_pixels(image: RgbRaster, k: int) -> Seq<u8> {
    image.pixels@.map_values(|c: Rgb| channel(c, k))
}

/// Converts an RGB raster to its luminance raster, pixel by pixel.
pub fn convert_to_gray(image: &RgbRaster) -> (r: GrayRaster)
    requires
        image.wf(),
    ensures
        r.wf(),
        r.width == image.width,
        r.height == image.height,
        r.pixels@ == luma_pixels(*image),
{
    let n = image.pixels.len();
    let mut pixels: Vec<u8> = Vec::with_capacity(n);
    let mut i: usize = 0;
    while i < n
        invariant
            n == image.pixels@.len(),
            i <= n,
            pixels@.len() == i,
            forall|j: int| 0 <= j < i ==> pixels@[j] == luma_of(#[trigger] image.pixels@[j]),
        decreases n - i,
    {
        pixels.push(luma(image.pixels[i]));
        i += 1;
    }
    proof {
        assert(pixels@ =~= luma_pixels(*image));
    }
    GrayRaster { width: image.width, height: image.height, pixels }
}

/// The largest multiple of `tile` that is at most `len`.
pub open spec fn whole_tiles(len: int, tile: int) -> int {
    (len / tile) * tile
}

/// The part of a `width` x `height` image that whole `char_width` x `char_height`
/// tiles cover; trailing partial rows and columns are dropped.
pub fn get_adjusted_size(width: usize, height: usize, char_width: usize, char_height: usize) -> (r: (usize, usize))
    requires
        char_width > 0,
        char_height > 0,
    ensures
        r.0 == whole_tiles(width as int, char_width as int),
        r.1 == whole_tiles(height as int, char_height as int),
        r.0 <= width,
        r.1 <= height,
{
    proof {
        lemma_whole_tiles_bound(width as int, char_width as int);
        lemma_whole_tiles_bound(height as int, char_height as int);
    }
    ((width / char_width) * char_width, (height / char_height) * char_height)
}

pub proof fn lemma_whole_tiles_bound(len: int, tile: int)
    requires
        len >= 0,
        tile > 0,
    ensures
        0 <= whole_tiles(len, tile) <= len,
        len - whole_tiles(len, tile) < tile,
{
    let q = len / tile;
    let m = len % tile;
    vstd::arithmetic::div_mod::lemma_fundamental_div_mod(len, tile);
    vstd::arithmetic::div_mod::lemma_div_pos_is_pos(len, tile);
    vstd::arithmetic::div_mod::lemma_mod_bound(len, tile);
    assert(0 <= q * tile <= len && len - q * tile < tile) by (nonlinear_arith)
        requires
            q >= 0,
            tile > 0,
            len == tile * q + m,
            0 <= m < tile,
    ;
}

/// Pixel `(x, y)` of `img` scaled down by `scale`: the source pixel at
/// `(x * scale, y * scale)`, or black past the source's edges.
pub open spec fn scaled_pixel(img: RgbRaster, scale: int, x: int, y: int) -> Rgb {
    if x * scale < img.width && y * scale < img.height {
        img.at(x * scale, y * scale)
    } else {
        Rgb { r: 0, g: 0, b: 0 }
    }
}

/// Keeps every `scale`-th pixel of every `scale`-th row.  The result is
/// `width / scale + 1` x `height / scale + 1`.
pub fn scale_down(img: &RgbRaster, scale: usize) -> (r: RgbRaster)
    requires
        img.wf(),
        scale > 0,
        (img.width / scale + 1) * (img.height / scale + 1) <= usize::MAX,
    ensures
        r.wf(),
        r.width == img.width as int / scale as int + 1,
        r.height == img.height as int / scale as int + 1,
        forall|x: int, y: int|
            0 <= x < r.width && 0 <= y < r.height ==> #[trigger] r.at(x, y) == scaled_pixel(
                *img,
                scale as int,
                x,
                y,
            ),
{
    proof {
        let a = img.width as int / scale as int + 1;
        let b = img.height as int / scale as int + 1;
        assert(a <= usize::MAX && b <= usize::MAX) by (nonlinear_arith)
            requires
                a * b <= usize::MAX,
                a >= 1,
                b >= 1,
        ;
    }
    let w = img.width / scale + 1;
    let h = img.height / scale + 1;
    let mut pixels: Vec<Rgb> = Vec::with_capacity(w * h);
    let mut y: usize = 0;
    while y < h
        invariant
            img.wf(),
            scale > 0,
            w == img.width as int / scale as int + 1,
            h == img.height as int / scale as int + 1,
            w * h <= usize::MAX,
            y <= h,
            pixels@.len() == y * w,
            forall|yy: int, xx: int|
                0 <= yy < y && 0 <= xx < w ==> #[trigger] pixels@[pixel_index(w as int, xx, yy)]
                    == scaled_pixel(*img, scale as int, xx, yy),
        decreases h - y,
    {
        let mut x: usize = 0;
        while x < w
            invariant
                img.wf(),
                scale > 0,
                w == img.width as int / scale as int + 1,
                h == img.height as int / scale as int + 1,
                w * h <= usize::MAX,
                y < h,
                x <= w,
                pixels@.len() == y * w + x,
                forall|yy: int, xx: int|
                    0 <= yy < y && 0 <= xx < w ==> #[trigger] pixels@[pixel_index(w as int, xx, yy)]
                        == scaled_pixel(*img, scale as int, xx, yy),
                forall|xx: int|
                    0 <= xx < x ==> #[trigger] pixels@[pixel_index(w as int, xx, y as int)]
                        == scaled_pixel(*img, scale as int, xx, y as int),
            decreases w - x,
        {
            proof {
                lemma_pixel_index_in_bounds(w as int, h as int, x as int, y as int);
            }
            let ghost before = pixels@;
            proof {
                lemma_whole_tiles_bound(img.width as int, scale as int);
                lemma_whole_tiles_bound(img.height as int, scale as int);
                assert(x * scale <= img.width) by (nonlinear_arith)
                    requires
                        x <= img.width as int / scale as int,
                        scale > 0,
                        (img.width as int / scale as int) * scale <= img.width,
                ;
                assert(y * scale <= img.height) by (nonlinear_arith)
                    requires
                        y <= img.height as int / scale as int,
                        scale > 0,
                        (img.height as int / scale as int) * scale <= img.height,
                ;
            }
            let xs = x * scale;
            let ys = y * scale;
            let v = if xs < img.width && ys < img.height {
                img.get(xs, ys)
            } else {
                Rgb { r: 0, g: 0, b: 0 }
            };
            pixels.push(v);
            proof {
                assert forall|yy: int, xx: int|
                    0 <= yy < y && 0 <= xx < w implies #[trigger] pixels@[pixel_index(w as int, xx, yy)]
                    == scaled_pixel(*img, scale as int, xx, yy) by {
                    assert(yy * w + xx < y * w) by (nonlinear_arith)
                        requires
                            0 <= yy < y,
                            0 <= xx < w,
                    ;
                    assert(pixels@[pixel_index(w as int, xx, yy)] == before[pixel_index(w as int, xx, yy)]);
                }
                assert forall|xx: int|
                    0 <= xx < x + 1 implies #[trigger] pixels@[pixel_index(w as int, xx, y as int)]
                    == scaled_pixel(*img, scale as int, xx, y as int) by {
                    if xx < x {
                        assert(pixels@[pixel_index(w as int, xx, y as int)] == before[pixel_index(w as int, xx, y as int)]);
                    }
                }
            }
            x += 1;
        }
        proof {
            assert((y + 1) * w == y * w + w) by (nonlinear_arith);
            assert forall|yy: int, xx: int|
                0 <= yy < y + 1 && 0 <= xx < w implies #[trigger] pixels@[pixel_index(w as int, xx, yy)]
                == scaled_pixel(*img, scale as int, xx, yy) by {
                if yy == y {
                    assert(pixels@[pixel_index(w as int, xx, y as int)] == scaled_pixel(*img, scale as int, xx, y as int));
                }
            }
        }
        y += 1;
    }
    proof {
        assert(h * w == w * h) by (nonlinear_arith);
    }
    RgbRaster { width: w, height: h, pixels }
}

} // verus!
