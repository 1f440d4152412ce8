use asciifier::chars::{
    char_boxing, polarity_byte, rasterize_glyph, remove_padding, GlyphOutline, RasterizedChar,
};
use asciifier::coverage::{Coverage, COVERAGE_ONE};
use asciifier::error::{AsciiError, FontParseErrors};
use asciifier::font_handler::{CharAlignment, CharDistributionType, CharacterBackground};
use asciifier::grouped_image::{GroupedImage, PixelGroup};
use asciifier::raster::{
    convert_to_gray, get_adjusted_size, luma, scale_down, GrayRaster, Rgb, RgbRaster,
};

fn gray(width: usize, height: usize, f: impl Fn(usize, usize) -> u8) -> GrayRaster {
    let mut pixels = Vec::new();
    for y in 0..height {
        for x in 0..width {
            pixels.push(f(x, y));
        }
    }
    GrayRaster { width, height, pixels }
}

fn tile(pixels: Vec<u8>, w: usize, h: usize, c: char) -> RasterizedChar {
    RasterizedChar::new(c, GrayRaster { width: w, height: h, pixels }, (w, h), CharAlignment::Left)
        .unwrap()
}

#[test]
fn coverage_of_quadrants() {
    // left half white, right half black, 8 x 8
    let g = gray(8, 8, |x, _| if x < 4 { 255 } else { 0 });
    let c = Coverage::new(&g, 0, 0, 8, 8).unwrap();
    let one = COVERAGE_ONE;
    assert_eq!(c.values(), &vec![one, one, one, one, one, one, one, one, 0, 0, 0, 0, 0, 0, 0, 0]);
    assert_eq!(c.avg(), one / 2);
    assert_eq!(c.max(), one);
    assert_eq!(c.min(), 0);
}

#[test]
fn coverage_index_runs_down_each_column_band() {
    // one white pixel at x = 1, y = 0: column band 1, row band 0
    let g = gray(4, 4, |x, y| if x == 1 && y == 0 { 255 } else { 0 });
    let c = Coverage::new(&g, 0, 0, 4, 4).unwrap();
    for (k, v) in c.values().iter().enumerate() {
        assert_eq!(*v, if k == 4 { COVERAGE_ONE } else { 0 });
    }
}

#[test]
fn coverage_drops_remainder_pixels() {
    // 5 x 5: sub-regions are 1 x 1, the last row and column are left out
    let g = gray(5, 5, |x, y| if x == 4 || y == 4 { 255 } else { 51 });
    let c = Coverage::new(&g, 0, 0, 5, 5).unwrap();
    assert!(c.values().iter().all(|v| *v == 200_000));
}

#[test]
fn coverage_of_an_offset_region() {
    let g = gray(10, 6, |x, y| if x >= 6 && y >= 2 { 255 } else { 0 });
    let c = Coverage::new(&g, 6, 2, 4, 4).unwrap();
    assert!(c.values().iter().all(|v| *v == COVERAGE_ONE));
}

#[test]
fn small_regions_are_refused() {
    let g = gray(8, 8, |_, _| 0);
    for (w, h) in [(3, 8), (8, 3), (0, 0)] {
        assert_eq!(
            Coverage::new(&g, 0, 0, w, h),
            Err(AsciiError::FontParse(FontParseErrors::FontSizeTooSmall))
        );
    }
    assert!(Coverage::new(&g, 0, 0, 4, 4).is_ok());
}

#[test]
fn distance_is_euclidean() {
    let a = Coverage::new(&gray(4, 4, |_, _| 255), 0, 0, 4, 4).unwrap();
    let b = Coverage::new(&gray(4, 4, |x, _| if x == 0 { 0 } else { 255 }), 0, 0, 4, 4).unwrap();
    let one = COVERAGE_ONE as u64;
    assert_eq!(a.dist_squared(&b), 4 * one * one);
    assert_eq!(a.dist(&b), 2 * one);
    assert_eq!(a.dist(&a), 0);
    // three sub-regions apart by full coverage: sqrt(3) = 1.7320508...
    let c = Coverage::new(&gray(4, 4, |x, y| if x == 0 && y < 3 { 0 } else { 255 }), 0, 0, 4, 4).unwrap();
    assert_eq!(a.dist(&c), 1_732_050);
}

#[test]
fn from_func_maps_every_value() {
    let a = Coverage::new(&gray(4, 4, |x, _| (x * 85) as u8), 0, 0, 4, 4).unwrap();
    let half = a.from_func(|v| v / 2);
    for (v, h) in a.values().iter().zip(half.values()) {
        assert_eq!(*h, *v / 2);
    }
}

#[test]
fn luminance_weights() {
    assert_eq!(luma(Rgb { r: 255, g: 255, b: 255 }), 255);
    assert_eq!(luma(Rgb { r: 100, g: 0, b: 0 }), 29);
    assert_eq!(luma(Rgb { r: 0, g: 100, b: 0 }), 58);
    assert_eq!(luma(Rgb { r: 0, g: 0, b: 100 }), 11);
    let img = RgbRaster { width: 2, height: 1, pixels: vec![Rgb { r: 10, g: 20, b: 30 }, Rgb { r: 0, g: 0, b: 0 }] };
    let g = convert_to_gray(&img);
    assert_eq!((g.width, g.height), (2, 1));
    assert_eq!(g.pixels, vec![18, 0]);
}

#[test]
fn adjusted_size_drops_partial_tiles() {
    assert_eq!(get_adjusted_size(100, 50, 8, 12), (96, 48));
    assert_eq!(get_adjusted_size(7, 7, 8, 8), (0, 0));
    assert_eq!(get_adjusted_size(16, 16, 8, 8), (16, 16));
}

#[test]
fn scale_down_keeps_every_nth_pixel() {
    let pixels = (0..16).map(|i| Rgb { r: i as u8, g: 0, b: 0 }).collect();
    let img = RgbRaster { width: 4, height: 4, pixels };
    let s = scale_down(&img, 2);
    assert_eq!((s.width, s.height), (3, 3));
    let reds: Vec<u8> = s.pixels.iter().map(|p| p.r).collect();
    assert_eq!(reds, vec![0, 2, 0, 8, 10, 0, 0, 0, 0]);
}

#[test]
fn polarity_black_and_white() {
    assert_eq!(polarity_byte(CharacterBackground::Black, 0), 0);
    assert_eq!(polarity_byte(CharacterBackground::Black, 500_000), 127);
    assert_eq!(polarity_byte(CharacterBackground::Black, 2_000_000), 255);
    assert_eq!(polarity_byte(CharacterBackground::White, 0), 255);
    assert_eq!(polarity_byte(CharacterBackground::White, 500_000), 255);
    assert_eq!(polarity_byte(CharacterBackground::White, 1_000_000), 255);
    assert_eq!(polarity_byte(CharacterBackground::White, 2_000_000), 127);
}

#[test]
fn padding_is_removed() {
    assert_eq!(remove_padding((-3, 5), (4, 9)), ((0, 0), (7, 4)));
    assert_eq!(remove_padding((0, 0), (2, 3)), ((0, 0), (2, 3)));
}

#[test]
fn outline_shape_is_checked() {
    assert!(GlyphOutline::new((0, 0), (2, 3), vec![0; 6]).is_some());
    assert!(GlyphOutline::new((0, 0), (2, 3), vec![0; 5]).is_none());
    assert!(GlyphOutline::new((2, 0), (0, 3), vec![]).is_none());
    let o = GlyphOutline::new((-1, -4), (1, 0), vec![0; 8]).unwrap();
    assert_eq!(o.ink_size(), (2, 4));
}

#[test]
fn alignment_places_the_ink_box() {
    let one = COVERAGE_ONE;
    let o = GlyphOutline::new((0, 0), (2, 2), vec![one; 4]).unwrap();
    let rows = |a: CharAlignment| {
        let t = rasterize_glyph(&o, (6, 4), a, CharacterBackground::Black);
        assert_eq!((t.width, t.height), (6, 4));
        t.pixels
    };
    let left = rows(CharAlignment::Left);
    let center = rows(CharAlignment::Center);
    let right = rows(CharAlignment::Right);
    let expect = |ox: usize| {
        let mut v = vec![0u8; 24];
        for y in 2..4 {
            for x in ox..ox + 2 {
                v[y * 6 + x] = 255;
            }
        }
        v
    };
    assert_eq!(left, expect(0));
    assert_eq!(center, expect(2));
    assert_eq!(right, expect(4));
}

#[test]
fn oversized_ink_is_clipped() {
    let o = GlyphOutline::new((0, 0), (3, 1), vec![COVERAGE_ONE; 3]).unwrap();
    let t = rasterize_glyph(&o, (2, 2), CharAlignment::Left, CharacterBackground::Black);
    assert_eq!(t.pixels, vec![0, 0, 255, 255]);
}

#[test]
fn char_box_takes_the_largest_ink_and_the_height_floor() {
    let a = GlyphOutline::new((0, 0), (3, 7), vec![0; 21]).unwrap();
    let b = GlyphOutline::new((0, 0), (5, 2), vec![0; 10]).unwrap();
    let outlines = vec![a, b];
    assert_eq!(char_boxing(&outlines, 4, None), (5, 7));
    assert_eq!(char_boxing(&outlines, 9, None), (5, 9));
    assert_eq!(char_boxing(&outlines, 4, Some(8)), (8, 7));
    assert_eq!(char_boxing(&vec![], 6, None), (0, 6));
}

#[test]
fn exact_distribution_keeps_raw() {
    let mut tiles = vec![tile(vec![51; 16], 4, 4, 'a'), tile(vec![102; 16], 4, 4, 'b')];
    CharDistributionType::Exact.adjust_coverage(&mut tiles);
    for t in &tiles {
        assert_eq!(t.adjusted_coverage, t.coverage);
    }
}

#[test]
fn blacks_distribution_reaches_full_coverage() {
    let mut tiles = vec![tile(vec![51; 16], 4, 4, 'a'), tile(vec![102; 16], 4, 4, 'b')];
    CharDistributionType::ExactAdjustedBlacks.adjust_coverage(&mut tiles);
    assert!(tiles[0].adjusted_coverage.values().iter().all(|v| *v == COVERAGE_ONE / 2));
    assert!(tiles[1].adjusted_coverage.values().iter().all(|v| *v == COVERAGE_ONE));
    let top = tiles.iter().map(|t| t.adjusted_coverage.max()).max().unwrap();
    assert_eq!(top, COVERAGE_ONE);
}

#[test]
fn whites_distribution_subtracts_min_then_divides_by_max() {
    let mut tiles = vec![tile(vec![51; 16], 4, 4, 'a'), tile(vec![102; 16], 4, 4, 'b')];
    CharDistributionType::ExactAdjustedWhites.adjust_coverage(&mut tiles);
    // (0.2 - 0.2) / 0.4 and (0.4 - 0.2) / 0.4
    assert!(tiles[0].adjusted_coverage.values().iter().all(|v| *v == 0));
    assert!(tiles[1].adjusted_coverage.values().iter().all(|v| *v == COVERAGE_ONE / 2));
}

#[test]
fn blank_set_stays_blank() {
    let mut tiles = vec![tile(vec![0; 16], 4, 4, 'a')];
    CharDistributionType::ExactAdjustedBlacks.adjust_coverage(&mut tiles);
    assert!(tiles[0].adjusted_coverage.values().iter().all(|v| *v == 0));
}

#[test]
fn small_tiles_are_refused() {
    let r = RasterizedChar::new(
        'x',
        GrayRaster { width: 3, height: 4, pixels: vec![0; 12] },
        (3, 4),
        CharAlignment::Left,
    );
    assert!(matches!(r, Err(AsciiError::FontParse(FontParseErrors::FontSizeTooSmall))));
}

#[test]
fn grid_has_whole_tiles_only() {
    let img = RgbRaster { width: 21, height: 13, pixels: vec![Rgb { r: 0, g: 0, b: 0 }; 21 * 13] };
    let g = GroupedImage::new(5, 4, &img).unwrap();
    assert_eq!(g.num_rows(), 3);
    assert_eq!(g.num_cols(), Some(4));
    assert_eq!(g.num_groups(), 12);
    assert!(g.groups.iter().all(|row| row.len() == 4));
}

#[test]
fn grid_refuses_small_cells() {
    let img = RgbRaster { width: 16, height: 16, pixels: vec![Rgb { r: 0, g: 0, b: 0 }; 256] };
    assert!(matches!(
        GroupedImage::new(3, 8, &img),
        Err(AsciiError::FontParse(FontParseErrors::FontSizeTooSmall))
    ));
    assert!(matches!(
        GroupedImage::new(8, 2, &img),
        Err(AsciiError::FontParse(FontParseErrors::FontSizeTooSmall))
    ));
}

#[test]
fn grid_cells_follow_row_major_order() {
    // left cell white, right cell black, in one row of two 4 x 4 cells
    let mut pixels = Vec::new();
    for _y in 0..4 {
        for x in 0..8 {
            pixels.push(if x < 4 { Rgb { r: 255, g: 255, b: 255 } } else { Rgb { r: 0, g: 0, b: 0 } });
        }
    }
    let img = RgbRaster { width: 8, height: 4, pixels };
    let g = GroupedImage::new(4, 4, &img).unwrap();
    assert_eq!(g.num_rows(), 1);
    assert_eq!(g.groups[0][0].coverage.max(), COVERAGE_ONE);
    assert_eq!(g.groups[0][1].coverage.max(), 0);
    assert_eq!(g.groups[0][0].color, Rgb { r: 255, g: 255, b: 255 });
    assert_eq!(g.groups[0][1].color, Rgb { r: 255, g: 255, b: 255 });
}

#[test]
fn pixel_group_mean_color_and_tint() {
    let img = RgbRaster { width: 4, height: 4, pixels: vec![Rgb { r: 200, g: 100, b: 0 }; 16] };
    let gray = convert_to_gray(&img);
    let p = PixelGroup::new(&img, &gray, 0, 0, 4, 4).unwrap();
    // luma 118 -> coverage 462745; add = 55 * 537255 / 1e6 = 29
    assert_eq!(p.coverage.max(), 462_745);
    assert_eq!(p.color, Rgb { r: 229, g: 129, b: 29 });
}

#[test]
fn every_cell_value_is_a_fraction() {
    let pixels = (0..24 * 16)
        .map(|i: usize| Rgb { r: (i * 37 % 256) as u8, g: (i * 91 % 256) as u8, b: (i * 11 % 256) as u8 })
        .collect();
    let img = RgbRaster { width: 24, height: 16, pixels };
    let g = GroupedImage::new(6, 5, &img).unwrap();
    for row in &g.groups {
        for cell in row {
            assert!(cell.coverage.values().iter().all(|v| *v <= COVERAGE_ONE));
        }
    }
}
