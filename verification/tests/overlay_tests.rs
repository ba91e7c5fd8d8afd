use lighting_overlay::image_buf::RgbaImage;
use lighting_overlay::overlay::apply_overlay;
use lighting_overlay::pixel::{blend_pixels, Rgba};

const FULLDARK_ALPHA: f32 = 256.0 * 0.8;

/// The overlay strength a raw luminance sample asks for, or `None` where
/// the cell is left untouched.
fn lum_to_alpha(l: f32) -> Option<u8> {
    assert!(l >= 0.0, "lumcount {l} below 0");
    assert!(l <= 1.0, "lumcount {l} above 1");
    if l >= 0.9 {
        return None;
    }
    let alpha = FULLDARK_ALPHA - (FULLDARK_ALPHA * l);
    if alpha <= f32::EPSILON {
        return None;
    }
    Some(alpha.round() as u8)
}

fn white() -> Rgba {
    Rgba { r: 255, g: 255, b: 255, a: 255 }
}

#[test]
fn single_cell_darkens_all_but_last_row_and_column() {
    // a 1x1 grid holding luminance 0.5 over a 10x10 opaque white image
    let alpha = lum_to_alpha(0.5).unwrap();
    assert_eq!(alpha, 102);
    let grid = vec![vec![Some(alpha)]];
    let mut img = RgbaImage::new(10, 10, white());
    apply_overlay(&mut img, &grid);
    let darkened = blend_pixels(white(), Rgba { r: 0, g: 0, b: 0, a: 102 });
    assert_eq!(darkened, Rgba { r: 153, g: 153, b: 153, a: 255 });
    for x in 0..10u32 {
        for y in 0..10u32 {
            let expect = if x < 9 && y < 9 { darkened } else { white() };
            assert_eq!(img.get_pixel(x, y), expect, "at ({x},{y})");
        }
    }
}

#[test]
fn absent_and_fully_lit_cells_change_nothing() {
    // one column, two rows: bottom sample missing, top sample 1.0
    let samples: Vec<Option<f32>> = vec![None, Some(1.0)];
    let col: Vec<Option<u8>> = samples.into_iter().map(|s| s.and_then(lum_to_alpha)).collect();
    assert_eq!(col, vec![None, None]);
    let grid = vec![col];
    let mut img = RgbaImage::new(8, 8, Rgba { r: 10, g: 200, b: 30, a: 128 });
    apply_overlay(&mut img, &grid);
    for x in 0..8u32 {
        for y in 0..8u32 {
            assert_eq!(img.get_pixel(x, y), Rgba { r: 10, g: 200, b: 30, a: 128 });
        }
    }
}

#[test]
fn bright_samples_are_skipped() {
    // every luminance at or above 0.9 asks for no overlay
    for l in [0.9f32, 0.95, 0.99, 1.0] {
        assert_eq!(lum_to_alpha(l), None, "luminance {l}");
    }
    // and a sample whose overlay would be weaker than machine epsilon is
    // skipped too: at luminance 1.0 the overlay strength is exactly 0
    let alpha = FULLDARK_ALPHA - (FULLDARK_ALPHA * 1.0);
    assert!(alpha <= f32::EPSILON);
}

#[test]
fn dim_samples_darken() {
    assert_eq!(lum_to_alpha(0.0), Some(205));
    assert_eq!(lum_to_alpha(0.5), Some(102));
    assert_eq!(lum_to_alpha(0.89), Some(23));
}

#[test]
fn from_pixels_checks_the_length() {
    let pix = vec![white(); 6];
    let img = RgbaImage::from_pixels(2, 3, pix.clone()).unwrap();
    assert_eq!(img.get_pixel(1, 2), white());
    assert!(RgbaImage::from_pixels(2, 2, pix).is_none());
}

#[test]
fn empty_grid_changes_nothing() {
    let mut img = RgbaImage::new(5, 5, white());
    apply_overlay(&mut img, &vec![]);
    let mut img2 = RgbaImage::new(5, 5, white());
    apply_overlay(&mut img2, &vec![vec![], vec![]]);
    for x in 0..5u32 {
        for y in 0..5u32 {
            assert_eq!(img.get_pixel(x, y), white());
            assert_eq!(img2.get_pixel(x, y), white());
        }
    }
}

#[test]
fn one_pixel_image_is_all_border() {
    // the far row and column are never touched, and a 1x1 image is nothing
    // but that border
    let grid = vec![vec![Some(200u8)]];
    let mut img = RgbaImage::new(1, 1, white());
    apply_overlay(&mut img, &grid);
    assert_eq!(img.get_pixel(0, 0), white());
}

#[test]
fn columns_may_differ_in_height() {
    // two columns over a 12x12 image: the first holds three cells (4 rows
    // of pixels each), the second two cells (6 rows each)
    let grid: Vec<Vec<Option<u8>>> = vec![
        vec![Some(100), None, None],
        vec![None, Some(200)],
    ];
    let mut img = RgbaImage::new(12, 12, white());
    apply_overlay(&mut img, &grid);
    let d100 = blend_pixels(white(), Rgba { r: 0, g: 0, b: 0, a: 100 });
    let d200 = blend_pixels(white(), Rgba { r: 0, g: 0, b: 0, a: 200 });
    for x in 0..12u32 {
        for y in 0..12u32 {
            // first column, grid row 0: pixels x 0..6, y 8..11 (clipped)
            let expect = if x < 6 && (8..11).contains(&y) {
                d100
            } else if (6..11).contains(&x) && y < 6 {
                // second column, grid row 1 (top half), clipped at x == 11
                d200
            } else {
                white()
            };
            assert_eq!(img.get_pixel(x, y), expect, "at ({x},{y})");
        }
    }
}
