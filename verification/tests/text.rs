use liteexif::typeface::render_text;
use liteexif::glyphs::{glyphs_in_range, layout_glyphs, needs_kerning, round_to_pixels, try_render_line, Glyph};

fn glyph(kerning: i64, advance: i64, x_min: i64, x_max: i64, left: i64, top: i64, width: usize, rows: usize, coverage: Vec<u8>) -> Glyph {
    Glyph { kerning, advance, x_min, x_max, left, top, width, rows, pitch: width, coverage }
}

fn two_glyphs() -> Vec<Glyph> {
    vec![
        glyph(0, 320, 0, 4, 1, 3, 2, 2, vec![255, 0, 128, 64]),
        glyph(-64, 384, -1, 5, 0, 2, 1, 1, vec![255]),
    ]
}

#[test]
fn pixels_round_halves_up_and_floor_below_zero() {
    assert_eq!(round_to_pixels(0), 0);
    assert_eq!(round_to_pixels(31), 0);
    assert_eq!(round_to_pixels(32), 1);
    assert_eq!(round_to_pixels(640), 10);
    assert_eq!(round_to_pixels(-32), 0);
    assert_eq!(round_to_pixels(-33), -1);
    assert_eq!(round_to_pixels(-64), -1);
    assert_eq!(round_to_pixels(-128), -2);
}

#[test]
fn kerning_needs_two_known_glyphs_and_a_kerned_font() {
    assert!(needs_kerning(3, 4, true));
    assert!(!needs_kerning(0, 4, true));
    assert!(!needs_kerning(3, 0, true));
    assert!(!needs_kerning(3, 4, false));
}

#[test]
fn layout_places_glyphs_by_the_rounded_pen() {
    let (xs, left, right) = layout_glyphs(&two_glyphs());
    assert_eq!(xs, vec![0, 5]);
    assert_eq!(left, 0);
    assert_eq!(right, 11);
}

#[test]
fn layout_extends_left_of_the_origin() {
    let glyphs = vec![glyph(0, 64, -3, 1, 0, 0, 0, 0, Vec::new())];
    let (xs, left, right) = layout_glyphs(&glyphs);
    assert_eq!((xs, left, right), (vec![0], -3, 1));
}

#[test]
fn a_line_is_inked_in_straight_colour() {
    let image = try_render_line(640, -128, &two_glyphs(), [10, 20, 30, 255]).unwrap();
    assert_eq!((image.width, image.height), (11, 12));
    assert_eq!(image.get_pixel(1, 7), [10, 20, 30, 255]);
    assert_eq!(image.get_pixel(2, 7), [0, 0, 0, 0]);
    assert_eq!(image.get_pixel(1, 8), [10, 20, 30, 128]);
    assert_eq!(image.get_pixel(2, 8), [10, 20, 30, 64]);
    assert_eq!(image.get_pixel(5, 8), [10, 20, 30, 255]);
    assert_eq!(image.get_pixel(0, 0), [0, 0, 0, 0]);
}

#[test]
fn the_colour_alpha_scales_the_coverage() {
    let image = try_render_line(640, -128, &two_glyphs(), [10, 20, 30, 128]).unwrap();
    assert_eq!(image.get_pixel(1, 7), [10, 20, 30, 128]);
    assert_eq!(image.get_pixel(1, 8), [10, 20, 30, 64]);
}

#[test]
fn overlapping_glyphs_lay_coverage_over_coverage() {
    let glyphs = vec![
        glyph(0, 0, 0, 1, 0, 1, 1, 1, vec![128]),
        glyph(0, 64, 0, 1, 0, 1, 1, 1, vec![128]),
    ];
    let image = try_render_line(64, 0, &glyphs, [1, 2, 3, 255]).unwrap();
    assert_eq!((image.width, image.height), (1, 1));
    assert_eq!(image.get_pixel(0, 0), [1, 2, 3, 192]);
}

#[test]
fn an_empty_line_is_one_pixel_wide() {
    let image = try_render_line(640, -128, &Vec::new(), [0, 0, 0, 255]).unwrap();
    assert_eq!((image.width, image.height), (1, 12));
}

#[test]
fn short_bitmaps_are_refused() {
    let glyphs = vec![glyph(0, 64, 0, 1, 0, 1, 2, 2, vec![1, 2, 3])];
    assert!(!glyphs_in_range(&glyphs));
    assert!(try_render_line(640, -128, &glyphs, [0, 0, 0, 255]).is_none());
    assert!(glyphs_in_range(&two_glyphs()));
    assert!(try_render_line(1 << 41, 0, &two_glyphs(), [0, 0, 0, 255]).is_none());
}

#[test]
fn text_needs_a_face_that_opens() {
    assert!(render_text(None, b"not a font", "Ab", [0, 0, 0, 255]).is_none());
    assert!(render_text(Some(b"neither is this"), b"not a font", "Ab", [0, 0, 0, 255]).is_none());
}
