use liteexif::blur::gaussian_blur;
use liteexif::image::{alpha_over, crop_with_padding, replace, Image};
use liteexif::resample::resize;
use liteexif::shape::{corner_fits_exec, ellipse_insets, foreground_bbox, rounded_corner, trim};
use liteexif::blur::{rotate270, rotate90};
use image::ImageEncoder;
use liteexif::commands::OutputFormat;
use liteexif::decode::load_image_bytes;
use liteexif::encode::{encode_image, rgb_bytes};
use std::path::Path;

/// The box radius, weight and fringe of Pillow's extended box blur.
fn blur_parameters(radius: u32) -> (u32, u32, u32) {
    let sigma2 = (radius as f32).powi(2) / 3.0;
    let length = (12.0 * sigma2 as f64 + 1.0).sqrt() as f32;
    let l = ((length - 1.0) / 2.0).floor();
    let a = ((2.0 * l + 1.0) * (l * (l + 1.0) - 3.0 * sigma2))
        / (6.0 * (sigma2 - (l + 1.0) * (l + 1.0)));
    let fractional = l + a;
    let integer = fractional as u32;
    let weight = ((1u32 << 24) as f32 / (fractional * 2.0 + 1.0)) as u32;
    let fringe = ((1u32 << 24) - (integer * 2 + 1) * weight) / 2;
    (integer, weight, fringe)
}

/// Lanczos-3 kernels in 22-bit fixed point, one per output sample.
fn weights(input: u32, output: u32) -> Vec<(usize, Vec<i64>)> {
    let precision = (1i64 << 22) as f64;
    let ratio = input as f64 / output as f64;
    let scale = ratio.max(1.0);
    let support = 3.0 * scale;
    let sinc = |v: f64| {
        if v == 0.0 {
            1.0
        } else {
            let a = v * std::f64::consts::PI;
            a.sin() / a
        }
    };
    (0..output)
        .map(|out| {
            let center = (out as f64 + 0.5) * ratio;
            let left = ((center - support + 0.5) as i64).max(0) as usize;
            let right = ((center + support + 0.5) as usize).min(input as usize);
            let kernel: Vec<f64> = (left..right)
                .map(|x| {
                    let t = (x as f64 - center + 0.5) / scale;
                    if t.abs() < 3.0 {
                        sinc(t) * sinc(t / 3.0)
                    } else {
                        0.0
                    }
                })
                .collect();
            let sum: f64 = kernel.iter().sum();
            (
                left,
                kernel
                    .into_iter()
                    .map(|w| (w / sum * precision).round() as i64)
                    .collect(),
            )
        })
        .collect()
}

fn fixture(name: &str) -> Image {
    let image = ::image::open(Path::new("tests/fixtures").join(name))
        .unwrap()
        .into_rgba8();
    let pixels = image.pixels().map(|p| p.0).collect();
    Image::from_pixels(image.width(), image.height(), pixels).unwrap()
}

fn fixtures_available() -> bool {
    Path::new("tests/fixtures").join("source.png").is_file()
}

fn same(a: &Image, b: &Image) -> bool {
    a.width == b.width && a.height == b.height && a.pixels == b.pixels
}

#[test]
fn composition_uses_pillow_paste_semantics() {
    let mut canvas = Image::from_pixel(1, 1, [0, 100, 200, 128]);
    let source = Image::from_pixel(1, 1, [200, 30, 0, 64]);

    alpha_over(&mut canvas, &source, 0, 0);

    assert_eq!(canvas.get_pixel(0, 0), [50, 82, 150, 112]);
}

#[test]
fn crop_preserves_requested_size_outside_source() {
    let mut source = Image::new(2, 2);
    source.put_pixel(1, 1, [10, 20, 30, 255]);

    let output = crop_with_padding(&source, 0, 0, 3, 3);

    assert_eq!((output.width, output.height), (3, 3));
    assert_eq!(output.get_pixel(1, 1), [10, 20, 30, 255]);
    assert_eq!(output.get_pixel(2, 2), [0, 0, 0, 0]);
}

#[test]
fn gaussian_blur_preserves_a_uniform_image() {
    let source = Image::from_pixel(32, 48, [17, 91, 203, 255]);
    let (box_radius, weight, _) = blur_parameters(20);
    let output = gaussian_blur(&source, 20, box_radius, weight);

    assert_eq!((output.width, output.height), (source.width, source.height));
    assert!(output.pixels.iter().all(|pixel| *pixel == [17, 91, 203, 255]));
}

#[test]
fn resampling_matches_pillow_including_transparent_edges() {
    if !fixtures_available() {
        println!("skipping: run scripts/generate-raster-fixtures.py first");
        return;
    }
    let input = fixture("source.png");
    for (w, h) in [(74, 46), (51, 31), (19, 11), (13, 41)] {
        let out = resize(&input, w, h, &weights(input.width, w), &weights(input.height, h));
        assert!(same(&out, &fixture(&format!("resize-{w}-{h}.png"))), "{w}x{h}");
    }
}

#[test]
fn blur_matches_pillow_including_radius_larger_than_image() {
    if !fixtures_available() {
        println!("skipping: run scripts/generate-raster-fixtures.py first");
        return;
    }
    let input = fixture("source.png");
    for radius in [1, 3, 9, 35] {
        let (r, w, _) = blur_parameters(radius);
        let out = gaussian_blur(&input, radius, r, w);
        assert!(same(&out, &fixture(&format!("blur-{radius}.png"))), "radius {radius}");
    }
}

#[test]
fn rounded_corners_match_pillow_including_alpha_replacement() {
    if !fixtures_available() {
        println!("skipping: run scripts/generate-raster-fixtures.py first");
        return;
    }
    let input = fixture("source.png");
    for radius in [0, 3, 6, 37] {
        let out = rounded_corner(&input, radius);
        assert!(same(&out, &fixture(&format!("round-{radius}.png"))), "radius {radius}");
    }
}

#[test]
fn opaque_paste_replaces_and_transparent_paste_keeps() {
    let mut canvas = Image::from_pixel(3, 3, [9, 9, 9, 9]);
    let opaque = Image::from_pixel(2, 1, [1, 2, 3, 255]);
    alpha_over(&mut canvas, &opaque, 1, 1);
    assert_eq!(canvas.get_pixel(1, 1), [1, 2, 3, 255]);
    assert_eq!(canvas.get_pixel(2, 1), [1, 2, 3, 255]);
    assert_eq!(canvas.get_pixel(0, 1), [9, 9, 9, 9]);
    let clear = Image::from_pixel(3, 3, [200, 200, 200, 0]);
    alpha_over(&mut canvas, &clear, 0, 0);
    assert_eq!(canvas.get_pixel(1, 1), [1, 2, 3, 255]);
    assert_eq!(canvas.get_pixel(0, 0), [9, 9, 9, 9]);
}

#[test]
fn paste_skips_pixels_outside_the_canvas() {
    let mut canvas = Image::from_pixel(2, 2, [0, 0, 0, 255]);
    let source = Image::from_pixel(2, 2, [255, 255, 255, 255]);
    alpha_over(&mut canvas, &source, -1, 1);
    assert_eq!(canvas.get_pixel(0, 1), [255, 255, 255, 255]);
    assert_eq!(canvas.get_pixel(1, 1), [0, 0, 0, 255]);
    assert_eq!(canvas.get_pixel(0, 0), [0, 0, 0, 255]);
}

#[test]
fn replace_copies_without_blending() {
    let mut canvas = Image::from_pixel(2, 2, [5, 5, 5, 255]);
    let source = Image::from_pixel(1, 1, [7, 8, 9, 10]);
    replace(&mut canvas, &source, 1, 0);
    assert_eq!(canvas.get_pixel(1, 0), [7, 8, 9, 10]);
    assert_eq!(canvas.get_pixel(0, 0), [5, 5, 5, 255]);
}

#[test]
fn crop_with_negative_offset_pads_top_left() {
    let source = Image::from_pixel(2, 2, [1, 1, 1, 255]);
    let output = crop_with_padding(&source, -1, -1, 2, 2);
    assert_eq!(output.get_pixel(0, 0), [0, 0, 0, 0]);
    assert_eq!(output.get_pixel(1, 1), [1, 1, 1, 255]);
}

#[test]
fn blur_radius_zero_is_identity() {
    let mut source = Image::new(3, 2);
    source.put_pixel(2, 1, [4, 5, 6, 7]);
    let output = gaussian_blur(&source, 0, 0, 0);
    assert!(same(&output, &source));
}

#[test]
fn blur_spreads_a_single_bright_pixel() {
    let mut source = Image::from_pixel(9, 9, [0, 0, 0, 255]);
    source.put_pixel(4, 4, [255, 255, 255, 255]);
    let (r, w, _) = blur_parameters(1);
    let output = gaussian_blur(&source, 1, r, w);
    let centre = output.get_pixel(4, 4);
    let neighbour = output.get_pixel(5, 4);
    assert!(centre[0] < 255 && centre[0] > neighbour[0]);
    assert!(neighbour[0] > 0);
    assert_eq!(output.get_pixel(0, 0)[0], 0);
    assert_eq!(centre[3], 255);
}

#[test]
fn quarter_turns_undo_each_other() {
    let mut source = Image::new(3, 2);
    source.put_pixel(0, 0, [1, 0, 0, 255]);
    source.put_pixel(2, 1, [2, 0, 0, 255]);
    let turned = rotate90(&source);
    assert_eq!((turned.width, turned.height), (2, 3));
    assert_eq!(turned.get_pixel(1, 0), [1, 0, 0, 255]);
    let back = rotate270(&turned);
    assert!(same(&back, &source));
}

#[test]
fn resize_to_the_same_size_is_a_copy() {
    let source = Image::from_pixel(4, 3, [10, 20, 30, 40]);
    let out = resize(&source, 4, 3, &Vec::new(), &Vec::new());
    assert!(same(&out, &source));
}

#[test]
fn resize_of_a_uniform_opaque_image_stays_uniform() {
    let source = Image::from_pixel(8, 6, [10, 20, 30, 255]);
    let out = resize(&source, 4, 3, &weights(8, 4), &weights(6, 3));
    assert_eq!((out.width, out.height), (4, 3));
    assert!(out.pixels.iter().all(|p| *p == [10, 20, 30, 255]));
}

#[test]
fn ellipse_insets_of_a_small_circle() {
    let insets = ellipse_insets(6, 6);
    assert_eq!(insets.len(), 7);
    assert_eq!(insets[3], 0);
    assert!(insets[0] > insets[1]);
    assert_eq!(insets[0], insets[6]);
}

#[test]
fn rounded_corner_clears_only_the_corners() {
    let source = Image::from_pixel(20, 20, [1, 2, 3, 255]);
    let out = rounded_corner(&source, 5);
    assert_eq!(out.get_pixel(0, 0), [1, 2, 3, 0]);
    assert_eq!(out.get_pixel(10, 10), [1, 2, 3, 255]);
    assert_eq!(out.get_pixel(10, 0), [1, 2, 3, 255]);
    assert_eq!(out.get_pixel(19, 19), [1, 2, 3, 0]);
}

#[test]
fn trim_finds_the_content_box() {
    let mut source = Image::from_pixel(10, 8, [255, 255, 255, 255]);
    source.put_pixel(3, 2, [0, 0, 0, 255]);
    source.put_pixel(6, 5, [0, 0, 0, 255]);
    assert_eq!(foreground_bbox(&source, true, true, true, true), (3, 2, 7, 6));
    assert_eq!(foreground_bbox(&source, true, true, false, false), (3, 0, 7, 8));
    let out = trim(&source, true, true, true, true);
    assert_eq!((out.width, out.height), (4, 4));
    assert_eq!(out.get_pixel(0, 0), [0, 0, 0, 255]);
}

#[test]
fn trim_of_a_blank_image_keeps_one_pixel() {
    let source = Image::from_pixel(5, 4, [9, 9, 9, 255]);
    assert_eq!(foreground_bbox(&source, true, true, true, true), (0, 0, 5, 4));
}

#[test]
fn photos_decode_from_their_bytes() {
    let mut source = image::RgbaImage::new(3, 2);
    source.put_pixel(2, 1, image::Rgba([10, 20, 30, 255]));
    source.put_pixel(0, 0, image::Rgba([1, 2, 3, 4]));
    let mut bytes = Vec::new();
    image::codecs::png::PngEncoder::new(&mut bytes)
        .write_image(source.as_raw(), 3, 2, image::ExtendedColorType::Rgba8)
        .unwrap();
    let decoded = load_image_bytes(Some("png"), &bytes).unwrap();
    assert_eq!((decoded.width, decoded.height), (3, 2));
    assert_eq!(decoded.get_pixel(2, 1), [10, 20, 30, 255]);
    assert_eq!(decoded.get_pixel(0, 0), [1, 2, 3, 4]);
    assert_eq!(decoded.get_pixel(1, 0), [0, 0, 0, 0]);
    assert_eq!(load_image_bytes(Some("HEIC"), &bytes).unwrap_err(), "当前平台没有可用的 HEIC 解码器");
    assert!(load_image_bytes(Some("jpg"), b"not an image").is_err());
}

#[test]
fn only_the_corner_ellipse_is_bounded() {
    assert!(corner_fits_exec(0x5000_0000, 10, 2));
    assert!(corner_fits_exec(0x5000_0000, 0x5000_0000, 100));
    assert!(!corner_fits_exec(0x5000_0000, 0x5000_0000, 0x3000_0000));
    assert!(corner_fits_exec(100, 50, 1_000_000));
}

#[test]
fn exports_encode_the_colour_bytes() {
    let mut source = Image::from_pixel(2, 1, [10, 20, 30, 0]);
    source.put_pixel(1, 0, [40, 50, 60, 255]);
    assert_eq!(rgb_bytes(&source), vec![10, 20, 30, 40, 50, 60]);
    let png = encode_image(&source, OutputFormat::Png, 90, 0).unwrap();
    let back = load_image_bytes(Some("png"), &png).unwrap();
    assert_eq!(back.get_pixel(0, 0), [10, 20, 30, 255]);
    assert_eq!(back.get_pixel(1, 0), [40, 50, 60, 255]);
    let jpeg = encode_image(&source, OutputFormat::Jpeg, 100, 0).unwrap();
    assert_eq!(&jpeg[..2], &[0xFF, 0xD8]);
    let decoded = load_image_bytes(Some("jpg"), &jpeg).unwrap();
    assert_eq!((decoded.width, decoded.height), (2, 1));
}
