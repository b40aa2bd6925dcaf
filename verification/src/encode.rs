//! Encoding an exported image: its colour bytes with the alpha dropped,
//! written as JPEG by the jpeg-encoder crate or as PNG by the image crate.
use vstd::prelude::*;
use image::ImageEncoder;
use image::codecs::png::PngEncoder;
use jpeg_encoder::{ColorType, Encoder, SamplingFactor};
use crate::image::{Image, ImageView, Rgba};
use crate::commands::{ChromaSampling, OutputFormat, chroma_sampling};

verus! {

/// What jpeg-encoder writes for row-major RGB bytes of the given size, at a
/// quality and a chroma sampling, or the message of the error it gives.
pub uninterp spec fn jpeg_bytes(rgb: Seq<u8>, width: u16, height: u16, quality: u8, sampling: ChromaSampling) -> Result<Seq<u8>, Seq<char>>;

/// What the image crate's PNG encoder writes for row-major RGB bytes of the
/// given size, or the message of the error it gives.
pub uninterp spec fn png_bytes(rgb: Seq<u8>, width: u32, height: u32) -> Result<Seq<u8>, Seq<char>>;

/// jpeg-encoder's `Encoder::new` into a byte vector, `set_sampling_factor`
/// and `encode` with `ColorType::Rgb`; the result is named `jpeg_bytes`.
#[verifier::external_body]
fn encode_jpeg(rgb: &[u8], width: u16, height: u16, quality: u8, sampling: ChromaSampling) -> (r: Result<Vec<u8>, String>)
    ensures
        match r {
            Ok(b) => jpeg_bytes(rgb@, width, height, quality, sampling) == Ok::<Seq<u8>, Seq<char>>(b@),
            Err(m) => jpeg_bytes(rgb@, width, height, quality, sampling) == Err::<Seq<u8>, Seq<char>>(m@),
        },
{
    let mut out = Vec::new();
    let mut encoder = Encoder::new(&mut out, quality);
    encoder.set_sampling_factor(match sampling {
        ChromaSampling::Quarter => SamplingFactor::F_2_2,
        ChromaSampling::Half => SamplingFactor::F_2_1,
        ChromaSampling::Full => SamplingFactor::F_1_1,
    });
    encoder.encode(rgb, width, height, ColorType::Rgb).map_err(|e| e.to_string())?;
    Ok(out)
}

/// The image crate's `PngEncoder::write_image` with 8-bit RGB into a byte
/// vector; the result is named `png_bytes`. The encoder asserts that the
/// buffer holds three bytes per pixel, so that is required.
#[verifier::external_body]
fn encode_png(rgb: &[u8], width: u32, height: u32) -> (r: Result<Vec<u8>, String>)
    requires
        rgb@.len() == 3 * width * height,
    ensures
        match r {
            Ok(b) => png_bytes(rgb@, width, height) == Ok::<Seq<u8>, Seq<char>>(b@),
            Err(m) => png_bytes(rgb@, width, height) == Err::<Seq<u8>, Seq<char>>(m@),
        },
{
    let mut out = Vec::new();
    PngEncoder::new(&mut out)
        .write_image(rgb, width, height, image::ExtendedColorType::Rgb8)
        .map_err(|e| e.to_string())?;
    Ok(out)
}

/// The red, green and blue bytes of each pixel in turn; alpha is dropped.
pub open spec fn rgb_of(pixels: Seq<Rgba>) -> Seq<u8>
    decreases pixels.len(),
{
    if pixels.len() == 0 {
        Seq::empty()
    } else {
        let p = pixels.last();
        rgb_of(pixels.drop_last()) + seq![p[0], p[1], p[2]]
    }
}

/// The colour bytes of an image, row by row.
pub fn rgb_bytes(image: &Image) -> (r: Vec<u8>)
    ensures
        r@ == rgb_of(image.pixels@),
        r@.len() == 3 * image.pixels@.len(),
{
    let mut out: Vec<u8> = Vec::new();
    let mut k: usize = 0;
    while k < image.pixels.len()
        invariant
            k <= image.pixels@.len(),
            out@ == rgb_of(image.pixels@.take(k as int)),
            out@.len() == 3 * k,
        decreases image.pixels.len() - k,
    {
        let p = image.pixels[k];
        out.push(p[0]);
        out.push(p[1]);
        out.push(p[2]);
        proof {
            assert(image.pixels@.take(k + 1).drop_last() =~= image.pixels@.take(k as int));
        }
        k = k + 1;
    }
    proof {
        assert(image.pixels@.take(k as int) =~= image.pixels@);
    }
    out
}

/// The file an image is exported as: JPEG of its colour bytes, the size cut
/// to 16 bits as `as u16` cuts it, at `quality` with the chroma sampling
/// the subsampling code selects; or PNG of its colour bytes.
pub open spec fn spec_encode_image(image: ImageView, format: OutputFormat, quality: u8, subsampling: u8) -> Result<Seq<u8>, Seq<char>> {
    let sampling = if subsampling == 2 {
        ChromaSampling::Quarter
    } else if subsampling == 1 {
        ChromaSampling::Half
    } else {
        ChromaSampling::Full
    };
    match format {
        OutputFormat::Jpeg => jpeg_bytes(rgb_of(image.pixels), image.width as u16, image.height as u16, quality, sampling),
        OutputFormat::Png => png_bytes(rgb_of(image.pixels), image.width as u32, image.height as u32),
    }
}

/// Encodes an image for export: see `spec_encode_image`.
pub fn encode_image(image: &Image, format: OutputFormat, quality: u8, subsampling: u8) -> (r: Result<Vec<u8>, String>)
    requires
        image.wf(),
    ensures
        match r {
            Ok(b) => spec_encode_image(image@, format, quality, subsampling) == Ok::<Seq<u8>, Seq<char>>(b@),
            Err(m) => spec_encode_image(image@, format, quality, subsampling) == Err::<Seq<u8>, Seq<char>>(m@),
        },
{
    let rgb = rgb_bytes(image);
    proof {
        let w = image.width as int;
        let h = image.height as int;
        assert(image.pixels@.len() == w * h);
        assert(3 * (w * h) == 3 * w * h) by (nonlinear_arith);
    }
    match format {
        OutputFormat::Jpeg => encode_jpeg(
            rgb.as_slice(),
            image.width as u16,
            image.height as u16,
            quality,
            chroma_sampling(subsampling),
        ),
        OutputFormat::Png => encode_png(rgb.as_slice(), image.width, image.height),
    }
}

} // verus!
