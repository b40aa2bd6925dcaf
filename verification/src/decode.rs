//! Reading a photo from the bytes of its file: the image crate decodes it
//! and turns it upright by its EXIF orientation; the library takes the
//! pixels and refuses HEIF photos, for which no decoder is at hand.
use vstd::prelude::*;
use image::{DynamicImage, ImageDecoder, ImageReader};
use image::metadata::Orientation;
use std::io::Cursor;
use crate::image::{Image, ImageView, Rgba, fits};
use crate::commands::is_heif;
use crate::chars::spec_ascii_lower_seq;

verus! {

/// What the image crate makes of a file's bytes: the width, height and
/// row-major pixels of the picture, turned upright by its EXIF orientation,
/// or the message of the error that stopped it.
pub uninterp spec fn decoded(bytes: Seq<u8>) -> Result<(u32, u32, Seq<Rgba>), Seq<char>>;

/// Decodes `bytes` with the image crate (`ImageReader` with the format
/// guessed from the content, the decoder's orientation applied, then
/// `into_rgba8`): the result is named `decoded` and nothing more is claimed.
#[verifier::external_body]
fn decode_pixels(bytes: &[u8]) -> (r: Result<(u32, u32, Vec<Rgba>), String>)
    ensures
        match r {
            Ok((w, h, px)) => decoded(bytes@) == Ok::<(u32, u32, Seq<Rgba>), Seq<char>>((w, h, px@)),
            Err(m) => decoded(bytes@) == Err::<(u32, u32, Seq<Rgba>), Seq<char>>(m@),
        },
{
    let reader = ImageReader::new(Cursor::new(bytes)).with_guessed_format().map_err(|e| e.to_string())?;
    let mut decoder = reader.into_decoder().map_err(|e| e.to_string())?;
    let orientation = decoder.orientation().unwrap_or(Orientation::NoTransforms);
    let mut picture = DynamicImage::from_decoder(decoder).map_err(|e| e.to_string())?;
    picture.apply_orientation(orientation);
    let rgba = picture.into_rgba8();
    Ok((rgba.width(), rgba.height(), rgba.pixels().map(|p| p.0).collect()))
}

/// Whether an extension names a HEIF photo, without regard to ASCII case.
pub open spec fn spec_is_heif(extension: Option<Seq<char>>) -> bool {
    extension matches Some(e) && (spec_ascii_lower_seq(e) == "heic"@ || spec_ascii_lower_seq(e) == "heif"@)
}

/// The message for a HEIF photo.
pub open spec fn heif_unsupported() -> Seq<char> {
    "当前平台没有可用的 HEIC 解码器"@
}

/// The message for a picture too large to hold.
pub open spec fn picture_too_large() -> Seq<char> {
    "图片尺寸过大"@
}

/// The photo in a file with this extension and these bytes: refused for
/// HEIF; otherwise the decoded picture, the decoder's message, or a refusal
/// where the picture cannot be held.
pub open spec fn spec_load_image(extension: Option<Seq<char>>, bytes: Seq<u8>) -> Result<ImageView, Seq<char>> {
    if spec_is_heif(extension) {
        Err(heif_unsupported())
    } else {
        match decoded(bytes) {
            Ok((w, h, px)) => if px.len() == w * h && fits(w as int, h as int) {
                Ok(ImageView { width: w as nat, height: h as nat, pixels: px })
            } else {
                Err(picture_too_large())
            },
            Err(m) => Err(m),
        }
    }
}

/// The optional extension's characters.
pub open spec fn extension_view(extension: Option<&str>) -> Option<Seq<char>> {
    match extension {
        Some(e) => Some(e@),
        None => None,
    }
}

/// Reads a photo from its file's extension and bytes: see
/// `spec_load_image`.
pub fn load_image_bytes(extension: Option<&str>, bytes: &[u8]) -> (r: Result<Image, String>)
    ensures
        match r {
            Ok(img) => img.wf() && spec_load_image(extension_view(extension), bytes@) == Ok::<ImageView, Seq<char>>(img@),
            Err(m) => spec_load_image(extension_view(extension), bytes@) == Err::<ImageView, Seq<char>>(m@),
        },
{
    if is_heif(extension) {
        return Err("当前平台没有可用的 HEIC 解码器".to_owned());
    }
    match decode_pixels(bytes) {
        Ok((w, h, px)) => match Image::from_pixels(w, h, px) {
            Some(img) => Ok(img),
            None => Err("图片尺寸过大".to_owned()),
        },
        Err(m) => Err(m),
    }
}

} // verus!
