//! A verified core for photo watermarking: configuration and EXIF text,
//! directory listings, colours, raster composition, resampling and blur,
//! and the buffer bookkeeping of processing pipelines.
use vstd::prelude::*;

pub mod chars;
pub mod image;
pub mod pipeline;
pub mod blur;
pub mod resample;
pub mod shape;
pub mod sort;
pub mod compose;
pub mod ini;
pub mod ini_reread;
pub mod exif;
pub mod accel;
pub mod listing;
pub mod fonts;
pub mod json;
pub mod color;
pub mod arrange;
pub mod nodes;
pub mod template;
pub mod footer;
pub mod commands;
pub mod glyphs;
pub mod decode;
pub mod typeface;
pub mod encode;

verus! {
} // verus!
