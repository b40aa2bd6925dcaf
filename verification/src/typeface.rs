//! Text lines from a font file's bytes: FreeType opens the face and renders
//! each glyph; the library chooses the face and its size, collects the
//! glyphs with their kerning, and lays the line out and draws it.
use vstd::prelude::*;
use freetype::face::{KerningMode, LoadFlag};
use freetype::ffi::FT_GLYPH_BBOX_PIXELS;
use freetype::Library;
use crate::chars::to_chars;
use crate::image::{Image, ImageView, Rgba};
use crate::glyphs::{Glyph, GlyphShape, shapes, needs_kerning, try_render_line, line_drawable, spec_render_line};

verus! {

/// Whether FreeType opens a face from these bytes.
pub uninterp spec fn face_opens(font: Seq<u8>) -> bool;

/// The face's ascender and descender, in 1/64 pixel, at a pixel size.
pub uninterp spec fn face_line_metrics(font: Seq<u8>, pixel_size: u32) -> Option<(i64, i64)>;

/// Whether the face carries kerning.
pub uninterp spec fn face_kerned(font: Seq<u8>) -> Option<bool>;

/// The face's glyph index for a character, 0 where it has none.
pub uninterp spec fn face_char_index(font: Seq<u8>, c: char) -> Option<u32>;

/// The horizontal kerning between two glyphs, in 1/64 pixel, at a pixel
/// size.
pub uninterp spec fn face_kerning(font: Seq<u8>, pixel_size: u32, left: u32, right: u32) -> Option<i64>;

/// A rendered glyph's advance (1/64 pixel), box left and right edges, and
/// bitmap left and top (pixels), at a pixel size.
pub uninterp spec fn face_glyph_outline(font: Seq<u8>, pixel_size: u32, id: u32) -> Option<(i64, i64, i64, i64, i64)>;

/// A rendered glyph's bitmap: width, rows, signed bytes per row (negative
/// for a bitmap stored bottom row first) and coverage.
pub uninterp spec fn face_glyph_bitmap(font: Seq<u8>, pixel_size: u32, id: u32) -> Option<(usize, usize, i32, Seq<u8>)>;

/// The length of a bitmap row, whichever way the rows are stored.
pub open spec fn row_length(pitch: i32) -> usize {
    (if pitch < 0 { -pitch } else { pitch as int }) as usize
}

/// FreeType's `Library::init` and `new_memory_face2`: whether the bytes
/// open as a face; named `face_opens`.
#[verifier::external_body]
fn opens(font: &[u8]) -> (r: bool)
    ensures
        r == face_opens(font@),
{
    match Library::init() {
        Ok(library) => library.new_memory_face2(font, 0).is_ok(),
        Err(_) => false,
    }
}

/// FreeType's `set_pixel_sizes` and `size_metrics` on the face of `font`:
/// the ascender and descender; named `face_line_metrics`.
#[verifier::external_body]
fn line_metrics(font: &[u8], pixel_size: u32) -> (r: Option<(i64, i64)>)
    ensures
        r == face_line_metrics(font@, pixel_size),
{
    let library = Library::init().ok()?;
    let face = library.new_memory_face2(font, 0).ok()?;
    face.set_pixel_sizes(0, pixel_size).ok()?;
    let metrics = face.size_metrics()?;
    Some((metrics.ascender as i64, metrics.descender as i64))
}

/// FreeType's `has_kerning` on the face of `font`; named `face_kerned`.
#[verifier::external_body]
fn kerned(font: &[u8]) -> (r: Option<bool>)
    ensures
        r == face_kerned(font@),
{
    let library = Library::init().ok()?;
    let face = library.new_memory_face2(font, 0).ok()?;
    Some(face.has_kerning())
}

/// FreeType's `get_char_index` on the face of `font`, 0 for a character
/// the face lacks; named `face_char_index`.
#[verifier::external_body]
fn char_index(font: &[u8], c: char) -> (r: Option<u32>)
    ensures
        r == face_char_index(font@, c),
{
    let library = Library::init().ok()?;
    let face = library.new_memory_face2(font, 0).ok()?;
    Some(face.get_char_index(c as usize).unwrap_or(0))
}

/// FreeType's `get_kerning` with the default mode at a pixel size: the
/// horizontal part; named `face_kerning`.
#[verifier::external_body]
fn kerning(font: &[u8], pixel_size: u32, left: u32, right: u32) -> (r: Option<i64>)
    ensures
        r == face_kerning(font@, pixel_size, left, right),
{
    let library = Library::init().ok()?;
    let face = library.new_memory_face2(font, 0).ok()?;
    face.set_pixel_sizes(0, pixel_size).ok()?;
    let delta = face.get_kerning(left, right, KerningMode::KerningDefault).ok()?;
    Some(delta.x as i64)
}

/// FreeType's `load_glyph` with rendering, then the slot's advance, the
/// glyph's pixel box and the bitmap's offsets; named `face_glyph_outline`.
#[verifier::external_body]
fn glyph_outline(font: &[u8], pixel_size: u32, id: u32) -> (r: Option<(i64, i64, i64, i64, i64)>)
    ensures
        r == face_glyph_outline(font@, pixel_size, id),
{
    let library = Library::init().ok()?;
    let face = library.new_memory_face2(font, 0).ok()?;
    face.set_pixel_sizes(0, pixel_size).ok()?;
    face.load_glyph(id, LoadFlag::RENDER).ok()?;
    let slot = face.glyph();
    let b = slot.get_glyph().ok()?.get_cbox(FT_GLYPH_BBOX_PIXELS);
    Some((slot.metrics().horiAdvance as i64, b.xMin as i64, b.xMax as i64, slot.bitmap_left() as i64, slot.bitmap_top() as i64))
}

/// FreeType's `load_glyph` with rendering, then the bitmap's width, rows,
/// signed row length and bytes; named `face_glyph_bitmap`.
#[verifier::external_body]
fn glyph_bitmap(font: &[u8], pixel_size: u32, id: u32) -> (r: Option<(usize, usize, i32, Vec<u8>)>)
    ensures
        match r {
            Some((w, h, p, c)) => face_glyph_bitmap(font@, pixel_size, id) == Some((w, h, p, c@)),
            None => face_glyph_bitmap(font@, pixel_size, id) is None,
        },
{
    let library = Library::init().ok()?;
    let face = library.new_memory_face2(font, 0).ok()?;
    face.set_pixel_sizes(0, pixel_size).ok()?;
    face.load_glyph(id, LoadFlag::RENDER).ok()?;
    let bitmap = face.glyph().bitmap();
    Some((bitmap.width() as usize, bitmap.rows() as usize, bitmap.pitch(), bitmap.buffer().to_vec()))
}

/// The face a text is drawn with and its pixel size: the requested font at
/// 512 pixels where it opens, otherwise the small built-in face at 10.
pub open spec fn chosen_face(requested: Option<Seq<u8>>, fallback: Seq<u8>) -> (Seq<u8>, u32) {
    match requested {
        Some(b) => if face_opens(b) { (b, 512u32) } else { (fallback, 10u32) },
        None => (fallback, 10u32),
    }
}

/// The glyph index of character `k` of `text`, 0 before the first.
pub open spec fn previous_index(font: Seq<u8>, text: Seq<char>, k: int) -> u32 {
    if k <= 0 {
        0
    } else {
        match face_char_index(font, text[k - 1]) {
            Some(i) => i,
            None => 0,
        }
    }
}

/// Glyph `k` of `text` as the face renders it, with the kerning after the
/// previous glyph where both are known and the face is kerned.
pub open spec fn glyph_at(font: Seq<u8>, size: u32, kerned: bool, text: Seq<char>, k: int) -> Option<GlyphShape> {
    match face_char_index(font, text[k]) {
        Some(id) => {
            let prev = previous_index(font, text, k);
            let kern = if prev != 0 && id != 0 && kerned { face_kerning(font, size, prev, id) } else { Some(0i64) };
            match (kern, face_glyph_outline(font, size, id), face_glyph_bitmap(font, size, id)) {
                (Some(kx), Some(o), Some(b)) => Some(
                    GlyphShape {
                        kerning: kx,
                        advance: o.0,
                        x_min: o.1,
                        x_max: o.2,
                        left: o.3,
                        top: o.4,
                        width: b.0,
                        rows: b.1,
                        pitch: row_length(b.2),
                        coverage: b.3,
                    },
                ),
                _ => None,
            }
        },
        None => None,
    }
}

/// The first `n` glyphs of `text`, where the face renders every one.
pub open spec fn text_glyphs(font: Seq<u8>, size: u32, kerned: bool, text: Seq<char>, n: int) -> Option<Seq<GlyphShape>>
    decreases n,
{
    if n <= 0 {
        Some(Seq::empty())
    } else {
        match text_glyphs(font, size, kerned, text, n - 1) {
            Some(gs) => match glyph_at(font, size, kerned, text, n - 1) {
                Some(g) => Some(gs.push(g)),
                None => None,
            },
            None => None,
        }
    }
}

/// `text` drawn in `color` with the chosen face, where the face gives its
/// metrics and every glyph and the line can be drawn.
pub open spec fn spec_render_text(requested: Option<Seq<u8>>, fallback: Seq<u8>, text: Seq<char>, color: Rgba) -> Option<ImageView> {
    let (font, size) = chosen_face(requested, fallback);
    match (face_line_metrics(font, size), face_kerned(font)) {
        (Some(m), Some(kerned)) => match text_glyphs(font, size, kerned, text, text.len() as int) {
            Some(gs) => if line_drawable(m.0 as int, m.1 as int, gs) {
                Some(spec_render_line(m.0 as int, m.1 as int, gs, color))
            } else {
                None
            },
            None => None,
        },
        _ => None,
    }
}

/// The optional bytes as a sequence.
pub open spec fn bytes_view(b: Option<&[u8]>) -> Option<Seq<u8>> {
    match b {
        Some(v) => Some(v@),
        None => None,
    }
}

/// Draws `text` in `color` with the requested font, or with the built-in
/// face where there is none or it does not open: see `spec_render_text`.
pub fn render_text(requested: Option<&[u8]>, fallback: &[u8], text: &str, color: Rgba) -> (r: Option<Image>)
    ensures
        r is Some <==> spec_render_text(bytes_view(requested), fallback@, text@, color) is Some,
        r matches Some(img) ==> img.wf() && spec_render_text(bytes_view(requested), fallback@, text@, color) == Some(img@),
{
    let (font, size): (&[u8], u32) = match requested {
        Some(b) => if opens(b) { (b, 512) } else { (fallback, 10) },
        None => (fallback, 10),
    };
    proof {
        assert((font@, size) == chosen_face(bytes_view(requested), fallback@));
    }
    let (ascender, descender) = match line_metrics(font, size) {
        Some(m) => m,
        None => return None,
    };
    let is_kerned = match kerned(font) {
        Some(k) => k,
        None => return None,
    };
    let chars = to_chars(text);
    let ghost ts = text@;
    let mut glyphs: Vec<Glyph> = Vec::new();
    let mut previous: u32 = 0;
    let mut i: usize = 0;
    while i < chars.len()
        invariant
            chars@ == ts,
            ts == text@,
            (font@, size) == chosen_face(bytes_view(requested), fallback@),
            face_line_metrics(font@, size) == Some((ascender, descender)),
            face_kerned(font@) == Some(is_kerned),
            i <= chars.len(),
            glyphs@.len() == i,
            text_glyphs(font@, size, is_kerned, ts, i as int) == Some(shapes(glyphs@)),
            previous == previous_index(font@, ts, i as int),
        decreases chars.len() - i,
    {
        let id = match char_index(font, chars[i]) {
            Some(id) => id,
            None => {
                proof {
                    assert(glyph_at(font@, size, is_kerned, ts, i as int) is None);
                    lemma_text_glyphs_fail(font@, size, is_kerned, ts, i as int + 1, ts.len() as int);
                }
                return None;
            },
        };
        let kern = if needs_kerning(previous, id, is_kerned) {
            match kerning(font, size, previous, id) {
                Some(k) => k,
                None => {
                    proof {
                        assert(glyph_at(font@, size, is_kerned, ts, i as int) is None);
                        lemma_text_glyphs_fail(font@, size, is_kerned, ts, i as int + 1, ts.len() as int);
                    }
                    return None;
                },
            }
        } else {
            0
        };
        let outline = glyph_outline(font, size, id);
        let bitmap = glyph_bitmap(font, size, id);
        match (outline, bitmap) {
            (Some(o), Some(b)) => {
                let ghost before = glyphs@;
                let (width, rows, signed_pitch, coverage) = b;
                let pitch: usize = if signed_pitch < 0 {
                    (-(signed_pitch as i64)) as usize
                } else {
                    signed_pitch as usize
                };
                glyphs.push(Glyph {
                    kerning: kern,
                    advance: o.0,
                    x_min: o.1,
                    x_max: o.2,
                    left: o.3,
                    top: o.4,
                    width,
                    rows,
                    pitch,
                    coverage,
                });
                proof {
                    assert(shapes(glyphs@) =~= shapes(before).push(glyphs@[i as int]@));
                    assert(glyph_at(font@, size, is_kerned, ts, i as int) == Some(glyphs@[i as int]@));
                }
                previous = id;
                i = i + 1;
            },
            _ => {
                proof {
                    assert(glyph_at(font@, size, is_kerned, ts, i as int) is None);
                    lemma_text_glyphs_fail(font@, size, is_kerned, ts, i as int + 1, ts.len() as int);
                }
                return None;
            },
        }
    }
    try_render_line(ascender, descender, &glyphs, color)
}

/// Once a glyph fails, every longer prefix fails.
proof fn lemma_text_glyphs_fail(font: Seq<u8>, size: u32, kerned: bool, text: Seq<char>, k: int, n: int)
    requires
        1 <= k <= n,
        text_glyphs(font, size, kerned, text, k) is None,
    ensures
        text_glyphs(font, size, kerned, text, n) is None,
    decreases n - k,
{
    if k < n {
        lemma_text_glyphs_fail(font, size, kerned, text, k + 1, n);
    }
}

} // verus!
