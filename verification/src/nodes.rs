//! Template nodes read into processor calls: which processor a node names,
//! and the integer processors applied to a node's input images with the
//! node's parameters and defaults.
use vstd::prelude::*;
use crate::image::{Image, ImageView, Rgba, fits, fits_exec, from_fn, lemma_from_fn, lemma_same_pixels_eq, covers, padded_px};
use crate::json::{Json, spec_get, spec_value_i64, spec_value_bool, spec_value_string, spec_json_array, spec_as_i64, get, value_i64, value_bool, value_string, json_array, as_i64};
use crate::color::{spec_parse_color, parse_color};
use crate::compose::{solid, solid_color, add_margin, margin_size, crop_centered, crop_size, crop_start, tdiv, concat_checked, concat_fits, concat_size, concat_canvas};
use crate::shape::{trim, spec_bbox, rounded_corner, corner_alpha, corner_fits, corner_fits_exec};
use crate::pipeline::{views, all_wf};
use crate::chars::{to_chars, chars_eq_str};

verus! {

/// The processors a template node can name.
#[derive(PartialEq, Eq, Clone, Copy, Debug, Structural)]
pub enum Processor {
    SolidColor,
    GradientColor,
    RichText,
    MultiRichText,
    ImageFiles,
    Blur,
    Resize,
    Trim,
    Margin,
    MarginWithRatio,
    RoundedCorner,
    Shadow,
    Crop,
    Concat,
    Alignment,
    Watermark,
    WatermarkWithTimestamp,
}

/// The processor a name stands for.
pub open spec fn spec_processor(name: Seq<char>) -> Option<Processor> {
    if name == "solid_color"@ {
        Some(Processor::SolidColor)
    } else if name == "gradient_color"@ {
        Some(Processor::GradientColor)
    } else if name == "rich_text"@ {
        Some(Processor::RichText)
    } else if name == "multi_rich_text"@ {
        Some(Processor::MultiRichText)
    } else if name == "image"@ {
        Some(Processor::ImageFiles)
    } else if name == "blur"@ {
        Some(Processor::Blur)
    } else if name == "resize"@ {
        Some(Processor::Resize)
    } else if name == "trim"@ {
        Some(Processor::Trim)
    } else if name == "margin"@ {
        Some(Processor::Margin)
    } else if name == "margin_with_ratio"@ {
        Some(Processor::MarginWithRatio)
    } else if name == "rounded_corner"@ {
        Some(Processor::RoundedCorner)
    } else if name == "shadow"@ {
        Some(Processor::Shadow)
    } else if name == "crop"@ {
        Some(Processor::Crop)
    } else if name == "concat"@ {
        Some(Processor::Concat)
    } else if name == "alignment"@ {
        Some(Processor::Alignment)
    } else if name == "watermark"@ {
        Some(Processor::Watermark)
    } else if name == "watermark_with_timestamp"@ {
        Some(Processor::WatermarkWithTimestamp)
    } else {
        None
    }
}

/// The processor a node names, or why it names none: no
/// `processor_name` string, or an unknown name.
pub fn processor_kind(node: &Json) -> (r: Result<Processor, String>)
    ensures
        match spec_get(*node, "processor_name"@) {
            Some(Json::Str { text, .. }) => match spec_processor(text@) {
                Some(p) => r == Ok::<Processor, String>(p),
                None => r matches Err(e) && e@ == "未知处理器: "@ + text@,
            },
            _ => r matches Err(e) && e@ == "处理器名称缺失"@,
        },
{
    let text = match get(node, "processor_name") {
        Some(Json::Str { text, .. }) => text,
        _ => {
            return Err(String::from_str("处理器名称缺失"));
        },
    };
    let n = to_chars(text.as_str());
    let s = n.as_slice();
    if chars_eq_str(s, "solid_color") {
        Ok(Processor::SolidColor)
    } else if chars_eq_str(s, "gradient_color") {
        Ok(Processor::GradientColor)
    } else if chars_eq_str(s, "rich_text") {
        Ok(Processor::RichText)
    } else if chars_eq_str(s, "multi_rich_text") {
        Ok(Processor::MultiRichText)
    } else if chars_eq_str(s, "image") {
        Ok(Processor::ImageFiles)
    } else if chars_eq_str(s, "blur") {
        Ok(Processor::Blur)
    } else if chars_eq_str(s, "resize") {
        Ok(Processor::Resize)
    } else if chars_eq_str(s, "trim") {
        Ok(Processor::Trim)
    } else if chars_eq_str(s, "margin") {
        Ok(Processor::Margin)
    } else if chars_eq_str(s, "margin_with_ratio") {
        Ok(Processor::MarginWithRatio)
    } else if chars_eq_str(s, "rounded_corner") {
        Ok(Processor::RoundedCorner)
    } else if chars_eq_str(s, "shadow") {
        Ok(Processor::Shadow)
    } else if chars_eq_str(s, "crop") {
        Ok(Processor::Crop)
    } else if chars_eq_str(s, "concat") {
        Ok(Processor::Concat)
    } else if chars_eq_str(s, "alignment") {
        Ok(Processor::Alignment)
    } else if chars_eq_str(s, "watermark") {
        Ok(Processor::Watermark)
    } else if chars_eq_str(s, "watermark_with_timestamp") {
        Ok(Processor::WatermarkWithTimestamp)
    } else {
        let mut m = String::from_str("未知处理器: ");
        m.append(text.as_str());
        Err(m)
    }
}

/// The colour under `key`, or `default` where the node has none.
pub open spec fn node_color(node: Json, key: Seq<char>, default: Rgba) -> Rgba {
    match spec_get(node, key) {
        Some(v) => spec_parse_color(v, default),
        None => default,
    }
}

/// The colour under `key`: see `node_color`.
pub fn color_of(node: &Json, key: &str, default: Rgba) -> (r: Rgba)
    ensures
        r == node_color(*node, key@, default),
{
    match get(node, key) {
        Some(v) => parse_color(v, default),
        None => default,
    }
}

/// Opaque white, the default of most colours.
pub open spec fn white() -> Rgba {
    [255u8, 255u8, 255u8, 255u8]
}

/// A side of a solid fill: the requested size, at least 1, cut to 32 bits.
pub open spec fn fill_side(v: i64) -> int {
    (if v < 1 { 1 } else { v }) as u32 as int
}

/// The `solid_color` processor: a `width` by `height` fill (each at least
/// 1) of `color` (white by default); nothing where it cannot be held.
pub fn solid_color_node(node: &Json) -> (r: Option<Image>)
    ensures
        ({
            let w = fill_side(spec_value_i64(*node, "width"@, 0));
            let h = fill_side(spec_value_i64(*node, "height"@, 0));
            &&& (r is Some <==> fits(w, h))
            &&& (r matches Some(img) ==> img.wf() && img@ == solid(w as nat, h as nat, node_color(*node, "color"@, white())))
        }),
{
    let width = value_i64(node, "width", 0);
    let height = value_i64(node, "height", 0);
    let color = color_of(node, "color", [255u8, 255u8, 255u8, 255u8]);
    let w = (if width < 1 { 1 } else { width }) as u32;
    let h = (if height < 1 { 1 } else { height }) as u32;
    if !fits_exec(w, h) {
        return None;
    }
    Some(solid_color(width, height, color))
}

/// An image framed by margins: see `add_margin`.
pub open spec fn margined(im: ImageView, l: int, r: int, t: int, b: int, color: Rgba) -> ImageView {
    from_fn(
        margin_size(im.width as int, l, r) as nat,
        margin_size(im.height as int, t, b) as nat,
        |x: int, y: int| if covers(im, l, t, x, y) {
            im.px(x - l, y - t)
        } else {
            color
        },
    )
}

/// Whether framing stays in range: `i64` sizes and a canvas that can be
/// held.
pub open spec fn margin_ok(im: ImageView, l: int, r: int, t: int, b: int) -> bool {
    &&& i64::MIN <= im.width + l <= i64::MAX
    &&& i64::MIN <= im.width + l + r <= i64::MAX
    &&& i64::MIN <= im.height + t <= i64::MAX
    &&& i64::MIN <= im.height + t + b <= i64::MAX
    &&& fits(margin_size(im.width as int, l, r), margin_size(im.height as int, t, b))
}

/// The margins of a node: left, right, top, bottom, each 0 by default.
pub open spec fn node_margins(node: Json) -> (i64, i64, i64, i64) {
    (
        spec_value_i64(node, "left_margin"@, 0),
        spec_value_i64(node, "right_margin"@, 0),
        spec_value_i64(node, "top_margin"@, 0),
        spec_value_i64(node, "bottom_margin"@, 0),
    )
}

/// The `margin` processor: every input framed by the node's margins in
/// `margin_color` (white by default); nothing where a frame leaves the
/// ranges of `margin_ok`.
pub fn margin_node(node: &Json, images: &Vec<Image>) -> (r: Option<Vec<Image>>)
    requires
        all_wf(images@),
    ensures
        ({
            let (l, rt, t, b) = node_margins(*node);
            let color = node_color(*node, "margin_color"@, white());
            &&& (r is Some <==> forall|i: int| 0 <= i < images.len() ==> margin_ok(#[trigger] images@[i]@, l as int, rt as int, t as int, b as int))
            &&& (r matches Some(out) ==> out.len() == images.len() && all_wf(out@) && forall|i: int| 0 <= i < images.len() ==> #[trigger] out@[i]@ == margined(images@[i]@, l as int, rt as int, t as int, b as int, color))
        }),
{
    let color = color_of(node, "margin_color", [255u8, 255u8, 255u8, 255u8]);
    let l = value_i64(node, "left_margin", 0);
    let rt = value_i64(node, "right_margin", 0);
    let t = value_i64(node, "top_margin", 0);
    let b = value_i64(node, "bottom_margin", 0);
    let mut out: Vec<Image> = Vec::new();
    let mut i: usize = 0;
    while i < images.len()
        invariant
            i <= images.len(),
            all_wf(images@),
            (l, rt, t, b) == node_margins(*node),
            color == node_color(*node, "margin_color"@, white()),
            out.len() == i,
            all_wf(out@),
            forall|k: int| 0 <= k < i ==> margin_ok(#[trigger] images@[k]@, l as int, rt as int, t as int, b as int),
            forall|k: int| 0 <= k < i ==> #[trigger] out@[k]@ == margined(images@[k]@, l as int, rt as int, t as int, b as int, color),
        decreases images.len() - i,
    {
        let im = &images[i];
        proof {
            assert(im.wf());
        }
        let w1 = (im.width as i64).checked_add(l);
        let h1 = (im.height as i64).checked_add(t);
        let (w2, h2) = match (w1, h1) {
            (Some(a), Some(c)) => (a.checked_add(rt), c.checked_add(b)),
            _ => {
                proof {
                    assert(!margin_ok(images@[i as int]@, l as int, rt as int, t as int, b as int));
                }
                return None;
            },
        };
        let (w0, h0) = match (w2, h2) {
            (Some(a), Some(c)) => (a, c),
            _ => {
                proof {
                    assert(!margin_ok(images@[i as int]@, l as int, rt as int, t as int, b as int));
                }
                return None;
            },
        };
        let w = (if w0 < 1 { 1 } else { w0 }) as u32;
        let h = (if h0 < 1 { 1 } else { h0 }) as u32;
        proof {
            assert(w as int == margin_size(im.width as int, l as int, rt as int));
            assert(h as int == margin_size(im.height as int, t as int, b as int));
        }
        if !fits_exec(w, h) {
            proof {
                assert(!margin_ok(images@[i as int]@, l as int, rt as int, t as int, b as int));
            }
            return None;
        }
        let m = add_margin(im, l, rt, t, b, color);
        proof {
            let v = margined(im@, l as int, rt as int, t as int, b as int, color);
            lemma_from_fn(v.width, v.height, |x: int, y: int| if covers(im@, l as int, t as int, x, y) {
                im@.px(x - l, y - t)
            } else {
                color
            });
            lemma_same_pixels_eq(m@, v);
        }
        let ghost before = out@;
        out.push(m);
        proof {
            assert forall|k: int| 0 <= k < i + 1 implies #[trigger] out@[k]@ == margined(images@[k]@, l as int, rt as int, t as int, b as int, color) by {
                if k < i {
                    assert(out@[k] == before[k]);
                }
            }
            assert forall|k: int| 0 <= k < out@.len() implies (#[trigger] out@[k]).wf() by {
                if k < i {
                    assert(out@[k] == before[k]);
                }
            }
        }
        i = i + 1;
    }
    Some(out)
}

/// An image cropped to its content box: see `trim`.
pub open spec fn trimmed(im: ImageView, tl: bool, tr: bool, tt: bool, tb: bool) -> ImageView {
    let (l, t, r, b) = spec_bbox(im, tl, tr, tt, tb);
    from_fn((r - l) as nat, (b - t) as nat, |x: int, y: int| im.px(l + x, t + y))
}

/// The sides a `trim` node trims: left, right, top, bottom, each on by
/// default.
pub open spec fn trim_sides(node: Json) -> (bool, bool, bool, bool) {
    (
        spec_value_bool(node, "trim_left"@, true),
        spec_value_bool(node, "trim_right"@, true),
        spec_value_bool(node, "trim_top"@, true),
        spec_value_bool(node, "trim_bottom"@, true),
    )
}

/// The `trim` processor: every input cropped to its content box on the
/// chosen sides; nothing where an input is empty, which has no corners to
/// compare with.
pub fn trim_node(node: &Json, images: &Vec<Image>) -> (r: Option<Vec<Image>>)
    requires
        all_wf(images@),
    ensures
        ({
            let (tl, tr, tt, tb) = trim_sides(*node);
            &&& (r is Some <==> forall|i: int| 0 <= i < images.len() ==> (#[trigger] images@[i]).width > 0 && images@[i].height > 0)
            &&& (r matches Some(out) ==> out.len() == images.len() && all_wf(out@) && forall|i: int| 0 <= i < images.len() ==> #[trigger] out@[i]@ == trimmed(images@[i]@, tl, tr, tt, tb))
        }),
{
    let tl = value_bool(node, "trim_left", true);
    let tr = value_bool(node, "trim_right", true);
    let tt = value_bool(node, "trim_top", true);
    let tb = value_bool(node, "trim_bottom", true);
    let mut out: Vec<Image> = Vec::new();
    let mut i: usize = 0;
    while i < images.len()
        invariant
            i <= images.len(),
            all_wf(images@),
            out.len() == i,
            all_wf(out@),
            forall|k: int| 0 <= k < i ==> (#[trigger] images@[k]).width > 0 && images@[k].height > 0,
            forall|k: int| 0 <= k < i ==> #[trigger] out@[k]@ == trimmed(images@[k]@, tl, tr, tt, tb),
        decreases images.len() - i,
    {
        let im = &images[i];
        proof {
            assert(im.wf());
        }
        if im.width == 0 || im.height == 0 {
            return None;
        }
        let m = trim(im, tl, tr, tt, tb);
        proof {
            let (l, t, rr, b) = spec_bbox(im@, tl, tr, tt, tb);
            let v = trimmed(im@, tl, tr, tt, tb);
            lemma_from_fn(v.width, v.height, |x: int, y: int| im@.px(l + x, t + y));
            lemma_same_pixels_eq(m@, v);
        }
        let ghost before = out@;
        out.push(m);
        proof {
            assert forall|k: int| 0 <= k < i + 1 implies #[trigger] out@[k]@ == trimmed(images@[k]@, tl, tr, tt, tb) by {
                if k < i {
                    assert(out@[k] == before[k]);
                }
            }
            assert forall|k: int| 0 <= k < out@.len() implies (#[trigger] out@[k]).wf() by {
                if k < i {
                    assert(out@[k] == before[k]);
                }
            }
        }
        i = i + 1;
    }
    Some(out)
}

/// An image with rounded corners: see `rounded_corner`.
pub open spec fn rounded(im: ImageView, radius: int) -> ImageView {
    from_fn(
        im.width,
        im.height,
        |x: int, y: int| {
            let p = im.px(x, y);
            [p[0], p[1], p[2], corner_alpha(im.width as int, im.height as int, radius, x, y)]
        },
    )
}

/// Whether corners can be rounded: a non-empty image, a radius whose
/// diameter is an `i64`, and a corner ellipse of sides up to 2^30.
pub open spec fn rounding_ok(im: ImageView, radius: int) -> bool {
    im.width > 0 && radius <= i64::MAX / 2 && corner_fits(im.width as int, im.height as int, radius)
}

/// The `rounded_corner` processor: every input with corners of radius
/// `border_radius` (10 by default); nothing where `rounding_ok` fails.
pub fn rounded_corner_node(node: &Json, images: &Vec<Image>) -> (r: Option<Vec<Image>>)
    requires
        all_wf(images@),
    ensures
        ({
            let radius = spec_value_i64(*node, "border_radius"@, 10);
            &&& (r is Some <==> forall|i: int| 0 <= i < images.len() ==> rounding_ok(#[trigger] images@[i]@, radius as int))
            &&& (r matches Some(out) ==> out.len() == images.len() && all_wf(out@) && forall|i: int| 0 <= i < images.len() ==> #[trigger] out@[i]@ == rounded(images@[i]@, radius as int))
        }),
{
    let radius = value_i64(node, "border_radius", 10);
    let mut out: Vec<Image> = Vec::new();
    let mut i: usize = 0;
    while i < images.len()
        invariant
            i <= images.len(),
            all_wf(images@),
            radius == spec_value_i64(*node, "border_radius"@, 10),
            out.len() == i,
            all_wf(out@),
            forall|k: int| 0 <= k < i ==> rounding_ok(#[trigger] images@[k]@, radius as int),
            forall|k: int| 0 <= k < i ==> #[trigger] out@[k]@ == rounded(images@[k]@, radius as int),
        decreases images.len() - i,
    {
        let im = &images[i];
        proof {
            assert(im.wf());
        }
        if im.width == 0 || radius > i64::MAX / 2 || !corner_fits_exec(im.width, im.height, radius) {
            proof {
                assert(!rounding_ok(images@[i as int]@, radius as int));
            }
            return None;
        }
        let m = rounded_corner(im, radius);
        proof {
            let v = rounded(im@, radius as int);
            lemma_from_fn(v.width, v.height, |x: int, y: int| {
                let p = im@.px(x, y);
                [p[0], p[1], p[2], corner_alpha(im@.width as int, im@.height as int, radius as int, x, y)]
            });
            lemma_same_pixels_eq(m@, v);
        }
        let ghost before = out@;
        out.push(m);
        proof {
            assert forall|k: int| 0 <= k < i + 1 implies #[trigger] out@[k]@ == rounded(images@[k]@, radius as int) by {
                if k < i {
                    assert(out@[k] == before[k]);
                }
            }
            assert forall|k: int| 0 <= k < out@.len() implies (#[trigger] out@[k]).wf() by {
                if k < i {
                    assert(out@[k] == before[k]);
                }
            }
        }
        i = i + 1;
    }
    Some(out)
}

/// A centred crop: see `crop_centered`.
pub open spec fn cropped(im: ImageView, width: int, height: int, ox: int, oy: int) -> ImageView {
    let w = crop_size(width);
    let h = crop_size(height);
    let l = crop_start(im.width as int, w, ox);
    let t = crop_start(im.height as int, h, oy);
    from_fn(w as nat, h as nat, |x: int, y: int| padded_px(im, l, t, x, y))
}

/// Whether a crop stays in range: a window that can be held and an `i64`
/// start on both sides.
pub open spec fn crop_ok(im: ImageView, width: int, height: int, ox: int, oy: int) -> bool {
    &&& fits(crop_size(width), crop_size(height))
    &&& i64::MIN <= tdiv(im.width - crop_size(width), 2) + ox <= i64::MAX
    &&& i64::MIN <= tdiv(im.height - crop_size(height), 2) + oy <= i64::MAX
}

/// The crop offset of a node: the first two items of `offset`, each 0
/// where missing or not an integer within `i64`.
pub open spec fn crop_offset(node: Json) -> (i64, i64) {
    let offs = spec_json_array(node, "offset"@);
    (
        if offs.len() > 0 { match spec_as_i64(offs[0]) { Some(v) => v, None => 0 } } else { 0 },
        if offs.len() > 1 { match spec_as_i64(offs[1]) { Some(v) => v, None => 0 } } else { 0 },
    )
}

/// The `crop` processor: every input cut to `width` by `height` (its own
/// size by default), centred and moved by `offset`; nothing where
/// `crop_ok` fails.
pub fn crop_node(node: &Json, images: &Vec<Image>) -> (r: Option<Vec<Image>>)
    requires
        all_wf(images@),
    ensures
        ({
            let (ox, oy) = crop_offset(*node);
            &&& (r is Some <==> forall|i: int| 0 <= i < images.len() ==> crop_ok(
                #[trigger] images@[i]@,
                spec_value_i64(*node, "width"@, images@[i].width as i64) as int,
                spec_value_i64(*node, "height"@, images@[i].height as i64) as int,
                ox as int,
                oy as int,
            ))
            &&& (r matches Some(out) ==> out.len() == images.len() && all_wf(out@) && forall|i: int| 0 <= i < images.len() ==> #[trigger] out@[i]@ == cropped(
                images@[i]@,
                spec_value_i64(*node, "width"@, images@[i].width as i64) as int,
                spec_value_i64(*node, "height"@, images@[i].height as i64) as int,
                ox as int,
                oy as int,
            ))
        }),
{
    let offs = json_array(node, "offset");
    let ox = if offs.len() > 0 {
        match as_i64(&offs[0]) {
            Some(v) => v,
            None => 0,
        }
    } else {
        0
    };
    let oy = if offs.len() > 1 {
        match as_i64(&offs[1]) {
            Some(v) => v,
            None => 0,
        }
    } else {
        0
    };
    let mut out: Vec<Image> = Vec::new();
    let mut i: usize = 0;
    while i < images.len()
        invariant
            i <= images.len(),
            all_wf(images@),
            (ox, oy) == crop_offset(*node),
            out.len() == i,
            all_wf(out@),
            forall|k: int| 0 <= k < i ==> crop_ok(
                #[trigger] images@[k]@,
                spec_value_i64(*node, "width"@, images@[k].width as i64) as int,
                spec_value_i64(*node, "height"@, images@[k].height as i64) as int,
                ox as int,
                oy as int,
            ),
            forall|k: int| 0 <= k < i ==> #[trigger] out@[k]@ == cropped(
                images@[k]@,
                spec_value_i64(*node, "width"@, images@[k].width as i64) as int,
                spec_value_i64(*node, "height"@, images@[k].height as i64) as int,
                ox as int,
                oy as int,
            ),
        decreases images.len() - i,
    {
        let im = &images[i];
        proof {
            assert(im.wf());
        }
        let width = value_i64(node, "width", im.width as i64);
        let height = value_i64(node, "height", im.height as i64);
        let w = (if width < 1 { 1 } else { width }) as u32;
        let h = (if height < 1 { 1 } else { height }) as u32;
        if !fits_exec(w, h) {
            return None;
        }
        let free_x: i64 = im.width as i64 - w as i64;
        let free_y: i64 = im.height as i64 - h as i64;
        let hx = free_x / 2;
        let hy = free_y / 2;
        proof {
            assert(hx == tdiv(free_x as int, 2));
            assert(hy == tdiv(free_y as int, 2));
        }
        let sx = match hx.checked_add(ox) {
            Some(v) => v,
            None => {
                return None;
            },
        };
        let sy = match hy.checked_add(oy) {
            Some(v) => v,
            None => {
                return None;
            },
        };
        let m = crop_centered(im, width, height, ox, oy);
        proof {
            let v = cropped(im@, width as int, height as int, ox as int, oy as int);
            let l = crop_start(im@.width as int, crop_size(width as int), ox as int);
            let t = crop_start(im@.height as int, crop_size(height as int), oy as int);
            lemma_from_fn(v.width, v.height, |x: int, y: int| padded_px(im@, l, t, x, y));
            lemma_same_pixels_eq(m@, v);
        }
        let ghost before = out@;
        out.push(m);
        proof {
            assert forall|k: int| 0 <= k < i + 1 implies #[trigger] out@[k]@ == cropped(
                images@[k]@,
                spec_value_i64(*node, "width"@, images@[k].width as i64) as int,
                spec_value_i64(*node, "height"@, images@[k].height as i64) as int,
                ox as int,
                oy as int,
            ) by {
                if k < i {
                    assert(out@[k] == before[k]);
                }
            }
            assert forall|k: int| 0 <= k < out@.len() implies (#[trigger] out@[k]).wf() by {
                if k < i {
                    assert(out@[k] == before[k]);
                }
            }
        }
        i = i + 1;
    }
    Some(out)
}

/// The paths of an `image` node: its `path` where that is a string, else
/// the strings among the items of its `path` array.
pub open spec fn spec_image_paths(node: Json) -> Seq<Seq<char>> {
    match spec_get(node, "path"@) {
        Some(Json::Str { text, .. }) => seq![text@],
        Some(Json::Array(items)) => string_items(items@, items@.len() as int),
        _ => Seq::empty(),
    }
}

/// The texts of the strings among the first `n` items.
pub open spec fn string_items(items: Seq<Json>, n: int) -> Seq<Seq<char>>
    decreases n,
{
    if n <= 0 {
        Seq::empty()
    } else {
        let prev = string_items(items, n - 1);
        match items[n - 1] {
            Json::Str { text, .. } => prev.push(text@),
            _ => prev,
        }
    }
}

/// The paths an `image` node loads: see `spec_image_paths`.
pub fn image_paths(node: &Json) -> (r: Vec<String>)
    ensures
        r@.map_values(|s: String| s@) == spec_image_paths(*node),
{
    let mut out: Vec<String> = Vec::new();
    match get(node, "path") {
        Some(Json::Str { text, .. }) => {
            out.push(text.clone());
            proof {
                assert(out@.map_values(|s: String| s@) =~= seq![text@]);
            }
        },
        Some(Json::Array(items)) => {
            let mut i: usize = 0;
            while i < items.len()
                invariant
                    i <= items.len(),
                    out@.map_values(|s: String| s@) == string_items(items@, i as int),
                decreases items.len() - i,
            {
                match &items[i] {
                    Json::Str { text, .. } => {
                        let ghost before = out@;
                        out.push(text.clone());
                        proof {
                            assert(out@.map_values(|s: String| s@) =~= before.map_values(|s: String| s@).push(text@));
                        }
                    },
                    _ => {},
                }
                i = i + 1;
            }
        },
        _ => {
            proof {
                assert(out@.map_values(|s: String| s@) =~= Seq::<Seq<char>>::empty());
            }
        },
    }
    out
}

/// The `concat` processor: the inputs laid out along `direction`
/// (horizontal by default) with `spacing` (10 by default) between them,
/// aligned by `alignment` (`bottom` by default), on `background`
/// (transparent white by default); see `concat_checked`.
pub fn concat_node(node: &Json, images: &Vec<Image>) -> (r: Option<Image>)
    requires
        all_wf(images@),
    ensures
        ({
            let direction = spec_value_string(*node, "direction"@, "horizontal"@);
            let alignment = spec_value_string(*node, "alignment"@, "bottom"@);
            let spacing = spec_value_i64(*node, "spacing"@, 10);
            let background = node_color(*node, "background"@, [255u8, 255u8, 255u8, 0u8]);
            &&& images.len() == 0 ==> (r matches Some(img) && img.wf() && img@ == solid(1, 1, [0u8, 0u8, 0u8, 0u8]))
            &&& images.len() > 0 ==> ({
                let ims = views(images@);
                let horizontal = direction == "horizontal"@;
                let (w, h) = concat_size(ims, horizontal, spacing as int);
                &&& (r is Some <==> concat_fits(ims, horizontal, spacing as int))
                &&& (r matches Some(img) ==> img.wf() && img@ == concat_canvas(ims, ims.len() as int, horizontal, alignment, spacing as int, w, h, background))
            })
        }),
{
    let direction = value_string(node, "direction", "horizontal");
    let alignment = value_string(node, "alignment", "bottom");
    let spacing = value_i64(node, "spacing", 10);
    let background = color_of(node, "background", [255u8, 255u8, 255u8, 0u8]);
    concat_checked(images, direction.as_str(), alignment.as_str(), spacing, background)
}

/// A target size a resize node asks for: the member read as an integer and
/// cut to 32 bits, where the member is there and that is not 0.
pub open spec fn spec_resize_dimension(node: Json, key: Seq<char>) -> Option<u32> {
    match spec_get(node, key) {
        Some(_) => {
            let v = spec_value_i64(node, key, 0) as u32;
            if v > 0 { Some(v) } else { None }
        },
        None => None,
    }
}

/// A target size a resize node asks for: see `spec_resize_dimension`.
pub fn resize_dimension(node: &Json, key: &str) -> (r: Option<u32>)
    ensures
        r == spec_resize_dimension(*node, key@),
{
    match get(node, key) {
        Some(_) => {
            let v = value_i64(node, key, 0) as u32;
            if v > 0 {
                Some(v)
            } else {
                None
            }
        },
        None => None,
    }
}

/// The radius a `blur` node asks for: `blur_radius`, 5 by default.
pub fn blur_node_radius(node: &Json) -> (r: i64)
    ensures
        r == spec_value_i64(*node, "blur_radius"@, 5),
{
    value_i64(node, "blur_radius", 5)
}

/// The radius and colour a `shadow` node asks for: `shadow_radius`, 30 by
/// default, and `shadow_color`, translucent black by default.
pub fn shadow_node_settings(node: &Json) -> (r: (i64, Rgba))
    ensures
        r.0 == spec_value_i64(*node, "shadow_radius"@, 30),
        r.1 == node_color(*node, "shadow_color"@, [0u8, 0u8, 0u8, 180u8]),
{
    (value_i64(node, "shadow_radius", 30), color_of(node, "shadow_color", [0, 0, 0, 180]))
}

} // verus!
