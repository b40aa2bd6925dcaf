//! Layout processors: solid fills, margins, centred crops, concatenation
//! and alignment of several images, shadow layers and alpha curves.
use vstd::prelude::*;
use crate::image::{Image, ImageView, Rgba, fits, fits_exec, from_fn, lemma_from_fn, lemma_same_pixels_eq, paste_view, alpha_over, replace, covers, crop_with_padding, padded_px};
use crate::chars::{to_chars, chars_eq_str};
use crate::pipeline::{views, all_wf};


verus! {

/// A canvas of one colour.
pub open spec fn solid(width: nat, height: nat, color: Rgba) -> ImageView {
    from_fn(width, height, |x: int, y: int| color)
}

/// An image filled with `color`, at least one pixel wide and high; the
/// sizes are cut to 32 bits as the `as u32` conversion cuts them.
pub fn solid_color(width: i64, height: i64, color: Rgba) -> (r: Image)
    requires
        fits((if width < 1 { 1 } else { width }) as u32 as int, (if height < 1 { 1 } else { height }) as u32 as int),
    ensures
        r.wf(),
        r@ == solid((if width < 1 { 1 } else { width }) as u32 as nat, (if height < 1 { 1 } else { height }) as u32 as nat, color),
{
    let w = (if width < 1 { 1 } else { width }) as u32;
    let h = (if height < 1 { 1 } else { height }) as u32;
    let r = Image::from_pixel(w, h, color);
    proof {
        lemma_from_fn(w as nat, h as nat, |x: int, y: int| color);
        lemma_same_pixels_eq(r@, solid(w as nat, h as nat, color));
    }
    r
}

/// Where an item of size `size` starts inside `maximum` for an alignment
/// mode: centred for `center`/`middle`, at the far end for
/// `end`/`right`/`bottom`, at the start otherwise.
pub open spec fn spec_align(size: int, maximum: int, mode: Seq<char>) -> int {
    if mode == "center"@ || mode == "middle"@ {
        (maximum - size) / 2
    } else if mode == "end"@ || mode == "right"@ || mode == "bottom"@ {
        maximum - size
    } else {
        0
    }
}

/// The offset of an item of size `size` aligned inside `maximum`.
pub fn align_offset(size: u32, maximum: u32, mode: &str) -> (r: i64)
    requires
        size <= maximum,
    ensures
        r as int == spec_align(size as int, maximum as int, mode@),
{
    let m = to_chars(mode);
    let free = (maximum - size) as i64;
    if chars_eq_str(m.as_slice(), "center") || chars_eq_str(m.as_slice(), "middle") {
        free / 2
    } else if chars_eq_str(m.as_slice(), "end") || chars_eq_str(m.as_slice(), "right")
        || chars_eq_str(m.as_slice(), "bottom") {
        free
    } else {
        0
    }
}

/// The size of an image along the concatenation axis.
pub open spec fn along(im: ImageView, horizontal: bool) -> int {
    if horizontal {
        im.width as int
    } else {
        im.height as int
    }
}

/// The size of an image across the concatenation axis.
pub open spec fn across(im: ImageView, horizontal: bool) -> int {
    if horizontal {
        im.height as int
    } else {
        im.width as int
    }
}

/// The sum of the sizes along the axis of the first `k` images.
pub open spec fn sum_along(ims: Seq<ImageView>, k: int, horizontal: bool) -> int
    decreases k,
{
    if k <= 0 {
        0
    } else {
        sum_along(ims, k - 1, horizontal) + along(ims[k - 1], horizontal)
    }
}

/// The largest size across the axis among the first `k` images.
pub open spec fn max_across(ims: Seq<ImageView>, k: int, horizontal: bool) -> int
    decreases k,
{
    if k <= 0 {
        0
    } else {
        let m = max_across(ims, k - 1, horizontal);
        let a = across(ims[k - 1], horizontal);
        if a > m {
            a
        } else {
            m
        }
    }
}

/// Where image `k` starts along the axis: the sizes of the images before it,
/// each followed by `spacing`.
pub open spec fn cursor(ims: Seq<ImageView>, k: int, horizontal: bool, spacing: int) -> int
    decreases k,
{
    if k <= 0 {
        0
    } else {
        cursor(ims, k - 1, horizontal, spacing) + along(ims[k - 1], horizontal) + spacing
    }
}

/// The gap that widens the canvas: `spacing` if positive, cut to 32 bits.
pub open spec fn canvas_gap(spacing: int) -> int {
    (if spacing < 0 { 0 } else { spacing }) as u32 as int
}

/// The canvas size of a concatenation of `n > 0` images.
pub open spec fn concat_size(ims: Seq<ImageView>, horizontal: bool, spacing: int) -> (int, int) {
    let n = ims.len() as int;
    let total = sum_along(ims, n, horizontal) + canvas_gap(spacing) * (n - 1);
    let cross = max_across(ims, n, horizontal);
    if horizontal {
        (total, cross)
    } else {
        (cross, total)
    }
}

/// The canvas after the first `k` images are pasted in turn.
pub open spec fn concat_canvas(
    ims: Seq<ImageView>,
    k: int,
    horizontal: bool,
    mode: Seq<char>,
    spacing: int,
    width: int,
    height: int,
    background: Rgba,
) -> ImageView
    decreases k,
{
    if k <= 0 {
        solid(width as nat, height as nat, background)
    } else {
        let prev = concat_canvas(ims, k - 1, horizontal, mode, spacing, width, height, background);
        let im = ims[k - 1];
        let c = cursor(ims, k - 1, horizontal, spacing);
        if horizontal {
            paste_view(prev, im, c, spec_align(im.height as int, height, mode))
        } else {
            paste_view(prev, im, spec_align(im.width as int, width, mode), c)
        }
    }
}

/// What a concatenation needs so that its sizes and positions stay in
/// range: 32-bit canvas sizes, a canvas that can be allocated, and 64-bit
/// positions.
pub open spec fn concat_fits(ims: Seq<ImageView>, horizontal: bool, spacing: int) -> bool {
    let n = ims.len() as int;
    let (w, h) = concat_size(ims, horizontal, spacing);
    &&& n <= u32::MAX
    &&& sum_along(ims, n, horizontal) + canvas_gap(spacing) * (n - 1) <= u32::MAX
    &&& canvas_gap(spacing) * (n - 1) <= u32::MAX
    &&& fits(w, h)
    &&& forall|k: int| 0 <= k <= n ==> i64::MIN <= #[trigger] cursor(ims, k, horizontal, spacing) <= i64::MAX
    &&& forall|k: int| 0 <= k < n ==> i64::MIN <= along(#[trigger] ims[k], horizontal) + spacing <= i64::MAX
    &&& forall|k: int| 0 <= k < n ==> cursor(ims, k, horizontal, spacing) + along(#[trigger] ims[k], horizontal) <= i64::MAX
}

/// The images laid out one after another along a direction (`horizontal`,
/// or vertical for anything else) with `spacing` between them, aligned
/// across by `alignment`, each pasted with its own alpha onto a canvas of
/// `background`. No image gives a transparent 1 by 1 canvas.
#[verifier::spinoff_prover]
#[verifier::rlimit(50)]
pub fn concat_images(images: &Vec<Image>, direction: &str, alignment: &str, spacing: i64, background: Rgba) -> (r: Image)
    requires
        all_wf(images@),
        images.len() > 0 ==> concat_fits(views(images@), direction@ == "horizontal"@, spacing as int),
    ensures
        r.wf(),
        images.len() == 0 ==> r@ == solid(1, 1, [0u8, 0u8, 0u8, 0u8]),
        images.len() > 0 ==> ({
            let ims = views(images@);
            let horizontal = direction@ == "horizontal"@;
            let (w, h) = concat_size(ims, horizontal, spacing as int);
            r@ == concat_canvas(ims, ims.len() as int, horizontal, alignment@, spacing as int, w, h, background)
        }),
{
    if images.len() == 0 {
        let r = Image::new(1, 1);
        proof {
            lemma_from_fn(1, 1, |x: int, y: int| [0u8, 0u8, 0u8, 0u8]);
            lemma_same_pixels_eq(r@, solid(1, 1, [0u8, 0u8, 0u8, 0u8]));
        }
        return r;
    }
    let ghost ims = views(images@);
    let horizontal = chars_eq_str(to_chars(direction).as_slice(), "horizontal");
    let n = images.len();
    let gap: u32 = (if spacing < 0 { 0 } else { spacing }) as u32;
    // The sum along the axis and the maximum across it.
    let mut total: u32 = 0;
    let mut cross: u32 = 0;
    let mut i: usize = 0;
    while i < n
        invariant
            i <= n,
            n == images.len(),
            ims == views(images@),
            concat_fits(ims, horizontal, spacing as int),
            total as int == sum_along(ims, i as int, horizontal),
            cross as int == max_across(ims, i as int, horizontal),
        decreases n - i,
    {
        proof {
            lemma_sum_along_mono(ims, i + 1, n as int, horizontal);
            assert(ims[i as int] == images@[i as int]@);
        }
        let (a, c) = if horizontal {
            (images[i].width, images[i].height)
        } else {
            (images[i].height, images[i].width)
        };
        total = total + a;
        if c > cross {
            cross = c;
        }
        i = i + 1;
    }
    let spaced: u32 = total + gap * ((n as u32) - 1);
    let (width, height) = if horizontal {
        (spaced, cross)
    } else {
        (cross, spaced)
    };
    let ghost mode = alignment@;
    let mut canvas = Image::from_pixel(width, height, background);
    proof {
        lemma_from_fn(width as nat, height as nat, |x: int, y: int| background);
        lemma_same_pixels_eq(canvas@, solid(width as nat, height as nat, background));
    }
    let mut cur: i64 = 0;
    let mut k: usize = 0;
    while k < n
        invariant
            k <= n,
            n == images.len(),
            ims == views(images@),
            all_wf(images@),
            concat_fits(ims, horizontal, spacing as int),
            width as int == concat_size(ims, horizontal, spacing as int).0,
            height as int == concat_size(ims, horizontal, spacing as int).1,
            cross as int == max_across(ims, n as int, horizontal),
            canvas.wf(),
            cur as int == cursor(ims, k as int, horizontal, spacing as int),
            mode == alignment@,
            canvas@ == concat_canvas(ims, k as int, horizontal, mode, spacing as int, width as int, height as int, background),
        decreases n - k,
    {
        let im = &images[k];
        proof {
            assert(ims[k as int] == im@);
            assert(im.wf());
            lemma_max_across(ims, n as int, k as int, horizontal);
        }
        proof {
            assert(i64::MIN <= cursor(ims, k as int + 1, horizontal, spacing as int) <= i64::MAX);
            assert(i64::MIN <= along(ims[k as int], horizontal) + spacing <= i64::MAX);
            assert(cursor(ims, k as int, horizontal, spacing as int) + along(ims[k as int], horizontal) <= i64::MAX);
            assert(cursor(ims, k as int + 1, horizontal, spacing as int) == cur + along(ims[k as int], horizontal) + spacing);
        }
        let ghost prev = canvas@;
        let ghost c = cur as int;
        if horizontal {
            let y = align_offset(im.height, height, alignment);
            alpha_over(&mut canvas, im, cur, y);
            proof {
                assert(canvas@ == paste_view(prev, ims[k as int], c, spec_align(ims[k as int].height as int, height as int, mode)));
            }
            cur = cur + (im.width as i64 + spacing);
        } else {
            let x = align_offset(im.width, width, alignment);
            alpha_over(&mut canvas, im, x, cur);
            proof {
                assert(canvas@ == paste_view(prev, ims[k as int], spec_align(ims[k as int].width as int, width as int, mode), c));
            }
            cur = cur + (im.height as i64 + spacing);
        }
        proof {
            assert(concat_canvas(ims, k as int + 1, horizontal, mode, spacing as int, width as int, height as int, background)
                == (if horizontal {
                    paste_view(prev, ims[k as int], c, spec_align(ims[k as int].height as int, height as int, mode))
                } else {
                    paste_view(prev, ims[k as int], spec_align(ims[k as int].width as int, width as int, mode), c)
                }));
        }
        k = k + 1;
    }
    canvas
}

proof fn lemma_sum_along_mono(ims: Seq<ImageView>, k: int, n: int, horizontal: bool)
    requires
        0 <= k <= n,
    ensures
        0 <= sum_along(ims, k, horizontal) <= sum_along(ims, n, horizontal),
    decreases n,
{
    if n > k {
        lemma_sum_along_mono(ims, k, n - 1, horizontal);
    } else if k > 0 {
        lemma_sum_along_mono(ims, k - 1, k - 1, horizontal);
    }
}

/// Each image is no larger across than the largest of them.
pub proof fn lemma_max_across(ims: Seq<ImageView>, n: int, k: int, horizontal: bool)
    requires
        0 <= k < n,
    ensures
        across(ims[k], horizontal) <= max_across(ims, n, horizontal),
    decreases n,
{
    if k < n - 1 {
        lemma_max_across(ims, n - 1, k, horizontal);
    }
}

/// `image` framed by margins of the given widths (negative ones cut into
/// it) on a canvas of `color`, at least one pixel wide and high; the image
/// replaces the canvas where it lands.
pub fn add_margin(image: &Image, left: i64, right: i64, top: i64, bottom: i64, color: Rgba) -> (r: Image)
    requires
        image.wf(),
        i64::MIN <= image.width + left <= i64::MAX,
        i64::MIN <= image.width + left + right <= i64::MAX,
        i64::MIN <= image.height + top <= i64::MAX,
        i64::MIN <= image.height + top + bottom <= i64::MAX,
        fits(margin_size(image.width as int, left as int, right as int), margin_size(image.height as int, top as int, bottom as int)),
    ensures
        r.wf(),
        r@.width == margin_size(image.width as int, left as int, right as int),
        r@.height == margin_size(image.height as int, top as int, bottom as int),
        forall|x: int, y: int| #[trigger] r@.contains(x, y) ==> r@.px(x, y) == if covers(image@, left as int, top as int, x, y) {
            image@.px(x - left, y - top)
        } else {
            color
        },
{
    let w0 = image.width as i64 + left + right;
    let h0 = image.height as i64 + top + bottom;
    let w = (if w0 < 1 { 1 } else { w0 }) as u32;
    let h = (if h0 < 1 { 1 } else { h0 }) as u32;
    proof {
        assert(w as int == margin_size(image.width as int, left as int, right as int));
        assert(h as int == margin_size(image.height as int, top as int, bottom as int));
    }
    let mut canvas = Image::from_pixel(w, h, color);
    let ghost c0 = canvas@;
    replace(&mut canvas, image, left, top);
    proof {
        assert forall|x: int, y: int| #[trigger] canvas@.contains(x, y) implies canvas@.px(x, y) == if covers(image@, left as int, top as int, x, y) {
            image@.px(x - left, y - top)
        } else {
            color
        } by {
            assert(c0.contains(x, y));
        }
    }
    canvas
}

/// The side of a framed image: the source side plus both margins, at
/// least 1, cut to 32 bits.
pub open spec fn margin_size(side: int, a: int, b: int) -> int {
    let s = side + a + b;
    (if s < 1 { 1 } else { s }) as u32 as int
}

/// Rust's `/`: the quotient rounded toward zero.
pub open spec fn tdiv(a: int, b: int) -> int {
    if a >= 0 {
        a / b
    } else {
        -((-a) / b)
    }
}

/// Where a centred crop starts along one side: centred, moved by `offset`,
/// then kept inside the source where the crop fits.
pub open spec fn crop_start(side: int, size: int, offset: int) -> int {
    let free = side - size;
    let start = tdiv(free, 2) + offset;
    let hi = if free > 0 { free } else { 0 };
    if start < 0 {
        0
    } else if start > hi {
        hi
    } else {
        start
    }
}

/// The requested crop size, at least 1, cut to 32 bits.
pub open spec fn crop_size(requested: int) -> int {
    (if requested < 1 { 1 } else { requested }) as u32 as int
}

/// A `width` by `height` window of `image`, centred and moved by
/// `(offset_x, offset_y)`, kept inside the image where it fits; parts outside
/// the image are transparent black.
pub fn crop_centered(image: &Image, width: i64, height: i64, offset_x: i64, offset_y: i64) -> (r: Image)
    requires
        image.wf(),
        fits(crop_size(width as int), crop_size(height as int)),
        i64::MIN <= tdiv(image.width - crop_size(width as int), 2) + offset_x <= i64::MAX,
        i64::MIN <= tdiv(image.height - crop_size(height as int), 2) + offset_y <= i64::MAX,
    ensures
        r.wf(),
        r@.width == crop_size(width as int),
        r@.height == crop_size(height as int),
        forall|x: int, y: int| #[trigger] r@.contains(x, y) ==> r@.px(x, y) == padded_px(
            image@,
            crop_start(image.width as int, crop_size(width as int), offset_x as int),
            crop_start(image.height as int, crop_size(height as int), offset_y as int),
            x,
            y,
        ),
{
    let w = (if width < 1 { 1 } else { width }) as u32;
    let h = (if height < 1 { 1 } else { height }) as u32;
    let free_x: i64 = image.width as i64 - w as i64;
    let free_y: i64 = image.height as i64 - h as i64;
    let left = clamp_start(free_x, offset_x);
    let top = clamp_start(free_y, offset_y);
    proof {
        assert(left == crop_start(image.width as int, w as int, offset_x as int));
        assert(top == crop_start(image.height as int, h as int, offset_y as int));
    }
    crop_with_padding(image, left, top, w, h)
}

fn clamp_start(free: i64, offset: i64) -> (r: i64)
    requires
        -0x100000000 <= free <= 0x100000000,
        i64::MIN <= tdiv(free as int, 2) + offset <= i64::MAX,
    ensures
        r as int == ({
            let start = tdiv(free as int, 2) + offset;
            let hi = if free > 0 { free as int } else { 0 };
            if start < 0 {
                0
            } else if start > hi {
                hi
            } else {
                start
            }
        }),
        0 <= r <= 0x100000000,
{
    let start = free / 2 + offset;
    let hi = if free > 0 { free } else { 0 };
    if start < 0 {
        0
    } else if start > hi {
        hi
    } else {
        start
    }
}

/// Every pixel fully opaque, colour kept: the RGB conversion that blurring
/// and exporting apply.
pub fn opaque(image: &Image) -> (r: Image)
    requires
        image.wf(),
    ensures
        r.wf(),
        r@.width == image@.width,
        r@.height == image@.height,
        forall|x: int, y: int| #[trigger] r@.contains(x, y) ==> r@.px(x, y) == ({
            let p = image@.px(x, y);
            [p[0], p[1], p[2], 255u8]
        }),
{
    let table = identity_with_full_alpha();
    map_alpha(image, &table)
}

fn identity_with_full_alpha() -> (t: Vec<u8>)
    ensures
        t@.len() == 256,
        forall|i: int| 0 <= i < 256 ==> #[trigger] t@[i] == 255,
{
    let mut t: Vec<u8> = Vec::new();
    let mut i: usize = 0;
    while i < 256
        invariant
            i <= 256,
            t@.len() == i,
            forall|k: int| 0 <= k < i ==> #[trigger] t@[k] == 255,
        decreases 256 - i,
    {
        t.push(255);
        i = i + 1;
    }
    t
}

/// Every alpha value replaced through `table`; colours are kept.
pub fn map_alpha(image: &Image, table: &Vec<u8>) -> (r: Image)
    requires
        image.wf(),
        table@.len() == 256,
    ensures
        r.wf(),
        r@.width == image@.width,
        r@.height == image@.height,
        forall|x: int, y: int| #[trigger] r@.contains(x, y) ==> r@.px(x, y) == ({
            let p = image@.px(x, y);
            [p[0], p[1], p[2], table@[p[3] as int]]
        }),
{
    let mut out = image.duplicate();
    let mut y: u32 = 0;
    while y < image.height
        invariant
            image.wf(),
            out.wf(),
            table@.len() == 256,
            out.width == image.width,
            out.height == image.height,
            y <= image.height,
            forall|xx: int, yy: int| #[trigger] out@.contains(xx, yy) ==> out@.px(xx, yy) == if yy < y {
                let p = image@.px(xx, yy);
                [p[0], p[1], p[2], table@[p[3] as int]]
            } else {
                image@.px(xx, yy)
            },
        decreases image.height - y,
    {
        let mut x: u32 = 0;
        while x < image.width
            invariant
                image.wf(),
                out.wf(),
                table@.len() == 256,
                out.width == image.width,
                out.height == image.height,
                y < image.height,
                x <= image.width,
                forall|xx: int, yy: int| #[trigger] out@.contains(xx, yy) ==> out@.px(xx, yy) == if yy < y || (yy == y && xx < x) {
                    let p = image@.px(xx, yy);
                    [p[0], p[1], p[2], table@[p[3] as int]]
                } else {
                    image@.px(xx, yy)
                },
            decreases image.width - x,
        {
            let p = out.get_pixel(x, y);
            let ghost before = out@;
            out.put_pixel(x, y, [p[0], p[1], p[2], table[p[3] as usize]]);
            proof {
                assert forall|xx: int, yy: int| #[trigger] out@.contains(xx, yy) implies out@.px(xx, yy) == if yy < y || (yy == y && xx < x + 1) {
                    let q = image@.px(xx, yy);
                    [q[0], q[1], q[2], table@[q[3] as int]]
                } else {
                    image@.px(xx, yy)
                } by {
                    assert(before.contains(xx, yy));
                }
            }
            x = x + 1;
        }
        y = y + 1;
    }
    out
}

/// The layer a drop shadow is blurred from: `image`'s silhouette in
/// `color`, on a transparent canvas padded by twice the radius on every
/// side. Each silhouette pixel takes its alpha from `image`, replacing the
/// colour's own alpha.
pub fn shadow_layer(image: &Image, radius: i64, color: Rgba) -> (r: Image)
    requires
        image.wf(),
        0 < radius,
        image.width + 4 * radius <= u32::MAX,
        image.height + 4 * radius <= u32::MAX,
        fits(image.width + 4 * radius, image.height + 4 * radius),
    ensures
        r.wf(),
        r@.width == image.width + 4 * radius,
        r@.height == image.height + 4 * radius,
        forall|x: int, y: int| #[trigger] r@.contains(x, y) ==> r@.px(x, y) == if covers(image@, 2 * radius, 2 * radius, x, y) {
            [color[0], color[1], color[2], image@.px(x - 2 * radius, y - 2 * radius)[3]]
        } else {
            [0u8, 0u8, 0u8, 0u8]
        },
{
    let padding = (radius * 2) as u32;
    let mut layer = Image::from_pixel(image.width + padding * 2, image.height + padding * 2, [0u8, 0u8, 0u8, 0u8]);
    let ghost pad = 2 * radius;
    let mut y: u32 = 0;
    while y < image.height
        invariant
            image.wf(),
            layer.wf(),
            padding == pad,
            pad == 2 * radius,
            0 < radius,
            layer.width == image.width + 2 * padding,
            layer.height == image.height + 2 * padding,
            y <= image.height,
            forall|xx: int, yy: int| #[trigger] layer@.contains(xx, yy) ==> layer@.px(xx, yy) == if covers(image@, pad, pad, xx, yy) && yy - pad < y {
                [color[0], color[1], color[2], image@.px(xx - pad, yy - pad)[3]]
            } else {
                [0u8, 0u8, 0u8, 0u8]
            },
        decreases image.height - y,
    {
        let mut x: u32 = 0;
        while x < image.width
            invariant
                image.wf(),
                layer.wf(),
                padding == pad,
                pad == 2 * radius,
                0 < radius,
                layer.width == image.width + 2 * padding,
                layer.height == image.height + 2 * padding,
                y < image.height,
                x <= image.width,
                forall|xx: int, yy: int| #[trigger] layer@.contains(xx, yy) ==> layer@.px(xx, yy) == if covers(image@, pad, pad, xx, yy) && (yy - pad < y || (yy - pad == y && xx - pad < x)) {
                    [color[0], color[1], color[2], image@.px(xx - pad, yy - pad)[3]]
                } else {
                    [0u8, 0u8, 0u8, 0u8]
                },
            decreases image.width - x,
        {
            let p = image.get_pixel(x, y);
            let ghost before = layer@;
            layer.put_pixel(x + padding, y + padding, [color[0], color[1], color[2], p[3]]);
            proof {
                assert forall|xx: int, yy: int| #[trigger] layer@.contains(xx, yy) implies layer@.px(xx, yy) == if covers(image@, pad, pad, xx, yy) && (yy - pad < y || (yy - pad == y && xx - pad < x + 1)) {
                    [color[0], color[1], color[2], image@.px(xx - pad, yy - pad)[3]]
                } else {
                    [0u8, 0u8, 0u8, 0u8]
                } by {
                    assert(before.contains(xx, yy));
                }
            }
            x = x + 1;
        }
        y = y + 1;
    }
    layer
}

/// `concat` where the layout stays in range, as `concat_fits` states;
/// nothing otherwise.
#[verifier::spinoff_prover]
#[verifier::rlimit(80)]
pub fn concat_checked(images: &Vec<Image>, direction: &str, alignment: &str, spacing: i64, background: Rgba) -> (r: Option<Image>)
    requires
        all_wf(images@),
    ensures
        images.len() == 0 ==> (r matches Some(img) && img.wf() && img@ == solid(1, 1, [0u8, 0u8, 0u8, 0u8])),
        images.len() > 0 ==> ({
            let ims = views(images@);
            let horizontal = direction@ == "horizontal"@;
            let (w, h) = concat_size(ims, horizontal, spacing as int);
            &&& (r is Some <==> concat_fits(ims, horizontal, spacing as int))
            &&& (r matches Some(img) ==> img.wf() && img@ == concat_canvas(ims, ims.len() as int, horizontal, alignment@, spacing as int, w, h, background))
        }),
{
    let n = images.len();
    if n == 0 {
        return Some(concat_images(images, direction, alignment, spacing, background));
    }
    let ghost ims = views(images@);
    let horizontal = chars_eq_str(to_chars(direction).as_slice(), "horizontal");
    if n > 0xFFFF_FFFF {
        return None;
    }
    let gap: u64 = (if spacing < 0 { 0 } else { spacing }) as u32 as u64;
    let count: u64 = (n - 1) as u64;
    proof {
        assert(gap * count <= 0xFFFF_FFFF * 0xFFFF_FFFF) by (nonlinear_arith)
            requires
                gap <= 0xFFFF_FFFF,
                count <= 0xFFFF_FFFF,
        ;
    }
    let gaps: u64 = gap * count;
    if gaps > 0xFFFF_FFFF {
        return None;
    }
    // The sum along the axis, the maximum across it, and the positions.
    let mut total: u64 = 0;
    let mut cross: u32 = 0;
    let mut cur: i64 = 0;
    let mut i: usize = 0;
    while i < n
        invariant
            i <= n,
            n == images.len(),
            n <= 0xFFFF_FFFF,
            ims == views(images@),
            horizontal == (direction@ == "horizontal"@),
            total as int == sum_along(ims, i as int, horizontal),
            total <= 0xFFFF_FFFF,
            cross as int == max_across(ims, i as int, horizontal),
            cur as int == cursor(ims, i as int, horizontal, spacing as int),
            forall|k: int| 0 <= k <= i ==> i64::MIN <= #[trigger] cursor(ims, k, horizontal, spacing as int) <= i64::MAX,
            forall|k: int| 0 <= k < i ==> i64::MIN <= along(#[trigger] ims[k], horizontal) + spacing <= i64::MAX,
            forall|k: int| 0 <= k < i ==> cursor(ims, k, horizontal, spacing as int) + along(#[trigger] ims[k], horizontal) <= i64::MAX,
        decreases n - i,
    {
        proof {
            assert(ims[i as int] == images@[i as int]@);
        }
        let (a, c) = if horizontal {
            (images[i].width, images[i].height)
        } else {
            (images[i].height, images[i].width)
        };
        let t2 = total + a as u64;
        proof {
            assert(along(ims[i as int], horizontal) == a);
        }
        if t2 > 0xFFFF_FFFF {
            proof {
                lemma_sum_along_mono(ims, i + 1, n as int, horizontal);
                assert(!concat_fits(ims, horizontal, spacing as int));
            }
            return None;
        }
        let step = match (a as i64).checked_add(spacing) {
            Some(v) => v,
            None => {
                proof {
                    assert(!(i64::MIN <= along(ims[i as int], horizontal) + spacing <= i64::MAX));
                    assert(!concat_fits(ims, horizontal, spacing as int));
                }
                return None;
            },
        };
        let end = match cur.checked_add(a as i64) {
            Some(v) => v,
            None => {
                proof {
                    assert(!(cursor(ims, i as int, horizontal, spacing as int) + along(ims[i as int], horizontal) <= i64::MAX));
                    assert(!concat_fits(ims, horizontal, spacing as int));
                }
                return None;
            },
        };
        let next = match cur.checked_add(step) {
            Some(v) => v,
            None => {
                proof {
                    assert(cursor(ims, i + 1, horizontal, spacing as int) == cur + step);
                    assert(!concat_fits(ims, horizontal, spacing as int));
                }
                return None;
            },
        };
        total = t2;
        if c > cross {
            cross = c;
        }
        cur = next;
        i = i + 1;
        proof {
            assert(cursor(ims, i as int, horizontal, spacing as int) == cur);
        }
    }
    if total + gaps > 0xFFFF_FFFF {
        proof {
            assert(gap as int == canvas_gap(spacing as int));
        }
        return None;
    }
    let spaced: u32 = (total + gaps) as u32;
    let (width, height) = if horizontal {
        (spaced, cross)
    } else {
        (cross, spaced)
    };
    proof {
        assert(gap as int == canvas_gap(spacing as int));
        assert(spaced as int == sum_along(ims, n as int, horizontal) + canvas_gap(spacing as int) * (n - 1));
        assert((width as int, height as int) == concat_size(ims, horizontal, spacing as int));
    }
    if !fits_exec(width, height) {
        return None;
    }
    proof {
        assert(concat_fits(ims, horizontal, spacing as int));
    }
    Some(concat_images(images, direction, alignment, spacing, background))
}

} // verus!
