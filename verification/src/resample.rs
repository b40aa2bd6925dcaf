//! Separable resampling with fixed-point kernels, in Pillow's order:
//! premultiply alpha (unless every pixel is opaque), filter the rows, filter
//! the columns, undo the premultiplication. The kernel weights carry 22
//! fractional bits; each pass rounds and clamps to 0..=255.
use vstd::prelude::*;
use crate::image::{Image, ImageView, Rgba, lemma_same_pixels_eq, fits, from_fn, lemma_from_fn};
use crate::blur::row_channel;

verus! {

/// One output position of a pass: the first input it reads and the weight
/// of each input from there on.
pub type Kernel = (usize, Vec<i64>);

/// The plain content of a kernel.
pub open spec fn kernel_view(k: Kernel) -> (int, Seq<i64>) {
    (k.0 as int, k.1@)
}

/// `v[left] * ws[0] + v[left + 1] * ws[1] + ...`.
pub open spec fn conv(v: Seq<u8>, left: int, ws: Seq<i64>) -> int
    decreases ws.len(),
{
    if ws.len() == 0 {
        0
    } else {
        conv(v, left, ws.drop_last()) + (v[left + ws.len() - 1] as int) * (ws.last() as int)
    }
}

/// The sum of the absolute weights.
pub open spec fn abs_sum(ws: Seq<i64>) -> int
    decreases ws.len(),
{
    if ws.len() == 0 {
        0
    } else {
        abs_sum(ws.drop_last()) + if ws.last() < 0 {
            -(ws.last() as int)
        } else {
            ws.last() as int
        }
    }
}

/// The byte a weighted sum rounds to: half a unit added, 22 fractional bits
/// dropped, clamped to 0..=255.
pub open spec fn quantize(sum: int) -> int {
    let q = sum + 0x200000;
    if q < 0 {
        0
    } else if q / 0x400000 > 255 {
        255
    } else {
        q / 0x400000
    }
}

/// A kernel list fits an input of `len` values: every kernel reads inside
/// the input, and its weights are small enough for 64-bit sums.
pub open spec fn kernels_ok(ks: Seq<Kernel>, len: int) -> bool {
    forall|i: int|
        0 <= i < ks.len() ==> #[trigger] ks[i].0 + ks[i].1@.len() <= len && abs_sum(ks[i].1@)
            <= 0x4000000000000
}

proof fn lemma_conv_bound(v: Seq<u8>, left: int, ws: Seq<i64>)
    requires
        0 <= left,
        left + ws.len() <= v.len(),
    ensures
        -255 * abs_sum(ws) <= conv(v, left, ws) <= 255 * abs_sum(ws),
        0 <= abs_sum(ws),
    decreases ws.len(),
{
    if ws.len() > 0 {
        lemma_conv_bound(v, left, ws.drop_last());
        let a = v[left + ws.len() - 1] as int;
        let w = ws.last() as int;
        assert(-255 * (if w < 0 { -w } else { w }) <= a * w <= 255 * (if w < 0 { -w } else { w }))
            by (nonlinear_arith)
            requires
                0 <= a <= 255,
        ;
    }
}

/// The weighted sum of `v[left..]` with the kernel weights.
pub fn conv_values(v: &Vec<u8>, left: usize, ws: &Vec<i64>) -> (r: i64)
    requires
        left + ws.len() <= v.len(),
        abs_sum(ws@) <= 0x4000000000000,
    ensures
        r as int == conv(v@, left as int, ws@),
{
    let mut acc: i64 = 0;
    let mut k: usize = 0;
    while k < ws.len()
        invariant
            k <= ws.len(),
            left + ws.len() <= v.len(),
            abs_sum(ws@) <= 0x4000000000000,
            acc as int == conv(v@, left as int, ws@.take(k as int)),
        decreases ws.len() - k,
    {
        proof {
            let t = ws@.take(k + 1);
            assert(t.drop_last() =~= ws@.take(k as int));
            assert(t.last() == ws@[k as int]);
            assert(conv(v@, left as int, t) == acc + (v@[left + k] as int) * (ws@[k as int] as int));
            lemma_conv_bound(v@, left as int, t);
            lemma_conv_bound(v@, left as int, ws@.take(k as int));
            lemma_abs_sum_prefix(ws@, k + 1);
            lemma_abs_sum_prefix(ws@, k as int);
        }
        acc = acc + (v[left + k] as i64) * ws[k];
        k = k + 1;
    }
    proof {
        assert(ws@.take(k as int) =~= ws@);
    }
    acc
}

proof fn lemma_abs_sum_prefix(ws: Seq<i64>, m: int)
    requires
        0 <= m <= ws.len(),
    ensures
        abs_sum(ws.take(m)) <= abs_sum(ws),
    decreases ws.len() - m,
{
    if m < ws.len() {
        lemma_abs_sum_prefix(ws, m + 1);
        assert(ws.take(m + 1).drop_last() =~= ws.take(m));
    } else {
        assert(ws.take(m) =~= ws);
    }
}

/// Rounds a weighted sum to a byte.
pub fn quantize_sum(sum: i64) -> (r: u8)
    requires
        -0x1000000000000000 <= sum <= 0x1000000000000000,
    ensures
        r as int == quantize(sum as int),
{
    let q = sum + 0x200000;
    if q < 0 {
        0
    } else if q / 0x400000 > 255 {
        255
    } else {
        (q / 0x400000) as u8
    }
}

/// A pixel with its colour scaled by its alpha, rounded.
pub open spec fn prem_px(p: Rgba) -> Rgba {
    [
        ((p[0] as int * p[3] as int + 127) / 255) as u8,
        ((p[1] as int * p[3] as int + 127) / 255) as u8,
        ((p[2] as int * p[3] as int + 127) / 255) as u8,
        p[3],
    ]
}

/// A premultiplied pixel scaled back; fully opaque and fully transparent
/// pixels stay as they are.
pub open spec fn unprem_px(p: Rgba) -> Rgba {
    if 0 < p[3] < 255 {
        [
            (if p[0] as int * 255 / (p[3] as int) > 255 { 255 } else { p[0] as int * 255 / (p[3] as int) }) as u8,
            (if p[1] as int * 255 / (p[3] as int) > 255 { 255 } else { p[1] as int * 255 / (p[3] as int) }) as u8,
            (if p[2] as int * 255 / (p[3] as int) > 255 { 255 } else { p[2] as int * 255 / (p[3] as int) }) as u8,
            p[3],
        ]
    } else {
        p
    }
}

/// Every pixel mapped by `f`.
pub open spec fn map_px(img: ImageView, f: spec_fn(Rgba) -> Rgba) -> ImageView {
    from_fn(img.width, img.height, |x: int, y: int| f(img.px(x, y)))
}

pub proof fn lemma_map_px(img: ImageView, f: spec_fn(Rgba) -> Rgba)
    ensures
        map_px(img, f).wf(),
        map_px(img, f).width == img.width,
        map_px(img, f).height == img.height,
        forall|x: int, y: int| #[trigger] img.contains(x, y) ==> map_px(img, f).px(x, y) == f(img.px(x, y)),
{
    lemma_from_fn(img.width, img.height, |x: int, y: int| f(img.px(x, y)));
}

/// Whether every pixel is fully opaque.
pub open spec fn all_opaque(img: ImageView) -> bool {
    forall|x: int, y: int| #[trigger] img.contains(x, y) ==> img.px(x, y)[3] == 255
}

/// The values of channel `c` down column `x`.
pub open spec fn col_channel(img: ImageView, x: int, c: int) -> Seq<u8> {
    Seq::new(img.height, |y: int| img.ch(x, y, c))
}

/// The row pass: output column `x` mixes the row values its kernel names.
pub open spec fn hpass(img: ImageView, ks: Seq<(int, Seq<i64>)>) -> ImageView {
    from_fn(ks.len(), img.height, |x: int, y: int| {
        let (l, ws) = ks[x];
        [
            quantize(conv(row_channel(img, y, 0), l, ws)) as u8,
            quantize(conv(row_channel(img, y, 1), l, ws)) as u8,
            quantize(conv(row_channel(img, y, 2), l, ws)) as u8,
            quantize(conv(row_channel(img, y, 3), l, ws)) as u8,
        ]
    })
}

/// The column pass: output row `y` mixes the column values its kernel names.
pub open spec fn vpass(img: ImageView, ks: Seq<(int, Seq<i64>)>) -> ImageView {
    from_fn(img.width, ks.len(), |x: int, y: int| {
        let (t, ws) = ks[y];
        [
            quantize(conv(col_channel(img, x, 0), t, ws)) as u8,
            quantize(conv(col_channel(img, x, 1), t, ws)) as u8,
            quantize(conv(col_channel(img, x, 2), t, ws)) as u8,
            quantize(conv(col_channel(img, x, 3), t, ws)) as u8,
        ]
    })
}

/// The whole resize for given kernels.
pub open spec fn spec_resize(
    img: ImageView,
    width: int,
    height: int,
    hk: Seq<(int, Seq<i64>)>,
    vk: Seq<(int, Seq<i64>)>,
) -> ImageView {
    if width == img.width && height == img.height {
        img
    } else {
        let opaque = all_opaque(img);
        let s1 = if opaque {
            img
        } else {
            map_px(img, |p: Rgba| prem_px(p))
        };
        let s2 = if width == img.width {
            s1
        } else {
            hpass(s1, hk)
        };
        let s3 = if height == img.height {
            s2
        } else {
            vpass(s2, vk)
        };
        if opaque {
            s3
        } else {
            map_px(s3, |p: Rgba| unprem_px(p))
        }
    }
}

pub open spec fn kernels_view(ks: Seq<Kernel>) -> Seq<(int, Seq<i64>)> {
    ks.map_values(|k: Kernel| kernel_view(k))
}

fn prem_pixel(p: Rgba) -> (r: Rgba)
    ensures
        r == prem_px(p),
{
    let a = p[3] as u32;
    proof {
        assert(p[0] * a <= 255 * 255 && p[1] * a <= 255 * 255 && p[2] * a <= 255 * 255)
            by (nonlinear_arith)
            requires
                p[0] <= 255,
                p[1] <= 255,
                p[2] <= 255,
                a <= 255,
        ;
    }
    [
        ((p[0] as u32 * a + 127) / 255) as u8,
        ((p[1] as u32 * a + 127) / 255) as u8,
        ((p[2] as u32 * a + 127) / 255) as u8,
        p[3],
    ]
}

fn unprem_channel(v: u8, a: u8) -> (r: u8)
    requires
        0 < a < 255,
    ensures
        r as int == (if v as int * 255 / (a as int) > 255 { 255 } else { v as int * 255 / (a as int) }),
{
    let q = (v as u32) * 255 / (a as u32);
    if q > 255 {
        255
    } else {
        q as u8
    }
}

fn unprem_pixel(p: Rgba) -> (r: Rgba)
    ensures
        r == unprem_px(p),
{
    if p[3] > 0 && p[3] < 255 {
        [unprem_channel(p[0], p[3]), unprem_channel(p[1], p[3]), unprem_channel(p[2], p[3]), p[3]]
    } else {
        p
    }
}

/// Every pixel mapped by premultiplication (`unprem == false`) or its
/// inverse (`unprem == true`).
fn map_pixels(img: &Image, unprem: bool) -> (out: Image)
    requires
        img.wf(),
    ensures
        out.wf(),
        !unprem ==> out@ == map_px(img@, |p: Rgba| prem_px(p)),
        unprem ==> out@ == map_px(img@, |p: Rgba| unprem_px(p)),
{
    let mut out = Image::new(img.width, img.height);
    let mut y: u32 = 0;
    while y < img.height
        invariant
            img.wf(),
            out.wf(),
            out.width == img.width,
            out.height == img.height,
            y <= img.height,
            forall|xx: int, yy: int|
                #![trigger out@.px(xx, yy)]
                out@.contains(xx, yy) && yy < y ==> out@.px(xx, yy) == if unprem {
                    unprem_px(img@.px(xx, yy))
                } else {
                    prem_px(img@.px(xx, yy))
                },
        decreases img.height - y,
    {
        let mut x: u32 = 0;
        while x < img.width
            invariant
                img.wf(),
                out.wf(),
                out.width == img.width,
                out.height == img.height,
                y < img.height,
                x <= img.width,
                forall|xx: int, yy: int|
                    #![trigger out@.px(xx, yy)]
                    out@.contains(xx, yy) && (yy < y || (yy == y && xx < x)) ==> out@.px(xx, yy)
                        == if unprem {
                        unprem_px(img@.px(xx, yy))
                    } else {
                        prem_px(img@.px(xx, yy))
                    },
            decreases img.width - x,
        {
            let p = img.get_pixel(x, y);
            let q = if unprem {
                unprem_pixel(p)
            } else {
                prem_pixel(p)
            };
            out.put_pixel(x, y, q);
            x = x + 1;
        }
        y = y + 1;
    }
    proof {
        let f = if unprem {
            |p: Rgba| unprem_px(p)
        } else {
            |p: Rgba| prem_px(p)
        };
        lemma_map_px(img@, f);
        let m = map_px(img@, f);
        assert forall|x: int, y: int| #![trigger out@.px(x, y), m.px(x, y)] out@.contains(x, y) implies out@.px(x, y) == m.px(x, y) by {
            assert(img@.contains(x, y));
            assert(m.px(x, y) == f(img@.px(x, y)));
        }
        lemma_same_pixels_eq(out@, m);
    }
    out
}

/// Whether every pixel of `img` is fully opaque.
pub fn is_opaque(img: &Image) -> (r: bool)
    requires
        img.wf(),
    ensures
        r == all_opaque(img@),
{
    let mut y: u32 = 0;
    while y < img.height
        invariant
            img.wf(),
            y <= img.height,
            forall|xx: int, yy: int| #[trigger] img@.contains(xx, yy) && yy < y ==> img@.px(xx, yy)[3] == 255,
        decreases img.height - y,
    {
        let mut x: u32 = 0;
        while x < img.width
            invariant
                img.wf(),
                y < img.height,
                x <= img.width,
                forall|xx: int, yy: int| #[trigger] img@.contains(xx, yy) && (yy < y || (yy == y && xx < x)) ==> img@.px(xx, yy)[3] == 255,
            decreases img.width - x,
        {
            if img.get_pixel(x, y)[3] != 255 {
                proof {
                    assert(img@.contains(x as int, y as int));
                }
                return false;
            }
            x = x + 1;
        }
        y = y + 1;
    }
    true
}

fn channel_of_col(img: &Image, x: u32, c: usize) -> (v: Vec<u8>)
    requires
        img.wf(),
        x < img.width,
        c < 4,
    ensures
        v@ == col_channel(img@, x as int, c as int),
{
    let mut v: Vec<u8> = Vec::new();
    let mut y: u32 = 0;
    while y < img.height
        invariant
            img.wf(),
            x < img.width,
            c < 4,
            y <= img.height,
            v@ == col_channel(img@, x as int, c as int).take(y as int),
        decreases img.height - y,
    {
        let p = img.get_pixel(x, y);
        v.push(p[c]);
        y = y + 1;
        proof {
            assert(v@ =~= col_channel(img@, x as int, c as int).take(y as int));
        }
    }
    proof {
        assert(v@ =~= col_channel(img@, x as int, c as int));
    }
    v
}

fn row_values(img: &Image, y: u32, c: usize) -> (v: Vec<u8>)
    requires
        img.wf(),
        y < img.height,
        c < 4,
    ensures
        v@ == row_channel(img@, y as int, c as int),
{
    let mut v: Vec<u8> = Vec::new();
    let mut x: u32 = 0;
    while x < img.width
        invariant
            img.wf(),
            y < img.height,
            c < 4,
            x <= img.width,
            v@ == row_channel(img@, y as int, c as int).take(x as int),
        decreases img.width - x,
    {
        let p = img.get_pixel(x, y);
        v.push(p[c]);
        x = x + 1;
        proof {
            assert(v@ =~= row_channel(img@, y as int, c as int).take(x as int));
        }
    }
    proof {
        assert(v@ =~= row_channel(img@, y as int, c as int));
    }
    v
}

fn filtered(v: &Vec<u8>, k: &Kernel) -> (r: u8)
    requires
        k.0 + k.1@.len() <= v.len(),
        abs_sum(k.1@) <= 0x4000000000000,
    ensures
        r as int == quantize(conv(v@, k.0 as int, k.1@)),
{
    let s = conv_values(v, k.0, &k.1);
    proof {
        lemma_conv_bound(v@, k.0 as int, k.1@);
    }
    quantize_sum(s)
}

/// The row pass with one kernel per output column.
fn row_pass(img: &Image, ks: &Vec<Kernel>) -> (out: Image)
    requires
        img.wf(),
        ks.len() <= u32::MAX,
        fits(ks.len() as int, img.height as int),
        kernels_ok(ks@, img.width as int),
    ensures
        out.wf(),
        out@ == hpass(img@, kernels_view(ks@)),
{
    let width = ks.len() as u32;
    let mut out = Image::new(width, img.height);
    let ghost kv = kernels_view(ks@);
    let mut y: u32 = 0;
    while y < img.height
        invariant
            img.wf(),
            out.wf(),
            width == ks.len(),
            kv == kernels_view(ks@),
            kernels_ok(ks@, img.width as int),
            out.width == width,
            out.height == img.height,
            y <= img.height,
            forall|xx: int, yy: int|
                #![trigger out@.px(xx, yy)]
                out@.contains(xx, yy) && yy < y ==> out@.px(xx, yy) == hpass(img@, kv).px(xx, yy),
        decreases img.height - y,
    {
        let r0 = row_values(img, y, 0);
        let r1 = row_values(img, y, 1);
        let r2 = row_values(img, y, 2);
        let r3 = row_values(img, y, 3);
        let mut x: u32 = 0;
        while x < width
            invariant
                img.wf(),
                out.wf(),
                width == ks.len(),
                kv == kernels_view(ks@),
                kernels_ok(ks@, img.width as int),
                out.width == width,
                out.height == img.height,
                y < img.height,
                x <= width,
                r0@ == row_channel(img@, y as int, 0),
                r1@ == row_channel(img@, y as int, 1),
                r2@ == row_channel(img@, y as int, 2),
                r3@ == row_channel(img@, y as int, 3),
                forall|xx: int, yy: int|
                    #![trigger out@.px(xx, yy)]
                    out@.contains(xx, yy) && (yy < y || (yy == y && xx < x)) ==> out@.px(xx, yy)
                        == hpass(img@, kv).px(xx, yy),
            decreases width - x,
        {
            let k = &ks[x as usize];
            proof {
                assert(k.0 + k.1@.len() <= img.width && abs_sum(k.1@) <= 0x4000000000000) by {
                    assert(ks@[x as int] == *k);
                    assert(ks@[x as int].0 + ks@[x as int].1@.len() <= img.width as int);
                }
            }
            let p: Rgba = [filtered(&r0, k), filtered(&r1, k), filtered(&r2, k), filtered(&r3, k)];
            proof {
                lemma_from_fn(kv.len(), img@.height, |xx: int, yy: int| {
                    let (l, ws) = kv[xx];
                    [
                        quantize(conv(row_channel(img@, yy, 0), l, ws)) as u8,
                        quantize(conv(row_channel(img@, yy, 1), l, ws)) as u8,
                        quantize(conv(row_channel(img@, yy, 2), l, ws)) as u8,
                        quantize(conv(row_channel(img@, yy, 3), l, ws)) as u8,
                    ]
                });
                assert(kv[x as int] == kernel_view(*k));
                assert(p == hpass(img@, kv).px(x as int, y as int));
            }
            out.put_pixel(x, y, p);
            x = x + 1;
        }
        y = y + 1;
    }
    proof {
        lemma_from_fn(kv.len(), img@.height, |xx: int, yy: int| {
            let (l, ws) = kv[xx];
            [
                quantize(conv(row_channel(img@, yy, 0), l, ws)) as u8,
                quantize(conv(row_channel(img@, yy, 1), l, ws)) as u8,
                quantize(conv(row_channel(img@, yy, 2), l, ws)) as u8,
                quantize(conv(row_channel(img@, yy, 3), l, ws)) as u8,
            ]
        });
        lemma_same_pixels_eq(out@, hpass(img@, kv));
    }
    out
}

/// The column pass with one kernel per output row.
fn col_pass(img: &Image, ks: &Vec<Kernel>) -> (out: Image)
    requires
        img.wf(),
        ks.len() <= u32::MAX,
        fits(img.width as int, ks.len() as int),
        kernels_ok(ks@, img.height as int),
    ensures
        out.wf(),
        out@ == vpass(img@, kernels_view(ks@)),
{
    let height = ks.len() as u32;
    let mut out = Image::new(img.width, height);
    let ghost kv = kernels_view(ks@);
    let mut x: u32 = 0;
    while x < img.width
        invariant
            img.wf(),
            out.wf(),
            height == ks.len(),
            kv == kernels_view(ks@),
            kernels_ok(ks@, img.height as int),
            out.width == img.width,
            out.height == height,
            x <= img.width,
            forall|xx: int, yy: int|
                #![trigger out@.px(xx, yy)]
                out@.contains(xx, yy) && xx < x ==> out@.px(xx, yy) == vpass(img@, kv).px(xx, yy),
        decreases img.width - x,
    {
        let c0 = channel_of_col(img, x, 0);
        let c1 = channel_of_col(img, x, 1);
        let c2 = channel_of_col(img, x, 2);
        let c3 = channel_of_col(img, x, 3);
        let mut y: u32 = 0;
        while y < height
            invariant
                img.wf(),
                out.wf(),
                height == ks.len(),
                kv == kernels_view(ks@),
                kernels_ok(ks@, img.height as int),
                out.width == img.width,
                out.height == height,
                x < img.width,
                y <= height,
                c0@ == col_channel(img@, x as int, 0),
                c1@ == col_channel(img@, x as int, 1),
                c2@ == col_channel(img@, x as int, 2),
                c3@ == col_channel(img@, x as int, 3),
                forall|xx: int, yy: int|
                    #![trigger out@.px(xx, yy)]
                    out@.contains(xx, yy) && (xx < x || (xx == x && yy < y)) ==> out@.px(xx, yy)
                        == vpass(img@, kv).px(xx, yy),
            decreases height - y,
        {
            let k = &ks[y as usize];
            proof {
                assert(k.0 + k.1@.len() <= img.height && abs_sum(k.1@) <= 0x4000000000000) by {
                    assert(ks@[y as int] == *k);
                    assert(ks@[y as int].0 + ks@[y as int].1@.len() <= img.height as int);
                }
            }
            let p: Rgba = [filtered(&c0, k), filtered(&c1, k), filtered(&c2, k), filtered(&c3, k)];
            proof {
                lemma_from_fn(img@.width, kv.len(), |xx: int, yy: int| {
                    let (t, ws) = kv[yy];
                    [
                        quantize(conv(col_channel(img@, xx, 0), t, ws)) as u8,
                        quantize(conv(col_channel(img@, xx, 1), t, ws)) as u8,
                        quantize(conv(col_channel(img@, xx, 2), t, ws)) as u8,
                        quantize(conv(col_channel(img@, xx, 3), t, ws)) as u8,
                    ]
                });
                assert(kv[y as int] == kernel_view(*k));
                assert(p == vpass(img@, kv).px(x as int, y as int));
            }
            out.put_pixel(x, y, p);
            y = y + 1;
        }
        x = x + 1;
    }
    proof {
        lemma_from_fn(img@.width, kv.len(), |xx: int, yy: int| {
            let (t, ws) = kv[yy];
            [
                quantize(conv(col_channel(img@, xx, 0), t, ws)) as u8,
                quantize(conv(col_channel(img@, xx, 1), t, ws)) as u8,
                quantize(conv(col_channel(img@, xx, 2), t, ws)) as u8,
                quantize(conv(col_channel(img@, xx, 3), t, ws)) as u8,
            ]
        });
        lemma_same_pixels_eq(out@, vpass(img@, kv));
    }
    out
}

/// Resizes `image` to `width` by `height` with the given row kernels (one
/// per output column) and column kernels (one per output row). Partly
/// transparent images are filtered premultiplied, as Pillow does for RGBA,
/// and a pass whose size does not change is skipped.
pub fn resize(image: &Image, width: u32, height: u32, horizontal: &Vec<Kernel>, vertical: &Vec<Kernel>) -> (out: Image)
    requires
        image.wf(),
        fits(width as int, height as int),
        fits(width as int, image.height as int),
        width != image.width ==> horizontal.len() == width && kernels_ok(horizontal@, image.width as int),
        height != image.height ==> vertical.len() == height && kernels_ok(vertical@, image.height as int),
    ensures
        out.wf(),
        out@ == spec_resize(image@, width as int, height as int, kernels_view(horizontal@), kernels_view(vertical@)),
{
    if image.width == width && image.height == height {
        return image.duplicate();
    }
    let opaque = is_opaque(image);
    let source = if opaque {
        image.duplicate()
    } else {
        map_pixels(image, false)
    };
    let rows = if width == image.width {
        source
    } else {
        row_pass(&source, horizontal)
    };
    let cols = if height == image.height {
        rows
    } else {
        col_pass(&rows, vertical)
    };
    if opaque {
        cols
    } else {
        map_pixels(&cols, true)
    }
}

} // verus!
