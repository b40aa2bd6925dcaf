//! Pillow's extended box blur: three horizontal box passes, then three
//! vertical ones (done as horizontal passes on the image turned a quarter
//! turn), with 24-bit fixed-point weights and edge pixels repeated.
use vstd::prelude::*;
use crate::image::{Image, ImageView, Rgba, from_fn, lemma_from_fn, lemma_same_pixels_eq};

verus! {

/// `k` clamped to the valid indices `0..len`.
pub open spec fn clampi(k: int, len: int) -> int {
    if k < 0 {
        0
    } else if k > len - 1 {
        len - 1
    } else {
        k
    }
}

/// `v[clamp(lo)] + v[clamp(lo + 1)] + ... + v[clamp(lo + n - 1)]`: a window
/// of `n` values with the edge values repeated beyond both ends.
pub open spec fn rsum(v: Seq<u8>, lo: int, n: nat) -> int
    decreases n,
{
    if n == 0 {
        0
    } else {
        rsum(v, lo, (n - 1) as nat) + v[clampi(lo + n - 1, v.len() as int)] as int
    }
}

/// One output value of a box pass of radius `r` with weight `wt` for the
/// `2r + 1` inner values and `fr` for the two half-covered edge values.
pub open spec fn box_at(v: Seq<u8>, x: int, r: int, wt: int, fr: int) -> int {
    let n = v.len() as int;
    (rsum(v, x - r, (2 * r + 1) as nat) * wt + (v[clampi(x - r - 1, n)] as int + v[clampi(
        x + r + 1,
        n,
    )] as int) * fr + 0x800000) / 0x1000000
}

/// The weights of one box pass: `2r + 1` full weights and two fringe
/// weights sum to at most 1 in 24-bit fixed point.
pub open spec fn box_params_ok(r: int, wt: int, fr: int) -> bool {
    &&& 0 <= r
    &&& 0 <= wt
    &&& 0 <= fr
    &&& (2 * r + 1) * wt + 2 * fr <= 0x1000000
    &&& 2 * r + 1 <= 0x1000000
}

/// The fringe weight that goes with a box radius and weight.
pub open spec fn spec_fringe(r: int, wt: int) -> int {
    (0x1000000 - (2 * r + 1) * wt) / 2
}

proof fn lemma_rsum_split(v: Seq<u8>, lo: int, a: nat, b: nat)
    ensures
        rsum(v, lo, a + b) == rsum(v, lo, a) + rsum(v, lo + a, b),
    decreases b,
{
    if b > 0 {
        lemma_rsum_split(v, lo, a, (b - 1) as nat);
    }
}

proof fn lemma_rsum_const(v: Seq<u8>, lo: int, n: nat, at: int)
    requires
        forall|k: int| lo <= k < lo + n ==> #[trigger] clampi(k, v.len() as int) == at,
    ensures
        rsum(v, lo, n) == n * (v[at] as int),
    decreases n,
{
    if n == 0 {
        assert(n * (v[at] as int) == 0) by (nonlinear_arith)
            requires
                n == 0,
        ;
    } else {
        lemma_rsum_const(v, lo, (n - 1) as nat, at);
        assert(clampi(lo + n - 1, v.len() as int) == at);
        assert(n * (v[at] as int) == (n - 1) * (v[at] as int) + v[at] as int) by (nonlinear_arith);
    }
}

proof fn lemma_rsum_bound(v: Seq<u8>, lo: int, n: nat)
    requires
        v.len() > 0,
    ensures
        0 <= rsum(v, lo, n) <= 255 * n,
    decreases n,
{
    if n > 0 {
        lemma_rsum_bound(v, lo, (n - 1) as nat);
        let k = clampi(lo + n - 1, v.len() as int);
        assert(0 <= k < v.len());
    }
}

proof fn lemma_rsum_shift(v: Seq<u8>, lo: int, n: nat)
    requires
        n > 0,
    ensures
        rsum(v, lo + 1, n) == rsum(v, lo, n) - v[clampi(lo, v.len() as int)] as int + v[clampi(
            lo + n,
            v.len() as int,
        )] as int,
    decreases n,
{
    if n == 1 {
        assert(rsum(v, lo + 1, 0) == 0);
        assert(rsum(v, lo, 0) == 0);
    } else {
        lemma_rsum_shift(v, lo, (n - 1) as nat);
    }
}

proof fn lemma_box_value_range(s: int, e: int, r: int, wt: int, fr: int)
    requires
        box_params_ok(r, wt, fr),
        0 <= s <= 255 * (2 * r + 1),
        0 <= e <= 510,
    ensures
        0 <= s * wt + e * fr + 0x800000 <= 255 * 0x1000000 + 0x800000,
        0 <= (s * wt + e * fr + 0x800000) / 0x1000000 <= 255,
        s * wt <= 255 * 0x1000000,
        e * fr <= 255 * 0x1000000,
{
    assert(0 <= s * wt <= 255 * ((2 * r + 1) * wt)) by (nonlinear_arith)
        requires
            0 <= s <= 255 * (2 * r + 1),
            0 <= wt,
    ;
    assert(0 <= e * fr <= 255 * (2 * fr)) by (nonlinear_arith)
        requires
            0 <= e <= 510,
            0 <= fr,
    ;
}

/// One box pass over a row of channel values.
pub fn box_row(v: &Vec<u8>, r: u32, wt: u32, fr: u32) -> (out: Vec<u8>)
    requires
        v.len() > 0,
        box_params_ok(r as int, wt as int, fr as int),
    ensures
        out.len() == v.len(),
        forall|x: int| 0 <= x < v.len() ==> #[trigger] out@[x] as int == box_at(
            v@,
            x,
            r as int,
            wt as int,
            fr as int,
        ),
{
    let width = v.len();
    let ghost n = width as int;
    let ghost rr = r as int;
    let radius = r as usize;
    // The window for the first output: the first value covers r + 1
    // positions, then the values up to the radius, then the last value
    // repeated for whatever of the window lies beyond the row.
    let m: usize = if radius < width - 1 {
        radius
    } else {
        width - 1
    };
    proof {
        lemma_rsum_bound(v@, -rr, (rr + 1) as nat);
        lemma_rsum_const(v@, -rr, (rr + 1) as nat, 0);
    }
    proof {
        assert((rr + 1) * (v@[0] as int) <= 255 * (rr + 1)) by (nonlinear_arith)
            requires
                v@[0] <= 255,
                0 <= rr,
        ;
    }
    let mut sum: u32 = (r + 1) * (v[0] as u32);
    let mut k: usize = 1;
    while k <= m
        invariant
            1 <= k <= m + 1,
            m < width,
            width == v.len(),
            n == width,
            rr == r,
            m <= rr,
            box_params_ok(r as int, wt as int, fr as int),
            sum as int == (rr + 1) * (v@[0] as int) + rsum(v@, 1, (k - 1) as nat),
            0 <= rsum(v@, 1, (k - 1) as nat) <= 255 * (k - 1),
            forall|t: int| 1 <= t < k ==> clampi(t, n) == t,
        decreases m + 1 - k,
    {
        proof {
            assert(clampi(k as int, n) == k);
            assert(255 * (rr + 1) + 255 * k <= 255 * (2 * rr + 1));
            assert((rr + 1) * (v@[0] as int) <= 255 * (rr + 1)) by (nonlinear_arith)
                requires
                    v@[0] <= 255,
                    0 <= rr,
            ;
        }
        sum = sum + v[k] as u32;
        k = k + 1;
    }
    let extra: u32 = (r - m as u32);
    proof {
        // The part of the window beyond the row repeats the last value.
        lemma_rsum_const(v@, (m + 1) as int, extra as nat, n - 1);
        lemma_rsum_split(v@, 1, m as nat, extra as nat);
        lemma_rsum_split(v@, -rr, (rr + 1) as nat, rr as nat);
        assert(extra * (v@[n - 1] as int) <= 255 * extra) by (nonlinear_arith)
            requires
                v@[n - 1] <= 255,
                0 <= extra,
        ;
        assert((rr + 1) * (v@[0] as int) <= 255 * (rr + 1)) by (nonlinear_arith)
            requires
                v@[0] <= 255,
                0 <= rr,
        ;
    }
    proof {
        assert(extra > 0 ==> m == width - 1);
        assert(m + extra == rr);
    }
    sum = sum + extra * (v[width - 1] as u32);
    proof {
        assert((2 * rr + 1) as nat == (rr + 1) as nat + rr as nat);
        assert(sum == rsum(v@, -rr, (2 * rr + 1) as nat));
    }
    let mut out: Vec<u8> = Vec::new();
    let mut x: usize = 0;
    while x < width
        invariant
            x <= width,
            width == v.len(),
            n == width,
            rr == r,
            radius == r,
            box_params_ok(r as int, wt as int, fr as int),
            out.len() == x,
            sum as int == rsum(v@, x - rr, (2 * rr + 1) as nat),
            forall|q: int| 0 <= q < x ==> #[trigger] out@[q] as int == box_at(
                v@,
                q,
                r as int,
                wt as int,
                fr as int,
            ),
        decreases width - x,
    {
        let left_edge: usize = if x > radius + 1 {
            x - (radius + 1)
        } else {
            0
        };
        let right_edge: usize = if radius + 1 < width - 1 - x {
            x + radius + 1
        } else {
            width - 1
        };
        let subtract: usize = if x > radius {
            x - radius
        } else {
            0
        };
        proof {
            assert(left_edge == clampi(x - rr - 1, n));
            assert(right_edge == clampi(x + rr + 1, n));
            assert(subtract == clampi(x - rr, n));
            lemma_rsum_bound(v@, x - rr, (2 * rr + 1) as nat);
            lemma_box_value_range(
                sum as int,
                v@[left_edge as int] + v@[right_edge as int],
                rr,
                wt as int,
                fr as int,
            );
            lemma_rsum_shift(v@, x - rr, (2 * rr + 1) as nat);
            assert(x - rr + (2 * rr + 1) == x + rr + 1);
        }
        let edges: u32 = v[left_edge] as u32 + v[right_edge] as u32;
        let value: u32 = (sum * wt + edges * fr + 0x800000) / 0x1000000;
        out.push(value as u8);
        proof {
            lemma_rsum_bound(v@, x + 1 - rr, (2 * rr + 1) as nat);
        }
        sum = sum + v[right_edge] as u32 - v[subtract] as u32;
        x = x + 1;
    }
    out
}

/// The values of channel `c` along row `y`.
pub open spec fn row_channel(img: ImageView, y: int, c: int) -> Seq<u8> {
    Seq::new(img.width, |x: int| img.ch(x, y, c))
}

/// The pixel a horizontal box pass leaves at `(x, y)`.
pub open spec fn hbox_px(img: ImageView, r: int, wt: int, fr: int, x: int, y: int) -> Rgba {
    [
        box_at(row_channel(img, y, 0), x, r, wt, fr) as u8,
        box_at(row_channel(img, y, 1), x, r, wt, fr) as u8,
        box_at(row_channel(img, y, 2), x, r, wt, fr) as u8,
        box_at(row_channel(img, y, 3), x, r, wt, fr) as u8,
    ]
}

/// A horizontal box pass over every row.
pub open spec fn hbox(img: ImageView, r: int, wt: int, fr: int) -> ImageView {
    from_fn(img.width, img.height, |x: int, y: int| hbox_px(img, r, wt, fr, x, y))
}

/// The image turned a quarter turn clockwise, as `imageops::rotate90` does.
pub open spec fn rot90(img: ImageView) -> ImageView {
    from_fn(img.height, img.width, |x: int, y: int| img.px(y, img.height - 1 - x))
}

/// The image turned a quarter turn counter-clockwise, as
/// `imageops::rotate270` does.
pub open spec fn rot270(img: ImageView) -> ImageView {
    from_fn(img.height, img.width, |x: int, y: int| img.px(img.width - 1 - y, x))
}

/// Three box passes.
pub open spec fn hbox3(img: ImageView, r: int, wt: int, fr: int) -> ImageView {
    hbox(hbox(hbox(img, r, wt, fr), r, wt, fr), r, wt, fr)
}

/// The blur as a whole: three horizontal passes, then three vertical ones.
pub open spec fn spec_blur(img: ImageView, r: int, wt: int, fr: int) -> ImageView {
    rot270(hbox3(rot90(hbox3(img, r, wt, fr)), r, wt, fr))
}

fn channel_of_row(img: &Image, y: u32, c: usize) -> (v: Vec<u8>)
    requires
        img.wf(),
        y < img.height,
        c < 4,
    ensures
        v@ == row_channel(img@, y as int, c as int),
{
    let mut v: Vec<u8> = Vec::new();
    let mut x: u32 = 0;
    while x < img.width
        invariant
            img.wf(),
            y < img.height,
            c < 4,
            x <= img.width,
            v@ == row_channel(img@, y as int, c as int).take(x as int),
        decreases img.width - x,
    {
        let p = img.get_pixel(x, y);
        v.push(p[c]);
        x = x + 1;
        proof {
            assert(v@ =~= row_channel(img@, y as int, c as int).take(x as int));
        }
    }
    proof {
        assert(v@ =~= row_channel(img@, y as int, c as int));
    }
    v
}

/// One horizontal box pass over every row of `img`.
pub fn box_pass(img: &Image, r: u32, wt: u32, fr: u32) -> (out: Image)
    requires
        img.wf(),
        img.width > 0,
        box_params_ok(r as int, wt as int, fr as int),
    ensures
        out.wf(),
        out@ == hbox(img@, r as int, wt as int, fr as int),
{
    let mut out = Image::new(img.width, img.height);
    let mut y: u32 = 0;
    while y < img.height
        invariant
            img.wf(),
            out.wf(),
            img.width > 0,
            box_params_ok(r as int, wt as int, fr as int),
            out.width == img.width,
            out.height == img.height,
            y <= img.height,
            forall|xx: int, yy: int|
                #![trigger out@.px(xx, yy)]
                out@.contains(xx, yy) && yy < y ==> out@.px(xx, yy) == hbox_px(
                    img@,
                    r as int,
                    wt as int,
                    fr as int,
                    xx,
                    yy,
                ),
        decreases img.height - y,
    {
        let c0 = channel_of_row(img, y, 0);
        let c1 = channel_of_row(img, y, 1);
        let c2 = channel_of_row(img, y, 2);
        let c3 = channel_of_row(img, y, 3);
        let b0 = box_row(&c0, r, wt, fr);
        let b1 = box_row(&c1, r, wt, fr);
        let b2 = box_row(&c2, r, wt, fr);
        let b3 = box_row(&c3, r, wt, fr);
        let mut x: u32 = 0;
        while x < img.width
            invariant
                img.wf(),
                out.wf(),
                box_params_ok(r as int, wt as int, fr as int),
                out.width == img.width,
                out.height == img.height,
                y < img.height,
                x <= img.width,
                b0.len() == img.width,
                b1.len() == img.width,
                b2.len() == img.width,
                b3.len() == img.width,
                forall|q: int| 0 <= q < img.width ==> #[trigger] b0@[q] as int == box_at(row_channel(img@, y as int, 0), q, r as int, wt as int, fr as int),
                forall|q: int| 0 <= q < img.width ==> #[trigger] b1@[q] as int == box_at(row_channel(img@, y as int, 1), q, r as int, wt as int, fr as int),
                forall|q: int| 0 <= q < img.width ==> #[trigger] b2@[q] as int == box_at(row_channel(img@, y as int, 2), q, r as int, wt as int, fr as int),
                forall|q: int| 0 <= q < img.width ==> #[trigger] b3@[q] as int == box_at(row_channel(img@, y as int, 3), q, r as int, wt as int, fr as int),
                forall|xx: int, yy: int|
                    #![trigger out@.px(xx, yy)]
                    out@.contains(xx, yy) && (yy < y || (yy == y && xx < x)) ==> out@.px(xx, yy)
                        == hbox_px(img@, r as int, wt as int, fr as int, xx, yy),
            decreases img.width - x,
        {
            let xi = x as usize;
            let p: Rgba = [b0[xi], b1[xi], b2[xi], b3[xi]];
            proof {
                assert(p == hbox_px(img@, r as int, wt as int, fr as int, x as int, y as int)) by {
                    assert(p[0] as int == box_at(row_channel(img@, y as int, 0), x as int, r as int, wt as int, fr as int));
                    assert(p[1] as int == box_at(row_channel(img@, y as int, 1), x as int, r as int, wt as int, fr as int));
                    assert(p[2] as int == box_at(row_channel(img@, y as int, 2), x as int, r as int, wt as int, fr as int));
                    assert(p[3] as int == box_at(row_channel(img@, y as int, 3), x as int, r as int, wt as int, fr as int));
                }
            }
            out.put_pixel(x, y, p);
            x = x + 1;
        }
        y = y + 1;
    }
    proof {
        let expect = hbox(img@, r as int, wt as int, fr as int);
        lemma_from_fn(img@.width, img@.height, |x: int, y: int| hbox_px(img@, r as int, wt as int, fr as int, x, y));
        lemma_same_pixels_eq(out@, expect);
    }
    out
}

/// The image turned a quarter turn clockwise.
pub fn rotate90(img: &Image) -> (out: Image)
    requires
        img.wf(),
    ensures
        out.wf(),
        out@ == rot90(img@),
{
    proof {
        assert(img.height * img.width == img.width * img.height) by (nonlinear_arith);
    }
    let mut out = Image::new(img.height, img.width);
    let mut y: u32 = 0;
    while y < img.width
        invariant
            img.wf(),
            out.wf(),
            out.width == img.height,
            out.height == img.width,
            y <= img.width,
            forall|xx: int, yy: int|
                #![trigger out@.px(xx, yy)]
                out@.contains(xx, yy) && yy < y ==> out@.px(xx, yy) == img@.px(yy, img.height - 1 - xx),
        decreases img.width - y,
    {
        let mut x: u32 = 0;
        while x < img.height
            invariant
                img.wf(),
                out.wf(),
                out.width == img.height,
                out.height == img.width,
                y < img.width,
                x <= img.height,
                forall|xx: int, yy: int|
                    #![trigger out@.px(xx, yy)]
                    out@.contains(xx, yy) && (yy < y || (yy == y && xx < x)) ==> out@.px(xx, yy)
                        == img@.px(yy, img.height - 1 - xx),
            decreases img.height - x,
        {
            let p = img.get_pixel(y, img.height - 1 - x);
            out.put_pixel(x, y, p);
            x = x + 1;
        }
        y = y + 1;
    }
    proof {
        lemma_from_fn(img@.height, img@.width, |x: int, y: int| img@.px(y, img@.height - 1 - x));
        lemma_same_pixels_eq(out@, rot90(img@));
    }
    out
}

/// The image turned a quarter turn counter-clockwise.
pub fn rotate270(img: &Image) -> (out: Image)
    requires
        img.wf(),
    ensures
        out.wf(),
        out@ == rot270(img@),
{
    proof {
        assert(img.height * img.width == img.width * img.height) by (nonlinear_arith);
    }
    let mut out = Image::new(img.height, img.width);
    let mut y: u32 = 0;
    while y < img.width
        invariant
            img.wf(),
            out.wf(),
            out.width == img.height,
            out.height == img.width,
            y <= img.width,
            forall|xx: int, yy: int|
                #![trigger out@.px(xx, yy)]
                out@.contains(xx, yy) && yy < y ==> out@.px(xx, yy) == img@.px(img.width - 1 - yy, xx),
        decreases img.width - y,
    {
        let mut x: u32 = 0;
        while x < img.height
            invariant
                img.wf(),
                out.wf(),
                out.width == img.height,
                out.height == img.width,
                y < img.width,
                x <= img.height,
                forall|xx: int, yy: int|
                    #![trigger out@.px(xx, yy)]
                    out@.contains(xx, yy) && (yy < y || (yy == y && xx < x)) ==> out@.px(xx, yy)
                        == img@.px(img.width - 1 - yy, xx),
            decreases img.height - x,
        {
            let p = img.get_pixel(img.width - 1 - y, x);
            out.put_pixel(x, y, p);
            x = x + 1;
        }
        y = y + 1;
    }
    proof {
        lemma_from_fn(img@.height, img@.width, |x: int, y: int| img@.px(img@.width - 1 - y, x));
        lemma_same_pixels_eq(out@, rot270(img@));
    }
    out
}

/// The fringe weight: whatever of the unit the `2r + 1` full weights leave,
/// split over the two edges.
pub fn blur_fringe(r: u32, wt: u32) -> (fr: u32)
    requires
        (2 * r + 1) * wt <= 0x1000000,
    ensures
        fr == spec_fringe(r as int, wt as int),
        box_params_ok(r as int, wt as int, fr as int) <== (2 * r + 1) <= 0x1000000,
{
    let full: u64 = (2 * (r as u64) + 1) * (wt as u64);
    ((0x1000000u64 - full) / 2) as u32
}

/// Pillow's Gaussian blur approximation. A radius of 0 leaves the image as
/// it is; otherwise three box passes of radius `box_radius` and weight
/// `weight` run along the rows and then three along the columns.
pub fn gaussian_blur(source: &Image, radius: u32, box_radius: u32, weight: u32) -> (out: Image)
    requires
        source.wf(),
        radius > 0 ==> source.width > 0 && source.height > 0,
        radius > 0 ==> (2 * box_radius + 1) * weight <= 0x1000000 && 2 * box_radius + 1
            <= 0x1000000,
    ensures
        out.wf(),
        radius == 0 ==> out@ == source@,
        radius > 0 ==> out@ == spec_blur(
            source@,
            box_radius as int,
            weight as int,
            spec_fringe(box_radius as int, weight as int),
        ),
{
    if radius == 0 {
        return source.duplicate();
    }
    let fr = blur_fringe(box_radius, weight);
    let a = box_pass(source, box_radius, weight, fr);
    let b = box_pass(&a, box_radius, weight, fr);
    let c = box_pass(&b, box_radius, weight, fr);
    let turned = rotate90(&c);
    proof {
        assert(turned.width == source.height);
    }
    let d = box_pass(&turned, box_radius, weight, fr);
    let e = box_pass(&d, box_radius, weight, fr);
    let f = box_pass(&e, box_radius, weight, fr);
    rotate270(&f)
}

/// Every pixel of the image is `p`.
pub open spec fn uniform(img: ImageView, p: Rgba) -> bool {
    forall|x: int, y: int| #[trigger] img.contains(x, y) ==> img.px(x, y) == p
}

proof fn lemma_rsum_uniform(v: Seq<u8>, lo: int, n: nat, c: u8)
    requires
        v.len() > 0,
        forall|k: int| 0 <= k < v.len() ==> #[trigger] v[k] == c,
    ensures
        rsum(v, lo, n) == n * (c as int),
    decreases n,
{
    if n == 0 {
        assert(n * (c as int) == 0) by (nonlinear_arith)
            requires
                n == 0,
        ;
    } else {
        lemma_rsum_uniform(v, lo, (n - 1) as nat, c);
        let k = clampi(lo + n - 1, v.len() as int);
        assert(v[k] == c);
        assert(n * (c as int) == (n - 1) * (c as int) + c as int) by (nonlinear_arith);
    }
}

proof fn lemma_box_uniform(v: Seq<u8>, x: int, r: int, wt: int, c: u8)
    requires
        v.len() > 0,
        forall|k: int| 0 <= k < v.len() ==> #[trigger] v[k] == c,
        0 <= r,
        0 <= wt,
        (2 * r + 1) * wt <= 0x1000000,
    ensures
        box_at(v, x, r, wt, spec_fringe(r, wt)) == c,
{
    let n = v.len() as int;
    let m = (2 * r + 1) as nat;
    lemma_rsum_uniform(v, x - r, m, c);
    assert(v[clampi(x - r - 1, n)] == c);
    assert(v[clampi(x + r + 1, n)] == c);
    let s = (2 * r + 1) * wt;
    let fr = spec_fringe(r, wt);
    let ci = c as int;
    assert(rsum(v, x - r, m) * wt == ci * s) by (nonlinear_arith)
        requires
            rsum(v, x - r, m) == m * ci,
            m == 2 * r + 1,
            s == (2 * r + 1) * wt,
    ;
    assert(2 * fr == 0x1000000 - s || 2 * fr == 0x1000000 - s - 1);
    assert((ci * s + (ci + ci) * fr + 0x800000) / 0x1000000 == ci) by (nonlinear_arith)
        requires
            0 <= ci <= 255,
            0 <= s <= 0x1000000,
            2 * fr == 0x1000000 - s || 2 * fr == 0x1000000 - s - 1,
    ;
}

proof fn lemma_hbox_uniform(img: ImageView, p: Rgba, r: int, wt: int)
    requires
        img.wf(),
        img.width > 0,
        uniform(img, p),
        0 <= r,
        0 <= wt,
        (2 * r + 1) * wt <= 0x1000000,
    ensures
        hbox(img, r, wt, spec_fringe(r, wt)).wf(),
        hbox(img, r, wt, spec_fringe(r, wt)).width == img.width,
        hbox(img, r, wt, spec_fringe(r, wt)).height == img.height,
        uniform(hbox(img, r, wt, spec_fringe(r, wt)), p),
{
    let fr = spec_fringe(r, wt);
    let h = hbox(img, r, wt, fr);
    lemma_from_fn(img.width, img.height, |x: int, y: int| hbox_px(img, r, wt, fr, x, y));
    assert forall|x: int, y: int| #[trigger] h.contains(x, y) implies h.px(x, y) == p by {
        assert forall|c: int| 0 <= c < 4 implies box_at(row_channel(img, y, c), x, r, wt, fr) == p[c] by {
            let v = row_channel(img, y, c);
            assert forall|k: int| 0 <= k < v.len() implies #[trigger] v[k] == p[c] by {
                assert(img.contains(k, y));
            }
            lemma_box_uniform(v, x, r, wt, p[c]);
        }
        assert(h.px(x, y) =~= p);
    }
}

proof fn lemma_turn_uniform(img: ImageView, p: Rgba)
    requires
        img.wf(),
        uniform(img, p),
    ensures
        rot90(img).wf(),
        rot90(img).width == img.height,
        rot90(img).height == img.width,
        uniform(rot90(img), p),
        rot270(img).wf(),
        rot270(img).width == img.height,
        rot270(img).height == img.width,
        uniform(rot270(img), p),
{
    lemma_from_fn(img.height, img.width, |x: int, y: int| img.px(y, img.height - 1 - x));
    lemma_from_fn(img.height, img.width, |x: int, y: int| img.px(img.width - 1 - y, x));
    assert forall|x: int, y: int| #[trigger] rot90(img).contains(x, y) implies rot90(img).px(x, y) == p by {
        assert(img.contains(y, img.height - 1 - x));
    }
    assert forall|x: int, y: int| #[trigger] rot270(img).contains(x, y) implies rot270(img).px(x, y) == p by {
        assert(img.contains(img.width - 1 - y, x));
    }
}

/// Every pixel of `img` within `dx` columns and `dy` rows of `(cx, cy)` is
/// `p`.
pub open spec fn near(img: ImageView, p: Rgba, cx: int, cy: int, dx: int, dy: int) -> bool {
    forall|x: int, y: int| #[trigger] img.contains(x, y) && -dx <= x - cx <= dx && -dy <= y - cy <= dy ==> img.px(x, y) == p
}

proof fn lemma_rsum_local(v: Seq<u8>, lo: int, n: nat, c: u8)
    requires
        v.len() > 0,
        forall|k: int| lo <= k < lo + n ==> v[#[trigger] clampi(k, v.len() as int)] == c,
    ensures
        rsum(v, lo, n) == n * (c as int),
    decreases n,
{
    if n == 0 {
        assert(n * (c as int) == 0) by (nonlinear_arith)
            requires
                n == 0,
        ;
    } else {
        lemma_rsum_local(v, lo, (n - 1) as nat, c);
        assert(v[clampi(lo + n - 1, v.len() as int)] == c);
        assert(n * (c as int) == (n - 1) * (c as int) + c as int) by (nonlinear_arith);
    }
}

/// A box pass at `x` gives `c` where the `r + 1` values on each side of
/// `x` (those inside the row) are `c`.
proof fn lemma_box_local(v: Seq<u8>, x: int, r: int, wt: int, c: u8)
    requires
        0 <= x < v.len(),
        forall|k: int| 0 <= k < v.len() && -(r + 1) <= k - x <= r + 1 ==> #[trigger] v[k] == c,
        0 <= r,
        0 <= wt,
        (2 * r + 1) * wt <= 0x1000000,
    ensures
        box_at(v, x, r, wt, spec_fringe(r, wt)) == c,
{
    let n = v.len() as int;
    let m = (2 * r + 1) as nat;
    assert forall|k: int| x - r <= k < x - r + m implies v[#[trigger] clampi(k, n)] == c by {
        let j = clampi(k, n);
        assert(0 <= j < n && -(r + 1) <= j - x <= r + 1);
    }
    lemma_rsum_local(v, x - r, m, c);
    let j1 = clampi(x - r - 1, n);
    let j2 = clampi(x + r + 1, n);
    assert(0 <= j1 < n && -(r + 1) <= j1 - x <= r + 1);
    assert(0 <= j2 < n && -(r + 1) <= j2 - x <= r + 1);
    assert(v[j1] == c);
    assert(v[j2] == c);
    let s = (2 * r + 1) * wt;
    let fr = spec_fringe(r, wt);
    let ci = c as int;
    assert(rsum(v, x - r, m) * wt == ci * s) by (nonlinear_arith)
        requires
            rsum(v, x - r, m) == m * ci,
            m == 2 * r + 1,
            s == (2 * r + 1) * wt,
    ;
    assert(2 * fr == 0x1000000 - s || 2 * fr == 0x1000000 - s - 1);
    assert((ci * s + (ci + ci) * fr + 0x800000) / 0x1000000 == ci) by (nonlinear_arith)
        requires
            0 <= ci <= 255,
            0 <= s <= 0x1000000,
            2 * fr == 0x1000000 - s || 2 * fr == 0x1000000 - s - 1,
    ;
}

/// A horizontal pass narrows a region of one colour by `r + 1` columns on
/// each side.
proof fn lemma_hbox_near(img: ImageView, p: Rgba, r: int, wt: int, cx: int, cy: int, dx: int, dy: int)
    requires
        img.wf(),
        near(img, p, cx, cy, dx, dy),
        dx >= r + 1,
        0 <= r,
        0 <= wt,
        (2 * r + 1) * wt <= 0x1000000,
    ensures
        hbox(img, r, wt, spec_fringe(r, wt)).wf(),
        hbox(img, r, wt, spec_fringe(r, wt)).width == img.width,
        hbox(img, r, wt, spec_fringe(r, wt)).height == img.height,
        near(hbox(img, r, wt, spec_fringe(r, wt)), p, cx, cy, dx - (r + 1), dy),
{
    let fr = spec_fringe(r, wt);
    let h = hbox(img, r, wt, fr);
    lemma_from_fn(img.width, img.height, |x: int, y: int| hbox_px(img, r, wt, fr, x, y));
    assert forall|x: int, y: int| #[trigger] h.contains(x, y) && -(dx - (r + 1)) <= x - cx <= dx - (r + 1) && -dy <= y
        - cy <= dy implies h.px(x, y) == p by {
        assert forall|c: int| 0 <= c < 4 implies box_at(row_channel(img, y, c), x, r, wt, fr) == p[c] by {
            let v = row_channel(img, y, c);
            assert forall|k: int| 0 <= k < v.len() && -(r + 1) <= k - x <= r + 1 implies #[trigger] v[k] == p[c] by {
                assert(img.contains(k, y));
            }
            lemma_box_local(v, x, r, wt, p[c]);
        }
        assert(h.px(x, y) =~= p);
    }
}

proof fn lemma_hbox3_near(img: ImageView, p: Rgba, r: int, wt: int, cx: int, cy: int, dy: int)
    requires
        img.wf(),
        near(img, p, cx, cy, 3 * (r + 1), dy),
        0 <= r,
        0 <= wt,
        (2 * r + 1) * wt <= 0x1000000,
    ensures
        hbox3(img, r, wt, spec_fringe(r, wt)).wf(),
        hbox3(img, r, wt, spec_fringe(r, wt)).width == img.width,
        hbox3(img, r, wt, spec_fringe(r, wt)).height == img.height,
        near(hbox3(img, r, wt, spec_fringe(r, wt)), p, cx, cy, 0, dy),
{
    let fr = spec_fringe(r, wt);
    lemma_hbox_near(img, p, r, wt, cx, cy, 3 * (r + 1), dy);
    let a = hbox(img, r, wt, fr);
    lemma_hbox_near(a, p, r, wt, cx, cy, 2 * (r + 1), dy);
    let b = hbox(a, r, wt, fr);
    lemma_hbox_near(b, p, r, wt, cx, cy, r + 1, dy);
}

proof fn lemma_rot90_near(img: ImageView, p: Rgba, cx: int, cy: int, dx: int, dy: int)
    requires
        img.wf(),
        near(img, p, cx, cy, dx, dy),
    ensures
        rot90(img).wf(),
        rot90(img).width == img.height,
        rot90(img).height == img.width,
        near(rot90(img), p, img.height - 1 - cy, cx, dy, dx),
{
    lemma_from_fn(img.height, img.width, |x: int, y: int| img.px(y, img.height - 1 - x));
    let t = rot90(img);
    assert forall|x: int, y: int| #[trigger] t.contains(x, y) && -dy <= x - (img.height - 1 - cy) <= dy && -dx <= y - cx
        <= dx implies t.px(x, y) == p by {
        assert(img.contains(y, img.height - 1 - x));
    }
}

proof fn lemma_rot270_near(img: ImageView, p: Rgba, cx: int, cy: int, dx: int, dy: int)
    requires
        img.wf(),
        near(img, p, cx, cy, dx, dy),
    ensures
        near(rot270(img), p, cy, img.width - 1 - cx, dy, dx),
{
    lemma_from_fn(img.height, img.width, |x: int, y: int| img.px(img.width - 1 - y, x));
    let t = rot270(img);
    assert forall|x: int, y: int| #[trigger] t.contains(x, y) && -dy <= x - cy <= dy && -dx <= y - (img.width - 1 - cx)
        <= dx implies t.px(x, y) == p by {
        assert(img.contains(img.width - 1 - y, x));
    }
}

/// The blur keeps the image's orientation and is local: where every pixel
/// within `3 * (r + 1)` columns and rows of `(cx, cy)` (those inside the
/// image) has one colour, the blurred pixel at `(cx, cy)` has that colour.
pub proof fn law_blur_is_local(img: ImageView, p: Rgba, r: int, wt: int, cx: int, cy: int)
    requires
        img.wf(),
        img.contains(cx, cy),
        0 <= r,
        0 <= wt,
        (2 * r + 1) * wt <= 0x1000000,
        near(img, p, cx, cy, 3 * (r + 1), 3 * (r + 1)),
    ensures
        spec_blur(img, r, wt, spec_fringe(r, wt)).px(cx, cy) == p,
{
    let fr = spec_fringe(r, wt);
    let d = 3 * (r + 1);
    lemma_hbox3_near(img, p, r, wt, cx, cy, d);
    let a = hbox3(img, r, wt, fr);
    lemma_rot90_near(a, p, cx, cy, 0, d);
    let t = rot90(a);
    let tcx = a.height - 1 - cy;
    lemma_hbox3_near(t, p, r, wt, tcx, cx, 0);
    let b = hbox3(t, r, wt, fr);
    lemma_rot270_near(b, p, tcx, cx, 0, 0);
    let out = rot270(b);
    lemma_from_fn(b.height, b.width, |x: int, y: int| b.px(b.width - 1 - y, x));
    assert(b.width == img.height);
    assert(out.contains(cx, cy));
    assert(out.px(cx, cy) == p);
}

/// A quarter turn counter-clockwise undoes a quarter turn clockwise, so the
/// vertical passes of the blur land back on the original orientation.
pub proof fn law_turns_cancel(img: ImageView)
    requires
        img.wf(),
    ensures
        rot270(rot90(img)) == img,
{
    let t = rot90(img);
    lemma_from_fn(img.height, img.width, |x: int, y: int| img.px(y, img.height - 1 - x));
    let out = rot270(t);
    lemma_from_fn(t.height, t.width, |x: int, y: int| t.px(t.width - 1 - y, x));
    assert forall|x: int, y: int| #[trigger] out.contains(x, y) implies out.px(x, y) == img.px(x, y) by {
        assert(t.contains(t.width - 1 - y, x));
    }
    lemma_same_pixels_eq(out, img);
}

/// Blurring an image of a single colour gives the same image back, for
/// any box radius and weight whose full weights fit in the unit.
pub proof fn law_blur_uniform(img: ImageView, p: Rgba, r: int, wt: int)
    requires
        img.wf(),
        img.width > 0,
        img.height > 0,
        uniform(img, p),
        0 <= r,
        0 <= wt,
        (2 * r + 1) * wt <= 0x1000000,
    ensures
        spec_blur(img, r, wt, spec_fringe(r, wt)) == img,
{
    let fr = spec_fringe(r, wt);
    lemma_hbox_uniform(img, p, r, wt);
    let a = hbox(img, r, wt, fr);
    lemma_hbox_uniform(a, p, r, wt);
    let b = hbox(a, r, wt, fr);
    lemma_hbox_uniform(b, p, r, wt);
    let c = hbox(b, r, wt, fr);
    lemma_turn_uniform(c, p);
    let t = rot90(c);
    lemma_hbox_uniform(t, p, r, wt);
    let d = hbox(t, r, wt, fr);
    lemma_hbox_uniform(d, p, r, wt);
    let e = hbox(d, r, wt, fr);
    lemma_hbox_uniform(e, p, r, wt);
    let f = hbox(e, r, wt, fr);
    lemma_turn_uniform(f, p);
    let out = rot270(f);
    assert forall|x: int, y: int| #[trigger] out.contains(x, y) implies out.px(x, y) == img.px(x, y) by {
        assert(img.contains(x, y));
    }
    lemma_same_pixels_eq(out, img);
}

} // verus!
