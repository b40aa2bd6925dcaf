//! Shape operations: Pillow's rounded-corner mask (an integer walk along
//! the ellipse, not a distance test at pixel centres) and the bounding box
//! of the content that differs from the background.
use vstd::prelude::*;
use crate::image::{Image, ImageView, crop};

verus! {

/// How far `(x, y)` lies from the ellipse with diameters `a` and `b`, in the
/// integer measure the walk minimises.
pub open spec fn ell_delta(a: int, b: int, x: int, y: int) -> int {
    let d = a * a * y * y + b * b * x * x - a * a * b * b;
    if d < 0 {
        -d
    } else {
        d
    }
}

/// The next point of the walk: up by two, or left by two, or both,
/// whichever lies nearest the ellipse.
pub open spec fn ell_step(a: int, b: int, x: int, y: int) -> (int, int) {
    let up = ell_delta(a, b, x, y + 2);
    if x > 1 {
        let diag = ell_delta(a, b, x - 2, y + 2);
        let (nx, ny, dist) = if up > diag {
            (x - 2, y + 2, diag)
        } else {
            (x, y + 2, up)
        };
        if dist > ell_delta(a, b, x - 2, y) {
            (x - 2, y)
        } else {
            (nx, ny)
        }
    } else {
        (x, y + 2)
    }
}

/// The rows a walk point fills: the row above and the row below the
/// centre line, each filled from `(a - x) / 2` on.
pub open spec fn ell_visit(ins: Seq<int>, a: int, b: int, x: int, y: int) -> Seq<int> {
    let inset = (a - x) / 2;
    let r1 = (b - y) / 2;
    let r2 = (b + y) / 2;
    let i1 = ins.update(r1, if ins[r1] < inset { ins[r1] } else { inset });
    i1.update(r2, if i1[r2] < inset { i1[r2] } else { inset })
}

/// The walk from `(x, y)` until it reaches `(a % 2, b)`, or `fuel` steps.
pub open spec fn ell_walk(a: int, b: int, x: int, y: int, ins: Seq<int>, fuel: nat) -> Seq<int>
    decreases fuel,
{
    let ins2 = ell_visit(ins, a, b, x, y);
    if fuel == 0 || (x == a % 2 && y == b) {
        ins2
    } else {
        let (nx, ny) = ell_step(a, b, x, y);
        ell_walk(a, b, nx, ny, ins2, (fuel - 1) as nat)
    }
}

/// For each of the `b + 1` rows of an `a` by `b` ellipse box, the first
/// column inside the ellipse.
pub open spec fn spec_ellipse_insets(a: int, b: int) -> Seq<int> {
    ell_walk(a, b, a, b % 2, Seq::new((b + 1) as nat, |i: int| a / 2), (a + b + 2) as nat)
}

/// The walk stays on the grid of the box and gets closer to its end.
pub open spec fn walk_inv(a: int, b: int, x: int, y: int) -> bool {
    &&& a % 2 <= x <= a
    &&& (a - x) % 2 == 0
    &&& b % 2 <= y <= b
    &&& (b - y) % 2 == 0
}

proof fn lemma_step(a: int, b: int, x: int, y: int)
    requires
        0 <= a,
        0 <= b,
        walk_inv(a, b, x, y),
        !(x == a % 2 && y == b),
    ensures
        walk_inv(a, b, ell_step(a, b, x, y).0, ell_step(a, b, x, y).1),
        ell_step(a, b, x, y).0 + b - ell_step(a, b, x, y).1 <= x + b - y - 2,
{
    let (nx, ny) = ell_step(a, b, x, y);
    if y == b {
        assert(x >= a % 2 + 2);
        assert(a > 0);
        let up = ell_delta(a, b, x, b + 2);
        let diag = ell_delta(a, b, x - 2, b + 2);
        let side = ell_delta(a, b, x - 2, b);
        assert(up > side && diag > side) by (nonlinear_arith)
            requires
                a > 0,
                b >= 0,
                x >= 2,
                up == ell_delta(a, b, x, b + 2),
                diag == ell_delta(a, b, x - 2, b + 2),
                side == ell_delta(a, b, x - 2, b),
        {
            assert(a * a * (b + 2) * (b + 2) - a * a * b * b > 0) by (nonlinear_arith)
                requires
                    a > 0,
                    b >= 0,
            ;
            assert(b * b * x * x >= 0 && b * b * (x - 2) * (x - 2) >= 0 && a * a * b * b >= 0)
                by (nonlinear_arith);
        }
    }
}

/// The inset of each row of an `a` by `b` ellipse box.
pub fn ellipse_insets(a: i64, b: i64) -> (r: Vec<i64>)
    requires
        0 <= a <= 0x40000000,
        0 <= b <= 0x40000000,
    ensures
        r@.len() == b + 1,
        forall|i: int| 0 <= i <= b ==> #[trigger] r@[i] as int == spec_ellipse_insets(a as int, b as int)[i],
        forall|i: int| 0 <= i <= b ==> 0 <= #[trigger] r@[i] <= a / 2,
{
    let n = (b + 1) as usize;
    let mut insets: Vec<i64> = Vec::new();
    let mut i: usize = 0;
    while i < n
        invariant
            i <= n,
            n == b + 1,
            0 <= a,
            insets@.len() == i,
            forall|k: int| 0 <= k < i ==> insets@[k] == a / 2,
        decreases n - i,
    {
        insets.push(a / 2);
        i = i + 1;
    }
    let ghost init = Seq::new((b + 1) as nat, |k: int| a / 2);
    let ghost target = spec_ellipse_insets(a as int, b as int);
    let mut x: i64 = a;
    let mut y: i64 = b % 2;
    let ghost mut fuel: nat = (a + b + 2) as nat;
    proof {
        assert(insets@.map_values(|v: i64| v as int) =~= init);
    }
    loop
        invariant
            0 <= a <= 0x40000000,
            0 <= b <= 0x40000000,
            walk_inv(a as int, b as int, x as int, y as int),
            insets@.len() == b + 1,
            forall|i: int| 0 <= i <= b ==> 0 <= #[trigger] insets@[i] <= a / 2,
            fuel >= (x + b - y) / 2 + 1,
            target == ell_walk(a as int, b as int, x as int, y as int, insets@.map_values(|v: i64| v as int), fuel),
        ensures
            insets@.len() == b + 1,
            forall|i: int| 0 <= i <= b ==> 0 <= #[trigger] insets@[i] <= a / 2,
            target == insets@.map_values(|v: i64| v as int),
        decreases x + b - y,
    {
        let inset = (a - x) / 2;
        let r1 = ((b - y) / 2) as usize;
        let r2 = ((b + y) / 2) as usize;
        let ghost before = insets@.map_values(|v: i64| v as int);
        if insets[r1] > inset {
            insets.set(r1, inset);
        }
        if insets[r2] > inset {
            insets.set(r2, inset);
        }
        proof {
            assert(insets@.map_values(|v: i64| v as int) =~= ell_visit(before, a as int, b as int, x as int, y as int));
        }
        if x == a % 2 && y == b {
            proof {
                assert(target == insets@.map_values(|v: i64| v as int));
            }
            break;
        }
        proof {
            lemma_step(a as int, b as int, x as int, y as int);
        }
        let mut nx: i64 = x;
        let mut ny: i64 = y + 2;
        let mut distance: i128 = delta(a, b, nx, ny);
        if nx > 1 {
            let diagonal = delta(a, b, x - 2, y + 2);
            if distance > diagonal {
                nx = x - 2;
                ny = y + 2;
                distance = diagonal;
            }
            if distance > delta(a, b, x - 2, y) {
                nx = x - 2;
                ny = y;
            }
        }
        proof {
            assert((nx as int, ny as int) == ell_step(a as int, b as int, x as int, y as int));
            fuel = (fuel - 1) as nat;
        }
        x = nx;
        y = ny;
    }
    proof {
        assert forall|i: int| 0 <= i <= b implies #[trigger] insets@[i] as int == target[i] by {
            assert(insets@.map_values(|v: i64| v as int)[i] == insets@[i] as int);
        }
    }
    insets
}

fn delta(a: i64, b: i64, x: i64, y: i64) -> (r: i128)
    requires
        0 <= a <= 0x40000000,
        0 <= b <= 0x40000000,
        0 <= x <= 0x40000000,
        -2 <= y <= 0x40000002,
    ensures
        r == ell_delta(a as int, b as int, x as int, y as int),
{
    let (a, b, x, y) = (a as i128, b as i128, x as i128, y as i128);
    proof {
        assert(0 <= a * a <= 0x1000000000000000) by (nonlinear_arith)
            requires
                0 <= a <= 0x40000000,
        ;
        assert(0 <= b * b <= 0x1000000000000000) by (nonlinear_arith)
            requires
                0 <= b <= 0x40000000,
        ;
        assert(0 <= y * y <= 0x1000000200000004) by (nonlinear_arith)
            requires
                -2 <= y <= 0x40000002,
        ;
        assert(0 <= x * x <= 0x1000000000000000) by (nonlinear_arith)
            requires
                0 <= x <= 0x40000000,
        ;
        assert(0 <= (a * a) * (y * y) <= 0x1000000000000000 * 0x1000000200000004) by (nonlinear_arith)
            requires
                0 <= a * a <= 0x1000000000000000,
                0 <= y * y <= 0x1000000200000004,
        ;
        assert(0 <= (b * b) * (x * x) <= 0x1000000000000000 * 0x1000000000000000) by (nonlinear_arith)
            requires
                0 <= b * b <= 0x1000000000000000,
                0 <= x * x <= 0x1000000000000000,
        ;
        assert(0 <= (a * a) * (b * b) <= 0x1000000000000000 * 0x1000000000000000) by (nonlinear_arith)
            requires
                0 <= a * a <= 0x1000000000000000,
                0 <= b * b <= 0x1000000000000000,
        ;
        assert(a * a * y * y == (a * a) * (y * y)) by (nonlinear_arith);
        assert(b * b * x * x == (b * b) * (x * x)) by (nonlinear_arith);
        assert(a * a * b * b == (a * a) * (b * b)) by (nonlinear_arith);
    }
    let d = (a * a) * (y * y) + (b * b) * (x * x) - (a * a) * (b * b);
    if d < 0 {
        -d
    } else {
        d
    }
}

/// The diameter the corners get: twice the radius, widened to the whole
/// side when it would reach (nearly) across, first horizontally, then
/// vertically.
pub open spec fn corner_geometry(w: int, h: int, radius: int) -> (int, bool, bool) {
    let d0 = (if radius < 0 { 0 } else { radius }) * 2;
    let full_x = d0 >= w - 1;
    let d1 = if full_x { w } else { d0 };
    let full_y = d1 >= h - 1;
    let d = if full_y { h } else { d1 };
    (d, full_x, full_y)
}

/// The ellipse the corners are cut from is small enough to walk: the whole
/// image where the corners meet on both axes, otherwise the corner's square.
pub open spec fn corner_fits(w: int, h: int, radius: int) -> bool {
    let (d, full_x, full_y) = corner_geometry(w, h, radius);
    if full_x && full_y {
        w <= 0x40000000 && h <= 0x40000000
    } else {
        d <= 0x40000000
    }
}

/// Whether the corner ellipse is small enough: see `corner_fits`.
pub fn corner_fits_exec(width: u32, height: u32, radius: i64) -> (r: bool)
    requires
        radius <= i64::MAX / 2,
    ensures
        r == corner_fits(width as int, height as int, radius as int),
{
    let w = width as i64;
    let h = height as i64;
    let mut diameter: i64 = (if radius < 0 { 0 } else { radius }) * 2;
    let full_x = diameter >= w - 1;
    if full_x {
        diameter = w;
    }
    let full_y = diameter >= h - 1;
    if full_y {
        diameter = h;
    }
    if full_x && full_y {
        w <= 0x40000000 && h <= 0x40000000
    } else {
        diameter <= 0x40000000
    }
}

/// The inset of row `y`.
pub open spec fn corner_inset(w: int, h: int, radius: int, y: int) -> int {
    let (d, full_x, full_y) = corner_geometry(w, h, radius);
    if full_x && full_y {
        spec_ellipse_insets(w, h)[y]
    } else if y < d / 2 {
        spec_ellipse_insets(d, d)[y]
    } else if y > h - d / 2 {
        spec_ellipse_insets(d, d)[y - h + d]
    } else {
        0
    }
}

/// The alpha that the rounded mask gives to `(x, y)`.
pub open spec fn corner_alpha(w: int, h: int, radius: int, x: int, y: int) -> u8 {
    let inset = corner_inset(w, h, radius, y);
    if x >= inset && x <= w - inset {
        255
    } else {
        0
    }
}

/// `source` with rounded corners: each pixel keeps its colour, and its
/// alpha becomes 255 inside the rounded rectangle and 0 outside. The corners
/// are quarter ellipses of diameter `2 * radius`, or the whole image becomes
/// an ellipse where that reaches across it.
pub fn rounded_corner(source: &Image, radius: i64) -> (out: Image)
    requires
        source.wf(),
        source.width > 0,
        corner_fits(source.width as int, source.height as int, radius as int),
        radius <= i64::MAX / 2,
    ensures
        out.wf(),
        out@.width == source@.width,
        out@.height == source@.height,
        forall|x: int, y: int| #[trigger] out@.contains(x, y) ==> out@.px(x, y) == ({
            let p = source@.px(x, y);
            [p[0], p[1], p[2], corner_alpha(source.width as int, source.height as int, radius as int, x, y)]
        }),
{
    let w = source.width as i64;
    let h = source.height as i64;
    let mut diameter: i64 = (if radius < 0 { 0 } else { radius }) * 2;
    let full_x = diameter >= w - 1;
    if full_x {
        diameter = w;
    }
    let full_y = diameter >= h - 1;
    if full_y {
        diameter = h;
    }
    let ghost geometry = corner_geometry(w as int, h as int, radius as int);
    proof {
        assert(geometry == (diameter as int, full_x, full_y));
    }
    let insets = if full_x && full_y {
        ellipse_insets(w, h)
    } else {
        ellipse_insets(diameter, diameter)
    };
    let mut out = source.duplicate();
    let mut y: u32 = 0;
    while y < source.height
        invariant
            source.wf(),
            out.wf(),
            out.width == source.width,
            out.height == source.height,
            w == source.width,
            h == source.height,
            geometry == (diameter as int, full_x, full_y),
            geometry == corner_geometry(w as int, h as int, radius as int),
            0 <= diameter <= 0x40000000,
            full_x && full_y ==> w <= 0x40000000,
            !(full_x && full_y) ==> diameter <= h,
            full_x && full_y ==> insets@.len() == h + 1 && forall|i: int| 0 <= i <= h ==> #[trigger] insets@[i] as int == spec_ellipse_insets(w as int, h as int)[i],
            !(full_x && full_y) ==> insets@.len() == diameter + 1 && forall|i: int| 0 <= i <= diameter ==> #[trigger] insets@[i] as int == spec_ellipse_insets(diameter as int, diameter as int)[i],
            forall|i: int| 0 <= i < insets@.len() ==> 0 <= #[trigger] insets@[i] <= 0x40000000,
            y <= source.height,
            forall|xx: int, yy: int| #[trigger] out@.contains(xx, yy) ==> out@.px(xx, yy) == if yy < y {
                let p = source@.px(xx, yy);
                [p[0], p[1], p[2], corner_alpha(w as int, h as int, radius as int, xx, yy)]
            } else {
                source@.px(xx, yy)
            },
        decreases source.height - y,
    {
        let yi = y as i64;
        let inset: i64 = if full_x && full_y {
            insets[y as usize]
        } else if yi < diameter / 2 {
            insets[y as usize]
        } else if yi > h - diameter / 2 {
            insets[(yi - h + diameter) as usize]
        } else {
            0
        };
        proof {
            assert(inset == corner_inset(w as int, h as int, radius as int, y as int));
        }
        let mut x: u32 = 0;
        while x < source.width
            invariant
                source.wf(),
                out.wf(),
                out.width == source.width,
                out.height == source.height,
                w == source.width,
                h == source.height,
                y < source.height,
                x <= source.width,
                0 <= inset <= 0x40000000,
                inset == corner_inset(w as int, h as int, radius as int, y as int),
                forall|xx: int, yy: int| #[trigger] out@.contains(xx, yy) ==> out@.px(xx, yy) == if yy < y || (yy == y && xx < x) {
                    let p = source@.px(xx, yy);
                    [p[0], p[1], p[2], corner_alpha(w as int, h as int, radius as int, xx, yy)]
                } else {
                    source@.px(xx, yy)
                },
            decreases source.width - x,
        {
            let p = out.get_pixel(x, y);
            let alpha: u8 = if (x as i64) >= inset && (x as i64) <= w - inset {
                255
            } else {
                0
            };
            let ghost before = out@;
            out.put_pixel(x, y, [p[0], p[1], p[2], alpha]);
            proof {
                assert(alpha == corner_alpha(w as int, h as int, radius as int, x as int, y as int));
                assert forall|xx: int, yy: int| #[trigger] out@.contains(xx, yy) implies out@.px(xx, yy) == if yy < y || (yy == y && xx < x + 1) {
                    let q = source@.px(xx, yy);
                    [q[0], q[1], q[2], corner_alpha(w as int, h as int, radius as int, xx, yy)]
                } else {
                    source@.px(xx, yy)
                } by {
                    assert(before.contains(xx, yy));
                }
            }
            x = x + 1;
        }
        y = y + 1;
    }
    out
}

/// `ins` has `b + 1` entries and reads the same from either end.
pub open spec fn mirrored(ins: Seq<int>, b: int) -> bool {
    &&& ins.len() == b + 1
    &&& forall|i: int| 0 <= i <= b ==> #[trigger] ins[i] == ins[b - i]
}

proof fn lemma_visit_mirrored(ins: Seq<int>, a: int, b: int, x: int, y: int)
    requires
        0 <= a,
        0 <= b,
        walk_inv(a, b, x, y),
        mirrored(ins, b),
    ensures
        mirrored(ell_visit(ins, a, b, x, y), b),
{
    let r1 = (b - y) / 2;
    let r2 = (b + y) / 2;
    assert(r1 + r2 == b && 0 <= r1 <= r2 <= b) by {
        assert((b - y) % 2 == 0);
    }
    let out = ell_visit(ins, a, b, x, y);
    assert forall|i: int| 0 <= i <= b implies #[trigger] out[i] == out[b - i] by {
        assert(ins[i] == ins[b - i]);
        assert(ins[r1] == ins[r2]);
    }
}

proof fn lemma_walk_mirrored(a: int, b: int, x: int, y: int, ins: Seq<int>, fuel: nat)
    requires
        0 <= a,
        0 <= b,
        walk_inv(a, b, x, y),
        mirrored(ins, b),
    ensures
        mirrored(ell_walk(a, b, x, y, ins, fuel), b),
    decreases fuel,
{
    lemma_visit_mirrored(ins, a, b, x, y);
    if !(fuel == 0 || (x == a % 2 && y == b)) {
        lemma_step(a, b, x, y);
        let (nx, ny) = ell_step(a, b, x, y);
        lemma_walk_mirrored(a, b, nx, ny, ell_visit(ins, a, b, x, y), (fuel - 1) as nat);
    }
}

/// The ellipse's rows are cut alike from the top and from the bottom.
proof fn lemma_insets_mirrored(a: int, b: int)
    requires
        0 <= a,
        0 <= b,
    ensures
        mirrored(spec_ellipse_insets(a, b), b),
{
    let start = Seq::new((b + 1) as nat, |i: int| a / 2);
    assert(walk_inv(a, b, a, b % 2));
    lemma_walk_mirrored(a, b, a, b % 2, start, (a + b + 2) as nat);
}

/// The rounded mask is symmetric: mirrored left to right about `w / 2`
/// (the kept span runs from `inset` to `w - inset`, both included) and top
/// to bottom about `h / 2`, so each corner is cut like the top-left one.
pub proof fn law_corner_mask_symmetric(w: int, h: int, radius: int, x: int, y: int)
    requires
        0 <= w,
        0 <= h,
    ensures
        corner_alpha(w, h, radius, x, y) == corner_alpha(w, h, radius, w - x, y),
        0 <= y <= h ==> corner_alpha(w, h, radius, x, y) == corner_alpha(w, h, radius, x, h - y),
{
    let (d, full_x, full_y) = corner_geometry(w, h, radius);
    if 0 <= y <= h {
        if full_x && full_y {
            lemma_insets_mirrored(w, h);
            assert(spec_ellipse_insets(w, h)[y] == spec_ellipse_insets(w, h)[h - y]);
        } else {
            assert(0 <= d);
            lemma_insets_mirrored(d, d);
            let e = spec_ellipse_insets(d, d);
            if y < d / 2 {
                assert(e[y] == e[d - y]);
            } else if y > h - d / 2 {
                assert(e[y - h + d] == e[d - (y - h + d)]);
            }
        }
        assert(corner_inset(w, h, radius, y) == corner_inset(w, h, radius, h - y));
    }
}

/// Four times the mean of the four corner pixels, per channel.
pub open spec fn corner_sum(img: ImageView, c: int) -> int {
    let w = img.width as int;
    let h = img.height as int;
    img.ch(0, 0, c) as int + img.ch(w - 1, 0, c) as int + img.ch(0, h - 1, c) as int + img.ch(
        w - 1,
        h - 1,
        c,
    ) as int
}

pub open spec fn sq(v: int) -> int {
    v * v
}

/// Whether a pixel is more than 10 away (Euclidean distance over the four
/// channels) from the mean of the corners. Scaled by 4 to stay in integers:
/// `Σ (4v − S)² > 4² · 10²`.
pub open spec fn differs(img: ImageView, x: int, y: int) -> bool {
    sq(4 * img.ch(x, y, 0) - corner_sum(img, 0)) + sq(4 * img.ch(x, y, 1) - corner_sum(img, 1))
        + sq(4 * img.ch(x, y, 2) - corner_sum(img, 2)) + sq(4 * img.ch(x, y, 3) - corner_sum(img, 3))
        > 1600
}

/// Some pixel of column `x` differs from the background.
pub open spec fn col_differs(img: ImageView, x: int) -> bool {
    exists|y: int| 0 <= y < img.height && #[trigger] differs(img, x, y)
}

/// Some pixel of row `y` differs from the background.
pub open spec fn row_differs(img: ImageView, y: int) -> bool {
    exists|x: int| 0 <= x < img.width && #[trigger] differs(img, x, y)
}

/// The first index in `from..n` where `p` holds.
pub open spec fn first_index(p: spec_fn(int) -> bool, from: int, n: int) -> Option<int>
    decreases n - from,
{
    if from >= n {
        None
    } else if p(from) {
        Some(from)
    } else {
        first_index(p, from + 1, n)
    }
}

/// The last index below `k` where `p` holds.
pub open spec fn last_index(p: spec_fn(int) -> bool, k: int) -> Option<int>
    decreases k,
{
    if k <= 0 {
        None
    } else if p(k - 1) {
        Some(k - 1)
    } else {
        last_index(p, k - 1)
    }
}

/// The content box `(left, top, right, bottom)` of `img`: on each trimmed
/// side, the first column or row from that side where some pixel differs
/// from the background; an untrimmed side, or one with no such column or
/// row, stays at the edge. The box is at least one pixel wide and high.
pub open spec fn spec_bbox(img: ImageView, tl: bool, tr: bool, tt: bool, tb: bool) -> (int, int, int, int) {
    let w = img.width as int;
    let h = img.height as int;
    let cols = |x: int| col_differs(img, x);
    let rows = |y: int| row_differs(img, y);
    let left = if tl {
        match first_index(cols, 0, w) {
            Some(x) => x,
            None => 0,
        }
    } else {
        0
    };
    let right = if tr {
        match last_index(cols, w) {
            Some(x) => x + 1,
            None => w,
        }
    } else {
        w
    };
    let top = if tt {
        match first_index(rows, 0, h) {
            Some(y) => y,
            None => 0,
        }
    } else {
        0
    };
    let bottom = if tb {
        match last_index(rows, h) {
            Some(y) => y + 1,
            None => h,
        }
    } else {
        h
    };
    (left, top, if right > left + 1 { right } else { left + 1 }, if bottom > top + 1 { bottom } else { top + 1 })
}

fn corner_sums(img: &Image) -> (s: [i64; 4])
    requires
        img.wf(),
        img.width > 0,
        img.height > 0,
    ensures
        forall|c: int| 0 <= c < 4 ==> #[trigger] s[c] as int == corner_sum(img@, c),
{
    let a = img.get_pixel(0, 0);
    let b = img.get_pixel(img.width - 1, 0);
    let c = img.get_pixel(0, img.height - 1);
    let d = img.get_pixel(img.width - 1, img.height - 1);
    [
        a[0] as i64 + b[0] as i64 + c[0] as i64 + d[0] as i64,
        a[1] as i64 + b[1] as i64 + c[1] as i64 + d[1] as i64,
        a[2] as i64 + b[2] as i64 + c[2] as i64 + d[2] as i64,
        a[3] as i64 + b[3] as i64 + c[3] as i64 + d[3] as i64,
    ]
}

fn pixel_differs(img: &Image, s: &[i64; 4], x: u32, y: u32) -> (r: bool)
    requires
        img.wf(),
        img.width > 0,
        img.height > 0,
        x < img.width,
        y < img.height,
        forall|c: int| 0 <= c < 4 ==> #[trigger] s[c] as int == corner_sum(img@, c),
    ensures
        r == differs(img@, x as int, y as int),
{
    let p = img.get_pixel(x, y);
    let d0 = 4 * (p[0] as i64) - s[0];
    let d1 = 4 * (p[1] as i64) - s[1];
    let d2 = 4 * (p[2] as i64) - s[2];
    let d3 = 4 * (p[3] as i64) - s[3];
    proof {
        assert(s[0] == corner_sum(img@, 0) && s[1] == corner_sum(img@, 1));
        assert(s[2] == corner_sum(img@, 2) && s[3] == corner_sum(img@, 3));
        assert(0 <= corner_sum(img@, 0) <= 1020);
        assert(0 <= corner_sum(img@, 1) <= 1020);
        assert(0 <= corner_sum(img@, 2) <= 1020);
        assert(0 <= corner_sum(img@, 3) <= 1020);
        assert(0 <= d0 * d0 <= 1040400 && 0 <= d1 * d1 <= 1040400 && 0 <= d2 * d2 <= 1040400 && 0 <= d3 * d3 <= 1040400) by (nonlinear_arith)
            requires
                -1020 <= d0 <= 1020,
                -1020 <= d1 <= 1020,
                -1020 <= d2 <= 1020,
                -1020 <= d3 <= 1020,
        ;
    }
    d0 * d0 + d1 * d1 + d2 * d2 + d3 * d3 > 1600
}

fn column_differs(img: &Image, s: &[i64; 4], x: u32) -> (r: bool)
    requires
        img.wf(),
        img.width > 0,
        img.height > 0,
        x < img.width,
        forall|c: int| 0 <= c < 4 ==> #[trigger] s[c] as int == corner_sum(img@, c),
    ensures
        r == col_differs(img@, x as int),
{
    let mut y: u32 = 0;
    while y < img.height
        invariant
            img.wf(),
            img.width > 0,
            img.height > 0,
            x < img.width,
            forall|c: int| 0 <= c < 4 ==> #[trigger] s[c] as int == corner_sum(img@, c),
            y <= img.height,
            forall|k: int| 0 <= k < y ==> !#[trigger] differs(img@, x as int, k),
        decreases img.height - y,
    {
        if pixel_differs(img, s, x, y) {
            return true;
        }
        y = y + 1;
    }
    false
}

fn row_differs_exec(img: &Image, s: &[i64; 4], y: u32) -> (r: bool)
    requires
        img.wf(),
        img.width > 0,
        img.height > 0,
        y < img.height,
        forall|c: int| 0 <= c < 4 ==> #[trigger] s[c] as int == corner_sum(img@, c),
    ensures
        r == row_differs(img@, y as int),
{
    let mut x: u32 = 0;
    while x < img.width
        invariant
            img.wf(),
            img.width > 0,
            img.height > 0,
            y < img.height,
            forall|c: int| 0 <= c < 4 ==> #[trigger] s[c] as int == corner_sum(img@, c),
            x <= img.width,
            forall|k: int| 0 <= k < x ==> !#[trigger] differs(img@, k, y as int),
        decreases img.width - x,
    {
        if pixel_differs(img, s, x, y) {
            return true;
        }
        x = x + 1;
    }
    false
}

/// The content box of `image`: see `spec_bbox`.
pub fn foreground_bbox(
    image: &Image,
    trim_left: bool,
    trim_right: bool,
    trim_top: bool,
    trim_bottom: bool,
) -> (r: (u32, u32, u32, u32))
    requires
        image.wf(),
        image.width > 0,
        image.height > 0,
    ensures
        (r.0 as int, r.1 as int, r.2 as int, r.3 as int) == spec_bbox(image@, trim_left, trim_right, trim_top, trim_bottom),
        r.0 < r.2 <= image.width,
        r.1 < r.3 <= image.height,
{
    let s = corner_sums(image);
    let ghost cols = |x: int| col_differs(image@, x);
    let ghost rows = |y: int| row_differs(image@, y);
    let w = image.width;
    let h = image.height;
    let mut left: u32 = 0;
    if trim_left {
        let mut x: u32 = 0;
        while x < w
            invariant
                image.wf(),
                w == image.width,
                h == image.height,
                w > 0,
                h > 0,
                forall|c: int| 0 <= c < 4 ==> #[trigger] s[c] as int == corner_sum(image@, c),
                x <= w,
                cols == (|x: int| col_differs(image@, x)),
                first_index(cols, 0, w as int) == first_index(cols, x as int, w as int),
            ensures
                x <= w,
                first_index(cols, 0, w as int) == first_index(cols, x as int, w as int),
                x < w ==> col_differs(image@, x as int),
            decreases w - x,
        {
            if column_differs(image, &s, x) {
                break;
            }
            x = x + 1;
        }
        left = if x < w {
            x
        } else {
            0
        };
    }
    let mut right: u32 = w;
    if trim_right {
        let mut x: u32 = w;
        while x > 0
            invariant
                image.wf(),
                w == image.width,
                h == image.height,
                w > 0,
                h > 0,
                forall|c: int| 0 <= c < 4 ==> #[trigger] s[c] as int == corner_sum(image@, c),
                x <= w,
                cols == (|x: int| col_differs(image@, x)),
                last_index(cols, w as int) == last_index(cols, x as int),
            ensures
                x <= w,
                last_index(cols, w as int) == last_index(cols, x as int),
                x > 0 ==> col_differs(image@, x - 1),
            decreases x,
        {
            if column_differs(image, &s, x - 1) {
                break;
            }
            x = x - 1;
        }
        right = if x > 0 {
            x
        } else {
            w
        };
    }
    let mut top: u32 = 0;
    if trim_top {
        let mut y: u32 = 0;
        while y < h
            invariant
                image.wf(),
                w == image.width,
                h == image.height,
                w > 0,
                h > 0,
                forall|c: int| 0 <= c < 4 ==> #[trigger] s[c] as int == corner_sum(image@, c),
                y <= h,
                rows == (|y: int| row_differs(image@, y)),
                first_index(rows, 0, h as int) == first_index(rows, y as int, h as int),
            ensures
                y <= h,
                first_index(rows, 0, h as int) == first_index(rows, y as int, h as int),
                y < h ==> row_differs(image@, y as int),
            decreases h - y,
        {
            if row_differs_exec(image, &s, y) {
                break;
            }
            y = y + 1;
        }
        top = if y < h {
            y
        } else {
            0
        };
    }
    let mut bottom: u32 = h;
    if trim_bottom {
        let mut y: u32 = h;
        while y > 0
            invariant
                image.wf(),
                w == image.width,
                h == image.height,
                w > 0,
                h > 0,
                forall|c: int| 0 <= c < 4 ==> #[trigger] s[c] as int == corner_sum(image@, c),
                y <= h,
                rows == (|y: int| row_differs(image@, y)),
                last_index(rows, h as int) == last_index(rows, y as int),
            ensures
                y <= h,
                last_index(rows, h as int) == last_index(rows, y as int),
                y > 0 ==> row_differs(image@, y - 1),
            decreases y,
        {
            if row_differs_exec(image, &s, y - 1) {
                break;
            }
            y = y - 1;
        }
        bottom = if y > 0 {
            y
        } else {
            h
        };
    }
    let r_out = if right > left + 1 {
        right
    } else {
        left + 1
    };
    let b_out = if bottom > top + 1 {
        bottom
    } else {
        top + 1
    };
    (left, top, r_out, b_out)
}

/// `image` cropped to its content box, as the `trim` processor and text
/// trimming do.
pub fn trim(image: &Image, trim_left: bool, trim_right: bool, trim_top: bool, trim_bottom: bool) -> (out: Image)
    requires
        image.wf(),
        image.width > 0,
        image.height > 0,
    ensures
        out.wf(),
        ({
            let (l, t, r, b) = spec_bbox(image@, trim_left, trim_right, trim_top, trim_bottom);
            &&& out@.width == r - l
            &&& out@.height == b - t
            &&& forall|xx: int, yy: int| #[trigger] out@.contains(xx, yy) ==> out@.px(xx, yy) == image@.px(l + xx, t + yy)
        }),
{
    let (l, t, r, b) = foreground_bbox(image, trim_left, trim_right, trim_top, trim_bottom);
    crop(image, l, t, r - l, b - t)
}

} // verus!
