//! Laying out and drawing a line of rendered glyphs as Pillow's BASIC
//! layout does: pen positions in 26.6 fixed point rounded to whole pixels,
//! the line's extent from the glyph boxes and the pen, and the glyph
//! coverage inked in straight (not premultiplied) colour onto a transparent
//! image whose alpha is then scaled by the colour's alpha.
use vstd::prelude::*;
use crate::image::{Image, ImageView, Rgba, fits, fits_exec, from_fn, lemma_from_fn, lemma_same_pixels_eq};
use crate::compose::map_alpha;

verus! {

/// One glyph as the font engine rendered it.
#[derive(Debug)]
pub struct Glyph {
    /// The kerning with the previous glyph, in 1/64 pixel; 0 where none
    /// applies.
    pub kerning: i64,
    /// The horizontal advance, in 1/64 pixel.
    pub advance: i64,
    /// The left edge of the glyph's box, in pixels from its pen position.
    pub x_min: i64,
    /// The right edge of the glyph's box, in pixels from its pen position.
    pub x_max: i64,
    /// The bitmap's left edge, in pixels from the pen position.
    pub left: i64,
    /// The bitmap's top edge, in pixels above the baseline.
    pub top: i64,
    /// The bitmap's width in pixels.
    pub width: usize,
    /// The bitmap's height in pixels.
    pub rows: usize,
    /// The bytes from one bitmap row to the next.
    pub pitch: usize,
    /// The coverage of each bitmap pixel, row by row.
    pub coverage: Vec<u8>,
}

/// A glyph as the specifications read it: its metrics and its coverage.
pub struct GlyphShape {
    pub kerning: i64,
    pub advance: i64,
    pub x_min: i64,
    pub x_max: i64,
    pub left: i64,
    pub top: i64,
    pub width: usize,
    pub rows: usize,
    pub pitch: usize,
    pub coverage: Seq<u8>,
}

impl View for Glyph {
    type V = GlyphShape;

    open spec fn view(&self) -> GlyphShape {
        GlyphShape {
            kerning: self.kerning,
            advance: self.advance,
            x_min: self.x_min,
            x_max: self.x_max,
            left: self.left,
            top: self.top,
            width: self.width,
            rows: self.rows,
            pitch: self.pitch,
            coverage: self.coverage@,
        }
    }
}

/// The shapes of a line of glyphs.
pub open spec fn shapes(v: Seq<Glyph>) -> Seq<GlyphShape> {
    v.map_values(|g: Glyph| g@)
}

/// The largest metric a glyph may carry.
pub open spec fn metric_limit() -> int {
    0x100_0000_0000
}

/// The most glyphs a line may hold.
pub open spec fn glyph_limit() -> int {
    0x10_0000
}

/// The glyph's metrics are in range and its bitmap holds every row.
pub open spec fn glyph_ok(g: GlyphShape) -> bool {
    &&& -metric_limit() <= g.kerning <= metric_limit()
    &&& -metric_limit() <= g.advance <= metric_limit()
    &&& -metric_limit() <= g.x_min <= metric_limit()
    &&& -metric_limit() <= g.x_max <= metric_limit()
    &&& -metric_limit() <= g.left <= metric_limit()
    &&& -metric_limit() <= g.top <= metric_limit()
    &&& g.width <= metric_limit()
    &&& g.rows <= metric_limit()
    &&& g.pitch <= metric_limit()
    &&& (g.rows == 0 || g.width == 0 || (g.rows - 1) * g.pitch + g.width <= g.coverage.len())
}

/// Every glyph is in range and there are not too many of them.
pub open spec fn glyphs_ok(gs: Seq<GlyphShape>) -> bool {
    &&& gs.len() <= glyph_limit()
    &&& forall|k: int| 0 <= k < gs.len() ==> glyph_ok(#[trigger] gs[k])
}

/// A 26.6 value rounded to whole pixels, halves up.
pub open spec fn round_pixels(n: int) -> int {
    (n + 32) / 64
}

/// The pen, in 1/64 pixel, after the first `n` glyphs: each adds its
/// kerning rounded to whole pixels, then its advance.
pub open spec fn pen_after(gs: Seq<GlyphShape>, n: int) -> int
    decreases n,
{
    if n <= 0 {
        0
    } else {
        pen_after(gs, n - 1) + round_pixels(gs[n - 1].kerning as int) + gs[n - 1].advance
    }
}

/// Where glyph `k` is placed, in whole pixels.
pub open spec fn glyph_x(gs: Seq<GlyphShape>, k: int) -> int {
    round_pixels(pen_after(gs, k) + round_pixels(gs[k].kerning as int))
}

/// The leftmost box edge of the first `n` glyphs, and never right of 0.
pub open spec fn extent_left(gs: Seq<GlyphShape>, n: int) -> int
    decreases n,
{
    if n <= 0 {
        0
    } else {
        let l = extent_left(gs, n - 1);
        let e = glyph_x(gs, n - 1) + gs[n - 1].x_min;
        if e < l { e } else { l }
    }
}

/// The rightmost box edge or pen position of the first `n` glyphs, and
/// never left of 0.
pub open spec fn extent_right(gs: Seq<GlyphShape>, n: int) -> int
    decreases n,
{
    if n <= 0 {
        0
    } else {
        let r = extent_right(gs, n - 1);
        let e = glyph_x(gs, n - 1) + gs[n - 1].x_max;
        let a = if e > r { e } else { r };
        let p = round_pixels(pen_after(gs, n));
        if p > a { p } else { a }
    }
}

/// A 26.6 value rounded to whole pixels.
pub fn round_to_pixels(n: i64) -> (r: i64)
    requires
        -0x4000_0000_0000_0000 <= n <= 0x4000_0000_0000_0000,
    ensures
        r == round_pixels(n as int),
{
    let v = n + 32;
    if v >= 0 {
        v / 64
    } else {
        let q = (-v + 63) / 64;
        proof {
            let vi = v as int;
            let qi = q as int;
            assert(qi == (-vi + 63) / 64);
            assert((vi / 64) == -qi) by (nonlinear_arith)
                requires
                    vi < 0,
                    qi == (-vi + 63) / 64,
            ;
        }
        -q
    }
}

proof fn lemma_pen_bounds(gs: Seq<GlyphShape>, n: int)
    requires
        glyphs_ok(gs),
        0 <= n <= gs.len(),
    ensures
        -n * 0x200_0000_0000 <= pen_after(gs, n) <= n * 0x200_0000_0000,
    decreases n,
{
    if n > 0 {
        lemma_pen_bounds(gs, n - 1);
        assert(glyph_ok(gs[n - 1]));
    }
}

/// Where each glyph goes, and the line's left and right extent.
pub fn layout_glyphs(glyphs: &Vec<Glyph>) -> (r: (Vec<i64>, i64, i64))
    requires
        glyphs_ok(shapes(glyphs@)),
    ensures
        r.0@.len() == shapes(glyphs@).len(),
        forall|k: int| 0 <= k < shapes(glyphs@).len() ==> r.0@[k] == glyph_x(shapes(glyphs@), k),
        forall|k: int| 0 <= k < shapes(glyphs@).len() ==> -0x300_0000_0000_0000 <= #[trigger] r.0@[k] <= 0x300_0000_0000_0000,
        r.1 == extent_left(shapes(glyphs@), shapes(glyphs@).len() as int),
        r.2 == extent_right(shapes(glyphs@), shapes(glyphs@).len() as int),
        -0x300_0000_0000_0000 <= r.1 <= 0,
        0 <= r.2 <= 0x300_0000_0000_0000,
{
    let ghost gs = shapes(glyphs@);
    let n = glyphs.len();
    let mut xs: Vec<i64> = Vec::new();
    let mut pen: i64 = 0;
    let mut left: i64 = 0;
    let mut right: i64 = 0;
    let mut i: usize = 0;
    while i < n
        invariant
            n == gs.len(),
            gs == shapes(glyphs@),
            glyphs_ok(gs),
            i <= n,
            pen == pen_after(gs, i as int),
            left == extent_left(gs, i as int),
            right == extent_right(gs, i as int),
            -0x300_0000_0000_0000 <= left <= 0,
            0 <= right <= 0x300_0000_0000_0000,
            xs@.len() == i,
            forall|k: int| 0 <= k < i ==> xs@[k] == glyph_x(gs, k),
            forall|k: int| 0 <= k < i ==> -0x300_0000_0000_0000 <= #[trigger] xs@[k] <= 0x300_0000_0000_0000,
        decreases n - i,
    {
        let g = &glyphs[i];
        proof {
            assert(glyph_ok(gs[i as int]));
            lemma_pen_bounds(gs, i as int);
            lemma_pen_bounds(gs, i + 1);
            assert(i * 0x200_0000_0000 <= 0x10_0000 * 0x200_0000_0000) by (nonlinear_arith)
                requires
                    i <= 0x10_0000,
            ;
            assert((i + 1) * 0x200_0000_0000 <= 0x10_0001 * 0x200_0000_0000) by (nonlinear_arith)
                requires
                    i <= 0x10_0000,
            ;
        }
        let kern = round_to_pixels(g.kerning);
        let kerned = pen + kern;
        let x = round_to_pixels(kerned);
        let lo = x + g.x_min;
        if lo < left {
            left = lo;
        }
        let hi = x + g.x_max;
        if hi > right {
            right = hi;
        }
        pen = kerned + g.advance;
        let p = round_to_pixels(pen);
        if p > right {
            right = p;
        }
        xs.push(x);
        i = i + 1;
    }
    (xs, left, right)
}

/// The size of the image that holds a line: its extent across, at least
/// one pixel, and the font's ascent plus descent, at least one pixel; both
/// cut to 32 bits as `as u32` cuts them.
pub open spec fn line_size(ascender: int, descender: int, left: int, right: int) -> (u32, u32) {
    let w = right - left;
    let h = round_pixels(ascender) - round_pixels(descender);
    ((if w < 1 { 1 } else { w }) as u32, (if h < 1 { 1 } else { h }) as u32)
}

/// The bitmap row and column of glyph `g`, placed at `gx`, that fall on
/// image pixel `(px, py)`.
pub open spec fn glyph_cell(g: GlyphShape, gx: int, ascent: int, px: int, py: int) -> (int, int) {
    (py - ascent + g.top, px - gx - g.left)
}

/// The coverage of bitmap pixel `(row, col)`.
pub open spec fn coverage_at(g: GlyphShape, row: int, col: int) -> int {
    g.coverage[row * g.pitch + col] as int
}

/// Whether glyph `g` inks image pixel `(px, py)`.
pub open spec fn inks(g: GlyphShape, gx: int, ascent: int, px: int, py: int) -> bool {
    let (row, col) = glyph_cell(g, gx, ascent, px, py);
    0 <= row < g.rows && 0 <= col < g.width && coverage_at(g, row, col) != 0
}

/// A pixel inked with `color` at coverage `cov`: the colour replaces the
/// pixel's, and the coverage is laid over its alpha.
pub open spec fn ink(p: Rgba, cov: int, color: Rgba) -> Rgba {
    [color[0], color[1], color[2], (cov + (p[3] * (255 - cov) + 127) / 255) as u8]
}

/// `img` with glyph `g`, placed at `gx`, inked on it.
pub open spec fn paint_glyph(img: ImageView, g: GlyphShape, gx: int, ascent: int, color: Rgba) -> ImageView {
    from_fn(
        img.width,
        img.height,
        |px: int, py: int|
            if inks(g, gx, ascent, px, py) {
                let (row, col) = glyph_cell(g, gx, ascent, px, py);
                ink(img.px(px, py), coverage_at(g, row, col), color)
            } else {
                img.px(px, py)
            },
    )
}

/// `img` with the first `n` glyphs inked on it in turn.
pub open spec fn paint_glyphs(img: ImageView, gs: Seq<GlyphShape>, xs: Seq<i64>, ascent: int, color: Rgba, n: int) -> ImageView
    decreases n,
{
    if n <= 0 {
        img
    } else {
        paint_glyph(paint_glyphs(img, gs, xs, ascent, color, n - 1), gs[n - 1], xs[n - 1] as int, ascent, color)
    }
}

/// Every alpha scaled by the colour's alpha, rounded.
pub open spec fn fade(img: ImageView, color: Rgba) -> ImageView {
    from_fn(
        img.width,
        img.height,
        |x: int, y: int| {
            let p = img.px(x, y);
            [p[0], p[1], p[2], ((p[3] * color[3] + 127) / 255) as u8]
        },
    )
}

/// A transparent black image.
pub open spec fn clear(width: nat, height: nat) -> ImageView {
    from_fn(width, height, |x: int, y: int| [0u8, 0u8, 0u8, 0u8])
}

/// The line of glyphs drawn in `color`, given the font's ascender and
/// descender in 1/64 pixel.
pub open spec fn spec_render_line(ascender: int, descender: int, gs: Seq<GlyphShape>, color: Rgba) -> ImageView {
    let n = gs.len() as int;
    let size = line_size(ascender, descender, extent_left(gs, n), extent_right(gs, n));
    let xs = Seq::new(gs.len(), |k: int| glyph_x(gs, k) as i64);
    fade(paint_glyphs(clear(size.0 as nat, size.1 as nat), gs, xs, round_pixels(ascender), color, n), color)
}

/// Pixel `(px, py)` of `before` once the bitmap cells of glyph `g` that
/// come before `(row, col)`, row by row, are inked.
pub open spec fn stage_px(before: ImageView, g: GlyphShape, gx: int, ascent: int, color: Rgba, row: int, col: int, px: int, py: int) -> Rgba {
    let (r, c) = glyph_cell(g, gx, ascent, px, py);
    if inks(g, gx, ascent, px, py) && (r < row || (r == row && c < col)) {
        ink(before.px(px, py), coverage_at(g, r, c), color)
    } else {
        before.px(px, py)
    }
}

/// `img` is `before` with the cells before `(row, col)` inked.
pub open spec fn painted_upto(img: ImageView, before: ImageView, g: GlyphShape, gx: int, ascent: int, color: Rgba, row: int, col: int) -> bool {
    forall|px: int, py: int| #[trigger] img.contains(px, py) ==> img.px(px, py) == stage_px(
        before,
        g,
        gx,
        ascent,
        color,
        row,
        col,
        px,
        py,
    )
}

/// Inks glyph `g`, placed at `gx`, onto `img`.
fn paint(img: &mut Image, g: &Glyph, gx: i64, ascent: i64, color: Rgba)
    requires
        old(img).wf(),
        glyph_ok(g@),
        -0x300_0000_0000_0000 <= gx <= 0x300_0000_0000_0000,
        -0x100_0000_0000 <= ascent <= 0x100_0000_0000,
    ensures
        final(img).wf(),
        final(img)@ == paint_glyph(old(img)@, g@, gx as int, ascent as int, color),
{
    let ghost before = img@;
    let ghost gxi = gx as int;
    let ghost asc = ascent as int;
    let w = img.width;
    let h = img.height;
    let mut row: usize = 0;
    while row < g.rows
        invariant
            img.wf(),
            img.width == w,
            img.height == h,
            before.width == w,
            before.height == h,
            before.wf(),
            glyph_ok(g@),
            gxi == gx,
            asc == ascent,
            -0x300_0000_0000_0000 <= gx <= 0x300_0000_0000_0000,
            -0x100_0000_0000 <= ascent <= 0x100_0000_0000,
            row <= g.rows,
            painted_upto(img@, before, g@, gxi, asc, color, row as int, 0),
        decreases g.rows - row,
    {
        let mut col: usize = 0;
        while col < g.width
            invariant
                img.wf(),
                img.width == w,
                img.height == h,
                before.width == w,
                before.height == h,
                before.wf(),
                glyph_ok(g@),
                gxi == gx,
                asc == ascent,
                -0x300_0000_0000_0000 <= gx <= 0x300_0000_0000_0000,
                -0x100_0000_0000 <= ascent <= 0x100_0000_0000,
                row < g.rows,
                col <= g.width,
                painted_upto(img@, before, g@, gxi, asc, color, row as int, col as int),
            decreases g.width - col,
        {
            let ghost prev = img@;
            let px = gx + g.left + col as i64;
            let py = ascent - g.top + row as i64;
            if 0 <= px && px < w as i64 && 0 <= py && py < h as i64 {
                let stored = g.coverage.len();
                proof {
                    // The stored length is a `usize`, which bounds the index.
                    assert(stored == g.coverage@.len());
                    assert(row * g.pitch + col < g.coverage@.len()) by (nonlinear_arith)
                        requires
                            row < g.rows,
                            col < g.width,
                            (g.rows - 1) * g.pitch + g.width <= g.coverage@.len(),
                    ;
                    assert(row * g.pitch <= g.coverage@.len()) by (nonlinear_arith)
                        requires
                            row < g.rows,
                            col < g.width,
                            (g.rows - 1) * g.pitch + g.width <= g.coverage@.len(),
                    ;
                }
                let cov = g.coverage[row * g.pitch + col] as u32;
                proof {
                    assert(img@.contains(px as int, py as int));
                    assert(glyph_cell(g@, gxi, asc, px as int, py as int) == (row as int, col as int));
                    assert(coverage_at(g@, row as int, col as int) == cov);
                }
                if cov != 0 {
                    let old_px = img.get_pixel(px as u32, py as u32);
                    let a = old_px[3] as u32;
                    proof {
                        assert(old_px == before.px(px as int, py as int));
                        assert(a * (255 - cov) <= 255 * 255) by (nonlinear_arith)
                            requires
                                a <= 255,
                                cov <= 255,
                        ;
                        assert(cov + (a * (255 - cov) + 127) / 255 <= 255) by (nonlinear_arith)
                            requires
                                a <= 255,
                                cov <= 255,
                        ;
                    }
                    let alpha = (cov + (a * (255 - cov) + 127) / 255) as u8;
                    let inked: Rgba = [color[0], color[1], color[2], alpha];
                    proof {
                        assert(inked == ink(before.px(px as int, py as int), cov as int, color));
                    }
                    img.put_pixel(px as u32, py as u32, inked);
                }
                proof {
                    assert forall|qx: int, qy: int| #[trigger] img@.contains(qx, qy) implies img@.px(qx, qy)
                        == stage_px(before, g@, gxi, asc, color, row as int, col + 1, qx, qy) by {
                        assert(prev.contains(qx, qy));
                        if qx == px && qy == py {
                        } else {
                            assert(glyph_cell(g@, gxi, asc, qx, qy) != (row as int, col as int));
                        }
                    }
                }
            } else {
                proof {
                    assert forall|qx: int, qy: int| #[trigger] img@.contains(qx, qy) implies img@.px(qx, qy)
                        == stage_px(before, g@, gxi, asc, color, row as int, col + 1, qx, qy) by {
                        assert(prev.contains(qx, qy));
                        assert(glyph_cell(g@, gxi, asc, qx, qy) != (row as int, col as int));
                    }
                }
            }
            col = col + 1;
        }
        proof {
            assert forall|qx: int, qy: int| #[trigger] img@.contains(qx, qy) implies img@.px(qx, qy)
                == stage_px(before, g@, gxi, asc, color, row + 1, 0, qx, qy) by {
                assert(img@.contains(qx, qy));
            }
        }
        row = row + 1;
    }
    proof {
        lemma_from_fn(
            before.width,
            before.height,
            |px: int, py: int|
                if inks(g@, gxi, asc, px, py) {
                    let (r, c) = glyph_cell(g@, gxi, asc, px, py);
                    ink(before.px(px, py), coverage_at(g@, r, c), color)
                } else {
                    before.px(px, py)
                },
        );
        let target = paint_glyph(before, g@, gxi, asc, color);
        assert forall|px: int, py: int| #[trigger] img@.contains(px, py) implies img@.px(px, py) == target.px(px, py) by {
            assert(img@.contains(px, py));
            assert(target.px(px, py) == stage_px(before, g@, gxi, asc, color, row as int, 0, px, py));
        }
        lemma_same_pixels_eq(img@, target);
    }
}

/// The alpha scale for a colour: each alpha times the colour's, rounded.
fn fade_table(color: Rgba) -> (t: Vec<u8>)
    ensures
        t@.len() == 256,
        forall|a: int| 0 <= a < 256 ==> #[trigger] t@[a] == ((a * color[3] + 127) / 255) as u8,
{
    let mut t: Vec<u8> = Vec::new();
    let mut a: u32 = 0;
    while a < 256
        invariant
            a <= 256,
            t@.len() == a,
            forall|b: int| 0 <= b < a ==> #[trigger] t@[b] == ((b * color[3] + 127) / 255) as u8,
        decreases 256 - a,
    {
        proof {
            assert(a * color[3] <= 255 * 255) by (nonlinear_arith)
                requires
                    a < 256,
                    color[3] <= 255,
            ;
            assert((a * color[3] + 127) / 255 <= 255) by (nonlinear_arith)
                requires
                    a < 256,
                    color[3] <= 255,
            ;
        }
        let v = ((a * color[3] as u32 + 127) / 255) as u8;
        t.push(v);
        a = a + 1;
    }
    t
}

/// Draws a line of rendered glyphs in `color`, given the font's ascender
/// and descender in 1/64 pixel: see `spec_render_line`.
pub fn render_line(ascender: i64, descender: i64, glyphs: &Vec<Glyph>, color: Rgba) -> (r: Image)
    requires
        -metric_limit() <= ascender <= metric_limit(),
        -metric_limit() <= descender <= metric_limit(),
        glyphs_ok(shapes(glyphs@)),
        ({
            let n = shapes(glyphs@).len() as int;
            let size = line_size(ascender as int, descender as int, extent_left(shapes(glyphs@), n), extent_right(shapes(glyphs@), n));
            fits(size.0 as int, size.1 as int)
        }),
    ensures
        r.wf(),
        r@ == spec_render_line(ascender as int, descender as int, shapes(glyphs@), color),
{
    let ghost gs = shapes(glyphs@);
    let n = glyphs.len();
    let (xs, left, right) = layout_glyphs(glyphs);
    let ascent = round_to_pixels(ascender);
    let descent = round_to_pixels(descender);
    let tall = ascent - descent;
    let wide = right - left;
    let w = (if wide < 1 { 1 } else { wide }) as u32;
    let h = (if tall < 1 { 1 } else { tall }) as u32;
    let mut img = Image::new(w, h);
    let ghost blank = clear(w as nat, h as nat);
    let ghost xv = Seq::new(gs.len(), |k: int| glyph_x(gs, k) as i64);
    proof {
        lemma_from_fn(w as nat, h as nat, |x: int, y: int| [0u8, 0u8, 0u8, 0u8]);
        assert forall|x: int, y: int| #[trigger] img@.contains(x, y) implies img@.px(x, y) == blank.px(x, y) by {
            assert(img@.contains(x, y));
        }
        lemma_same_pixels_eq(img@, blank);
        assert(xs@ =~= xv);
    }
    let mut k: usize = 0;
    while k < n
        invariant
            n == gs.len(),
            gs == shapes(glyphs@),
            glyphs_ok(gs),
            k <= n,
            xs@ == xv,
            xs@.len() == n,
            forall|j: int| 0 <= j < n ==> -0x300_0000_0000_0000 <= #[trigger] xs@[j] <= 0x300_0000_0000_0000,
            -0x100_0000_0000 <= ascent <= 0x100_0000_0000,
            img.wf(),
            img@ == paint_glyphs(blank, gs, xv, ascent as int, color, k as int),
        decreases n - k,
    {
        proof {
            assert(glyph_ok(gs[k as int]));
            assert(-0x300_0000_0000_0000 <= xs@[k as int] <= 0x300_0000_0000_0000);
        }
        paint(&mut img, &glyphs[k], xs[k], ascent, color);
        k = k + 1;
    }
    let table = fade_table(color);
    let out = map_alpha(&img, &table);
    proof {
        let faded = fade(img@, color);
        lemma_from_fn(
            img@.width,
            img@.height,
            |x: int, y: int| {
                let p = img@.px(x, y);
                [p[0], p[1], p[2], ((p[3] * color[3] + 127) / 255) as u8]
            },
        );
        assert forall|x: int, y: int| #[trigger] out@.contains(x, y) implies out@.px(x, y) == faded.px(x, y) by {
            assert(out@.contains(x, y));
            let p = img@.px(x, y);
            assert(table@[p[3] as int] == ((p[3] * color[3] + 127) / 255) as u8);
        }
        lemma_same_pixels_eq(out@, faded);
    }
    out
}

/// Whether kerning is looked up before a glyph: both it and the previous
/// glyph are known to the font, and the font carries kerning.
pub fn needs_kerning(previous: u32, id: u32, has_kerning: bool) -> (r: bool)
    ensures
        r == (previous != 0 && id != 0 && has_kerning),
{
    previous != 0 && id != 0 && has_kerning
}

fn metric_in_range(v: i64) -> (r: bool)
    ensures
        r == (-metric_limit() <= v <= metric_limit()),
{
    -0x100_0000_0000 <= v && v <= 0x100_0000_0000
}

/// Whether one glyph is in range: see `glyph_ok`.
pub fn glyph_in_range(g: &Glyph) -> (r: bool)
    ensures
        r == glyph_ok(g@),
{
    if !(metric_in_range(g.kerning) && metric_in_range(g.advance) && metric_in_range(g.x_min)
        && metric_in_range(g.x_max) && metric_in_range(g.left) && metric_in_range(g.top)) {
        return false;
    }
    if g.width as u64 > 0x100_0000_0000 || g.rows as u64 > 0x100_0000_0000 || g.pitch as u64 > 0x100_0000_0000 {
        return false;
    }
    if g.rows == 0 || g.width == 0 {
        return true;
    }
    let rows = g.rows as u128;
    let pitch = g.pitch as u128;
    proof {
        assert((rows - 1) * pitch <= 0x100_0000_0000 * 0x100_0000_0000) by (nonlinear_arith)
            requires
                1 <= rows <= 0x100_0000_0000,
                pitch <= 0x100_0000_0000,
        ;
    }
    (rows - 1) * pitch + g.width as u128 <= g.coverage.len() as u128
}

/// Whether every glyph is in range and there are not too many: see
/// `glyphs_ok`.
pub fn glyphs_in_range(glyphs: &Vec<Glyph>) -> (r: bool)
    ensures
        r == glyphs_ok(shapes(glyphs@)),
{
    if glyphs.len() > 0x10_0000 {
        return false;
    }
    let mut i: usize = 0;
    while i < glyphs.len()
        invariant
            i <= shapes(glyphs@).len() <= glyph_limit(),
            forall|k: int| 0 <= k < i ==> glyph_ok(#[trigger] shapes(glyphs@)[k]),
        decreases glyphs.len() - i,
    {
        if !glyph_in_range(&glyphs[i]) {
            proof {
                assert(shapes(glyphs@)[i as int] == glyphs@[i as int]@);
            }
            return false;
        }
        i = i + 1;
    }
    true
}

/// Whether a line can be drawn: the font's and glyphs' metrics are in
/// range, there are not too many glyphs, every bitmap holds its rows, and
/// the image can be addressed.
pub open spec fn line_drawable(ascender: int, descender: int, gs: Seq<GlyphShape>) -> bool {
    &&& -metric_limit() <= ascender <= metric_limit()
    &&& -metric_limit() <= descender <= metric_limit()
    &&& glyphs_ok(gs)
    &&& ({
        let n = gs.len() as int;
        let size = line_size(ascender, descender, extent_left(gs, n), extent_right(gs, n));
        fits(size.0 as int, size.1 as int)
    })
}

/// Draws a line of rendered glyphs where it can be held: `None` where a
/// metric is out of range, there are too many glyphs, a bitmap is short of
/// its rows, or the image would be too large to address.
pub fn try_render_line(ascender: i64, descender: i64, glyphs: &Vec<Glyph>, color: Rgba) -> (r: Option<Image>)
    ensures
        r is Some <==> line_drawable(ascender as int, descender as int, shapes(glyphs@)),
        r matches Some(img) ==> img.wf() && img@ == spec_render_line(ascender as int, descender as int, shapes(glyphs@), color),
{
    if !(metric_in_range(ascender) && metric_in_range(descender) && glyphs_in_range(glyphs)) {
        return None;
    }
    let (_, left, right) = layout_glyphs(glyphs);
    let ascent = round_to_pixels(ascender);
    let descent = round_to_pixels(descender);
    let tall = ascent - descent;
    let wide = right - left;
    let w = (if wide < 1 { 1 } else { wide }) as u32;
    let h = (if tall < 1 { 1 } else { tall }) as u32;
    if !fits_exec(w, h) {
        return None;
    }
    Some(render_line(ascender, descender, glyphs, color))
}

} // verus!
