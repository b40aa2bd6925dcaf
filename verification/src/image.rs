//! RGBA raster images and the pixel operations the watermark layouts are
//! built from: fills, copies, Pillow-style `paste` compositing, cropping and
//! padding.
use vstd::prelude::*;

verus! {

/// An RGBA pixel.
pub type Rgba = [u8; 4];

/// The mathematical content of an image: its size and its pixels in
/// row-major order.
pub struct ImageView {
    pub width: nat,
    pub height: nat,
    pub pixels: Seq<Rgba>,
}

impl ImageView {
    /// The pixel at column `x`, row `y`.
    pub open spec fn px(self, x: int, y: int) -> Rgba {
        self.pixels[y * self.width + x]
    }

    /// Channel `c` of the pixel at `(x, y)`.
    pub open spec fn ch(self, x: int, y: int, c: int) -> u8 {
        self.px(x, y)[c]
    }

    /// Whether `(x, y)` lies inside the image.
    pub open spec fn contains(self, x: int, y: int) -> bool {
        0 <= x < self.width && 0 <= y < self.height
    }

    /// The size matches the pixel count.
    pub open spec fn wf(self) -> bool {
        self.pixels.len() == self.width * self.height
    }

    /// Same size and same pixel at every position.
    pub open spec fn same_pixels(self, other: ImageView) -> bool {
        &&& self.width == other.width
        &&& self.height == other.height
        &&& forall|x: int, y: int| #![trigger self.px(x, y), other.px(x, y)]
            self.contains(x, y) ==> self.px(x, y) == other.px(x, y)
    }
}

/// An 8-bit RGBA image stored row by row.
#[derive(Debug)]
pub struct Image {
    pub width: u32,
    pub height: u32,
    pub pixels: Vec<Rgba>,
}

impl View for Image {
    type V = ImageView;

    open spec fn view(&self) -> ImageView {
        ImageView { width: self.width as nat, height: self.height as nat, pixels: self.pixels@ }
    }
}

/// Whether an image of the given size can be held: see `fits`.
pub fn fits_exec(width: u32, height: u32) -> (r: bool)
    ensures
        r == fits(width as int, height as int),
{
    proof {
        assert((width as u64) * (height as u64) <= u64::MAX) by (nonlinear_arith)
            requires
                width <= u32::MAX,
                height <= u32::MAX,
        ;
    }
    let n: u64 = (width as u64) * (height as u64);
    n <= (usize::MAX as u64) / 4
}

/// The largest pixel count an image may hold: four bytes per pixel must be
/// addressable.
pub open spec fn fits(width: int, height: int) -> bool {
    width * height * 4 <= usize::MAX
}

pub proof fn lemma_index_bounds(w: int, h: int, x: int, y: int)
    requires
        0 <= x < w,
        0 <= y < h,
    ensures
        0 <= y * w + x < w * h,
        y * w + x + 1 <= w * h,
{
    assert(0 <= y * w) by (nonlinear_arith)
        requires
            0 <= y,
            0 < w,
    ;
    assert(y * w + x < w * h) by (nonlinear_arith)
        requires
            0 <= x < w,
            0 <= y < h,
    ;
}

pub proof fn lemma_index_injective(w: int, x1: int, y1: int, x2: int, y2: int)
    requires
        0 <= x1 < w,
        0 <= x2 < w,
        0 <= y1,
        0 <= y2,
        x1 != x2 || y1 != y2,
    ensures
        y1 * w + x1 != y2 * w + x2,
{
    if y1 == y2 {
    } else if y1 < y2 {
        assert(y1 * w + x1 < y2 * w + x2) by (nonlinear_arith)
            requires
                0 <= x1 < w,
                0 <= x2,
                y1 < y2,
        ;
    } else {
        assert(y2 * w + x2 < y1 * w + x1) by (nonlinear_arith)
            requires
                0 <= x2 < w,
                0 <= x1,
                y2 < y1,
        ;
    }
}

pub proof fn lemma_fits_mono(w: int, h: int, w2: int, h2: int)
    requires
        0 <= w2 <= w,
        0 <= h2 <= h,
        fits(w, h),
    ensures
        fits(w2, h2),
        w2 * h2 <= w * h,
{
    assert(w2 * h2 <= w * h) by (nonlinear_arith)
        requires
            0 <= w2 <= w,
            0 <= h2 <= h,
    ;
}

/// Two well-formed views with the same size and the same pixel everywhere
/// are equal.
pub proof fn lemma_same_pixels_eq(a: ImageView, b: ImageView)
    requires
        a.wf(),
        b.wf(),
        a.same_pixels(b),
    ensures
        a == b,
{
    assert forall|i: int| 0 <= i < a.pixels.len() implies a.pixels[i] == b.pixels[i] by {
        let w = a.width as int;
        let x = i % w;
        let y = i / w;
        let h = a.height as int;
        assert(w > 0) by (nonlinear_arith)
            requires
                0 <= i < w * h,
                w >= 0,
                h >= 0,
        ;
        assert(i == y * w + x && 0 <= x < w && 0 <= y) by (nonlinear_arith)
            requires
                w > 0,
                0 <= i,
                x == i % w,
                y == i / w,
        ;
        assert(y < a.height) by (nonlinear_arith)
            requires
                i == y * w + x,
                0 <= x,
                i < w * a.height,
                w > 0,
        ;
        assert(a.px(x, y) == b.px(x, y));
    }
    assert(a.pixels =~= b.pixels);
}

/// An image given by its size and a pixel function.
pub open spec fn from_fn(width: nat, height: nat, f: spec_fn(int, int) -> Rgba) -> ImageView {
    ImageView {
        width,
        height,
        pixels: Seq::new(width * height, |i: int| f(i % (width as int), i / (width as int))),
    }
}

pub proof fn lemma_from_fn(width: nat, height: nat, f: spec_fn(int, int) -> Rgba)
    ensures
        from_fn(width, height, f).wf(),
        forall|x: int, y: int|
            0 <= x < width && 0 <= y < height ==> #[trigger] from_fn(width, height, f).px(x, y)
                == f(x, y),
{
    let v = from_fn(width, height, f);
    assert forall|x: int, y: int| 0 <= x < width && 0 <= y < height implies #[trigger] v.px(x, y)
        == f(x, y) by {
        let w = width as int;
        lemma_index_bounds(w, height as int, x, y);
        let i = y * w + x;
        assert(i % w == x && i / w == y) by (nonlinear_arith)
            requires
                i == y * w + x,
                0 <= x < w,
                0 <= y,
        {
            vstd::arithmetic::div_mod::lemma_fundamental_div_mod_converse(i, w, y, x);
        }
    }
}

impl Image {
    /// The pixel vector holds one pixel per position.
    pub open spec fn wf(&self) -> bool {
        self@.wf() && fits(self.width as int, self.height as int)
    }

    /// An image of the given size with every pixel `fill`.
    pub fn from_pixel(width: u32, height: u32, fill: Rgba) -> (r: Image)
        requires
            fits(width as int, height as int),
        ensures
            r.wf(),
            r@.width == width,
            r@.height == height,
            forall|x: int, y: int| #[trigger] r@.contains(x, y) ==> r@.px(x, y) == fill,
    {
        proof {
            lemma_fits_mono(width as int, height as int, width as int, height as int);
        }
        let n: usize = (width as usize) * (height as usize);
        let mut pixels: Vec<Rgba> = Vec::with_capacity(n);
        let mut i: usize = 0;
        while i < n
            invariant
                i <= n,
                pixels@.len() == i,
                forall|k: int| 0 <= k < i ==> pixels@[k] == fill,
            decreases n - i,
        {
            pixels.push(fill);
            i = i + 1;
        }
        let r = Image { width, height, pixels };
        proof {
            assert forall|x: int, y: int| #[trigger] r@.contains(x, y) implies r@.px(x, y)
                == fill by {
                lemma_index_bounds(width as int, height as int, x, y);
            }
        }
        r
    }

    /// A fully transparent black image, as `ImageBuffer::new` gives.
    pub fn new(width: u32, height: u32) -> (r: Image)
        requires
            fits(width as int, height as int),
        ensures
            r.wf(),
            r@.width == width,
            r@.height == height,
            forall|x: int, y: int| #[trigger] r@.contains(x, y) ==> r@.px(x, y) == [0u8, 0u8, 0u8, 0u8],
    {
        Image::from_pixel(width, height, [0u8, 0u8, 0u8, 0u8])
    }

    /// An image built from row-major pixels, when their number matches.
    pub fn from_pixels(width: u32, height: u32, pixels: Vec<Rgba>) -> (r: Option<Image>)
        ensures
            r is Some <== (pixels@.len() == width * height && fits(width as int, height as int)),
            r matches Some(img) ==> img.wf() && img@ == (ImageView {
                width: width as nat,
                height: height as nat,
                pixels: pixels@,
            }),
    {
        proof {
            assert((width as u64) * (height as u64) <= u64::MAX) by (nonlinear_arith)
                requires
                    width <= u32::MAX,
                    height <= u32::MAX,
            ;
        }
        let n: u64 = (width as u64) * (height as u64);
        if n > (usize::MAX as u64) / 4 || pixels.len() as u64 != n {
            None
        } else {
            Some(Image { width, height, pixels })
        }
    }

    pub fn width(&self) -> (r: u32)
        ensures
            r == self.width,
    {
        self.width
    }

    pub fn height(&self) -> (r: u32)
        ensures
            r == self.height,
    {
        self.height
    }

    /// The pixel at `(x, y)`.
    pub fn get_pixel(&self, x: u32, y: u32) -> (r: Rgba)
        requires
            self.wf(),
            x < self.width,
            y < self.height,
        ensures
            r == self@.px(x as int, y as int),
    {
        proof {
            lemma_index_bounds(self.width as int, self.height as int, x as int, y as int);
        }
        self.pixels[(y as usize) * (self.width as usize) + (x as usize)]
    }

    /// Sets the pixel at `(x, y)`; every other pixel is kept.
    pub fn put_pixel(&mut self, x: u32, y: u32, p: Rgba)
        requires
            old(self).wf(),
            x < old(self).width,
            y < old(self).height,
        ensures
            final(self).wf(),
            final(self).width == old(self).width,
            final(self).height == old(self).height,
            forall|xx: int, yy: int| #[trigger]
                final(self)@.contains(xx, yy) ==> final(self)@.px(xx, yy) == if xx == x && yy
                    == y {
                    p
                } else {
                    old(self)@.px(xx, yy)
                },
    {
        proof {
            lemma_index_bounds(self.width as int, self.height as int, x as int, y as int);
        }
        let i = (y as usize) * (self.width as usize) + (x as usize);
        self.pixels.set(i, p);
        proof {
            assert forall|xx: int, yy: int| #[trigger]
                self@.contains(xx, yy) implies self@.px(xx, yy) == if xx == x && yy == y {
                p
            } else {
                old(self)@.px(xx, yy)
            } by {
                lemma_index_bounds(self.width as int, self.height as int, xx, yy);
                if xx != x || yy != y {
                    lemma_index_injective(self.width as int, xx, yy, x as int, y as int);
                }
            }
        }
    }

    /// An identical copy.
    pub fn duplicate(&self) -> (r: Image)
        requires
            self.wf(),
        ensures
            r.wf(),
            r@ == self@,
    {
        let mut pixels: Vec<Rgba> = Vec::with_capacity(self.pixels.len());
        let mut i: usize = 0;
        while i < self.pixels.len()
            invariant
                i <= self.pixels@.len(),
                pixels@ == self.pixels@.take(i as int),
            decreases self.pixels@.len() - i,
        {
            pixels.push(self.pixels[i]);
            i = i + 1;
            proof {
                assert(pixels@ =~= self.pixels@.take(i as int));
            }
        }
        proof {
            assert(self.pixels@.take(i as int) =~= self.pixels@);
        }
        Image { width: self.width, height: self.height, pixels }
    }
}

/// Copies of every image, in order.
pub fn duplicate_all(images: &Vec<Image>) -> (r: Vec<Image>)
    requires
        forall|i: int| 0 <= i < images.len() ==> (#[trigger] images@[i]).wf(),
    ensures
        r.len() == images.len(),
        forall|i: int| 0 <= i < r.len() ==> (#[trigger] r@[i]).wf() && r@[i]@ == images@[i]@,
{
    let mut r: Vec<Image> = Vec::new();
    let mut i: usize = 0;
    while i < images.len()
        invariant
            i <= images.len(),
            forall|k: int| 0 <= k < images.len() ==> (#[trigger] images@[k]).wf(),
            r.len() == i,
            forall|k: int| 0 <= k < i ==> (#[trigger] r@[k]).wf() && r@[k]@ == images@[k]@,
        decreases images.len() - i,
    {
        let d = images[i].duplicate();
        r.push(d);
        i = i + 1;
    }
    r
}

/// One channel of Pillow's `paste(source, box, mask=source)`: the source
/// and target channel mixed by the source alpha `m`, rounded to nearest.
pub open spec fn blend(s: int, t: int, m: int) -> int {
    (s * m + t * (255 - m) + 127) / 255
}

/// The pixel that pasting `s` over `t` leaves.
pub open spec fn blend_px(s: Rgba, t: Rgba) -> Rgba {
    [
        blend(s[0] as int, t[0] as int, s[3] as int) as u8,
        blend(s[1] as int, t[1] as int, s[3] as int) as u8,
        blend(s[2] as int, t[2] as int, s[3] as int) as u8,
        blend(s[3] as int, t[3] as int, s[3] as int) as u8,
    ]
}

proof fn lemma_blend_range(s: int, t: int, m: int)
    requires
        0 <= s <= 255,
        0 <= t <= 255,
        0 <= m <= 255,
    ensures
        0 <= blend(s, t, m) <= 255,
        0 <= s * m + t * (255 - m) + 127 <= 255 * 255 + 127,
{
    assert(0 <= s * m + t * (255 - m) <= 255 * 255) by (nonlinear_arith)
        requires
            0 <= s <= 255,
            0 <= t <= 255,
            0 <= m <= 255,
    ;
}

fn blend_channel(s: u8, t: u8, m: u8) -> (r: u8)
    ensures
        r as int == blend(s as int, t as int, m as int),
{
    proof {
        lemma_blend_range(s as int, t as int, m as int);
    }
    let v: u32 = ((s as u32) * (m as u32) + (t as u32) * (255 - (m as u32)) + 127) / 255;
    v as u8
}

/// Pastes `s` over `t` with `s`'s alpha as the mask.
pub fn blend_pixel(s: Rgba, t: Rgba) -> (r: Rgba)
    ensures
        r == blend_px(s, t),
{
    proof {
        lemma_blend_range(s[0] as int, t[0] as int, s[3] as int);
        lemma_blend_range(s[1] as int, t[1] as int, s[3] as int);
        lemma_blend_range(s[2] as int, t[2] as int, s[3] as int);
        lemma_blend_range(s[3] as int, t[3] as int, s[3] as int);
    }
    [
        blend_channel(s[0], t[0], s[3]),
        blend_channel(s[1], t[1], s[3]),
        blend_channel(s[2], t[2], s[3]),
        blend_channel(s[3], t[3], s[3]),
    ]
}

/// Whether the canvas position `(tx, ty)` receives a source pixel when the
/// source is placed with its top-left corner at `(x, y)`.
pub open spec fn covers(src: ImageView, x: int, y: int, tx: int, ty: int) -> bool {
    src.contains(tx - x, ty - y)
}

/// The canvas after pasting `src` at `(x, y)` with its own alpha as mask:
/// each covered position is blended, the rest is kept.
pub open spec fn pasted(canvas: ImageView, src: ImageView, x: int, y: int, tx: int, ty: int) -> Rgba {
    if covers(src, x, y, tx, ty) {
        blend_px(src.px(tx - x, ty - y), canvas.px(tx, ty))
    } else {
        canvas.px(tx, ty)
    }
}

/// The whole canvas after pasting `src` at `(x, y)`.
pub open spec fn paste_view(canvas: ImageView, src: ImageView, x: int, y: int) -> ImageView {
    from_fn(canvas.width, canvas.height, |tx: int, ty: int| pasted(canvas, src, x, y, tx, ty))
}

/// The offset of a placed image keeps every coordinate inside `i64`.
pub open spec fn placement_fits(src: ImageView, x: int, y: int) -> bool {
    src.width > 0 && src.height > 0 ==> x + src.width - 1 <= i64::MAX && y + src.height - 1
        <= i64::MAX
}

/// Composites `image` onto `canvas` with its top-left corner at `(x, y)`,
/// the way Pillow's `paste(image, (x, y), image)` does: every channel,
/// alpha included, is interpolated with the source alpha and rounded.
/// Source pixels that fall outside the canvas are skipped.
pub fn alpha_over(canvas: &mut Image, image: &Image, x: i64, y: i64)
    requires
        old(canvas).wf(),
        image.wf(),
        placement_fits(image@, x as int, y as int),
    ensures
        final(canvas).wf(),
        final(canvas)@ == paste_view(old(canvas)@, image@, x as int, y as int),
        final(canvas)@.width == old(canvas)@.width,
        final(canvas)@.height == old(canvas)@.height,
        forall|tx: int, ty: int| #[trigger]
            final(canvas)@.contains(tx, ty) ==> final(canvas)@.px(tx, ty) == pasted(
                old(canvas)@,
                image@,
                x as int,
                y as int,
                tx,
                ty,
            ),
{
    let ghost c0 = canvas@;
    let cw = canvas.width;
    let ch = canvas.height;
    let mut sy: u32 = 0;
    while sy < image.height
        invariant
            canvas.wf(),
            image.wf(),
            placement_fits(image@, x as int, y as int),
            canvas.width == cw,
            canvas.height == ch,
            c0.width == cw,
            c0.height == ch,
            sy <= image.height,
            forall|tx: int, ty: int| #[trigger]
                canvas@.contains(tx, ty) ==> canvas@.px(tx, ty) == if covers(
                    image@,
                    x as int,
                    y as int,
                    tx,
                    ty,
                ) && ty - y < sy {
                    pasted(c0, image@, x as int, y as int, tx, ty)
                } else {
                    c0.px(tx, ty)
                },
        decreases image.height - sy,
    {
        let mut sx: u32 = 0;
        while sx < image.width
            invariant
                canvas.wf(),
                image.wf(),
                placement_fits(image@, x as int, y as int),
                canvas.width == cw,
                canvas.height == ch,
                c0.width == cw,
                c0.height == ch,
                sy < image.height,
                sx <= image.width,
                forall|tx: int, ty: int| #[trigger]
                    canvas@.contains(tx, ty) ==> canvas@.px(tx, ty) == if covers(
                        image@,
                        x as int,
                        y as int,
                        tx,
                        ty,
                    ) && (ty - y < sy || (ty - y == sy && tx - x < sx)) {
                        pasted(c0, image@, x as int, y as int, tx, ty)
                    } else {
                        c0.px(tx, ty)
                    },
            decreases image.width - sx,
        {
            let target_x: i64 = x + sx as i64;
            let target_y: i64 = y + sy as i64;
            let ghost before = canvas@;
            if !(target_x < 0 || target_y < 0 || target_x >= cw as i64 || target_y >= ch as i64) {
                let source = image.get_pixel(sx, sy);
                let target = canvas.get_pixel(target_x as u32, target_y as u32);
                let out = blend_pixel(source, target);
                canvas.put_pixel(target_x as u32, target_y as u32, out);
            }
            proof {
                assert forall|tx: int, ty: int| #[trigger] canvas@.contains(tx, ty) implies canvas@.px(
                    tx,
                    ty,
                ) == if covers(image@, x as int, y as int, tx, ty) && (ty - y < sy || (ty - y
                    == sy && tx - x < sx + 1)) {
                    pasted(c0, image@, x as int, y as int, tx, ty)
                } else {
                    c0.px(tx, ty)
                } by {
                    assert(before.contains(tx, ty));
                    if tx == target_x && ty == target_y {
                        assert(covers(image@, x as int, y as int, tx, ty));
                    }
                }
            }
            sx = sx + 1;
        }
        sy = sy + 1;
    }
    proof {
        lemma_from_fn(c0.width, c0.height, |tx: int, ty: int| pasted(c0, image@, x as int, y as int, tx, ty));
        lemma_same_pixels_eq(canvas@, paste_view(c0, image@, x as int, y as int));
    }
}

/// The pixel that a crop of `src` starting at `(left, top)` shows at
/// `(x, y)`: the source pixel, or transparent black outside the source.
pub open spec fn padded_px(src: ImageView, left: int, top: int, x: int, y: int) -> Rgba {
    if src.contains(left + x, top + y) {
        src.px(left + x, top + y)
    } else {
        [0u8, 0u8, 0u8, 0u8]
    }
}

/// A `width` by `height` window of `image` whose top-left corner is at
/// `(left, top)`. The window keeps its size where it reaches outside the
/// source; those pixels are transparent black, as Pillow's `crop` leaves them.
pub fn crop_with_padding(image: &Image, left: i64, top: i64, width: u32, height: u32) -> (r: Image)
    requires
        image.wf(),
        fits(width as int, height as int),
        width > 0 && height > 0 ==> left + width - 1 <= i64::MAX && top + height - 1 <= i64::MAX,
    ensures
        r.wf(),
        r@.width == width,
        r@.height == height,
        forall|x: int, y: int| #[trigger]
            r@.contains(x, y) ==> r@.px(x, y) == padded_px(image@, left as int, top as int, x, y),
{
    let mut output = Image::new(width, height);
    let mut y: u32 = 0;
    while y < height
        invariant
            output.wf(),
            image.wf(),
            output.width == width,
            output.height == height,
            y <= height,
            width > 0 && height > 0 ==> left + width - 1 <= i64::MAX && top + height - 1
                <= i64::MAX,
            forall|xx: int, yy: int| #[trigger]
                output@.contains(xx, yy) ==> output@.px(xx, yy) == if yy < y {
                    padded_px(image@, left as int, top as int, xx, yy)
                } else {
                    [0u8, 0u8, 0u8, 0u8]
                },
        decreases height - y,
    {
        let mut x: u32 = 0;
        while x < width
            invariant
                output.wf(),
                image.wf(),
                output.width == width,
                output.height == height,
                y < height,
                x <= width,
                width > 0 && height > 0 ==> left + width - 1 <= i64::MAX && top + height - 1
                    <= i64::MAX,
                forall|xx: int, yy: int| #[trigger]
                    output@.contains(xx, yy) ==> output@.px(xx, yy) == if yy < y || (yy == y
                        && xx < x) {
                        padded_px(image@, left as int, top as int, xx, yy)
                    } else {
                        [0u8, 0u8, 0u8, 0u8]
                    },
            decreases width - x,
        {
            let source_x: i64 = left + x as i64;
            let source_y: i64 = top + y as i64;
            let ghost before = output@;
            if source_x >= 0 && source_y >= 0 && source_x < image.width as i64 && source_y
                < image.height as i64 {
                let p = image.get_pixel(source_x as u32, source_y as u32);
                output.put_pixel(x, y, p);
            }
            proof {
                assert forall|xx: int, yy: int| #[trigger] output@.contains(xx, yy) implies output@.px(
                    xx,
                    yy,
                ) == if yy < y || (yy == y && xx < x + 1) {
                    padded_px(image@, left as int, top as int, xx, yy)
                } else {
                    [0u8, 0u8, 0u8, 0u8]
                } by {
                    assert(before.contains(xx, yy));
                }
            }
            x = x + 1;
        }
        y = y + 1;
    }
    output
}

/// The region `crop_imm` keeps: the requested rectangle clipped to the image.
pub open spec fn clip_start(start: int, size: int) -> int {
    if start < size {
        start
    } else {
        size
    }
}

pub open spec fn clip_len(start: int, len: int, size: int) -> int {
    let s = clip_start(start, size);
    if len < size - s {
        len
    } else {
        size - s
    }
}

/// The part of `image` inside the rectangle at `(x, y)` of the given size,
/// clipped to the image, as `imageops::crop_imm(..).to_image()` gives it.
pub fn crop(image: &Image, x: u32, y: u32, width: u32, height: u32) -> (r: Image)
    requires
        image.wf(),
    ensures
        r.wf(),
        r@.width == clip_len(x as int, width as int, image.width as int),
        r@.height == clip_len(y as int, height as int, image.height as int),
        forall|xx: int, yy: int| #[trigger]
            r@.contains(xx, yy) ==> r@.px(xx, yy) == image@.px(
                clip_start(x as int, image.width as int) + xx,
                clip_start(y as int, image.height as int) + yy,
            ),
{
    let x0 = if x < image.width {
        x
    } else {
        image.width
    };
    let y0 = if y < image.height {
        y
    } else {
        image.height
    };
    let w = if width < image.width - x0 {
        width
    } else {
        image.width - x0
    };
    let h = if height < image.height - y0 {
        height
    } else {
        image.height - y0
    };
    proof {
        lemma_fits_mono(image.width as int, image.height as int, w as int, h as int);
    }
    let r = crop_with_padding(image, x0 as i64, y0 as i64, w, h);
    proof {
        assert forall|xx: int, yy: int| #[trigger] r@.contains(xx, yy) implies r@.px(xx, yy)
            == image@.px(x0 + xx, y0 + yy) by {
            assert(image@.contains(x0 + xx, y0 + yy));
        }
    }
    r
}

/// Copies `image` onto `canvas` with its top-left corner at `(x, y)`,
/// replacing (not blending) every covered canvas pixel, as
/// `imageops::replace` does; pixels outside the canvas are dropped.
pub fn replace(canvas: &mut Image, image: &Image, x: i64, y: i64)
    requires
        old(canvas).wf(),
        image.wf(),
        placement_fits(image@, x as int, y as int),
    ensures
        final(canvas).wf(),
        final(canvas)@.width == old(canvas)@.width,
        final(canvas)@.height == old(canvas)@.height,
        forall|tx: int, ty: int| #[trigger]
            final(canvas)@.contains(tx, ty) ==> final(canvas)@.px(tx, ty) == if covers(
                image@,
                x as int,
                y as int,
                tx,
                ty,
            ) {
                image@.px(tx - x, ty - y)
            } else {
                old(canvas)@.px(tx, ty)
            },
{
    let ghost c0 = canvas@;
    let cw = canvas.width;
    let ch = canvas.height;
    let mut sy: u32 = 0;
    while sy < image.height
        invariant
            canvas.wf(),
            image.wf(),
            placement_fits(image@, x as int, y as int),
            canvas.width == cw,
            canvas.height == ch,
            c0.width == cw,
            c0.height == ch,
            sy <= image.height,
            forall|tx: int, ty: int| #[trigger]
                canvas@.contains(tx, ty) ==> canvas@.px(tx, ty) == if covers(
                    image@,
                    x as int,
                    y as int,
                    tx,
                    ty,
                ) && ty - y < sy {
                    image@.px(tx - x, ty - y)
                } else {
                    c0.px(tx, ty)
                },
        decreases image.height - sy,
    {
        let mut sx: u32 = 0;
        while sx < image.width
            invariant
                canvas.wf(),
                image.wf(),
                placement_fits(image@, x as int, y as int),
                canvas.width == cw,
                canvas.height == ch,
                c0.width == cw,
                c0.height == ch,
                sy < image.height,
                sx <= image.width,
                forall|tx: int, ty: int| #[trigger]
                    canvas@.contains(tx, ty) ==> canvas@.px(tx, ty) == if covers(
                        image@,
                        x as int,
                        y as int,
                        tx,
                        ty,
                    ) && (ty - y < sy || (ty - y == sy && tx - x < sx)) {
                        image@.px(tx - x, ty - y)
                    } else {
                        c0.px(tx, ty)
                    },
            decreases image.width - sx,
        {
            let target_x: i64 = x + sx as i64;
            let target_y: i64 = y + sy as i64;
            let ghost before = canvas@;
            if !(target_x < 0 || target_y < 0 || target_x >= cw as i64 || target_y >= ch as i64) {
                let source = image.get_pixel(sx, sy);
                canvas.put_pixel(target_x as u32, target_y as u32, source);
            }
            proof {
                assert forall|tx: int, ty: int| #[trigger] canvas@.contains(tx, ty) implies canvas@.px(
                    tx,
                    ty,
                ) == if covers(image@, x as int, y as int, tx, ty) && (ty - y < sy || (ty - y
                    == sy && tx - x < sx + 1)) {
                    image@.px(tx - x, ty - y)
                } else {
                    c0.px(tx, ty)
                } by {
                    assert(before.contains(tx, ty));
                    if tx == target_x && ty == target_y {
                        assert(covers(image@, x as int, y as int, tx, ty));
                    }
                }
            }
            sx = sx + 1;
        }
        sy = sy + 1;
    }
}

proof fn lemma_blend_ends(s: int, t: int)
    requires
        0 <= s <= 255,
        0 <= t <= 255,
    ensures
        blend(s, t, 255) == s,
        blend(s, t, 0) == t,
{
    assert((s * 255 + t * 0 + 127) / 255 == s) by (nonlinear_arith)
        requires
            0 <= s <= 255,
    ;
    assert((s * 0 + t * 255 + 127) / 255 == t) by (nonlinear_arith)
        requires
            0 <= t <= 255,
    ;
}

/// Pasting an opaque pixel puts it in place; pasting a fully transparent
/// one leaves the canvas pixel as it was.
pub proof fn law_blend_opaque_transparent(s: Rgba, t: Rgba)
    ensures
        s[3] == 255 ==> blend_px(s, t) == s,
        s[3] == 0 ==> blend_px(s, t) == t,
{
    lemma_blend_ends(s[0] as int, t[0] as int);
    lemma_blend_ends(s[1] as int, t[1] as int);
    lemma_blend_ends(s[2] as int, t[2] as int);
    lemma_blend_ends(s[3] as int, t[3] as int);
    if s[3] == 255 {
        assert(blend_px(s, t) =~= s);
    }
    if s[3] == 0 {
        assert(blend_px(s, t) =~= t);
    }
}

/// Pasting a fully opaque image replaces the canvas where it lands and
/// keeps the canvas elsewhere, as a plain copy would.
pub proof fn law_paste_opaque_replaces(canvas: ImageView, src: ImageView, x: int, y: int)
    requires
        canvas.wf(),
        src.wf(),
        forall|sx: int, sy: int| #[trigger] src.contains(sx, sy) ==> src.px(sx, sy)[3] == 255,
    ensures
        paste_view(canvas, src, x, y).width == canvas.width,
        paste_view(canvas, src, x, y).height == canvas.height,
        forall|tx: int, ty: int| #[trigger] canvas.contains(tx, ty) ==> paste_view(canvas, src, x, y).px(tx, ty)
            == if covers(src, x, y, tx, ty) {
            src.px(tx - x, ty - y)
        } else {
            canvas.px(tx, ty)
        },
{
    lemma_from_fn(canvas.width, canvas.height, |tx: int, ty: int| pasted(canvas, src, x, y, tx, ty));
    assert forall|tx: int, ty: int| #[trigger] canvas.contains(tx, ty) implies paste_view(canvas, src, x, y).px(tx, ty)
        == if covers(src, x, y, tx, ty) {
        src.px(tx - x, ty - y)
    } else {
        canvas.px(tx, ty)
    } by {
        if covers(src, x, y, tx, ty) {
            assert(src.contains(tx - x, ty - y));
            law_blend_opaque_transparent(src.px(tx - x, ty - y), canvas.px(tx, ty));
        }
    }
}

/// Pasting a fully transparent image leaves the canvas as it was.
pub proof fn law_paste_transparent_keeps(canvas: ImageView, src: ImageView, x: int, y: int)
    requires
        canvas.wf(),
        src.wf(),
        forall|sx: int, sy: int| #[trigger] src.contains(sx, sy) ==> src.px(sx, sy)[3] == 0,
    ensures
        paste_view(canvas, src, x, y) == canvas,
{
    let v = paste_view(canvas, src, x, y);
    lemma_from_fn(canvas.width, canvas.height, |tx: int, ty: int| pasted(canvas, src, x, y, tx, ty));
    assert forall|tx: int, ty: int| #[trigger] v.contains(tx, ty) implies v.px(tx, ty) == canvas.px(tx, ty) by {
        if covers(src, x, y, tx, ty) {
            assert(src.contains(tx - x, ty - y));
            law_blend_opaque_transparent(src.px(tx - x, ty - y), canvas.px(tx, ty));
        }
    }
    lemma_same_pixels_eq(v, canvas);
}

} // verus!
