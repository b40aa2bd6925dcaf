//! The `alignment` processor: images ordered by optional weights, each
//! aligned inside the largest width and height, moved back by its own
//! offset, and pasted in turn onto one canvas.
use vstd::prelude::*;
use crate::image::{Image, ImageView, Rgba, fits, fits_exec, paste_view, alpha_over, placement_fits, lemma_from_fn, lemma_same_pixels_eq};
use crate::compose::{solid, spec_align, align_offset, max_across, lemma_max_across};
use crate::json::{Json, spec_get, spec_json_array, spec_as_i64, spec_value_string, get, json_array, as_i64, value_string};
use crate::color::{spec_parse_color, parse_color};
use crate::sort::{sort_by_keys, stable_sort, keyed_view, lemma_sort_elements};
use crate::pipeline::{views, all_wf};

verus! {

/// The weight of image `i`: item `i` of the weights where it is an
/// integer within `i64`, 0 otherwise.
pub open spec fn weight_of(ws: Seq<Json>, i: int) -> i64 {
    if 0 <= i < ws.len() {
        match spec_as_i64(ws[i]) {
            Some(w) => w,
            None => 0,
        }
    } else {
        0
    }
}

/// The first `n` image positions keyed by their weights.
pub open spec fn weighted(ws: Seq<Json>, n: int) -> Seq<(Seq<i64>, usize)>
    decreases n,
{
    if n <= 0 {
        Seq::empty()
    } else {
        weighted(ws, n - 1).push((seq![weight_of(ws, n - 1)], (n - 1) as usize))
    }
}

/// The image at a position, as a function.
pub open spec fn pick(ims: Seq<ImageView>) -> spec_fn(usize) -> ImageView {
    |i: usize| ims[i as int]
}

/// The positions of the images in pasting order: as given where there are
/// no weights, otherwise stably sorted by ascending weight.
pub open spec fn arranged_positions(n: int, ws: Seq<Json>) -> Seq<usize> {
    if ws.len() == 0 {
        Seq::new(n as nat, |i: int| i as usize)
    } else {
        stable_sort(weighted(ws, n), false).map_values(|p: (Seq<i64>, usize)| p.1)
    }
}

/// The images in pasting order.
pub open spec fn arranged(ims: Seq<ImageView>, ws: Seq<Json>) -> Seq<ImageView> {
    arranged_positions(ims.len() as int, ws).map_values(|i: usize| ims[i as int])
}

/// The offset pair of the image pasted `i`-th: the first two items of item
/// `i` of the offsets where it is an array, each 0 where missing or not an
/// integer within `i64`.
pub open spec fn offset_of(offs: Seq<Json>, i: int) -> (i64, i64) {
    if 0 <= i < offs.len() {
        match offs[i] {
            Json::Array(p) => (
                if p@.len() > 0 { match spec_as_i64(p@[0]) { Some(v) => v, None => 0 } } else { 0 },
                if p@.len() > 1 { match spec_as_i64(p@[1]) { Some(v) => v, None => 0 } } else { 0 },
            ),
            _ => (0, 0),
        }
    } else {
        (0, 0)
    }
}

/// Where the image pasted `k`-th lands.
pub open spec fn aligned_at(im: ImageView, offs: Seq<Json>, k: int, hmode: Seq<char>, vmode: Seq<char>, width: int, height: int) -> (int, int) {
    let (ox, oy) = offset_of(offs, k);
    (spec_align(im.width as int, width, hmode) - ox, spec_align(im.height as int, height, vmode) - oy)
}

/// The canvas after the first `k` images are pasted.
pub open spec fn aligned_canvas(
    arr: Seq<ImageView>,
    offs: Seq<Json>,
    hmode: Seq<char>,
    vmode: Seq<char>,
    k: int,
    width: int,
    height: int,
    bg: Rgba,
) -> ImageView
    decreases k,
{
    if k <= 0 {
        solid(width as nat, height as nat, bg)
    } else {
        let prev = aligned_canvas(arr, offs, hmode, vmode, k - 1, width, height, bg);
        let (x, y) = aligned_at(arr[k - 1], offs, k - 1, hmode, vmode, width, height);
        paste_view(prev, arr[k - 1], x, y)
    }
}

/// The canvas colour of a node: its `background`, transparent white by
/// default.
pub open spec fn background_of(node: Json) -> Rgba {
    match spec_get(node, "background"@) {
        Some(v) => spec_parse_color(v, [255u8, 255u8, 255u8, 0u8]),
        None => [255u8, 255u8, 255u8, 0u8],
    }
}

/// Whether the layout stays in range: the canvas can be allocated and each
/// position is an `i64` that keeps the pasted image's pixels in `i64`.
pub open spec fn alignment_ok(arr: Seq<ImageView>, offs: Seq<Json>, hmode: Seq<char>, vmode: Seq<char>, width: int, height: int) -> bool {
    &&& fits(width, height)
    &&& forall|k: int| 0 <= k < arr.len() ==> {
        let (x, y) = #[trigger] aligned_at(arr[k], offs, k, hmode, vmode, width, height);
        &&& i64::MIN <= x <= i64::MAX
        &&& i64::MIN <= y <= i64::MAX
        &&& placement_fits(arr[k], x, y)
    }
}

/// The `alignment` processor on `images` as the node describes it: see
/// `arranged` and `aligned_canvas`; the canvas is as wide and as high as the
/// largest image. No image gives a transparent 1 by 1 canvas. It gives
/// nothing where the layout leaves the ranges of `alignment_ok`.
pub fn alignment(images: Vec<Image>, node: &Json) -> (r: Option<Image>)
    requires
        all_wf(images@),
    ensures
        images.len() == 0 ==> (r matches Some(img) && img.wf() && img@ == solid(1, 1, [0u8, 0u8, 0u8, 0u8])),
        images.len() > 0 ==> ({
            let arr = arranged(views(images@), spec_json_array(*node, "weights"@));
            let offs = spec_json_array(*node, "offsets"@);
            let hmode = spec_value_string(*node, "horizontal_alignment"@, "center"@);
            let vmode = spec_value_string(*node, "vertical_alignment"@, "center"@);
            let width = max_across(arr, arr.len() as int, false);
            let height = max_across(arr, arr.len() as int, true);
            &&& (r is Some <==> alignment_ok(arr, offs, hmode, vmode, width, height))
            &&& (r matches Some(img) ==> img.wf() && img@ == aligned_canvas(
                arr,
                offs,
                hmode,
                vmode,
                arr.len() as int,
                width,
                height,
                background_of(*node),
            ))
        }),
{
    let n = images.len();
    if n == 0 {
        let r = Image::new(1, 1);
        proof {
            lemma_from_fn(1, 1, |x: int, y: int| [0u8, 0u8, 0u8, 0u8]);
            lemma_same_pixels_eq(r@, solid(1, 1, [0u8, 0u8, 0u8, 0u8]));
        }
        return Some(r);
    }
    let ghost ims = views(images@);
    let ws = json_array(node, "weights");
    // The pasting order, as positions into `images`.
    let mut order: Vec<usize> = Vec::new();
    if ws.len() == 0 {
        let mut i: usize = 0;
        while i < n
            invariant
                i <= n,
                order@ =~= Seq::new(i as nat, |j: int| j as usize),
            decreases n - i,
        {
            order.push(i);
            i = i + 1;
        }
        proof {
            assert(order@ =~= arranged_positions(n as int, ws@));
        }
    } else {
        let mut keyed: Vec<(Vec<i64>, usize)> = Vec::new();
        let mut i: usize = 0;
        while i < n
            invariant
                i <= n,
                keyed_view(keyed@) == weighted(ws@, i as int),
            decreases n - i,
        {
            let w = if i < ws.len() {
                match as_i64(&ws[i]) {
                    Some(v) => v,
                    None => 0,
                }
            } else {
                0
            };
            let mut key: Vec<i64> = Vec::new();
            key.push(w);
            proof {
                assert(key@ =~= seq![weight_of(ws@, i as int)]);
            }
            let ghost before = keyed_view(keyed@);
            keyed.push((key, i));
            proof {
                assert(keyed_view(keyed@) =~= before.push((key@, i)));
            }
            i = i + 1;
        }
        let sorted = sort_by_keys(keyed, false);
        let ghost sv = keyed_view(sorted@);
        let ghost target = arranged_positions(n as int, ws@);
        proof {
            assert(target.len() == sv.len());
            assert forall|t: int| 0 <= t < target.len() implies target[t] == #[trigger] sv[t].1 by {
            }
        }
        let mut t: usize = 0;
        while t < sorted.len()
            invariant
                t <= sorted.len(),
                sv == keyed_view(sorted@),
                target.len() == sv.len(),
                forall|q: int| 0 <= q < target.len() ==> target[q] == #[trigger] sv[q].1,
                order@ == target.take(t as int),
            decreases sorted.len() - t,
        {
            let p = sorted[t].1;
            proof {
                assert(sv[t as int].1 == p);
            }
            order.push(p);
            t = t + 1;
            proof {
                assert(order@ =~= target.take(t as int));
            }
        }
        proof {
            assert(order@ =~= target);
        }
    }
    let ghost pos = arranged_positions(n as int, ws@);
    let ghost arr = arranged(ims, ws@);
    proof {
        assert(order@ == pos);
        lemma_positions_in_range(n as int, ws@);
        assert(arr.len() == n);
        assert forall|t: int| 0 <= t < n implies #[trigger] arr[t] == images@[order@[t] as int]@ by {
            assert(arr[t] == ims[pos[t] as int]);
        }
    }
    // The canvas size: the largest width and the largest height.
    let mut width: u32 = 0;
    let mut height: u32 = 0;
    let mut t: usize = 0;
    while t < n
        invariant
            t <= n,
            n == images.len(),
            order@.len() == n,
            arr.len() == n,
            forall|q: int| 0 <= q < n ==> (#[trigger] order@[q]) < n,
            forall|q: int| 0 <= q < n ==> #[trigger] arr[q] == images@[order@[q] as int]@,
            width as int == max_across(arr, t as int, false),
            height as int == max_across(arr, t as int, true),
        decreases n - t,
    {
        let im = &images[order[t]];
        proof {
            assert(arr[t as int] == im@);
        }
        if im.width > width {
            width = im.width;
        }
        if im.height > height {
            height = im.height;
        }
        t = t + 1;
    }
    let background = match get(node, "background") {
        Some(v) => parse_color(v, [255u8, 255u8, 255u8, 0u8]),
        None => [255u8, 255u8, 255u8, 0u8],
    };
    let offs = json_array(node, "offsets");
    let hmode = value_string(node, "horizontal_alignment", "center");
    let vmode = value_string(node, "vertical_alignment", "center");
    let ghost hm = hmode@;
    let ghost vm = vmode@;
    if !fits_exec(width, height) {
        return None;
    }
    let mut canvas = Image::from_pixel(width, height, background);
    proof {
        lemma_from_fn(width as nat, height as nat, |x: int, y: int| background);
        lemma_same_pixels_eq(canvas@, solid(width as nat, height as nat, background));
    }
    let mut k: usize = 0;
    while k < n
        invariant
            k <= n,
            n == images.len(),
            all_wf(images@),
            order@.len() == n,
            arr.len() == n,
            forall|q: int| 0 <= q < n ==> (#[trigger] order@[q]) < n,
            forall|q: int| 0 <= q < n ==> #[trigger] arr[q] == images@[order@[q] as int]@,
            width as int == max_across(arr, n as int, false),
            height as int == max_across(arr, n as int, true),
            fits(width as int, height as int),
            hm == hmode@,
            vm == vmode@,
            arr == arranged(views(images@), spec_json_array(*node, "weights"@)),
            offs@ == spec_json_array(*node, "offsets"@),
            hm == spec_value_string(*node, "horizontal_alignment"@, "center"@),
            vm == spec_value_string(*node, "vertical_alignment"@, "center"@),
            canvas.wf(),
            canvas@ == aligned_canvas(arr, offs@, hm, vm, k as int, width as int, height as int, background),
            forall|q: int| 0 <= q < k ==> {
                let (x, y) = #[trigger] aligned_at(arr[q], offs@, q, hm, vm, width as int, height as int);
                &&& i64::MIN <= x <= i64::MAX
                &&& i64::MIN <= y <= i64::MAX
                &&& placement_fits(arr[q], x, y)
            },
        decreases n - k,
    {
        let im = &images[order[k]];
        proof {
            assert(arr[k as int] == im@);
            assert(im.wf());
            lemma_max_across(arr, n as int, k as int, false);
            lemma_max_across(arr, n as int, k as int, true);
        }
        let (ox, oy) = offset_pair(offs, k);
        let ax = align_offset(im.width, width, hmode.as_str());
        let ay = align_offset(im.height, height, vmode.as_str());
        let ghost at = aligned_at(arr[k as int], offs@, k as int, hm, vm, width as int, height as int);
        proof {
            assert(at == (ax - ox, ay - oy));
        }
        let x = match ax.checked_sub(ox) {
            Some(v) => v,
            None => {
                proof {
                    assert(!alignment_ok(arr, offs@, hm, vm, width as int, height as int));
                }
                return None;
            },
        };
        let y = match ay.checked_sub(oy) {
            Some(v) => v,
            None => {
                proof {
                    assert(!alignment_ok(arr, offs@, hm, vm, width as int, height as int));
                }
                return None;
            },
        };
        if im.width > 0 && im.height > 0 {
            if x > i64::MAX - (im.width as i64 - 1) || y > i64::MAX - (im.height as i64 - 1) {
                proof {
                    assert(!placement_fits(arr[k as int], x as int, y as int));
                    assert(!alignment_ok(arr, offs@, hm, vm, width as int, height as int));
                }
                return None;
            }
        }
        proof {
            assert(aligned_at(arr[k as int], offs@, k as int, hm, vm, width as int, height as int) == (x as int, y as int));
        }
        let ghost prev = canvas@;
        alpha_over(&mut canvas, im, x, y);
        k = k + 1;
    }
    proof {
        assert(alignment_ok(arr, offs@, hm, vm, width as int, height as int));
    }
    Some(canvas)
}

proof fn lemma_positions_in_range(n: int, ws: Seq<Json>)
    requires
        n >= 0,
        n <= usize::MAX,
    ensures
        arranged_positions(n, ws).len() == n,
        forall|t: int| 0 <= t < n ==> (#[trigger] arranged_positions(n, ws)[t]) < n,
{
    if ws.len() == 0 {
    } else {
        let w = weighted(ws, n);
        lemma_weighted(ws, n);
        lemma_sort_elements(w, false);
        let s = stable_sort(w, false);
        assert forall|t: int| 0 <= t < n implies (#[trigger] arranged_positions(n, ws)[t]) < n by {
            assert(arranged_positions(n, ws)[t] == s[t].1);
            assert(w.contains(s[t]));
            let j = choose|j: int| 0 <= j < w.len() && w[j] == s[t];
            assert(w[j].1 == j);
        }
    }
}

proof fn lemma_weighted(ws: Seq<Json>, n: int)
    requires
        0 <= n <= usize::MAX,
    ensures
        weighted(ws, n).len() == n,
        forall|t: int| 0 <= t < n ==> (#[trigger] weighted(ws, n)[t]).1 == t,
    decreases n,
{
    if n > 0 {
        lemma_weighted(ws, n - 1);
    }
}

/// The offset pair of the image pasted `k`-th: see `offset_of`.
fn offset_pair(offs: &[Json], k: usize) -> (r: (i64, i64))
    ensures
        r == offset_of(offs@, k as int),
{
    if k < offs.len() {
        match &offs[k] {
            Json::Array(p) => {
                let ox = if p.len() > 0 {
                    match as_i64(&p[0]) {
                        Some(v) => v,
                        None => 0,
                    }
                } else {
                    0
                };
                let oy = if p.len() > 1 {
                    match as_i64(&p[1]) {
                        Some(v) => v,
                        None => 0,
                    }
                } else {
                    0
                };
                (ox, oy)
            },
            _ => (0, 0),
        }
    } else {
        (0, 0)
    }
}

} // verus!
