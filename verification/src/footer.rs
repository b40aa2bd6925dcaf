//! Where the four texts and the right logo of a watermark footer go.
use vstd::prelude::*;

verus! {

/// The sizes a footer layout starts from: the canvas, the footer's top
/// edge, the margins and spacings, and the four texts.
pub struct FooterInput {
    pub width: u32,
    pub height: u32,
    pub footer_y: i64,
    pub left_margin: i64,
    pub right_margin: i64,
    pub bottom_margin: i64,
    pub left_logo_width: i64,
    pub common_spacing: i64,
    pub middle_spacing: i64,
    pub delimiter_width: i64,
    /// Width and height of the top-left, bottom-left, top-right and
    /// bottom-right texts.
    pub parts: [(u32, u32); 4],
    /// Whether the right texts share their left edge.
    pub align_left: bool,
}

/// Where everything goes.
pub struct FooterLayout {
    /// The height of the taller text column, spacing included.
    pub elem_height: i64,
    /// The space above and below the text columns.
    pub elem_margin: i64,
    /// The top-left corners of the four texts, in the order of the input.
    pub positions: [(i64, i64); 4],
    /// The left edge of the delimiter before the right logo.
    pub delimiter_x: i64,
    /// The top-left corner of the right logo.
    pub logo_at: (i64, i64),
}

/// Every signed input lies within 2^40 in magnitude.
pub open spec fn footer_in_range(f: FooterInput) -> bool {
    let b = 0x100_0000_0000i64;
    &&& -b <= f.footer_y <= b
    &&& -b <= f.left_margin <= b
    &&& -b <= f.right_margin <= b
    &&& -b <= f.bottom_margin <= b
    &&& -b <= f.left_logo_width <= b
    &&& -b <= f.common_spacing <= b
    &&& -b <= f.middle_spacing <= b
    &&& -b <= f.delimiter_width <= b
    &&& f.parts[0].1 + f.parts[1].1 <= u32::MAX
    &&& f.parts[2].1 + f.parts[3].1 <= u32::MAX
}

/// Rust's `/`: the quotient rounded toward zero.
pub open spec fn quot(a: int, b: int) -> int {
    if a >= 0 {
        a / b
    } else {
        -((-a) / b)
    }
}

/// The footer layout: the left texts stacked from the left margin (after
/// the left logo and a spacing), the right texts stacked against the right
/// margin, both columns centred vertically in the bottom margin with the
/// middle spacing between top and bottom text; with `align_left`, the
/// right texts start at the further left of their two positions. The
/// delimiter stands a spacing before the wider right text, and the logo a
/// spacing before the delimiter.
pub open spec fn spec_footer(f: FooterInput) -> FooterLayout {
    let (ltw, lth) = f.parts[0];
    let (lbw, lbh) = f.parts[1];
    let (rtw, rth) = f.parts[2];
    let (rbw, rbh) = f.parts[3];
    let left_sum = lth + lbh;
    let right_sum = rth + rbh;
    let elem_height = (if left_sum >= right_sum { left_sum } else { right_sum }) + f.middle_spacing;
    let elem_margin = quot(f.bottom_margin - elem_height, 2);
    let left_x = f.left_margin + f.left_logo_width + f.common_spacing;
    let right_end = f.width - f.right_margin;
    let lt_y = f.height - (elem_margin + lbh + f.middle_spacing + lth);
    let lb_y = f.height - (elem_margin + lbh);
    let rt_y = lt_y + lth - rth;
    let rb_y = lb_y + lbh - rbh;
    let rt_x0 = right_end - rtw - f.common_spacing;
    let rb_x0 = right_end - rbw - f.common_spacing;
    let low = if rt_x0 <= rb_x0 { rt_x0 } else { rb_x0 };
    let rt_x = if f.align_left { low } else { rt_x0 };
    let rb_x = if f.align_left { low } else { rb_x0 };
    let widest = if rtw >= rbw { rtw } else { rbw };
    let delimiter_x = f.width - f.right_margin - widest - f.common_spacing * 2 - f.delimiter_width;
    FooterLayout {
        elem_height: elem_height as i64,
        elem_margin: elem_margin as i64,
        positions: [
            (left_x as i64, lt_y as i64),
            (left_x as i64, lb_y as i64),
            (rt_x as i64, rt_y as i64),
            (rb_x as i64, rb_y as i64),
        ],
        delimiter_x: delimiter_x as i64,
        logo_at: ((delimiter_x - f.common_spacing - elem_height) as i64, (f.footer_y + elem_margin) as i64),
    }
}

/// The footer layout: see `spec_footer`. Every value stays within `i64`
/// for inputs in range.
pub fn footer_layout(f: &FooterInput) -> (r: FooterLayout)
    requires
        footer_in_range(*f),
    ensures
        r == spec_footer(*f),
{
    let (ltw, lth) = f.parts[0];
    let (lbw, lbh) = f.parts[1];
    let (rtw, rth) = f.parts[2];
    let (rbw, rbh) = f.parts[3];
    let left_sum = lth + lbh;
    let right_sum = rth + rbh;
    let elem_height: i64 = (if left_sum >= right_sum { left_sum } else { right_sum }) as i64 + f.middle_spacing;
    let elem_margin: i64 = (f.bottom_margin - elem_height) / 2;
    let left_x: i64 = f.left_margin + f.left_logo_width + f.common_spacing;
    let right_end: i64 = f.width as i64 - f.right_margin;
    let lt_y: i64 = f.height as i64 - (elem_margin + lbh as i64 + f.middle_spacing + lth as i64);
    let lb_y: i64 = f.height as i64 - (elem_margin + lbh as i64);
    let rt_y: i64 = lt_y + lth as i64 - rth as i64;
    let rb_y: i64 = lb_y + lbh as i64 - rbh as i64;
    let mut rt_x: i64 = right_end - rtw as i64 - f.common_spacing;
    let mut rb_x: i64 = right_end - rbw as i64 - f.common_spacing;
    if f.align_left {
        let low = if rt_x <= rb_x { rt_x } else { rb_x };
        rt_x = low;
        rb_x = low;
    }
    let widest = if rtw >= rbw { rtw } else { rbw };
    let delimiter_x: i64 = f.width as i64 - f.right_margin - widest as i64 - f.common_spacing * 2
        - f.delimiter_width;
    let r = FooterLayout {
        elem_height,
        elem_margin,
        positions: [(left_x, lt_y), (left_x, lb_y), (rt_x, rt_y), (rb_x, rb_y)],
        delimiter_x,
        logo_at: (delimiter_x - f.common_spacing - elem_height, f.footer_y + elem_margin),
    };
    proof {
        assert(r.positions =~= spec_footer(*f).positions);
    }
    r
}

/// The footer's geometry: the bottom-left text ends `elem_margin` above the
/// canvas bottom and the top-left text `middle_spacing` above it; each right
/// text ends on the line its left partner ends on; the left texts start a
/// spacing after the left logo; without `align_left` each right text ends a
/// spacing before the right margin, with it both start where the further
/// left of them would; the delimiter ends two spacings before the wider
/// right text, and the logo, as wide as the columns are high, ends a
/// spacing before the delimiter.
pub proof fn law_footer_geometry(f: FooterInput)
    requires
        footer_in_range(f),
    ensures
        ({
            let l = spec_footer(f);
            let (ltw, lth) = f.parts[0];
            let (lbw, lbh) = f.parts[1];
            let (rtw, rth) = f.parts[2];
            let (rbw, rbh) = f.parts[3];
            let right_end = f.width - f.right_margin - f.common_spacing;
            &&& l.positions[1].1 + lbh == f.height - l.elem_margin
            &&& l.positions[0].1 + lth + f.middle_spacing == l.positions[1].1
            &&& l.positions[2].1 + rth == l.positions[0].1 + lth
            &&& l.positions[3].1 + rbh == l.positions[1].1 + lbh
            &&& l.positions[0].0 == l.positions[1].0 == f.left_margin + f.left_logo_width + f.common_spacing
            &&& !f.align_left ==> l.positions[2].0 + rtw == right_end && l.positions[3].0 + rbw == right_end
            &&& f.align_left ==> l.positions[2].0 == l.positions[3].0 && (l.positions[2].0 + rtw == right_end
                || l.positions[3].0 + rbw == right_end) && l.positions[2].0 + rtw <= right_end
                && l.positions[3].0 + rbw <= right_end
            &&& l.elem_height == (if lth + lbh >= rth + rbh { lth + lbh } else { rth + rbh }) + f.middle_spacing
            &&& l.delimiter_x + f.delimiter_width + 2 * f.common_spacing + (if rtw >= rbw { rtw } else { rbw })
                == f.width - f.right_margin
            &&& l.logo_at.0 + l.elem_height + f.common_spacing == l.delimiter_x
            &&& l.logo_at.1 == f.footer_y + l.elem_margin
        }),
{
}

} // verus!
