//! Layout: the position and size of every element.
//!
//! Each element is a box in four layers, from the inside out: content,
//! padding, border and margin. `display` chooses how children are placed
//! (stacked in a block, or in one flex line, or not at all), and `position`
//! takes a box out of the normal flow (absolute, fixed) or moves it after
//! placing it (relative). Boxes placed out of the flow, and flex items, are
//! first laid out near the origin and then moved whole, children included.
//!
//! All lengths are in units of 1/64 pixel, clamped to `-bound()..=bound()`.

use vstd::prelude::*;

use crate::css::{RuleV, Stylesheet};
use crate::dom::{lemma_node_view, nodes_v, Node, NodeV};
use crate::fixed::{add_len, bound, bounded, clamp, max, max_len, min, min_len, mul_len, sub_len};
use crate::font::{dot_size, BitmapFont};
use crate::paint::Rect;
use crate::style::{
    compute_style, default_style, lemma_style_bounded, opt_bounded, spec_compute_style,
    style_bounded, AlignItems, ComputedStyle, Display, FlexDirection, Justify,
    Position,
};
use crate::text::{block_ok, count_times, layout_text, spec_layout_text, TextBlock, TextBlockV};
use crate::chars::to_chars;

verus! {

/// A laid-out box.
#[derive(Debug)]
pub struct LayoutBox {
    pub style: ComputedStyle,
    /// The style the element takes under the pointer, when laid out for hovering.
    pub hover_style: Option<ComputedStyle>,
    /// The rectangle inside the margin: where the border and background go.
    pub border_box: Rect,
    /// The element's text, wrapped and aligned, if it has any.
    pub text: Option<TextBlock>,
    pub children: Vec<LayoutBox>,
}

/// The mathematical value of a `LayoutBox`.
pub struct BoxV {
    pub style: ComputedStyle,
    pub hover_style: Option<ComputedStyle>,
    pub border_box: Rect,
    pub text: Option<TextBlockV>,
    pub children: Seq<BoxV>,
}

/// A box of no size at the origin.
pub open spec fn blank_box() -> BoxV {
    BoxV {
        style: default_style(),
        hover_style: None,
        border_box: Rect { x: 0, y: 0, width: 0, height: 0 },
        text: None,
        children: Seq::empty(),
    }
}

/// The value of an optional text block.
pub open spec fn text_v(t: Option<TextBlock>) -> Option<TextBlockV> {
    match t {
        Some(b) => Some(b@),
        None => None,
    }
}

/// The value of a box with the values of all its descendants.
pub open spec fn box_v(b: LayoutBox) -> BoxV
    decreases b,
{
    BoxV {
        style: b.style,
        hover_style: b.hover_style,
        border_box: b.border_box,
        text: text_v(b.text),
        children: Seq::new(
            b.children@.len(),
            |i: int|
                if 0 <= i < b.children@.len() {
                    box_v(b.children@[i])
                } else {
                    blank_box()
                },
        ),
    }
}

impl View for LayoutBox {
    type V = BoxV;

    open spec fn view(&self) -> BoxV {
        box_v(*self)
    }
}

/// The values of a sequence of boxes.
pub open spec fn boxes_v(v: Seq<LayoutBox>) -> Seq<BoxV> {
    v.map_values(|b: LayoutBox| b@)
}

/// The value of a box is made of the values of its parts.
pub proof fn lemma_box_view(b: LayoutBox)
    ensures
        b@ == (BoxV {
            style: b.style,
            hover_style: b.hover_style,
            border_box: b.border_box,
            text: text_v(b.text),
            children: boxes_v(b.children@),
        }),
{
    assert(b@.children =~= boxes_v(b.children@));
}

// ---------------------------------------------------------------------------
// Bounds.
// ---------------------------------------------------------------------------

/// Whether a rectangle lies within the bound.
pub open spec fn rect_ok(r: Rect) -> bool {
    bounded(r.x as int) && bounded(r.y as int) && bounded(r.width as int) && bounded(r.height as int)
}

/// Whether every length in a box and its descendants lies within the bound.
pub open spec fn box_ok(b: BoxV) -> bool
    decreases b,
{
    &&& style_bounded(b.style)
    &&& match b.hover_style {
        Some(h) => style_bounded(h),
        None => true,
    }
    &&& rect_ok(b.border_box)
    &&& match b.text {
        Some(t) => block_ok(t),
        None => true,
    }
    &&& forall|i: int| 0 <= i < b.children.len() ==> box_ok(#[trigger] b.children[i])
}

// ---------------------------------------------------------------------------
// The layout, as mathematics.
// ---------------------------------------------------------------------------

/// The style of an element under a parent style.
pub open spec fn sty(n: NodeV, rules: Seq<RuleV>, parent: ComputedStyle) -> ComputedStyle {
    spec_compute_style(n, rules, parent, false)
}

/// Whether a position takes the box out of the normal flow.
pub open spec fn out_of_flow(p: Position) -> bool {
    p == Position::Absolute || p == Position::Fixed
}

/// Whether a child with this style is placed in the normal flow.
pub open spec fn in_flow(s: ComputedStyle) -> bool {
    s.display != Display::Hidden && !out_of_flow(s.position)
}

/// Whether a child with this style is placed out of the flow.
pub open spec fn out_flow(s: ComputedStyle) -> bool {
    s.display != Display::Hidden && out_of_flow(s.position)
}

/// Twice a length, clamped.
pub open spec fn dbl(x: int) -> int {
    clamp(x * 2)
}

/// The width a box takes across, margins included.
pub open spec fn outer_w(b: BoxV) -> int {
    clamp(b.border_box.width + dbl(b.style.margin as int))
}

/// The height a box takes down, margins included.
pub open spec fn outer_h(b: BoxV) -> int {
    clamp(b.border_box.height + dbl(b.style.margin as int))
}

/// A box and its descendants moved by `(dx, dy)`.
pub open spec fn moved(b: BoxV, dx: int, dy: int) -> BoxV
    decreases b,
{
    BoxV {
        border_box: Rect {
            x: clamp(b.border_box.x + dx) as i64,
            y: clamp(b.border_box.y + dy) as i64,
            ..b.border_box
        },
        children: Seq::new(
            b.children.len(),
            |i: int|
                if 0 <= i < b.children.len() {
                    moved(b.children[i], dx, dy)
                } else {
                    blank_box()
                },
        ),
        ..b
    }
}

/// The width of a text on one line: every character advances by six dots.
pub open spec fn text_width(t: Seq<char>, font_size: int) -> int {
    clamp(t.len() * (6 * dot_size(font_size) * 64))
}

/// The widths of the shown children among the first `i` of `p`: their sum,
/// their count and their largest (at least 0).
pub open spec fn iw_kids(p: NodeV, rules: Seq<RuleV>, s: ComputedStyle, i: int) -> (int, int, int)
    decreases p, 0int, i,
{
    if i <= 0 || i > p.children.len() {
        (0, 0, 0)
    } else {
        let (sum, count, mx) = iw_kids(p, rules, s, i - 1);
        let c = p.children[i - 1];
        if sty(c, rules, s).display != Display::Hidden {
            let w = iw(c, rules, s);
            (clamp(sum + w), count + 1, max(mx, w))
        } else {
            (sum, count, mx)
        }
    }
}

/// The natural width of an element, laid out without wrapping, margins
/// included: its set width, or its text on one line, or its children side
/// by side (a flex row, with gaps) or the widest of them.
pub open spec fn iw(n: NodeV, rules: Seq<RuleV>, parent: ComputedStyle) -> int
    decreases n, 1int, 0int,
{
    let s = sty(n, rules, parent);
    let ex = dbl(clamp(clamp(s.margin + s.border_width) + s.padding));
    let content = match s.width {
        Some(w) => w as int,
        None => match n.text {
            Some(t) => text_width(t, s.font_size as int),
            None => if n.children.len() == 0 {
                0
            } else {
                let (sum, count, mx) = iw_kids(n, rules, s, n.children.len() as int);
                if s.display == Display::Flex && s.flex_direction == FlexDirection::Row {
                    clamp(sum + clamp(s.gap * max(count - 1, 0)))
                } else {
                    mx
                }
            },
        },
    };
    clamp(content + ex)
}

/// The in-flow children among the first `i` of `p`, stacked down from `y`:
/// their boxes and the cursor below the last.
pub open spec fn block_kids(
    p: NodeV,
    rules: Seq<RuleV>,
    s: ComputedStyle,
    cx: int,
    cy: int,
    cw: int,
    cb: Rect,
    vp: Rect,
    hv: bool,
    i: int,
) -> (Seq<BoxV>, int)
    decreases p, 0int, i,
{
    if i <= 0 || i > p.children.len() {
        (Seq::empty(), cy)
    } else {
        let (bs, y) = block_kids(p, rules, s, cx, cy, cw, cb, vp, hv, i - 1);
        let c = p.children[i - 1];
        if in_flow(sty(c, rules, s)) {
            match lay_node(c, rules, s, cx, y, cw, cb, vp, hv) {
                Some(b) => (bs.push(b), clamp(y + outer_h(b))),
                None => (bs, y),
            }
        } else {
            (bs, y)
        }
    }
}

/// The out-of-flow children among the first `i` of `p`, appended to `acc`.
pub open spec fn out_kids(
    p: NodeV,
    rules: Seq<RuleV>,
    s: ComputedStyle,
    cx: int,
    cy: int,
    cw: int,
    cb: Rect,
    vp: Rect,
    hv: bool,
    i: int,
) -> Seq<BoxV>
    decreases p, 0int, i,
{
    if i <= 0 || i > p.children.len() {
        Seq::empty()
    } else {
        let bs = out_kids(p, rules, s, cx, cy, cw, cb, vp, hv, i - 1);
        let c = p.children[i - 1];
        if out_flow(sty(c, rules, s)) {
            match lay_node(c, rules, s, cx, cy, cw, cb, vp, hv) {
                Some(b) => bs.push(b),
                None => bs,
            }
        } else {
            bs
        }
    }
}

/// A flex item: which child it is, its grow factor, its natural main size
/// and its first box.
pub struct FlexItem {
    pub idx: int,
    pub grow: int,
    pub base: int,
    pub b: BoxV,
}

/// The width offered to a flex child for its first layout.
pub open spec fn flex_avail(c: NodeV, rules: Seq<RuleV>, s: ComputedStyle, cw: int, row: bool) -> int {
    if row {
        iw(c, rules, s)
    } else if s.align_items == AlignItems::Stretch {
        cw
    } else {
        min(iw(c, rules, s), cw)
    }
}

/// The flex items among the first `i` children of `p`, each laid out at its
/// natural size near the origin.
pub open spec fn flex_items(
    p: NodeV,
    rules: Seq<RuleV>,
    s: ComputedStyle,
    cw: int,
    row: bool,
    cb: Rect,
    vp: Rect,
    hv: bool,
    i: int,
) -> Seq<FlexItem>
    decreases p, 0int, i,
{
    if i <= 0 || i > p.children.len() {
        Seq::empty()
    } else {
        let items = flex_items(p, rules, s, cw, row, cb, vp, hv, i - 1);
        let c = p.children[i - 1];
        let cs = sty(c, rules, s);
        if in_flow(cs) {
            match lay_node(c, rules, s, 0, 0, flex_avail(c, rules, s, cw, row), cb, vp, hv) {
                Some(b) => items.push(
                    FlexItem {
                        idx: i - 1,
                        grow: cs.flex_grow as int,
                        base: if row {
                            outer_w(b)
                        } else {
                            outer_h(b)
                        },
                        b,
                    },
                ),
                None => items,
            }
        } else {
            items
        }
    }
}

/// The sum of the first `k` natural sizes.
pub open spec fn sum_base(items: Seq<FlexItem>, k: int) -> int
    decreases k,
{
    if k <= 0 {
        0
    } else {
        clamp(sum_base(items, k - 1) + items[k - 1].base)
    }
}

/// The sum of the first `k` grow factors.
pub open spec fn sum_grow(items: Seq<FlexItem>, k: int) -> int
    decreases k,
{
    if k <= 0 {
        0
    } else {
        clamp(sum_grow(items, k - 1) + items[k - 1].grow)
    }
}

/// The sum of the first `k` natural sizes of items that do not grow.
pub open spec fn sum_fixed(items: Seq<FlexItem>, k: int) -> int
    decreases k,
{
    if k <= 0 {
        0
    } else if items[k - 1].grow <= 0 {
        clamp(sum_fixed(items, k - 1) + items[k - 1].base)
    } else {
        sum_fixed(items, k - 1)
    }
}

/// The sum of the first `k` values.
pub open spec fn sum_seq(v: Seq<int>, k: int) -> int
    decreases k,
{
    if k <= 0 {
        0
    } else {
        clamp(sum_seq(v, k - 1) + v[k - 1])
    }
}

/// The box with a new border-box height.
pub open spec fn with_height(b: BoxV, h: int) -> BoxV {
    BoxV { border_box: Rect { height: h as i64, ..b.border_box }, ..b }
}

/// The box with a new border-box width.
pub open spec fn with_width(b: BoxV, w: int) -> BoxV {
    BoxV { border_box: Rect { width: w as i64, ..b.border_box }, ..b }
}

/// The first `k` flex items brought to their final main sizes: a row item
/// whose size changed is laid out again at that width; a column item's
/// height is set.
pub open spec fn flex_resized(
    p: NodeV,
    rules: Seq<RuleV>,
    s: ComputedStyle,
    items: Seq<FlexItem>,
    finals: Seq<int>,
    row: bool,
    cb: Rect,
    vp: Rect,
    hv: bool,
    k: int,
) -> Seq<BoxV>
    decreases p, 0int, k,
{
    if k <= 0 || k > items.len() {
        Seq::empty()
    } else {
        let prev = flex_resized(p, rules, s, items, finals, row, cb, vp, hv, k - 1);
        let it = items[k - 1];
        let fm = finals[k - 1];
        let b = if fm != it.base {
            if row {
                if 0 <= it.idx < p.children.len() {
                    match lay_node(p.children[it.idx], rules, s, 0, 0, fm, cb, vp, hv) {
                        Some(nb) => nb,
                        None => it.b,
                    }
                } else {
                    it.b
                }
            } else {
                with_height(it.b, max(clamp(fm - dbl(it.b.style.margin as int)), 0))
            }
        } else {
            it.b
        };
        prev.push(b)
    }
}

/// Where the first item starts and the space between items, for the free
/// space along the main axis.
pub open spec fn justify_offsets(j: Justify, free: int, n: int, gap: int) -> (int, int) {
    match j {
        Justify::Start => (0, gap),
        Justify::Center => (free / 2, gap),
        Justify::End => (free, gap),
        Justify::SpaceBetween => (0, clamp(gap + if n > 1 {
            free / (n - 1)
        } else {
            0
        })),
        Justify::SpaceAround => ((free / n) / 2, clamp(gap + free / n)),
    }
}

/// Where an item sits across the line.
pub open spec fn cross_offset(a: AlignItems, container: int, item: int) -> int {
    match a {
        AlignItems::Start | AlignItems::Stretch => 0,
        AlignItems::Center => clamp(container - item) / 2,
        AlignItems::End => clamp(container - item),
    }
}

/// A box stretched across the line.
pub open spec fn stretched(b: BoxV, row: bool, cc: int) -> BoxV {
    let v = max(clamp(cc - dbl(b.style.margin as int)), 0);
    if row {
        with_height(b, v)
    } else {
        with_width(b, v)
    }
}

/// The first `k` items moved to their places along and across the line, and
/// the cursor after them.
pub open spec fn flex_placed(
    bs: Seq<BoxV>,
    finals: Seq<int>,
    start: int,
    between: int,
    row: bool,
    a: AlignItems,
    cc: int,
    cx: int,
    cy: int,
    k: int,
) -> (Seq<BoxV>, int)
    decreases k,
{
    if k <= 0 {
        (Seq::empty(), start)
    } else {
        let (prev, cur) = flex_placed(bs, finals, start, between, row, a, cc, cx, cy, k - 1);
        let b = bs[k - 1];
        let ic = if row {
            outer_h(b)
        } else {
            outer_w(b)
        };
        let co = cross_offset(a, cc, ic);
        let mx = if row {
            clamp(cx + cur)
        } else {
            clamp(cx + co)
        };
        let my = if row {
            clamp(cy + co)
        } else {
            clamp(cy + cur)
        };
        let cmx = clamp(b.border_box.x - b.style.margin);
        let cmy = clamp(b.border_box.y - b.style.margin);
        (
            prev.push(moved(b, clamp(mx - cmx), clamp(my - cmy))),
            clamp(clamp(cur + finals[k - 1]) + between),
        )
    }
}

/// The largest outer height among the first `k` boxes (at least 0).
pub open spec fn max_outer_h(bs: Seq<BoxV>, k: int) -> int
    decreases k,
{
    if k <= 0 {
        0
    } else {
        max(max_outer_h(bs, k - 1), outer_h(bs[k - 1]))
    }
}

/// The main sizes of the items once the free space is shared: an item that
/// grows takes its share of the free space, the others keep their natural
/// size.
pub open spec fn flex_finals(items: Seq<FlexItem>, bounded_main: bool, free: int, total_grow: int) -> Seq<int> {
    Seq::new(
        items.len(),
        |i: int|
            if bounded_main && total_grow > 0 && items[i].grow > 0 {
                clamp(free * items[i].grow / total_grow)
            } else {
                items[i].base
            },
    )
}

/// The flex children of `p` laid out in one line from `(cx, cy)`: their
/// boxes and the height of the content.
pub open spec fn lay_flex(
    p: NodeV,
    rules: Seq<RuleV>,
    s: ComputedStyle,
    cx: int,
    cy: int,
    cw: int,
    cb: Rect,
    vp: Rect,
    hv: bool,
) -> (Seq<BoxV>, int)
    decreases p, 1int, 0int,
{
    let row = s.flex_direction == FlexDirection::Row;
    let gap = s.gap as int;
    let items = flex_items(p, rules, s, cw, row, cb, vp, hv, p.children.len() as int);
    let n = items.len() as int;
    if n == 0 {
        (
            Seq::empty(),
            match s.height {
                Some(h) => h as int,
                None => 0,
            },
        )
    } else {
        let total_base = sum_base(items, n);
        let total_gap = clamp(gap * (n - 1));
        let bounded_main = row || s.height is Some;
        let main = if row {
            cw
        } else {
            match s.height {
                Some(h) => h as int,
                None => clamp(total_base + total_gap),
            }
        };
        let total_grow = sum_grow(items, n);
        let free = max(clamp(clamp(main - sum_fixed(items, n)) - total_gap), 0);
        let finals = flex_finals(items, bounded_main, free, total_grow);
        let bs1 = flex_resized(p, rules, s, items, finals, row, cb, vp, hv, n);
        let cc = if row {
            match s.height {
                Some(h) => h as int,
                None => max_outer_h(bs1, n),
            }
        } else {
            cw
        };
        let bs2 = if s.align_items == AlignItems::Stretch {
            Seq::new(n as nat, |i: int| stretched(bs1[i], row, cc))
        } else {
            bs1
        };
        let used = clamp(sum_seq(finals, n) + total_gap);
        let free_main = max(clamp(main - used), 0);
        let (start, between) = justify_offsets(s.justify_content, free_main, n, gap);
        let (bs3, _) = flex_placed(bs2, finals, start, between, row, s.align_items, cc, cx, cy, n);
        (
            bs3,
            if row {
                cc
            } else {
                match s.height {
                    Some(h) => h as int,
                    None => used,
                }
            },
        )
    }
}

/// The rectangle that out-of-flow boxes are placed against.
pub open spec fn base_rect(pos: Position, ox: int, oy: int, avail: int, cb: Rect, vp: Rect) -> Rect {
    match pos {
        Position::Fixed => vp,
        Position::Absolute => cb,
        _ => Rect { x: ox as i64, y: oy as i64, width: avail as i64, height: vp.height },
    }
}

/// The width of the content area.
pub open spec fn content_width(n: NodeV, rules: Seq<RuleV>, parent: ComputedStyle, s: ComputedStyle, base: Rect, avail: int) -> int {
    let inner = dbl(clamp(s.border_width + s.padding));
    let two_edge = dbl(clamp(clamp(s.margin + s.border_width) + s.padding));
    match s.width {
        Some(w) => w as int,
        None => if out_of_flow(s.position) {
            match (s.left, s.right) {
                (Some(l), Some(r)) => max(clamp(clamp(clamp(base.width - l) - r) - inner), 0),
                _ => min(
                    max(clamp(iw(n, rules, parent) - two_edge), 0),
                    max(clamp(base.width - two_edge), 0),
                ),
            }
        } else {
            max(clamp(avail - two_edge), 0)
        },
    }
}

/// How far a box out of the flow moves from the corner of its base: by its
/// `left` (else against `right`), and by its `top` (else against `bottom`).
pub open spec fn offset_of(first: Option<i64>, second: Option<i64>, size: int, outer: int) -> int {
    match (first, second) {
        (Some(a), _) => a as int,
        (None, Some(b)) => clamp(clamp(size - outer) - b),
        (None, None) => 0,
    }
}

/// How far a relative box moves: by `left` (else minus `right`).
pub open spec fn shift_of(first: Option<i64>, second: Option<i64>) -> int {
    match (first, second) {
        (Some(a), _) => a as int,
        (None, Some(b)) => -b,
        (None, None) => 0,
    }
}

/// The layout of an element whose margin box starts at `(ox, oy)` in the
/// flow with `avail` across, `cb` the content area of the nearest positioned
/// ancestor and `vp` the viewport; nothing for `display: none`.
pub open spec fn lay_node(
    n: NodeV,
    rules: Seq<RuleV>,
    parent: ComputedStyle,
    ox: int,
    oy: int,
    avail: int,
    cb: Rect,
    vp: Rect,
    hv: bool,
) -> Option<BoxV>
    decreases n, 2int, 0int,
{
    let s = sty(n, rules, parent);
    if s.display == Display::Hidden {
        None
    } else {
        let oof = out_of_flow(s.position);
        let ecb = s.position != Position::Static;
        let base = base_rect(s.position, ox, oy, avail, cb, vp);
        let m = s.margin as int;
        let bd = s.border_width as int;
        let pd = s.padding as int;
        let inner = dbl(clamp(bd + pd));
        let cw = content_width(n, rules, parent, s, base, avail);
        let ex = if oof {
            base.x as int
        } else {
            ox
        };
        let ey = if oof {
            base.y as int
        } else {
            oy
        };
        let bx = clamp(ex + m);
        let by = clamp(ey + m);
        let cx = clamp(clamp(bx + bd) + pd);
        let cy = clamp(clamp(by + bd) + pd);
        let bbw = clamp(cw + inner);
        let cbc = if ecb {
            Rect {
                x: cx as i64,
                y: cy as i64,
                width: cw as i64,
                height: match s.height {
                    Some(h) => h,
                    None => 0,
                },
            }
        } else {
            cb
        };
        let text = match n.text {
            Some(t) => Some(spec_layout_text(t, s.font_size as int, cw, s.text_align)),
            None => None,
        };
        let (kids, kh) = if s.display == Display::Flex {
            lay_flex(n, rules, s, cx, cy, cw, cbc, vp, hv)
        } else {
            let (bs, y) = block_kids(n, rules, s, cx, cy, cw, cbc, vp, hv, n.children.len() as int);
            (bs, clamp(y - cy))
        };
        let ih = match text {
            Some(tb) => tb.height as int,
            None => kh,
        };
        let ch = match s.height {
            Some(h) => h as int,
            None => ih,
        };
        let bbh = clamp(ch + inner);
        let cbf = if ecb {
            Rect { x: cx as i64, y: cy as i64, width: cw as i64, height: ch as i64 }
        } else {
            cb
        };
        let outs = out_kids(n, rules, s, cx, cy, cw, cbf, vp, hv, n.children.len() as int);
        let b = BoxV {
            style: s,
            hover_style: if hv {
                Some(spec_compute_style(n, rules, parent, true))
            } else {
                None
            },
            border_box: Rect { x: bx as i64, y: by as i64, width: bbw as i64, height: bbh as i64 },
            text,
            children: kids + outs,
        };
        if oof {
            let ow = clamp(bbw + dbl(m));
            let oh = clamp(bbh + dbl(m));
            Some(
                moved(
                    b,
                    offset_of(s.left, s.right, base.width as int, ow),
                    offset_of(s.top, s.bottom, base.height as int, oh),
                ),
            )
        } else if s.position == Position::Relative {
            Some(moved(b, shift_of(s.left, s.right), shift_of(s.top, s.bottom)))
        } else {
            Some(b)
        }
    }
}

/// The layout of a document in a viewport of `vw` by `vh` (units): the root
/// laid out at the origin with the whole width, under the default style; an
/// empty box when the root is not shown.
pub open spec fn spec_layout_tree(root: NodeV, rules: Seq<RuleV>, vw: int, vh: int, hv: bool) -> BoxV {
    let vp = Rect { x: 0, y: 0, width: vw as i64, height: vh as i64 };
    match lay_node(root, rules, default_style(), 0, 0, vw, vp, vp, hv) {
        Some(b) => b,
        None => blank_box(),
    }
}

// ---------------------------------------------------------------------------
// Lemmas.
// ---------------------------------------------------------------------------

/// Moving keeps every length within the bound.
pub proof fn lemma_moved_ok(b: BoxV, dx: int, dy: int)
    requires
        box_ok(b),
    ensures
        box_ok(moved(b, dx, dy)),
    decreases b,
{
    let m = moved(b, dx, dy);
    assert forall|i: int| 0 <= i < m.children.len() implies box_ok(#[trigger] m.children[i]) by {
        lemma_moved_ok(b.children[i], dx, dy);
    }
}

/// The value of an optional box.
pub open spec fn opt_box_v(o: Option<LayoutBox>) -> Option<BoxV> {
    match o {
        Some(b) => Some(b@),
        None => None,
    }
}

/// Whether every box of a sequence keeps its lengths within the bound.
pub open spec fn all_ok(bs: Seq<BoxV>) -> bool {
    forall|i: int| 0 <= i < bs.len() ==> box_ok(#[trigger] bs[i])
}

// ---------------------------------------------------------------------------
// Laws of layout.
// ---------------------------------------------------------------------------

/// An element has a box exactly when it is shown (`display` is not `none`).
pub proof fn law_hidden_has_no_box(
    n: NodeV,
    rules: Seq<RuleV>,
    parent: ComputedStyle,
    ox: int,
    oy: int,
    avail: int,
    cb: Rect,
    vp: Rect,
    hv: bool,
)
    ensures
        lay_node(n, rules, parent, ox, oy, avail, cb, vp, hv) is None <==> sty(n, rules, parent).display
            == Display::Hidden,
{
}

/// A block in the normal flow without a set width fills the width it is
/// offered: its border box starts a margin in from its margin box, and its
/// content is what is left of `avail` after margin, border and padding on
/// both sides (never less than nothing), with border and padding around it.
/// Stated wherever these sums lie within the bound of `2^40` units that all
/// lengths are held to (see `fixed`); beyond it they are taken at the bound.
pub proof fn law_block_fills_width(
    n: NodeV,
    rules: Seq<RuleV>,
    parent: ComputedStyle,
    ox: int,
    oy: int,
    avail: int,
    cb: Rect,
    vp: Rect,
    hv: bool,
)
    requires
        sty(n, rules, parent).display != Display::Hidden,
        sty(n, rules, parent).position == Position::Static,
        sty(n, rules, parent).width is None,
        ({
            let s = sty(n, rules, parent);
            let m = s.margin as int;
            let bd = s.border_width as int;
            let pd = s.padding as int;
            &&& bounded(ox + m)
            &&& bounded(oy + m)
            &&& bounded(m + bd)
            &&& bounded(2 * (bd + pd))
            &&& bounded(2 * (m + bd + pd))
            &&& bounded(avail - 2 * (m + bd + pd))
            &&& bounded(max(avail - 2 * (m + bd + pd), 0) + 2 * (bd + pd))
        }),
    ensures
        ({
            let s = sty(n, rules, parent);
            let m = s.margin as int;
            let bd = s.border_width as int;
            let pd = s.padding as int;
            lay_node(n, rules, parent, ox, oy, avail, cb, vp, hv) matches Some(b)
                && b.border_box.x == ox + m
                && b.border_box.y == oy + m
                && b.border_box.width == max(avail - 2 * (m + bd + pd), 0) + 2 * (bd + pd)
        }),
{
}

/// Where the `k`-th item of a flex line starts along it: `start`, then each
/// earlier item's size and the space between items.
pub open spec fn flex_cursor(finals: Seq<int>, start: int, between: int, k: int) -> int
    decreases k,
{
    if k <= 0 {
        start
    } else {
        flex_cursor(finals, start, between, k - 1) + finals[k - 1] + between
    }
}

/// With sizes and spacing that are not negative, the cursor only moves on.
proof fn lemma_flex_cursor_grows(finals: Seq<int>, start: int, between: int, i: int, j: int)
    requires
        0 <= i < j <= finals.len(),
        0 <= between,
        forall|q: int| 0 <= q < finals.len() ==> 0 <= #[trigger] finals[q],
    ensures
        flex_cursor(finals, start, between, i) + finals[i] <= flex_cursor(finals, start, between, j),
    decreases j - i,
{
    if j > i + 1 {
        lemma_flex_cursor_grows(finals, start, between, i, j - 1);
    }
}

/// Flex items in a row are placed left to right: the margin box of item `i`
/// starts at `cx` plus the sizes of the items before it and the spaces
/// between them, so no item overlaps the next along the line. Stated
/// wherever these positions lie within the bound of `2^40` units that all
/// lengths are held to (see `fixed`); beyond it they are taken at the bound.
#[verifier::spinoff_prover]
#[verifier::rlimit(50)]
pub proof fn law_flex_row_left_to_right(
    bs: Seq<BoxV>,
    finals: Seq<int>,
    start: int,
    between: int,
    a: AlignItems,
    cc: int,
    cx: int,
    cy: int,
    k: int,
)
    requires
        0 <= k <= bs.len(),
        k <= finals.len(),
        0 <= start,
        0 <= between,
        forall|q: int| 0 <= q < finals.len() ==> 0 <= #[trigger] finals[q],
        flex_cursor(finals, start, between, k) <= bound(),
        bounded(cx + start),
        bounded(cx + flex_cursor(finals, start, between, k)),
        forall|q: int|
            0 <= q < k ==> {
                let c = (#[trigger] bs[q]).border_box.x - bs[q].style.margin;
                &&& bounded(c)
                &&& bounded(cx + flex_cursor(finals, start, between, q) - c)
                &&& bounded(cx + flex_cursor(finals, start, between, q) + bs[q].style.margin)
            },
    ensures
        flex_placed(bs, finals, start, between, true, a, cc, cx, cy, k).0.len() == k,
        flex_placed(bs, finals, start, between, true, a, cc, cx, cy, k).1 == flex_cursor(finals, start, between, k),
        forall|i: int|
            0 <= i < k ==> (#[trigger] flex_placed(bs, finals, start, between, true, a, cc, cx, cy, k).0[i]).border_box.x
                - flex_placed(bs, finals, start, between, true, a, cc, cx, cy, k).0[i].style.margin == cx
                + flex_cursor(finals, start, between, i),
        forall|i: int, j: int|
            0 <= i < j < k ==> flex_cursor(finals, start, between, i) + finals[i] <= flex_cursor(
                finals,
                start,
                between,
                j,
            ),
    decreases k,
{
    if k > 0 {
        lemma_flex_cursor_grows(finals, start, between, k - 1, k);
        if k > 1 {
            lemma_flex_cursor_grows(finals, start, between, 0, k - 1);
        }
        assert(start <= flex_cursor(finals, start, between, k - 1) <= flex_cursor(finals, start, between, k));
        law_flex_row_left_to_right(bs, finals, start, between, a, cc, cx, cy, k - 1);
        assert forall|i: int, j: int| 0 <= i < j < k implies flex_cursor(finals, start, between, i) + finals[i]
            <= flex_cursor(finals, start, between, j) by {
            lemma_flex_cursor_grows(finals, start, between, i, j);
        }
        let (prev, cur) = flex_placed(bs, finals, start, between, true, a, cc, cx, cy, k - 1);
        if k > 1 {
            lemma_flex_cursor_grows(finals, start, between, 0, k - 1);
        }
        assert(0 <= start <= cur <= bound());
        let b = bs[k - 1];
        let co = cross_offset(a, cc, outer_h(b));
        let mx = clamp(cx + cur);
        assert(mx == cx + cur);
        let cmx = clamp(b.border_box.x - b.style.margin);
        assert(cmx == b.border_box.x - b.style.margin);
        let my = clamp(cy + co);
        let cmy = clamp(b.border_box.y - b.style.margin);
        let nb = moved(b, clamp(mx - cmx), clamp(my - cmy));
        assert(clamp(mx - cmx) == mx - cmx);
        assert(nb.border_box.x == mx + b.style.margin);
        assert(nb.style == b.style);
        let r = flex_placed(bs, finals, start, between, true, a, cc, cx, cy, k).0;
        assert(r == prev.push(nb));
        assert forall|i: int| 0 <= i < k implies (#[trigger] r[i]).border_box.x - r[i].style.margin == cx
            + flex_cursor(finals, start, between, i) by {
            if i < k - 1 {
                assert(r[i] == prev[i]);
            }
        }
    }
}

/// The sum of the first `k` values, not clamped.
pub open spec fn total(v: Seq<int>, k: int) -> int
    decreases k,
{
    if k <= 0 {
        0
    } else {
        total(v, k - 1) + v[k - 1]
    }
}

/// The cursor before item `k` is the start, the sizes of the items before
/// it, and `k` spaces.
proof fn lemma_flex_cursor_closed(finals: Seq<int>, start: int, between: int, k: int)
    requires
        k >= 0,
    ensures
        flex_cursor(finals, start, between, k) == start + total(finals, k) + k * between,
    decreases k,
{
    if k > 0 {
        lemma_flex_cursor_closed(finals, start, between, k - 1);
        assert((k - 1) * between + between == k * between) by (nonlinear_arith);
    } else {
        assert(k * between == 0) by (nonlinear_arith)
            requires
                k == 0,
        ;
    }
}

/// Where `justify-content` puts the items of a row of `n` items with main
/// size `main`, where `free` is what the items and the `gap`s between them
/// leave of it: with `flex-start` the first item's margin box starts at `cx`
/// and the last one's ends `free` before the end; with `flex-end` the first
/// starts `free` after `cx` and the last ends at the end, `cx + main`; with
/// `center` the space left before the first item is half of `free`, rounded
/// down, and the rest is after the last. Items keep `gap` between them.
/// Stated wherever these positions lie within the bound of `2^40` units.
pub proof fn law_justify_row(
    j: Justify,
    bs: Seq<BoxV>,
    finals: Seq<int>,
    free: int,
    gap: int,
    main: int,
    a: AlignItems,
    cc: int,
    cx: int,
    cy: int,
)
    requires
        j == Justify::Start || j == Justify::End || j == Justify::Center,
        bs.len() == finals.len(),
        finals.len() >= 1,
        forall|q: int| 0 <= q < finals.len() ==> 0 <= #[trigger] finals[q],
        0 <= free,
        0 <= gap,
        main == total(finals, finals.len() as int) + (finals.len() - 1) * gap + free,
        ({
            let n = finals.len() as int;
            let (start, between) = justify_offsets(j, free, n, gap);
            &&& flex_cursor(finals, start, between, n) <= bound()
            &&& bounded(cx + start)
            &&& bounded(cx + flex_cursor(finals, start, between, n))
            &&& forall|q: int|
                0 <= q < n ==> {
                    let c = (#[trigger] bs[q]).border_box.x - bs[q].style.margin;
                    &&& bounded(c)
                    &&& bounded(cx + flex_cursor(finals, start, between, q) - c)
                    &&& bounded(cx + flex_cursor(finals, start, between, q) + bs[q].style.margin)
                }
        }),
    ensures
        ({
            let n = finals.len() as int;
            let (start, between) = justify_offsets(j, free, n, gap);
            let placed = flex_placed(bs, finals, start, between, true, a, cc, cx, cy, n).0;
            let first = placed[0].border_box.x - placed[0].style.margin;
            let last_end = placed[n - 1].border_box.x - placed[n - 1].style.margin + finals[n - 1];
            &&& placed.len() == n
            &&& (j == Justify::Start ==> first == cx && last_end == cx + main - free)
            &&& (j == Justify::End ==> first == cx + free && last_end == cx + main)
            &&& (j == Justify::Center ==> first == cx + free / 2 && cx + main - last_end == free - free / 2)
            &&& forall|i: int|
                0 <= i < n - 1 ==> (#[trigger] placed[i + 1]).border_box.x - placed[i + 1].style.margin == placed[i].border_box.x
                    - placed[i].style.margin + finals[i] + gap
        }),
{
    let n = finals.len() as int;
    let (start, between) = justify_offsets(j, free, n, gap);
    assert(between == gap);
    assert(start >= 0);
    law_flex_row_left_to_right(bs, finals, start, between, a, cc, cx, cy, n);
    let placed = flex_placed(bs, finals, start, between, true, a, cc, cx, cy, n).0;
    lemma_flex_cursor_closed(finals, start, between, 0);
    lemma_flex_cursor_closed(finals, start, between, n - 1);
    assert(placed[0].border_box.x - placed[0].style.margin == cx + flex_cursor(finals, start, between, 0));
    assert(placed[n - 1].border_box.x - placed[n - 1].style.margin == cx + flex_cursor(finals, start, between, n - 1));
    assert(total(finals, n) == total(finals, n - 1) + finals[n - 1]);
    assert forall|i: int| 0 <= i < n - 1 implies (#[trigger] placed[i + 1]).border_box.x - placed[i + 1].style.margin
        == placed[i].border_box.x - placed[i].style.margin + finals[i] + gap by {
        assert(placed[i].border_box.x - placed[i].style.margin == cx + flex_cursor(finals, start, between, i));
        assert(placed[i + 1].border_box.x - placed[i + 1].style.margin == cx + flex_cursor(finals, start, between, i + 1));
    }
}

// ---------------------------------------------------------------------------
// Executable layout.
// ---------------------------------------------------------------------------

/// Moves a box and all its descendants by `(dx, dy)`.
pub fn translate(b: &mut LayoutBox, dx: i64, dy: i64)
    requires
        box_ok(old(b)@),
        bounded(dx as int),
        bounded(dy as int),
    ensures
        final(b)@ == moved(old(b)@, dx as int, dy as int),
        box_ok(final(b)@),
    decreases *old(b),
{
    proof {
        lemma_box_view(*b);
    }
    let ghost b0 = *b;
    assert(b0 == *old(b));
    b.border_box.x = add_len(b.border_box.x, dx);
    b.border_box.y = add_len(b.border_box.y, dy);
    let n = b.children.len();
    let mut i: usize = 0;
    while i < n
        invariant
            i <= n == b.children@.len() == b0.children@.len(),
            b.style == b0.style,
            b.hover_style == b0.hover_style,
            b.text == b0.text,
            b.border_box == (Rect {
                x: clamp(b0.border_box.x + dx) as i64,
                y: clamp(b0.border_box.y + dy) as i64,
                ..b0.border_box
            }),
            b0@ == (BoxV {
                style: b0.style,
                hover_style: b0.hover_style,
                border_box: b0.border_box,
                text: text_v(b0.text),
                children: boxes_v(b0.children@),
            }),
            box_ok(b0@),
            b0 == *old(b),
            bounded(dx as int),
            bounded(dy as int),
            forall|j: int| i <= j < n ==> b.children@[j] == #[trigger] b0.children@[j],
            forall|j: int|
                0 <= j < i ==> (#[trigger] b.children@[j])@ == moved(b0.children@[j]@, dx as int, dy as int),
        decreases n - i,
    {
        assert(b0@.children[i as int] == b0.children@[i as int]@);
        assert(box_ok(b0@.children[i as int]));
        assert(decreases_to!(b0 => b0.children));
        assert(decreases_to!(b0.children => b0.children@));
        assert(decreases_to!(b0.children@ => b0.children@[i as int]));
        assert(b.children@[i as int] == b0.children@[i as int]);
        assert(decreases_to!(*old(b) => b.children@[i as int]));
        translate(&mut b.children[i], dx, dy);
        i += 1;
    }
    proof {
        lemma_box_view(*b);
        assert(b@.children =~= moved(b0@, dx as int, dy as int).children);
        lemma_moved_ok(b0@, dx as int, dy as int);
    }
}

/// The width a box takes across, margins included.
fn outer_width(b: &LayoutBox) -> (r: i64)
    requires
        box_ok(b@),
    ensures
        r == outer_w(b@),
{
    add_len(b.border_box.width, mul_len(b.style.margin, 2))
}

/// The height a box takes down, margins included.
fn outer_height(b: &LayoutBox) -> (r: i64)
    requires
        box_ok(b@),
    ensures
        r == outer_h(b@),
{
    add_len(b.border_box.height, mul_len(b.style.margin, 2))
}

/// A length times a count, clamped.
fn scale_len(a: i64, k: usize) -> (r: i64)
    requires
        bounded(a as int),
    ensures
        r == clamp(a * k),
{
    if k as u64 > 1099511627776 {
        if a > 0 {
            assert((a as int) * (k as int) >= k) by (nonlinear_arith)
                requires
                    a >= 1,
                    k >= 0,
            ;
            1099511627776
        } else if a < 0 {
            assert((a as int) * (k as int) <= -k) by (nonlinear_arith)
                requires
                    a <= -1,
                    k >= 0,
            ;
            -1099511627776
        } else {
            assert((a as int) * (k as int) == 0) by (nonlinear_arith)
                requires
                    a == 0,
            ;
            0
        }
    } else {
        mul_len(a, k as i64)
    }
}

/// The natural width of the shown children of a node.
fn kids_width(node: &Node, sheet: &Stylesheet, s: &ComputedStyle, font: &BitmapFont, hv: bool) -> (r: (i64, usize, i64))
    requires
        style_bounded(*s),
    ensures
        (r.0 as int, r.1 as int, r.2 as int) == iw_kids(node@, sheet@, *s, node@.children.len() as int),
        bounded(r.0 as int),
        bounded(r.2 as int),
    decreases node@, 0int, node@.children.len() as int + 1,
{
    proof {
        lemma_node_view(*node);
    }
    let n = node.children.len();
    let mut sum: i64 = 0;
    let mut count: usize = 0;
    let mut mx: i64 = 0;
    let mut i: usize = 0;
    while i < n
        invariant
            i <= n == node.children@.len() == node@.children.len(),
            node@.children == nodes_v(node.children@),
            style_bounded(*s),
            (sum as int, count as int, mx as int) == iw_kids(node@, sheet@, *s, i as int),
            bounded(sum as int),
            bounded(mx as int),
            count <= i,
        decreases n - i,
    {
        let c = &node.children[i];
        assert(c@ == node@.children[i as int]);
        proof {
        }
        let cs = compute_style(c, sheet, s, false);
        if cs.display != Display::Hidden {
            let w = intrinsic_width(c, sheet, s, font, hv);
            sum = add_len(sum, w);
            count = count + 1;
            mx = max_len(mx, w);
        }
        i += 1;
    }
    (sum, count, mx)
}

/// The natural width of an element, margins included.
fn intrinsic_width(node: &Node, sheet: &Stylesheet, parent: &ComputedStyle, font: &BitmapFont, hv: bool) -> (r: i64)
    requires
        sty(node@, sheet@, *parent).display != Display::Hidden,
        style_bounded(*parent),
    ensures
        r == iw(node@, sheet@, *parent),
        bounded(r as int),
    decreases node@, 1int, 0int,
{
    proof {
        lemma_node_view(*node);
        lemma_style_bounded(node@, sheet@, *parent, false);
    }
    let s = compute_style(node, sheet, parent, false);
    let ex = mul_len(add_len(add_len(s.margin, s.border_width), s.padding), 2);
    let content: i64 = match s.width {
        Some(w) => w,
        None => match &node.text {
            Some(t) => {
                let cs = to_chars(t.as_str());
                let aw = font.advance(' ', s.font_size);
                proof {
                    assert(1 <= dot_size(s.font_size as int) <= 2147483648) by {
                        assert(s.font_size >= 512 ==> s.font_size / 512 <= 2147483648);
                    }
                }
                count_times(cs.len(), aw)
            },
            None => if node.children.len() == 0 {
                0
            } else {
                let (sum, count, mx) = kids_width(node, sheet, &s, font, hv);
                let row = s.display == Display::Flex && s.flex_direction == FlexDirection::Row;
                if row {
                    let k: usize = if count > 0 {
                        count - 1
                    } else {
                        0
                    };
                    add_len(sum, scale_len(s.gap, k))
                } else {
                    mx
                }
            },
        },
    };
    add_len(content, ex)
}

/// Lays out the in-flow children of a node, stacked down from `(cx, cy)`:
/// their boxes and the cursor below the last.
#[verifier::rlimit(50)]
#[verifier::spinoff_prover]
fn layout_block(
    node: &Node,
    sheet: &Stylesheet,
    s: &ComputedStyle,
    cx: i64,
    cy: i64,
    cw: i64,
    cb: Rect,
    vp: Rect,
    hv: bool,
    font: &BitmapFont,
) -> (r: (Vec<LayoutBox>, i64))
    requires
        style_bounded(*s),
        bounded(cx as int),
        bounded(cy as int),
        bounded(cw as int),
        rect_ok(cb),
        rect_ok(vp),
    ensures
        (boxes_v(r.0@), r.1 as int) == block_kids(
            node@,
            sheet@,
            *s,
            cx as int,
            cy as int,
            cw as int,
            cb,
            vp,
            hv,
            node@.children.len() as int,
        ),
        all_ok(boxes_v(r.0@)),
        bounded(r.1 as int),
    decreases node@, 1int, 0int,
{
    proof {
        lemma_node_view(*node);
    }
    let n = node.children.len();
    let mut bs: Vec<LayoutBox> = Vec::new();
    let mut y = cy;
    let mut i: usize = 0;
    assert(boxes_v(bs@) =~= Seq::<BoxV>::empty());
    while i < n
        invariant
            i <= n == node.children@.len() == node@.children.len(),
            node@.children == nodes_v(node.children@),
            style_bounded(*s),
            bounded(cx as int),
            bounded(cy as int),
            bounded(cw as int),
            rect_ok(cb),
            rect_ok(vp),
            (boxes_v(bs@), y as int) == block_kids(node@, sheet@, *s, cx as int, cy as int, cw as int, cb, vp, hv, i as int),
            all_ok(boxes_v(bs@)),
            bounded(y as int),
        decreases n - i,
    {
        let c = &node.children[i];
        assert(c@ == node@.children[i as int]);
        proof {
        }
        let cs = compute_style(c, sheet, s, false);
        let oof = match cs.position {
            Position::Absolute | Position::Fixed => true,
            _ => false,
        };
        if cs.display != Display::Hidden && !oof {
            match layout_node(c, sheet, s, cx, y, cw, cb, vp, hv, font) {
                Some(b) => {
                    y = add_len(y, outer_height(&b));
                    bs.push(b);
                    assert(boxes_v(bs@) =~= block_kids(node@, sheet@, *s, cx as int, cy as int, cw as int, cb, vp, hv, i as int).0.push(b@));
                },
                None => {},
            }
        }
        i += 1;
    }
    (bs, y)
}

/// Lays out the out-of-flow children of a node, appending their boxes.
#[verifier::rlimit(50)]
#[verifier::spinoff_prover]
fn layout_out(
    node: &Node,
    sheet: &Stylesheet,
    s: &ComputedStyle,
    cx: i64,
    cy: i64,
    cw: i64,
    cb: Rect,
    vp: Rect,
    hv: bool,
    font: &BitmapFont,
    out: &mut Vec<LayoutBox>,
)
    requires
        style_bounded(*s),
        bounded(cx as int),
        bounded(cy as int),
        bounded(cw as int),
        rect_ok(cb),
        rect_ok(vp),
        all_ok(boxes_v(old(out)@)),
    ensures
        boxes_v(final(out)@) == boxes_v(old(out)@) + out_kids(
            node@,
            sheet@,
            *s,
            cx as int,
            cy as int,
            cw as int,
            cb,
            vp,
            hv,
            node@.children.len() as int,
        ),
        all_ok(boxes_v(final(out)@)),
    decreases node@, 1int, 0int,
{
    proof {
        lemma_node_view(*node);
    }
    let ghost start = boxes_v(out@);
    let n = node.children.len();
    let mut i: usize = 0;
    assert(boxes_v(out@) =~= start + Seq::<BoxV>::empty());
    while i < n
        invariant
            i <= n == node.children@.len() == node@.children.len(),
            node@.children == nodes_v(node.children@),
            style_bounded(*s),
            bounded(cx as int),
            bounded(cy as int),
            bounded(cw as int),
            rect_ok(cb),
            rect_ok(vp),
            boxes_v(out@) == start + out_kids(node@, sheet@, *s, cx as int, cy as int, cw as int, cb, vp, hv, i as int),
            all_ok(boxes_v(out@)),
        decreases n - i,
    {
        let c = &node.children[i];
        assert(c@ == node@.children[i as int]);
        proof {
        }
        let cs = compute_style(c, sheet, s, false);
        let oof = match cs.position {
            Position::Absolute | Position::Fixed => true,
            _ => false,
        };
        if cs.display != Display::Hidden && oof {
            match layout_node(c, sheet, s, cx, cy, cw, cb, vp, hv, font) {
                Some(b) => {
                    let ghost before = boxes_v(out@);
                    let ghost bv = b@;
                    out.push(b);
                    assert(boxes_v(out@) =~= before.push(bv));
                    assert(before.push(bv) =~= start + out_kids(node@, sheet@, *s, cx as int, cy as int, cw as int, cb, vp, hv, i as int).push(bv));
                    assert forall|q: int| 0 <= q < boxes_v(out@).len() implies box_ok(#[trigger] boxes_v(out@)[q]) by {
                        if q < before.len() {
                            assert(boxes_v(out@)[q] == before[q]);
                        }
                    }
                },
                None => {},
            }
        }
        i += 1;
    }
}

/// How far an out-of-flow box moves from the corner of its base.
fn offset_exec(first: Option<i64>, second: Option<i64>, size: i64, outer: i64) -> (r: i64)
    requires
        opt_bounded(first),
        opt_bounded(second),
        bounded(size as int),
        bounded(outer as int),
    ensures
        r == offset_of(first, second, size as int, outer as int),
        bounded(r as int),
{
    match (first, second) {
        (Some(a), _) => a,
        (None, Some(b)) => sub_len(sub_len(size, outer), b),
        (None, None) => 0,
    }
}

/// How far a relative box moves.
fn shift_exec(first: Option<i64>, second: Option<i64>) -> (r: i64)
    requires
        opt_bounded(first),
        opt_bounded(second),
    ensures
        r == shift_of(first, second),
        bounded(r as int),
{
    match (first, second) {
        (Some(a), _) => a,
        (None, Some(b)) => -b,
        (None, None) => 0,
    }
}

/// The width of a box's content area, as `content_width` states it.
fn content_width_exec(
    node: &Node,
    sheet: &Stylesheet,
    parent: &ComputedStyle,
    style: &ComputedStyle,
    base: Rect,
    avail: i64,
    font: &BitmapFont,
    hv: bool,
) -> (cw: i64)
    requires
        style_bounded(*parent),
        *style == sty(node@, sheet@, *parent),
        style.display != Display::Hidden,
        style_bounded(*style),
        rect_ok(base),
        bounded(avail as int),
    ensures
        cw == content_width(node@, sheet@, *parent, *style, base, avail as int),
        bounded(cw as int),
{
    let oof = match style.position {
        Position::Absolute | Position::Fixed => true,
        _ => false,
    };
    let inner = mul_len(add_len(style.border_width, style.padding), 2);
    let two_edge = mul_len(add_len(add_len(style.margin, style.border_width), style.padding), 2);
    match style.width {
        Some(w) => w,
        None => if oof {
            match (style.left, style.right) {
                (Some(l), Some(r)) => max_len(sub_len(sub_len(sub_len(base.width, l), r), inner), 0),
                _ => {
                    let iwv = intrinsic_width(node, sheet, parent, font, hv);
                    min_len(
                        max_len(sub_len(iwv, two_edge), 0),
                        max_len(sub_len(base.width, two_edge), 0),
                    )
                },
            }
        } else {
            max_len(sub_len(avail, two_edge), 0)
        },
    }
}

/// Lays out an element whose margin box starts at `(ox, oy)` in the flow,
/// with `avail` across; `cb` is the content area of the nearest positioned
/// ancestor and `vp` the viewport. `None` for `display: none`.
#[verifier::rlimit(100)]
fn layout_node(
    node: &Node,
    sheet: &Stylesheet,
    parent: &ComputedStyle,
    ox: i64,
    oy: i64,
    avail: i64,
    cb: Rect,
    vp: Rect,
    hv: bool,
    font: &BitmapFont,
) -> (r: Option<LayoutBox>)
    requires
        style_bounded(*parent),
        bounded(ox as int),
        bounded(oy as int),
        bounded(avail as int),
        rect_ok(cb),
        rect_ok(vp),
    ensures
        opt_box_v(r) == lay_node(node@, sheet@, *parent, ox as int, oy as int, avail as int, cb, vp, hv),
        match r {
            Some(b) => box_ok(b@),
            None => true,
        },
    decreases node@, 2int, 0int,
{
    proof {
        lemma_node_view(*node);
        lemma_style_bounded(node@, sheet@, *parent, false);
    }
    let style = compute_style(node, sheet, parent, false);
    if style.display == Display::Hidden {
        return None;
    }
    let oof = match style.position {
        Position::Absolute | Position::Fixed => true,
        _ => false,
    };
    let ecb = match style.position {
        Position::Static => false,
        _ => true,
    };
    let base = match style.position {
        Position::Fixed => vp,
        Position::Absolute => cb,
        _ => Rect { x: ox, y: oy, width: avail, height: vp.height },
    };
    let m = style.margin;
    let bd = style.border_width;
    let pd = style.padding;
    let inner = mul_len(add_len(bd, pd), 2);
    let cw = content_width_exec(node, sheet, parent, &style, base, avail, font, hv);
    let ex = if oof {
        base.x
    } else {
        ox
    };
    let ey = if oof {
        base.y
    } else {
        oy
    };
    let bx = add_len(ex, m);
    let by = add_len(ey, m);
    let cx = add_len(add_len(bx, bd), pd);
    let cy = add_len(add_len(by, bd), pd);
    let bbw = add_len(cw, inner);
    let cbc = if ecb {
        Rect {
            x: cx,
            y: cy,
            width: cw,
            height: match style.height {
                Some(h) => h,
                None => 0,
            },
        }
    } else {
        cb
    };
    let text: Option<TextBlock> = match &node.text {
        Some(t) => Some(layout_text(t.as_str(), font, style.font_size, cw, style.text_align)),
        None => None,
    };
    let (mut kids, kh) = if style.display == Display::Flex {
        layout_flex(node, sheet, &style, cx, cy, cw, cbc, vp, hv, font)
    } else {
        let (bs, y) = layout_block(node, sheet, &style, cx, cy, cw, cbc, vp, hv, font);
        (bs, sub_len(y, cy))
    };
    let ih = match &text {
        Some(tb) => tb.height,
        None => kh,
    };
    let ch = match style.height {
        Some(h) => h,
        None => ih,
    };
    let bbh = add_len(ch, inner);
    let cbf = if ecb {
        Rect { x: cx, y: cy, width: cw, height: ch }
    } else {
        cb
    };
    let ghost kv = boxes_v(kids@);
    layout_out(node, sheet, &style, cx, cy, cw, cbf, vp, hv, font, &mut kids);
    let hover_style = if hv {
        Some(compute_style(node, sheet, parent, true))
    } else {
        None
    };
    proof {
        if hv {
            lemma_style_bounded(node@, sheet@, *parent, true);
        }
    }
    let mut b = LayoutBox {
        style,
        hover_style,
        border_box: Rect { x: bx, y: by, width: bbw, height: bbh },
        text,
        children: kids,
    };
    proof {
        lemma_box_view(b);
        assert(box_ok(b@)) by {
            assert forall|i: int| 0 <= i < b@.children.len() implies box_ok(#[trigger] b@.children[i]) by {
                assert(b@.children[i] == boxes_v(kids@)[i]);
            }
        }
    }
    if oof {
        let ow = add_len(bbw, mul_len(m, 2));
        let oh = add_len(bbh, mul_len(m, 2));
        let offx = offset_exec(style.left, style.right, base.width, ow);
        let offy = offset_exec(style.top, style.bottom, base.height, oh);
        translate(&mut b, offx, offy);
    } else if style.position == Position::Relative {
        let dx = shift_exec(style.left, style.right);
        let dy = shift_exec(style.top, style.bottom);
        translate(&mut b, dx, dy);
    }
    Some(b)
}

/// Half a value, rounded down.
fn half_floor(x: i64) -> (r: i64)
    requires
        bounded(x as int),
    ensures
        r == x / 2,
{
    if x >= 0 {
        x / 2
    } else {
        let q = (-x + 1) / 2;
        proof {
            let rr = x + 2 * q;
            assert(0 <= rr < 2);
            vstd::arithmetic::div_mod::lemma_fundamental_div_mod_converse(x as int, 2, -q as int, rr as int);
        }
        -q
    }
}

/// Where the first item starts and the space between items.
fn justify_exec(j: Justify, free: i64, n: usize, gap: i64) -> (r: (i64, i64))
    requires
        0 <= free <= bound(),
        n >= 1,
        bounded(gap as int),
    ensures
        (r.0 as int, r.1 as int) == justify_offsets(j, free as int, n as int, gap as int),
        bounded(r.0 as int),
        bounded(r.1 as int),
{
    match j {
        Justify::Start => (0, gap),
        Justify::Center => (free / 2, gap),
        Justify::End => (free, gap),
        Justify::SpaceBetween => {
            let extra: i64 = if n > 1 {
                (free as u64 / (n - 1) as u64) as i64
            } else {
                0
            };
            (0, add_len(gap, extra))
        },
        Justify::SpaceAround => {
            let unit = (free as u64 / n as u64) as i64;
            (unit / 2, add_len(gap, unit))
        },
    }
}

/// Where an item sits across the line.
fn cross_exec(a: AlignItems, container: i64, item: i64) -> (r: i64)
    requires
        bounded(container as int),
        bounded(item as int),
    ensures
        r == cross_offset(a, container as int, item as int),
        bounded(r as int),
{
    match a {
        AlignItems::Start | AlignItems::Stretch => 0,
        AlignItems::Center => half_floor(sub_len(container, item)),
        AlignItems::End => sub_len(container, item),
    }
}

/// The share of the free space for a grow factor.
fn share(free: i64, g: i64, t: i64) -> (r: i64)
    requires
        0 <= free <= bound(),
        0 < g <= bound(),
        0 < t <= bound(),
    ensures
        r == clamp((free as int) * (g as int) / (t as int)),
{
    assert(0 <= (free as int) * (g as int) <= bound() * bound()) by (nonlinear_arith)
        requires
            0 <= free <= bound(),
            0 < g <= bound(),
    ;
    let p: i128 = (free as i128) * (g as i128);
    let q: i128 = p / (t as i128);
    if q > 1099511627776 {
        1099511627776
    } else {
        q as i64
    }
}

/// Sets the height of a box's border box.
fn set_height(b: &mut LayoutBox, h: i64)
    requires
        box_ok(old(b)@),
        bounded(h as int),
    ensures
        final(b)@ == with_height(old(b)@, h as int),
        box_ok(final(b)@),
{
    proof {
        lemma_box_view(*b);
    }
    b.border_box.height = h;
    proof {
        lemma_box_view(*b);
    }
}

/// Sets the width of a box's border box.
fn set_width(b: &mut LayoutBox, w: i64)
    requires
        box_ok(old(b)@),
        bounded(w as int),
    ensures
        final(b)@ == with_width(old(b)@, w as int),
        box_ok(final(b)@),
{
    proof {
        lemma_box_view(*b);
    }
    b.border_box.width = w;
    proof {
        lemma_box_view(*b);
    }
}

/// Whether the executable flex items hold the items' values.
pub open spec fn items_match(
    idxs: Seq<usize>,
    grows: Seq<i64>,
    bases: Seq<i64>,
    boxes: Seq<LayoutBox>,
    items: Seq<FlexItem>,
    nc: int,
) -> bool {
    &&& idxs.len() == items.len()
    &&& grows.len() == items.len()
    &&& bases.len() == items.len()
    &&& boxes.len() == items.len()
    &&& forall|k: int|
        0 <= k < items.len() ==> {
            &&& idxs[k] == (#[trigger] items[k]).idx
            &&& grows[k] == items[k].grow
            &&& bases[k] == items[k].base
            &&& boxes[k]@ == items[k].b
            &&& idxs[k] < nc
            &&& box_ok(items[k].b)
            &&& bounded(items[k].grow)
            &&& bounded(items[k].base)
        }
}

/// The flex item of child `i`, if it is one: its grow factor, natural main
/// size and first box.
fn flex_item_of(
    node: &Node,
    sheet: &Stylesheet,
    s: &ComputedStyle,
    cw: i64,
    row: bool,
    cb: Rect,
    vp: Rect,
    hv: bool,
    font: &BitmapFont,
    i: usize,
) -> (r: Option<(i64, i64, LayoutBox)>)
    requires
        i < node@.children.len(),
        style_bounded(*s),
        bounded(cw as int),
        rect_ok(cb),
        rect_ok(vp),
    ensures
        match r {
            Some((g, base, b)) => {
                &&& flex_items(node@, sheet@, *s, cw as int, row, cb, vp, hv, i + 1) == flex_items(
                    node@,
                    sheet@,
                    *s,
                    cw as int,
                    row,
                    cb,
                    vp,
                    hv,
                    i as int,
                ).push(FlexItem { idx: i as int, grow: g as int, base: base as int, b: b@ })
                &&& box_ok(b@)
                &&& bounded(g as int)
                &&& bounded(base as int)
            },
            None => flex_items(node@, sheet@, *s, cw as int, row, cb, vp, hv, i + 1) == flex_items(
                node@,
                sheet@,
                *s,
                cw as int,
                row,
                cb,
                vp,
                hv,
                i as int,
            ),
        },
    decreases node@, 0int, i + 1,
{
    proof {
        lemma_node_view(*node);
    }
    let c = &node.children[i];
    assert(c@ == node@.children[i as int]);
    proof {
        lemma_style_bounded(c@, sheet@, *s, false);
    }
    let cs = compute_style(c, sheet, s, false);
    let oof = match cs.position {
        Position::Absolute | Position::Fixed => true,
        _ => false,
    };
    if cs.display != Display::Hidden && !oof {
        let avail = if row {
            intrinsic_width(c, sheet, s, font, hv)
        } else if s.align_items == AlignItems::Stretch {
            cw
        } else {
            min_len(intrinsic_width(c, sheet, s, font, hv), cw)
        };
        match layout_node(c, sheet, s, 0, 0, avail, cb, vp, hv, font) {
            Some(b) => {
                let base = if row {
                    outer_width(&b)
                } else {
                    outer_height(&b)
                };
                Some((cs.flex_grow, base, b))
            },
            None => None,
        }
    } else {
        None
    }
}

/// The flex items of a node, in the order of its children.
fn flex_collect(
    node: &Node,
    sheet: &Stylesheet,
    s: &ComputedStyle,
    cw: i64,
    row: bool,
    cb: Rect,
    vp: Rect,
    hv: bool,
    font: &BitmapFont,
) -> (r: (Vec<usize>, Vec<i64>, Vec<i64>, Vec<LayoutBox>))
    requires
        style_bounded(*s),
        bounded(cw as int),
        rect_ok(cb),
        rect_ok(vp),
    ensures
        items_match(
            r.0@,
            r.1@,
            r.2@,
            r.3@,
            flex_items(node@, sheet@, *s, cw as int, row, cb, vp, hv, node@.children.len() as int),
            node@.children.len() as int,
        ),
    decreases node@, 0int, node@.children.len() + 1,
{
    proof {
        lemma_node_view(*node);
    }
    let nc = node.children.len();
    let mut idxs: Vec<usize> = Vec::new();
    let mut grows: Vec<i64> = Vec::new();
    let mut bases: Vec<i64> = Vec::new();
    let mut boxes: Vec<LayoutBox> = Vec::new();
    let mut i: usize = 0;
    while i < nc
        invariant
            i <= nc == node@.children.len(),
            style_bounded(*s),
            bounded(cw as int),
            rect_ok(cb),
            rect_ok(vp),
            items_match(idxs@, grows@, bases@, boxes@, flex_items(node@, sheet@, *s, cw as int, row, cb, vp, hv, i as int), nc as int),
        decreases nc - i,
    {
        let ghost prev = flex_items(node@, sheet@, *s, cw as int, row, cb, vp, hv, i as int);
        match flex_item_of(node, sheet, s, cw, row, cb, vp, hv, font, i) {
            Some((g, base, b)) => {
                idxs.push(i);
                grows.push(g);
                bases.push(base);
                boxes.push(b);
                let ghost next = flex_items(node@, sheet@, *s, cw as int, row, cb, vp, hv, i + 1);
                assert forall|k: int| 0 <= k < next.len() implies {
                    &&& idxs@[k] == (#[trigger] next[k]).idx
                    &&& grows@[k] == next[k].grow
                    &&& bases@[k] == next[k].base
                    &&& boxes@[k]@ == next[k].b
                    &&& idxs@[k] < nc
                    &&& box_ok(next[k].b)
                    &&& bounded(next[k].grow)
                    &&& bounded(next[k].base)
                } by {
                    if k < prev.len() {
                        assert(next[k] == prev[k]);
                    }
                }
            },
            None => {},
        }
        i += 1;
    }
    (idxs, grows, bases, boxes)
}

/// The sums of the natural sizes, of the grow factors, and of the natural
/// sizes of items that do not grow.
fn flex_totals(grows: &Vec<i64>, bases: &Vec<i64>, Ghost(items): Ghost<Seq<FlexItem>>) -> (r: (i64, i64, i64))
    requires
        grows@.len() == bases@.len() == items.len(),
        forall|q: int| 0 <= q < items.len() ==> grows@[q] == (#[trigger] items[q]).grow && bases@[q] == items[q].base
            && bounded(items[q].grow) && bounded(items[q].base),
    ensures
        r.0 == sum_base(items, items.len() as int),
        r.1 == sum_grow(items, items.len() as int),
        r.2 == sum_fixed(items, items.len() as int),
        bounded(r.0 as int),
        bounded(r.1 as int),
        bounded(r.2 as int),
{
    let n = grows.len();
    let mut total_base: i64 = 0;
    let mut total_grow: i64 = 0;
    let mut fixed: i64 = 0;
    let mut k: usize = 0;
    while k < n
        invariant
            k <= n == grows@.len() == bases@.len() == items.len(),
            forall|q: int| 0 <= q < items.len() ==> grows@[q] == (#[trigger] items[q]).grow && bases@[q] == items[q].base
                && bounded(items[q].grow) && bounded(items[q].base),
            total_base == sum_base(items, k as int),
            total_grow == sum_grow(items, k as int),
            fixed == sum_fixed(items, k as int),
            bounded(total_base as int),
            bounded(total_grow as int),
            bounded(fixed as int),
        decreases n - k,
    {
        assert(grows@[k as int] == items[k as int].grow);
        total_base = add_len(total_base, bases[k]);
        total_grow = add_len(total_grow, grows[k]);
        if grows[k] <= 0 {
            fixed = add_len(fixed, bases[k]);
        }
        k += 1;
    }
    (total_base, total_grow, fixed)
}

/// The final main sizes of the items.
fn flex_final_sizes(
    grows: &Vec<i64>,
    bases: &Vec<i64>,
    bounded_main: bool,
    free: i64,
    total_grow: i64,
    Ghost(items): Ghost<Seq<FlexItem>>,
) -> (r: Vec<i64>)
    requires
        grows@.len() == bases@.len() == items.len(),
        forall|q: int| 0 <= q < items.len() ==> grows@[q] == (#[trigger] items[q]).grow && bases@[q] == items[q].base
            && bounded(items[q].grow) && bounded(items[q].base),
        0 <= free <= bound(),
        bounded(total_grow as int),
    ensures
        r@.len() == items.len(),
        forall|q: int| 0 <= q < items.len() ==> r@[q] == #[trigger] flex_finals(items, bounded_main, free as int, total_grow as int)[q]
            && bounded(r@[q] as int),
{
    let ghost fin = flex_finals(items, bounded_main, free as int, total_grow as int);
    let n = grows.len();
    let mut finals: Vec<i64> = Vec::new();
    let mut k: usize = 0;
    while k < n
        invariant
            k <= n == grows@.len() == bases@.len() == items.len(),
            forall|q: int| 0 <= q < items.len() ==> grows@[q] == (#[trigger] items[q]).grow && bases@[q] == items[q].base
                && bounded(items[q].grow) && bounded(items[q].base),
            fin == flex_finals(items, bounded_main, free as int, total_grow as int),
            0 <= free <= bound(),
            bounded(total_grow as int),
            finals@.len() == k,
            forall|q: int| 0 <= q < k ==> finals@[q] == #[trigger] fin[q] && bounded(finals@[q] as int),
        decreases n - k,
    {
        assert(grows@[k as int] == items[k as int].grow);
        let f = if bounded_main && total_grow > 0 && grows[k] > 0 {
            share(free, grows[k], total_grow)
        } else {
            bases[k]
        };
        finals.push(f);
        k += 1;
    }
    finals
}

/// Brings each item to its final main size: a row item whose size changed
/// is laid out again at that width; a column item's height is set.
fn flex_resize(
    node: &Node,
    sheet: &Stylesheet,
    s: &ComputedStyle,
    cw: i64,
    row: bool,
    cb: Rect,
    vp: Rect,
    hv: bool,
    font: &BitmapFont,
    idxs: &Vec<usize>,
    bases: &Vec<i64>,
    finals: &Vec<i64>,
    boxes: &mut Vec<LayoutBox>,
    Ghost(items): Ghost<Seq<FlexItem>>,
    Ghost(fin): Ghost<Seq<int>>,
)
    requires
        style_bounded(*s),
        rect_ok(cb),
        rect_ok(vp),
        idxs@.len() == bases@.len() == finals@.len() == old(boxes)@.len() == items.len() == fin.len(),
        forall|q: int| 0 <= q < items.len() ==> finals@[q] == #[trigger] fin[q] && bounded(fin[q]),
        forall|q: int| 0 <= q < items.len() ==> bases@[q] == (#[trigger] items[q]).base && idxs@[q] == items[q].idx
            && idxs@[q] < node@.children.len() && box_ok(items[q].b) && old(boxes)@[q]@ == items[q].b,
    ensures
        boxes_v(final(boxes)@) == flex_resized(node@, sheet@, *s, items, fin, row, cb, vp, hv, items.len() as int),
        all_ok(boxes_v(final(boxes)@)),
        final(boxes)@.len() == old(boxes)@.len(),
    decreases node@, 0int, node@.children.len() + 1,
{
    proof {
        lemma_node_view(*node);
    }
    let n = boxes.len();
    assert forall|q: int| 0 <= q < n implies box_ok((#[trigger] boxes@[q])@) by {
        assert(box_ok(items[q].b));
    }
    let nc = node.children.len();
    let mut k: usize = 0;
    while k < n
        invariant
            k <= n == boxes@.len() == bases@.len() == idxs@.len() == finals@.len() == items.len() == fin.len(),
            node@.children == nodes_v(node.children@),
            nc == node.children@.len() == node@.children.len(),
            style_bounded(*s),
            rect_ok(cb),
            rect_ok(vp),
            forall|q: int| 0 <= q < items.len() ==> finals@[q] == #[trigger] fin[q] && bounded(fin[q]),
            forall|q: int| 0 <= q < items.len() ==> bases@[q] == (#[trigger] items[q]).base && idxs@[q] == items[q].idx
                && idxs@[q] < nc && box_ok(items[q].b),
            boxes_v(boxes@).take(k as int) == flex_resized(node@, sheet@, *s, items, fin, row, cb, vp, hv, k as int),
            forall|q: int| k <= q < n ==> (#[trigger] boxes@[q])@ == items[q].b,
            forall|q: int| 0 <= q < n ==> box_ok((#[trigger] boxes@[q])@),
        decreases n - k,
    {
        let ghost prev = flex_resized(node@, sheet@, *s, items, fin, row, cb, vp, hv, k as int);
        assert(bases@[k as int] == items[k as int].base);
        assert(finals@[k as int] == fin[k as int]);
        let fm = finals[k];
        if fm != bases[k] {
            if row {
                let ci = idxs[k];
                let c = &node.children[ci];
                assert(c@ == node@.children[ci as int]);
                proof {
                }
                match layout_node(c, sheet, s, 0, 0, fm, cb, vp, hv, font) {
                    Some(nb) => {
                        boxes.set(k, nb);
                    },
                    None => {},
                }
            } else {
                let mm = mul_len(boxes[k].style.margin, 2);
                let h = max_len(sub_len(fm, mm), 0);
                set_height(&mut boxes[k], h);
            }
        }
        proof {
            assert(boxes_v(boxes@).take(k + 1) =~= prev.push(boxes@[k as int]@));
        }
        k += 1;
    }
    assert(boxes_v(boxes@).take(n as int) =~= boxes_v(boxes@));
    assert forall|q: int| 0 <= q < boxes_v(boxes@).len() implies box_ok(#[trigger] boxes_v(boxes@)[q]) by {
        assert(boxes_v(boxes@)[q] == boxes@[q]@);
    }
}

/// The largest outer height of the boxes (at least 0).
fn max_outer_height(boxes: &Vec<LayoutBox>) -> (r: i64)
    requires
        all_ok(boxes_v(boxes@)),
    ensures
        r == max_outer_h(boxes_v(boxes@), boxes@.len() as int),
        bounded(r as int),
{
    let n = boxes.len();
    let mut mo: i64 = 0;
    let mut k: usize = 0;
    while k < n
        invariant
            k <= n == boxes@.len(),
            all_ok(boxes_v(boxes@)),
            mo == max_outer_h(boxes_v(boxes@), k as int),
            bounded(mo as int),
        decreases n - k,
    {
        assert(boxes_v(boxes@)[k as int] == boxes@[k as int]@);
        mo = max_len(mo, outer_height(&boxes[k]));
        k += 1;
    }
    mo
}

/// Stretches every box across the line.
fn flex_stretch(boxes: &mut Vec<LayoutBox>, row: bool, cc: i64)
    requires
        all_ok(boxes_v(old(boxes)@)),
        bounded(cc as int),
    ensures
        boxes_v(final(boxes)@) == Seq::new(old(boxes)@.len(), |q: int| stretched(boxes_v(old(boxes)@)[q], row, cc as int)),
        all_ok(boxes_v(final(boxes)@)),
        final(boxes)@.len() == old(boxes)@.len(),
{
    let ghost bs1 = boxes_v(boxes@);
    let n = boxes.len();
    assert forall|q: int| 0 <= q < n implies box_ok((#[trigger] boxes@[q])@) by {
        assert(boxes_v(boxes@)[q] == boxes@[q]@);
    }
    let mut k: usize = 0;
    while k < n
        invariant
            k <= n == boxes@.len() == bs1.len(),
            all_ok(bs1),
            bounded(cc as int),
            forall|q: int| 0 <= q < k ==> (#[trigger] boxes@[q])@ == stretched(bs1[q], row, cc as int),
            forall|q: int| k <= q < n ==> (#[trigger] boxes@[q])@ == bs1[q],
            forall|q: int| 0 <= q < n ==> box_ok((#[trigger] boxes@[q])@),
        decreases n - k,
    {
        let mm = mul_len(boxes[k].style.margin, 2);
        let v = max_len(sub_len(cc, mm), 0);
        if row {
            set_height(&mut boxes[k], v);
        } else {
            set_width(&mut boxes[k], v);
        }
        k += 1;
    }
    assert(boxes_v(boxes@) =~= Seq::new(n as nat, |q: int| stretched(bs1[q], row, cc as int)));
    assert forall|q: int| 0 <= q < boxes_v(boxes@).len() implies box_ok(#[trigger] boxes_v(boxes@)[q]) by {
        assert(boxes_v(boxes@)[q] == boxes@[q]@);
    }
}

/// The sum of the final main sizes.
fn sum_finals(finals: &Vec<i64>, Ghost(fin): Ghost<Seq<int>>) -> (r: i64)
    requires
        finals@.len() == fin.len(),
        forall|q: int| 0 <= q < fin.len() ==> finals@[q] == #[trigger] fin[q] && bounded(fin[q]),
    ensures
        r == sum_seq(fin, fin.len() as int),
        bounded(r as int),
{
    let n = finals.len();
    let mut used: i64 = 0;
    let mut k: usize = 0;
    while k < n
        invariant
            k <= n == finals@.len() == fin.len(),
            forall|q: int| 0 <= q < fin.len() ==> finals@[q] == #[trigger] fin[q] && bounded(fin[q]),
            used == sum_seq(fin, k as int),
            bounded(used as int),
        decreases n - k,
    {
        assert(finals@[k as int] == fin[k as int]);
        used = add_len(used, finals[k]);
        k += 1;
    }
    used
}

/// Moves the items to their places along and across the line.
fn flex_place(
    boxes: &mut Vec<LayoutBox>,
    finals: &Vec<i64>,
    start: i64,
    between: i64,
    row: bool,
    a: AlignItems,
    cc: i64,
    cx: i64,
    cy: i64,
    Ghost(fin): Ghost<Seq<int>>,
)
    requires
        all_ok(boxes_v(old(boxes)@)),
        old(boxes)@.len() == finals@.len() == fin.len(),
        forall|q: int| 0 <= q < fin.len() ==> finals@[q] == #[trigger] fin[q] && bounded(fin[q]),
        bounded(start as int),
        bounded(between as int),
        bounded(cc as int),
        bounded(cx as int),
        bounded(cy as int),
    ensures
        boxes_v(final(boxes)@) == flex_placed(
            boxes_v(old(boxes)@),
            fin,
            start as int,
            between as int,
            row,
            a,
            cc as int,
            cx as int,
            cy as int,
            fin.len() as int,
        ).0,
        all_ok(boxes_v(final(boxes)@)),
{
    let ghost bs2 = boxes_v(boxes@);
    let n = boxes.len();
    assert forall|q: int| 0 <= q < n implies box_ok((#[trigger] boxes@[q])@) by {
        assert(boxes_v(boxes@)[q] == boxes@[q]@);
    }
    let mut cursor = start;
    let mut k: usize = 0;
    while k < n
        invariant
            k <= n == boxes@.len() == finals@.len() == fin.len() == bs2.len(),
            all_ok(bs2),
            forall|q: int| 0 <= q < fin.len() ==> finals@[q] == #[trigger] fin[q] && bounded(fin[q]),
            bounded(cx as int),
            bounded(cy as int),
            bounded(cc as int),
            bounded(between as int),
            boxes_v(boxes@).take(k as int) == flex_placed(bs2, fin, start as int, between as int, row, a, cc as int, cx as int, cy as int, k as int).0,
            cursor == flex_placed(bs2, fin, start as int, between as int, row, a, cc as int, cx as int, cy as int, k as int).1,
            bounded(cursor as int),
            forall|q: int| k <= q < n ==> (#[trigger] boxes@[q])@ == bs2[q],
            forall|q: int| 0 <= q < n ==> box_ok((#[trigger] boxes@[q])@),
        decreases n - k,
    {
        let ghost prev = flex_placed(bs2, fin, start as int, between as int, row, a, cc as int, cx as int, cy as int, k as int).0;
        assert(bs2[k as int] == boxes@[k as int]@);
        assert(finals@[k as int] == fin[k as int]);
        let ic = if row {
            outer_height(&boxes[k])
        } else {
            outer_width(&boxes[k])
        };
        let co = cross_exec(a, cc, ic);
        let mx = if row {
            add_len(cx, cursor)
        } else {
            add_len(cx, co)
        };
        let my = if row {
            add_len(cy, co)
        } else {
            add_len(cy, cursor)
        };
        let cmx = sub_len(boxes[k].border_box.x, boxes[k].style.margin);
        let cmy = sub_len(boxes[k].border_box.y, boxes[k].style.margin);
        translate(&mut boxes[k], sub_len(mx, cmx), sub_len(my, cmy));
        cursor = add_len(add_len(cursor, finals[k]), between);
        proof {
            assert(boxes_v(boxes@).take(k + 1) =~= prev.push(boxes@[k as int]@));
        }
        k += 1;
    }
    assert(boxes_v(boxes@).take(n as int) =~= boxes_v(boxes@));
    assert forall|q: int| 0 <= q < boxes_v(boxes@).len() implies box_ok(#[trigger] boxes_v(boxes@)[q]) by {
        assert(boxes_v(boxes@)[q] == boxes@[q]@);
    }
}

/// Lays out the flex children of a node in one line from `(cx, cy)`: their
/// boxes and the height of the content.
#[verifier::rlimit(100)]
fn layout_flex(
    node: &Node,
    sheet: &Stylesheet,
    s: &ComputedStyle,
    cx: i64,
    cy: i64,
    cw: i64,
    cb: Rect,
    vp: Rect,
    hv: bool,
    font: &BitmapFont,
) -> (r: (Vec<LayoutBox>, i64))
    requires
        style_bounded(*s),
        bounded(cx as int),
        bounded(cy as int),
        bounded(cw as int),
        rect_ok(cb),
        rect_ok(vp),
    ensures
        (boxes_v(r.0@), r.1 as int) == lay_flex(node@, sheet@, *s, cx as int, cy as int, cw as int, cb, vp, hv),
        all_ok(boxes_v(r.0@)),
        bounded(r.1 as int),
    decreases node@, 1int, 0int,
{
    let row = s.flex_direction == FlexDirection::Row;
    let gap = s.gap;
    let ghost nc = node@.children.len();
    let (idxs, grows, bases, mut boxes) = flex_collect(node, sheet, s, cw, row, cb, vp, hv, font);
    let ghost items = flex_items(node@, sheet@, *s, cw as int, row, cb, vp, hv, nc as int);
    let n = boxes.len();
    if n == 0 {
        let h = match s.height {
            Some(h) => h,
            None => 0,
        };
        assert(boxes_v(boxes@) =~= Seq::<BoxV>::empty());
        return (boxes, h);
    }
    let (total_base, total_grow, fixed) = flex_totals(&grows, &bases, Ghost(items));
    let total_gap = scale_len(gap, n - 1);
    let bounded_main = row || s.height.is_some();
    let main: i64 = if row {
        cw
    } else {
        match s.height {
            Some(h) => h,
            None => add_len(total_base, total_gap),
        }
    };
    let free = max_len(sub_len(sub_len(main, fixed), total_gap), 0);
    let ghost fin = flex_finals(items, bounded_main, free as int, total_grow as int);
    let finals = flex_final_sizes(&grows, &bases, bounded_main, free, total_grow, Ghost(items));
    assert forall|q: int| 0 <= q < items.len() implies (#[trigger] boxes@[q])@ == items[q].b by {
        assert(boxes@[q]@ == items[q].b);
    }
    flex_resize(node, sheet, s, cw, row, cb, vp, hv, font, &idxs, &bases, &finals, &mut boxes, Ghost(items), Ghost(fin));
    let ghost bs1 = boxes_v(boxes@);
    let cc: i64 = if row {
        match s.height {
            Some(h) => h,
            None => max_outer_height(&boxes),
        }
    } else {
        cw
    };
    if s.align_items == AlignItems::Stretch {
        flex_stretch(&mut boxes, row, cc);
    }
    let ghost bs2 = boxes_v(boxes@);
    let used = add_len(sum_finals(&finals, Ghost(fin)), total_gap);
    let free_main = max_len(sub_len(main, used), 0);
    let (start, between) = justify_exec(s.justify_content, free_main, n, gap);
    flex_place(&mut boxes, &finals, start, between, row, s.align_items, cc, cx, cy, Ghost(fin));
    let h = if row {
        cc
    } else {
        match s.height {
            Some(h) => h,
            None => used,
        }
    };
    (boxes, h)
}

/// Lays out a document in a viewport of `viewport_width` by
/// `viewport_height` (units of 1/64 pixel): the root at the origin with the
/// whole width, under the default style. A root that is not shown gives an
/// empty box.
pub fn layout_tree(
    root: &Node,
    stylesheet: &Stylesheet,
    viewport_width: i64,
    viewport_height: i64,
    font: &BitmapFont,
) -> (b: LayoutBox)
    requires
        bounded(viewport_width as int),
        bounded(viewport_height as int),
    ensures
        b@ == spec_layout_tree(root@, stylesheet@, viewport_width as int, viewport_height as int, false),
        box_ok(b@),
{
    layout_root(root, stylesheet, viewport_width, viewport_height, font, false)
}

/// Lays out a document; with `hv`, every box also carries the style its
/// element takes under the pointer.
pub(crate) fn layout_root(
    root: &Node,
    stylesheet: &Stylesheet,
    viewport_width: i64,
    viewport_height: i64,
    font: &BitmapFont,
    hv: bool,
) -> (b: LayoutBox)
    requires
        bounded(viewport_width as int),
        bounded(viewport_height as int),
    ensures
        b@ == spec_layout_tree(root@, stylesheet@, viewport_width as int, viewport_height as int, hv),
        box_ok(b@),
{
    let vp = Rect { x: 0, y: 0, width: viewport_width, height: viewport_height };
    let parent = ComputedStyle::default();
    match layout_node(root, stylesheet, &parent, 0, 0, viewport_width, vp, vp, hv, font) {
        Some(b) => b,
        None => {
            let b = LayoutBox {
                style: ComputedStyle::default(),
                hover_style: None,
                border_box: Rect { x: 0, y: 0, width: 0, height: 0 },
                text: None,
                children: Vec::new(),
            };
            proof {
                lemma_box_view(b);
                assert(b@.children =~= Seq::<BoxV>::empty());
            }
            b
        },
    }
}

} // verus!
