//! Painting: the canvas, a grid of pixels, and the fills that colour it.
//!
//! A pixel is a `u32` holding `0x00RRGGBB`; the top byte is unused. A
//! half-transparent colour is mixed with the pixel below it.

use vstd::prelude::*;
use vstd::arithmetic::div_mod::lemma_fundamental_div_mod_converse;

use crate::color::Color;
use crate::fixed::{add_len, bounded, clamp, max, max_len, mul_len, sub_len};
use crate::font::BitmapFont;
use crate::layout::{box_ok, boxes_v, dbl, lemma_box_view, BoxV, LayoutBox};
use crate::text::{paint_text, spec_paint_text};
use crate::style::ComputedStyle;

verus! {

/// A rectangle on the screen: its top-left corner and its size, in units of
/// 1/64 pixel.
#[derive(Debug, Clone, Copy)]
pub struct Rect {
    pub x: i64,
    pub y: i64,
    pub width: i64,
    pub height: i64,
}

/// A grid of `width` by `height` pixels. Pixel `(x, y)` is at index
/// `y * width + x`.
pub struct Canvas {
    pub width: u32,
    pub height: u32,
    pub pixels: Vec<u32>,
}

impl Canvas {
    /// Whether the pixels fill the grid exactly.
    pub open spec fn wf(&self) -> bool {
        self.pixels@.len() == self.width * self.height
    }
}

/// A colour packed as a pixel, `0x00RRGGBB`.
pub open spec fn pack(c: Color) -> u32 {
    (c.r * 65536 + c.g * 256 + c.b) as u32
}

/// One channel of `top` laid over `below` with opacity `a`, rounded to the
/// nearest value.
pub open spec fn mix(top: u8, below: u8, a: u8) -> u8 {
    ((top * a + below * (255 - a) + 127) / 255) as u8
}

/// A pixel with a colour laid over it: unchanged under a transparent colour,
/// replaced by an opaque one, and mixed channel by channel otherwise.
pub open spec fn over(p: u32, c: Color) -> u32 {
    if c.a == 0 {
        p
    } else if c.a == 255 {
        pack(c)
    } else {
        let r = ((p / 65536) % 256) as u8;
        let g = ((p / 256) % 256) as u8;
        let b = (p % 256) as u8;
        pack(Color { r: mix(c.r, r, c.a), g: mix(c.g, g, c.a), b: mix(c.b, b, c.a), a: 255 })
    }
}

/// Whether index `i` of a grid `w` wide lies in the pixel box `[x0, x1) x [y0, y1)`.
pub open spec fn in_box(i: int, w: int, x0: int, y0: int, x1: int, y1: int) -> bool {
    x0 <= i % w < x1 && y0 <= i / w < y1
}

/// The pixels with a colour laid over the box `[x0, x1) x [y0, y1)`.
pub open spec fn spec_fill(
    px: Seq<u32>,
    w: int,
    x0: int,
    y0: int,
    x1: int,
    y1: int,
    c: Color,
) -> Seq<u32> {
    Seq::new(
        px.len(),
        |i: int|
            if in_box(i, w, x0, y0, x1, y1) {
                over(px[i], c)
            } else {
                px[i]
            },
    )
}

/// A length in units rounded to the nearest pixel, halves upward.
pub open spec fn px_round(u: int) -> int {
    (u + 32) / 64
}

/// The pixels with a colour laid over a rectangle given in units: its edges
/// rounded to pixels and clipped to the grid.
pub open spec fn spec_fill_rect(px: Seq<u32>, w: int, h: int, r: Rect, c: Color) -> Seq<u32> {
    let x0 = if px_round(r.x as int) > 0 {
        px_round(r.x as int)
    } else {
        0
    };
    let y0 = if px_round(r.y as int) > 0 {
        px_round(r.y as int)
    } else {
        0
    };
    let x1 = if px_round(r.x + r.width) < w {
        px_round(r.x + r.width)
    } else {
        w
    };
    let y1 = if px_round(r.y + r.height) < h {
        px_round(r.y + r.height)
    } else {
        h
    };
    spec_fill(px, w, x0, y0, x1, y1, c)
}

/// Packs a colour as a pixel.
pub fn pack_color(c: Color) -> (p: u32)
    ensures
        p == pack(c),
{
    (c.r as u32) * 65536 + (c.g as u32) * 256 + (c.b as u32)
}

/// One channel laid over another.
fn mix_channel(top: u8, below: u8, a: u8) -> (r: u8)
    ensures
        r == mix(top, below, a),
{
    assert((top as int) * (a as int) <= 255 * 255) by (nonlinear_arith)
        requires
            top <= 255,
            a <= 255,
    ;
    assert((below as int) * (255 - a) <= 255 * 255) by (nonlinear_arith)
        requires
            below <= 255,
            a <= 255,
    ;
    assert((top as int) * (a as int) + (below as int) * (255 - a) <= 255 * 255) by (nonlinear_arith)
        requires
            top <= 255,
            below <= 255,
            a <= 255,
    ;
    let v: u32 = ((top as u32) * (a as u32) + (below as u32) * (255 - a as u32) + 127) / 255;
    assert(v <= 255);
    v as u8
}

/// A colour laid over a pixel.
pub fn over_pixel(p: u32, c: Color) -> (r: u32)
    ensures
        r == over(p, c),
{
    if c.a == 0 {
        p
    } else if c.a == 255 {
        pack_color(c)
    } else {
        let r = ((p / 65536) % 256) as u8;
        let g = ((p / 256) % 256) as u8;
        let b = (p % 256) as u8;
        pack_color(
            Color {
                r: mix_channel(c.r, r, c.a),
                g: mix_channel(c.g, g, c.a),
                b: mix_channel(c.b, b, c.a),
                a: 255,
            },
        )
    }
}

/// A length in units rounded to the nearest pixel.
pub fn round_px(u: i64) -> (r: i64)
    requires
        -1_000_000_000_000_000 <= u <= 1_000_000_000_000_000,
    ensures
        r == px_round(u as int),
{
    let t = u + 32;
    if t >= 0 {
        t / 64
    } else {
        let q = (-t + 63) / 64;
        proof {
            let qq = -q;
            let rr = t - qq * 64;
            assert(0 <= rr < 64);
            lemma_fundamental_div_mod_converse(t as int, 64, qq as int, rr as int);
        }
        -q
    }
}

/// A wide length in units rounded to the nearest pixel, halves up.
fn round_wide(u: i128) -> (r: i64)
    requires
        -36_893_488_147_419_103_232 <= u <= 36_893_488_147_419_103_232,
    ensures
        r == px_round(u as int),
{
    let t = u + 32;
    if t >= 0 {
        (t / 64) as i64
    } else {
        let q = (-t + 63) / 64;
        proof {
            let qq = -q;
            let rr = t - qq * 64;
            assert(0 <= rr < 64);
            lemma_fundamental_div_mod_converse(t as int, 64, qq as int, rr as int);
        }
        (-q) as i64
    }
}

impl Canvas {
    /// A canvas of the given size, every pixel the background colour.
    pub fn new(width: u32, height: u32, background: Color) -> (c: Canvas)
        requires
            width * height <= usize::MAX,
        ensures
            c.wf(),
            c.width == width,
            c.height == height,
            forall|i: int| 0 <= i < c.pixels@.len() ==> c.pixels@[i] == pack(background),
    {
        let bg = pack_color(background);
        let n: usize = (width as usize) * (height as usize);
        let mut pixels: Vec<u32> = Vec::new();
        let mut i: usize = 0;
        while i < n
            invariant
                i <= n,
                pixels@.len() == i,
                forall|k: int| 0 <= k < i ==> pixels@[k] == bg,
            decreases n - i,
        {
            pixels.push(bg);
            i += 1;
        }
        Canvas { width, height, pixels }
    }

    /// Lays a colour over the pixel box `[x0, x1) x [y0, y1)`, which lies
    /// inside the grid.
    pub fn fill_px(&mut self, x0: i64, y0: i64, x1: i64, y1: i64, color: Color)
        requires
            old(self).wf(),
            0 <= x0,
            0 <= y0,
            x1 <= old(self).width,
            y1 <= old(self).height,
        ensures
            final(self).wf(),
            final(self).width == old(self).width,
            final(self).height == old(self).height,
            final(self).pixels@ == spec_fill(
                old(self).pixels@,
                old(self).width as int,
                x0 as int,
                y0 as int,
                x1 as int,
                y1 as int,
                color,
            ),
    {
        let ghost px0 = self.pixels@;
        let ghost w = self.width as int;
        let ghost len = px0.len();
        let wu = self.width as usize;
        let plen = self.pixels.len();
        if x0 >= x1 || y0 >= y1 {
            assert(self.pixels@ =~= spec_fill(px0, w, x0 as int, y0 as int, x1 as int, y1 as int, color));
            return;
        }
        let mut y = y0;
        while y < y1
            invariant
                self.wf(),
                self.width as int == w,
                self.height == old(self).height,
                px0 == old(self).pixels@,
                len == px0.len(),
                0 <= x0 < x1 <= w,
                0 <= y0 <= y <= y1 <= self.height,
                wu == w,
                plen == len,
                self.pixels@ =~= Seq::new(
                    len,
                    |i: int|
                        if in_box(i, w, x0 as int, y0 as int, x1 as int, y as int) {
                            over(px0[i], color)
                        } else {
                            px0[i]
                        },
                ),
            decreases y1 - y,
        {
            let mut x = x0;
            while x < x1
                invariant
                    self.wf(),
                    self.width as int == w,
                    self.height == old(self).height,
                    px0 == old(self).pixels@,
                    len == px0.len(),
                    0 <= x0 <= x <= x1 <= w,
                    0 <= y0 <= y < y1 <= self.height,
                    wu == w,
                    plen == len,
                    self.pixels@ =~= Seq::new(
                        len,
                        |i: int|
                            if in_box(i, w, x0 as int, y0 as int, x1 as int, y as int) || (i / w
                                == y && x0 <= i % w < x) {
                                over(px0[i], color)
                            } else {
                                px0[i]
                            },
                    ),
                decreases x1 - x,
            {
                proof {
                    assert((y as int) * w + (x as int) < w * (self.height as int)) by (nonlinear_arith)
                        requires
                            0 <= y < self.height,
                            0 <= x < w,
                    ;
                    assert((y as int) * w == (y as usize) * wu);
                    assert((y as int) * w + (x as int) < plen);
                }
                let idx = (y as usize) * wu + (x as usize);
                proof {
                    lemma_fundamental_div_mod_converse(idx as int, w, y as int, x as int);
                }
                let p = self.pixels[idx];
                let q = over_pixel(p, color);
                self.pixels.set(idx, q);
                proof {
                    assert forall|i: int| 0 <= i < len implies #[trigger] self.pixels@[i] == (if in_box(
                        i,
                        w,
                        x0 as int,
                        y0 as int,
                        x1 as int,
                        y as int,
                    ) || (i / w == y && x0 <= i % w < x + 1) {
                        over(px0[i], color)
                    } else {
                        px0[i]
                    }) by {
                        if i != idx {
                            assert(i / w != y || i % w != x) by {
                                if i / w == y && i % w == x {
                                    vstd::arithmetic::div_mod::lemma_fundamental_div_mod(i, w);
                                    assert(i == w * (y as int) + (x as int));
                                    assert(w * (y as int) == (y as int) * w) by (nonlinear_arith);
                                }
                            }
                        }
                    }
                }
                x += 1;
            }
            proof {
                assert forall|i: int| 0 <= i < len implies #[trigger] self.pixels@[i] == (if in_box(
                    i,
                    w,
                    x0 as int,
                    y0 as int,
                    x1 as int,
                    y + 1,
                ) {
                    over(px0[i], color)
                } else {
                    px0[i]
                }) by {}
            }
            y += 1;
        }
    }

    /// Lays a colour over a rectangle: its edges rounded to the nearest
    /// pixel and clipped to the grid.
    pub fn fill_rect(&mut self, rect: Rect, color: Color)
        requires
            old(self).wf(),
        ensures
            final(self).wf(),
            final(self).width == old(self).width,
            final(self).height == old(self).height,
            final(self).pixels@ == spec_fill_rect(
                old(self).pixels@,
                old(self).width as int,
                old(self).height as int,
                rect,
                color,
            ),
    {
        let rx = round_wide(rect.x as i128);
        let ry = round_wide(rect.y as i128);
        let rx1 = round_wide(rect.x as i128 + rect.width as i128);
        let ry1 = round_wide(rect.y as i128 + rect.height as i128);
        let x0 = if rx > 0 {
            rx
        } else {
            0
        };
        let y0 = if ry > 0 {
            ry
        } else {
            0
        };
        let w = self.width as i64;
        let h = self.height as i64;
        let x1 = if rx1 < w {
            rx1
        } else {
            w
        };
        let y1 = if ry1 < h {
            ry1
        } else {
            h
        };
        self.fill_px(x0, y0, x1, y1, color);
    }
}

/// Whether every pixel has the form `0x00RRGGBB`.
pub open spec fn rgb_pixels(px: Seq<u32>) -> bool {
    forall|i: int| 0 <= i < px.len() ==> #[trigger] px[i] < 0x1000000
}

/// A packed colour has the form `0x00RRGGBB`.
pub proof fn lemma_pack_rgb(c: Color)
    ensures
        pack(c) < 0x1000000,
{
    assert(c.r * 65536 + c.g * 256 + c.b < 0x1000000) by (nonlinear_arith)
        requires
            c.r < 256,
            c.g < 256,
            c.b < 256,
    ;
}

/// Laying a colour over a pixel keeps the form `0x00RRGGBB`.
pub proof fn lemma_fill_rgb(px: Seq<u32>, w: int, x0: int, y0: int, x1: int, y1: int, c: Color)
    requires
        rgb_pixels(px),
    ensures
        rgb_pixels(spec_fill(px, w, x0, y0, x1, y1, c)),
        spec_fill(px, w, x0, y0, x1, y1, c).len() == px.len(),
{
    let q = spec_fill(px, w, x0, y0, x1, y1, c);
    assert forall|i: int| 0 <= i < q.len() implies #[trigger] q[i] < 0x1000000 by {
        assert(px[i] < 0x1000000);
        lemma_pack_rgb(c);
        let r = ((px[i] / 65536) % 256) as u8;
        let g = ((px[i] / 256) % 256) as u8;
        let b = (px[i] % 256) as u8;
        lemma_pack_rgb(Color { r: mix(c.r, r, c.a), g: mix(c.g, g, c.a), b: mix(c.b, b, c.a), a: 255 });
    }
}

/// Filling a rectangle keeps the form `0x00RRGGBB`.
pub proof fn lemma_fill_rect_rgb(px: Seq<u32>, w: int, h: int, r: Rect, c: Color)
    requires
        rgb_pixels(px),
    ensures
        rgb_pixels(spec_fill_rect(px, w, h, r, c)),
        spec_fill_rect(px, w, h, r, c).len() == px.len(),
{
    let x0 = if px_round(r.x as int) > 0 { px_round(r.x as int) } else { 0 };
    let y0 = if px_round(r.y as int) > 0 { px_round(r.y as int) } else { 0 };
    let x1 = if px_round(r.x + r.width) < w { px_round(r.x + r.width) } else { w };
    let y1 = if px_round(r.y + r.height) < h { px_round(r.y + r.height) } else { h };
    lemma_fill_rgb(px, w, x0, y0, x1, y1, c);
}

/// Painting a box keeps the form `0x00RRGGBB` and the number of pixels.
pub proof fn lemma_paint_box_rgb(px: Seq<u32>, w: int, h: int, b: BoxV, ptr: Option<(int, int)>)
    requires
        rgb_pixels(px),
    ensures
        rgb_pixels(paint_box(px, w, h, b, ptr)),
        paint_box(px, w, h, b, ptr).len() == px.len(),
    decreases b, 1int, 0int,
{
    let st = shown_style(b, ptr);
    let ls = b.style;
    let bb = b.border_box;
    lemma_fill_rect_rgb(px, w, h, bb, st.border_color);
    let p1 = if st.border_width > 0 && st.border_color.a > 0 {
        spec_fill_rect(px, w, h, bb, st.border_color)
    } else {
        px
    };
    lemma_fill_rect_rgb(p1, w, h, inset(bb, st.border_width as int), st.background);
    let p2 = if st.background.a > 0 {
        spec_fill_rect(p1, w, h, inset(bb, st.border_width as int), st.background)
    } else {
        p1
    };
    match b.text {
        Some(t) => {
            crate::text::lemma_paint_text_rgb(
                p2,
                w,
                h,
                t,
                clamp(clamp(bb.x + ls.border_width) + ls.padding),
                clamp(clamp(bb.y + ls.border_width) + ls.padding),
                ls.font_size as int,
                st.color,
            );
        },
        None => {},
    }
    let p3 = match b.text {
        Some(t) => spec_paint_text(
            p2,
            w,
            h,
            t,
            clamp(clamp(bb.x + ls.border_width) + ls.padding),
            clamp(clamp(bb.y + ls.border_width) + ls.padding),
            ls.font_size as int,
            st.color,
        ),
        None => p2,
    };
    lemma_paint_kids_rgb(p3, w, h, b, b.children.len() as int, ptr);
}

/// Painting children keeps the form `0x00RRGGBB` and the number of pixels.
pub proof fn lemma_paint_kids_rgb(px: Seq<u32>, w: int, h: int, b: BoxV, k: int, ptr: Option<(int, int)>)
    requires
        rgb_pixels(px),
    ensures
        rgb_pixels(paint_kids(px, w, h, b, k, ptr)),
        paint_kids(px, w, h, b, k, ptr).len() == px.len(),
    decreases b, 0int, k,
{
    if k <= 0 || k > b.children.len() {
    } else {
        lemma_paint_kids_rgb(px, w, h, b, k - 1, ptr);
        lemma_paint_box_rgb(paint_kids(px, w, h, b, k - 1, ptr), w, h, b.children[k - 1], ptr);
    }
}

// ---------------------------------------------------------------------------
// Laws of painting.
// ---------------------------------------------------------------------------

/// A transparent colour changes no pixel.
pub proof fn law_transparent_fill_changes_nothing(
    px: Seq<u32>,
    w: int,
    x0: int,
    y0: int,
    x1: int,
    y1: int,
    c: Color,
)
    requires
        c.a == 0,
    ensures
        spec_fill(px, w, x0, y0, x1, y1, c) == px,
{
    assert(spec_fill(px, w, x0, y0, x1, y1, c) =~= px);
}

/// Filling twice with an opaque colour is filling once.
pub proof fn law_opaque_fill_twice(px: Seq<u32>, w: int, x0: int, y0: int, x1: int, y1: int, c: Color)
    requires
        c.a == 255,
    ensures
        spec_fill(spec_fill(px, w, x0, y0, x1, y1, c), w, x0, y0, x1, y1, c) == spec_fill(
            px,
            w,
            x0,
            y0,
            x1,
            y1,
            c,
        ),
{
    assert(spec_fill(spec_fill(px, w, x0, y0, x1, y1, c), w, x0, y0, x1, y1, c) =~= spec_fill(
        px,
        w,
        x0,
        y0,
        x1,
        y1,
        c,
    ));
}

/// A mixed channel lies between the channel below and the one laid over it.
pub proof fn law_mix_between(top: u8, below: u8, a: u8)
    ensures
        (if top <= below {
            top
        } else {
            below
        }) <= mix(top, below, a) <= (if top <= below {
            below
        } else {
            top
        }),
{
    let t = top as int;
    let b = below as int;
    let aa = a as int;
    let num = t * aa + b * (255 - aa);
    let lo = if t <= b {
        t
    } else {
        b
    };
    let hi = if t <= b {
        b
    } else {
        t
    };
    assert(lo * 255 <= num <= hi * 255) by (nonlinear_arith)
        requires
            num == t * aa + b * (255 - aa),
            0 <= aa <= 255,
            lo <= t <= hi,
            lo <= b <= hi,
    ;
    assert(lo <= (num + 127) / 255 <= hi) by (nonlinear_arith)
        requires
            lo * 255 <= num <= hi * 255,
            0 <= lo,
            hi <= 255,
    ;
}

// ---------------------------------------------------------------------------
// Painting a tree of boxes.
// ---------------------------------------------------------------------------

/// A rectangle shrunk by `d` on every side.
pub open spec fn inset(r: Rect, d: int) -> Rect {
    Rect {
        x: clamp(r.x + d) as i64,
        y: clamp(r.y + d) as i64,
        width: max(clamp(r.width - dbl(d)), 0) as i64,
        height: max(clamp(r.height - dbl(d)), 0) as i64,
    }
}

/// Whether the pointer (in units) lies inside the box's border box.
pub open spec fn under(b: BoxV, ptr: Option<(int, int)>) -> bool {
    match ptr {
        Some((x, y)) => b.border_box.x <= x < b.border_box.x + b.border_box.width && b.border_box.y
            <= y < b.border_box.y + b.border_box.height,
        None => false,
    }
}

/// The style a box is painted in: its style under the pointer when the
/// pointer is over it and that style is known, else its style.
pub open spec fn shown_style(b: BoxV, ptr: Option<(int, int)>) -> ComputedStyle {
    match b.hover_style {
        Some(h) => if under(b, ptr) {
            h
        } else {
            b.style
        },
        None => b.style,
    }
}

/// The pixels with a box painted over them: its border (the whole border box
/// in the border colour), its background (inside the border), its text, and
/// then its children, each over the one before. Colours and the border come
/// from the style the box is shown in; the text keeps its place and size.
pub open spec fn paint_box(px: Seq<u32>, w: int, h: int, b: BoxV, ptr: Option<(int, int)>) -> Seq<u32>
    decreases b, 1int, 0int,
{
    let st = shown_style(b, ptr);
    let ls = b.style;
    let bb = b.border_box;
    let p1 = if st.border_width > 0 && st.border_color.a > 0 {
        spec_fill_rect(px, w, h, bb, st.border_color)
    } else {
        px
    };
    let p2 = if st.background.a > 0 {
        spec_fill_rect(p1, w, h, inset(bb, st.border_width as int), st.background)
    } else {
        p1
    };
    let p3 = match b.text {
        Some(t) => spec_paint_text(
            p2,
            w,
            h,
            t,
            clamp(clamp(bb.x + ls.border_width) + ls.padding),
            clamp(clamp(bb.y + ls.border_width) + ls.padding),
            ls.font_size as int,
            st.color,
        ),
        None => p2,
    };
    paint_kids(p3, w, h, b, b.children.len() as int, ptr)
}

/// The pixels with the first `k` children of a box painted, in order.
pub open spec fn paint_kids(px: Seq<u32>, w: int, h: int, b: BoxV, k: int, ptr: Option<(int, int)>) -> Seq<u32>
    decreases b, 0int, k,
{
    if k <= 0 || k > b.children.len() {
        px
    } else {
        paint_box(paint_kids(px, w, h, b, k - 1, ptr), w, h, b.children[k - 1], ptr)
    }
}

/// The value of an optional pointer.
pub open spec fn ptr_v(p: Option<(i64, i64)>) -> Option<(int, int)> {
    match p {
        Some((x, y)) => Some((x as int, y as int)),
        None => None,
    }
}

/// Paints a box and its descendants: parents first, so that children lie
/// over them.
fn paint_box_exec(canvas: &mut Canvas, b: &LayoutBox, font: &BitmapFont, pointer: Option<(i64, i64)>)
    requires
        old(canvas).wf(),
        box_ok(b@),
    ensures
        final(canvas).wf(),
        final(canvas).width == old(canvas).width,
        final(canvas).height == old(canvas).height,
        final(canvas).pixels@ == paint_box(
            old(canvas).pixels@,
            old(canvas).width as int,
            old(canvas).height as int,
            b@,
            ptr_v(pointer),
        ),
    decreases b@, 1int, 0int,
{
    proof {
        lemma_box_view(*b);
    }
    let ghost w = canvas.width as int;
    let ghost h = canvas.height as int;
    let bb = b.border_box;
    let over_box = match pointer {
        Some((x, y)) => bb.x <= x && x < bb.x + bb.width && bb.y <= y && y < bb.y + bb.height,
        None => false,
    };
    let st = match b.hover_style {
        Some(hs) => if over_box {
            hs
        } else {
            b.style
        },
        None => b.style,
    };
    let ls = b.style;
    if st.border_width > 0 && st.border_color.a > 0 {
        canvas.fill_rect(bb, st.border_color);
    }
    if st.background.a > 0 {
        let d = st.border_width;
        let inner = Rect {
            x: add_len(bb.x, d),
            y: add_len(bb.y, d),
            width: max_len(sub_len(bb.width, mul_len(d, 2)), 0),
            height: max_len(sub_len(bb.height, mul_len(d, 2)), 0),
        };
        canvas.fill_rect(inner, st.background);
    }
    match &b.text {
        Some(t) => {
            let ox = add_len(add_len(bb.x, ls.border_width), ls.padding);
            let oy = add_len(add_len(bb.y, ls.border_width), ls.padding);
            paint_text(canvas, t, ox, oy, font, ls.font_size, st.color);
        },
        None => {},
    }
    let n = b.children.len();
    let ghost p3 = canvas.pixels@;
    let mut i: usize = 0;
    while i < n
        invariant
            i <= n == b.children@.len() == b@.children.len(),
            b@.children == boxes_v(b.children@),
            box_ok(b@),
            canvas.wf(),
            canvas.width == w,
            canvas.height == h,
            canvas.pixels@ == paint_kids(p3, w, h, b@, i as int, ptr_v(pointer)),
        decreases n - i,
    {
        assert(b@.children[i as int] == b.children@[i as int]@);
        assert(box_ok(b@.children[i as int]));
        paint_box_exec(canvas, &b.children[i], font, pointer);
        i += 1;
    }
}

/// Paints a laid-out tree of boxes in the bitmap font: each box's border,
/// background and text, then its children over it. A box under the pointer
/// (in units) that knows its style under the pointer is shown in it.
pub fn paint(canvas: &mut Canvas, root: &LayoutBox, font: &BitmapFont, pointer: Option<(i64, i64)>)
    requires
        old(canvas).wf(),
        box_ok(root@),
    ensures
        final(canvas).wf(),
        final(canvas).width == old(canvas).width,
        final(canvas).height == old(canvas).height,
        final(canvas).pixels@ == paint_box(
            old(canvas).pixels@,
            old(canvas).width as int,
            old(canvas).height as int,
            root@,
            ptr_v(pointer),
        ),
{
    paint_box_exec(canvas, root, font, pointer);
}

} // verus!
