//! The whole pipeline in one call: CSS text and a document become pixels.
//!
//! ```text
//!   1. css     text -> rules            (parsing)
//!   2. style   rules -> computed styles (the cascade)
//!   3. layout  styles -> boxes          (box model, wrapping)
//!   4. paint   boxes -> pixels
//! ```

use vstd::prelude::*;

use crate::color::Color;
use crate::dom::{Node, NodeV};
use crate::font::BitmapFont;
use crate::layout::{layout_root, spec_layout_tree};
use crate::paint::{lemma_paint_box_rgb, paint, paint_box, ptr_v, rgb_pixels, Canvas};

verus! {

/// A canvas of `w` by `h` white pixels.
pub open spec fn white_pixels(w: nat, h: nat) -> Seq<u32> {
    Seq::new(w * h, |i: int| 16777215u32)
}

/// The pixels of a document drawn with a stylesheet on a white canvas of
/// `w` by `h` pixels, in the bitmap font, with the pointer (in units of 1/64
/// pixel) if there is one: boxes under it are shown in their `:hover` style.
pub open spec fn spec_render(root: NodeV, css: Seq<char>, w: nat, h: nat, ptr: Option<(int, int)>) -> Seq<u32> {
    paint_box(
        white_pixels(w, h),
        w as int,
        h as int,
        spec_layout_tree(root, crate::css::spec_parse(css), (w * 64) as int, (h * 64) as int, ptr is Some),
        ptr,
    )
}

/// Draws a document with CSS on a white canvas of `width` by `height`
/// pixels, in the built-in bitmap font.
pub fn render(root: &Node, css: &str, width: u32, height: u32) -> (c: Canvas)
    requires
        width * height <= usize::MAX,
    ensures
        c.wf(),
        c.width == width,
        c.height == height,
        c.pixels@ == spec_render(root@, css@, width as nat, height as nat, None),
{
    render_with_font(root, css, width, height, &BitmapFont)
}

/// Draws a document with CSS on a white canvas of `width` by `height`
/// pixels, in the given font.
pub fn render_with_font(root: &Node, css: &str, width: u32, height: u32, font: &BitmapFont) -> (c: Canvas)
    requires
        width * height <= usize::MAX,
    ensures
        c.wf(),
        c.width == width,
        c.height == height,
        c.pixels@ == spec_render(root@, css@, width as nat, height as nat, None),
{
    render_core(root, css, width, height, font, None)
}

/// Draws a document; with a pointer (in units of 1/64 pixel), boxes under it are shown in
/// their `:hover` style.
fn render_core(
    root: &Node,
    css: &str,
    width: u32,
    height: u32,
    font: &BitmapFont,
    pointer: Option<(i64, i64)>,
) -> (c: Canvas)
    requires
        width * height <= usize::MAX,
    ensures
        c.wf(),
        c.width == width,
        c.height == height,
        c.pixels@ == spec_render(root@, css@, width as nat, height as nat, ptr_v(pointer)),
{
    let sheet = crate::css::parse(css);
    let lb = layout_root(root, &sheet, width as i64 * 64, height as i64 * 64, font, pointer.is_some());
    let white = Color::white();
    let mut canvas = Canvas::new(width, height, white);
    assert(canvas.pixels@ =~= white_pixels(width as nat, height as nat));
    paint(&mut canvas, &lb, font, pointer);
    canvas
}

/// Draws HTML with CSS on a white canvas of `width` by `height` pixels, in
/// the built-in bitmap font.
pub fn render_html(html: &str, css: &str, width: u32, height: u32) -> (c: Canvas)
    requires
        width * height <= usize::MAX,
    ensures
        c.wf(),
        c.width == width,
        c.height == height,
        c.pixels@ == spec_render(crate::html::spec_parse(html@), css@, width as nat, height as nat, None),
{
    let root = crate::html::parse(html);
    render(&root, css, width, height)
}

/// Draws HTML with CSS on a white canvas of `width` by `height` pixels, in
/// the given font.
pub fn render_html_with_font(html: &str, css: &str, width: u32, height: u32, font: &BitmapFont) -> (c: Canvas)
    requires
        width * height <= usize::MAX,
    ensures
        c.wf(),
        c.width == width,
        c.height == height,
        c.pixels@ == spec_render(crate::html::spec_parse(html@), css@, width as nat, height as nat, None),
{
    let root = crate::html::parse(html);
    render_with_font(&root, css, width, height, font)
}

/// Draws HTML with CSS on a white canvas of `width` by `height` pixels, in
/// the given font; with a pointer (in units of 1/64 pixel), boxes under it are shown in
/// their `:hover` style.
pub fn render_html_with_font_hover(
    html: &str,
    css: &str,
    width: u32,
    height: u32,
    font: &BitmapFont,
    pointer: Option<(i64, i64)>,
) -> (c: Canvas)
    requires
        width * height <= usize::MAX,
    ensures
        c.wf(),
        c.width == width,
        c.height == height,
        c.pixels@ == spec_render(
            crate::html::spec_parse(html@),
            css@,
            width as nat,
            height as nat,
            ptr_v(pointer),
        ),
{
    let root = crate::html::parse(html);
    render_core(&root, css, width, height, font, pointer)
}

/// Every pixel drawn has the form `0x00RRGGBB`, and there are `w * h` of them.
pub proof fn law_render_pixels_rgb(root: NodeV, css: Seq<char>, w: nat, h: nat, ptr: Option<(int, int)>)
    ensures
        spec_render(root, css, w, h, ptr).len() == w * h,
        forall|i: int|
            0 <= i < w * h ==> #[trigger] spec_render(root, css, w, h, ptr)[i] < 0x1000000,
{
    let px = white_pixels(w, h);
    assert(rgb_pixels(px));
    lemma_paint_box_rgb(
        px,
        w as int,
        h as int,
        spec_layout_tree(root, crate::css::spec_parse(css), (w * 64) as int, (h * 64) as int, ptr is Some),
        ptr,
    );
}

} // verus!
