# makecss core

A small CSS engine that draws native UI from CSS text, verified with Verus.
Given an element tree (or HTML) and CSS, it returns a canvas of pixels:

```text
  1. css     CSS text -> rules            (src/css.rs)
  2. style   rules -> computed styles     (src/style.rs)
  3. layout  styles -> boxes              (src/layout.rs, src/text.rs)
  4. paint   boxes -> pixels              (src/paint.rs)
```

`src/pipeline.rs` runs the four stages (`render`, `render_html`, and
`render_html_with_font_hover`, which draws the boxes under a pointer in
their `:hover` style);
`src/html.rs` reads markup into the element tree (`src/dom.rs`);
`src/color.rs` and `src/number.rs` read colours and numbers;
`src/font.rs` is the built-in 5x7 bitmap font; `src/truetype.rs` reads
TrueType files (tables, character map, advances, outlines); `src/bmp.rs`
encodes a canvas as a 24-bit BMP image.

Lengths, and the hover pointer, are fixed point, in units of 1/64 pixel,
clamped to 2^40 units (2^34 pixels).
Each stage is stated as a mathematical function and the code is proved to
compute it; `law_*` proof functions state properties of the whole (the
cascade, inheritance, wrapping, filling).

`app/` holds the window demo (winit and softbuffer; `--snapshot` saves a
BMP instead of opening a window) and the rasterizer for TrueType outlines,
which works in floating point.
