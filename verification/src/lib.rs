//! A small CSS engine that draws native UI from CSS text: the core, which
//! knows nothing of windows or input. It only does the work:
//!
//! ```text
//!   CSS text + element tree  -->  pixels (Canvas)
//! ```
//!
//! Inside, a pipeline of four stages, one module each:
//!
//! ```text
//!   1. css     text -> rules             (parsing)
//!   2. style   rules -> computed styles  (the cascade)
//!   3. layout  styles -> boxes           (box model, text wrapping)
//!   4. paint   boxes -> pixels
//! ```
//!
//! Text is drawn in the built-in 5x7 bitmap font. Lengths are held in fixed
//! point, in units of 1/64 pixel.

pub mod chars;
pub mod css;
pub mod dom;
pub mod html;
pub mod number;
pub mod color;
pub mod style;
pub mod paint;
pub mod font;
pub mod fixed;
pub mod text;
pub mod layout;
pub mod pipeline;
pub mod truetype;
pub mod bmp;

pub use color::Color;
pub use dom::Node;
pub use font::BitmapFont;
pub use paint::Canvas;
pub use pipeline::{
    render, render_html, render_html_with_font, render_html_with_font_hover, render_with_font,
};
