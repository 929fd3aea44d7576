//! Style matching and the cascade: the rules of a stylesheet are applied to
//! an element of the document, giving its computed style, the one value of
//! each property that layout and painting read.
//!
//! Several rules can match one element. The more specific selector wins:
//!
//! ```text
//!   *       (universal)  0
//!   div     (type)       1
//!   .card   (class)     10
//!   :hover  (state)    +10
//! ```
//!
//! At equal specificity the later rule wins. Lengths are held in fixed point,
//! in units of 1/64 pixel.

use vstd::prelude::*;

use crate::chars::{collect_all, slice_of, to_chars, trim_bounds};
use crate::color::{parse_chars, spec_parse_color, trimmed, Color};
use crate::css::{
    DeclarationV, Declaration, RuleV, SelectorV, Selector, SimpleSelector, SimpleSelectorV,
    Stylesheet,
};
use crate::dom::{Node, NodeV, strings_v};
use crate::html::{split_words, words};
use crate::number::{parse_units, spec_units, spec_float, units_of, FloatV, capped, len_max};
use crate::fixed::bounded;

verus! {

/// Horizontal alignment of text: the value of `text-align`.
#[derive(Debug, Clone, Copy, PartialEq, Eq, Structural)]
pub enum TextAlign {
    Left,
    Center,
    Right,
}

/// How an element lays out its children: the value of `display`.
#[derive(Debug, Clone, Copy, PartialEq, Eq, Structural)]
pub enum Display {
    /// Children stacked from top to bottom.
    Block,
    /// Children in one line, across or down.
    Flex,
    /// The element and its children are not drawn at all.
    Hidden,
}

/// How an element is placed: the value of `position`.
#[derive(Debug, Clone, Copy, PartialEq, Eq, Structural)]
pub enum Position {
    /// In the normal flow.
    Static,
    /// In the normal flow, then moved by its offsets.
    Relative,
    /// Out of the flow, placed against the nearest positioned ancestor.
    Absolute,
    /// Out of the flow, placed against the viewport.
    Fixed,
}

/// The main axis of a flex container.
#[derive(Debug, Clone, Copy, PartialEq, Eq, Structural)]
pub enum FlexDirection {
    Row,
    Column,
}

/// Placement along the main axis: `justify-content`.
#[derive(Debug, Clone, Copy, PartialEq, Eq, Structural)]
pub enum Justify {
    Start,
    Center,
    End,
    SpaceBetween,
    SpaceAround,
}

/// Placement along the cross axis: `align-items`.
#[derive(Debug, Clone, Copy, PartialEq, Eq, Structural)]
pub enum AlignItems {
    Start,
    Center,
    End,
    /// Stretched to fill the cross axis (the default).
    Stretch,
}

/// The final style of one element, every conflict settled. Lengths are in
/// units of 1/64 pixel.
#[derive(Debug, Clone, Copy)]
pub struct ComputedStyle {
    /// Width of the content area; `None` fills the parent.
    pub width: Option<i64>,
    /// Height of the content area; `None` fits the content.
    pub height: Option<i64>,
    /// Space between the border and the content, on every side.
    pub padding: i64,
    /// Space outside the border, on every side.
    pub margin: i64,
    pub border_width: i64,
    pub border_color: Color,
    /// Background colour; transparent by default.
    pub background: Color,
    /// Text colour.
    pub color: Color,
    pub font_size: i64,
    pub text_align: TextAlign,
    pub display: Display,
    pub position: Position,
    /// Offsets from each side, when positioned.
    pub top: Option<i64>,
    pub right: Option<i64>,
    pub bottom: Option<i64>,
    pub left: Option<i64>,
    pub flex_direction: FlexDirection,
    pub justify_content: Justify,
    pub align_items: AlignItems,
    /// Space between the children of a flex container.
    pub gap: i64,
    /// Share of the free main-axis space that a flex child takes, in units of 1/64.
    pub flex_grow: i64,
}

/// The style of an element that no rule touches.
pub open spec fn default_style() -> ComputedStyle {
    ComputedStyle {
        width: None,
        height: None,
        padding: 0,
        margin: 0,
        border_width: 0,
        border_color: Color { r: 0, g: 0, b: 0, a: 255 },
        background: Color { r: 0, g: 0, b: 0, a: 0 },
        color: Color { r: 0, g: 0, b: 0, a: 255 },
        font_size: 1024,
        text_align: TextAlign::Left,
        display: Display::Block,
        position: Position::Static,
        top: None,
        right: None,
        bottom: None,
        left: None,
        flex_direction: FlexDirection::Row,
        justify_content: Justify::Start,
        align_items: AlignItems::Stretch,
        gap: 0,
        flex_grow: 0,
    }
}

impl Default for ComputedStyle {
    fn default() -> (s: Self)
        ensures
            s == default_style(),
    {
        ComputedStyle {
            width: None,
            height: None,
            padding: 0,
            margin: 0,
            border_width: 0,
            border_color: Color::black(),
            background: Color::transparent(),
            color: Color::black(),
            font_size: 1024,
            text_align: TextAlign::Left,
            display: Display::Block,
            position: Position::Static,
            top: None,
            right: None,
            bottom: None,
            left: None,
            flex_direction: FlexDirection::Row,
            justify_content: Justify::Start,
            align_items: AlignItems::Stretch,
            gap: 0,
            flex_grow: 0,
        }
    }
}

// ---------------------------------------------------------------------------
// Values of declarations.
// ---------------------------------------------------------------------------

/// The text without a trailing `px`.
pub open spec fn strip_px(t: Seq<char>) -> Seq<char> {
    if t.len() >= 2 && t[t.len() - 2] == 'p' && t[t.len() - 1] == 'x' {
        t.subrange(0, t.len() - 2)
    } else {
        t
    }
}

/// A length such as `10px` or `10`, in units of 1/64 pixel: white space
/// trimmed, an optional `px` dropped, the rest read as a number.
pub open spec fn spec_parse_length(value: Seq<char>) -> Option<i64> {
    spec_units(trimmed(strip_px(trimmed(value))))
}

/// The number that the first white-space separated word of `v` stands for.
pub open spec fn first_word_number(v: Seq<char>) -> Option<i64> {
    let w = words(v, 0);
    if w.len() > 0 {
        spec_units(w[0])
    } else {
        None
    }
}

/// A length that replaces the old one when it is read.
pub open spec fn length_or(v: Seq<char>, old: i64) -> i64 {
    match spec_parse_length(v) {
        Some(u) => u,
        None => old,
    }
}

/// An optional length that replaces the old one when it is read.
pub open spec fn opt_length_or(v: Seq<char>, old: Option<i64>) -> Option<i64> {
    match spec_parse_length(v) {
        Some(u) => Some(u),
        None => old,
    }
}

/// A colour that replaces the old one when it is read.
pub open spec fn color_or(v: Seq<char>, old: Color) -> Color {
    match spec_parse_color(v) {
        Some(c) => c,
        None => old,
    }
}

/// The style with one declaration applied. An unknown property, or a value
/// that is not read, leaves the style as it is.
pub open spec fn spec_apply(s: ComputedStyle, d: DeclarationV) -> ComputedStyle {
    let p = d.property;
    let v = trimmed(d.value);
    if p == "width"@ {
        ComputedStyle { width: opt_length_or(v, s.width), ..s }
    } else if p == "height"@ {
        ComputedStyle { height: opt_length_or(v, s.height), ..s }
    } else if p == "padding"@ {
        ComputedStyle { padding: length_or(v, s.padding), ..s }
    } else if p == "margin"@ {
        ComputedStyle { margin: length_or(v, s.margin), ..s }
    } else if p == "border-width"@ {
        ComputedStyle { border_width: length_or(v, s.border_width), ..s }
    } else if p == "border-color"@ {
        ComputedStyle { border_color: color_or(v, s.border_color), ..s }
    } else if p == "background"@ || p == "background-color"@ {
        ComputedStyle { background: color_or(v, s.background), ..s }
    } else if p == "color"@ {
        ComputedStyle { color: color_or(v, s.color), ..s }
    } else if p == "font-size"@ {
        ComputedStyle { font_size: length_or(v, s.font_size), ..s }
    } else if p == "text-align"@ {
        ComputedStyle {
            text_align: if v == "center"@ {
                TextAlign::Center
            } else if v == "right"@ {
                TextAlign::Right
            } else {
                TextAlign::Left
            },
            ..s
        }
    } else if p == "display"@ {
        ComputedStyle {
            display: if v == "flex"@ {
                Display::Flex
            } else if v == "none"@ {
                Display::Hidden
            } else {
                Display::Block
            },
            ..s
        }
    } else if p == "position"@ {
        ComputedStyle {
            position: if v == "relative"@ {
                Position::Relative
            } else if v == "absolute"@ {
                Position::Absolute
            } else if v == "fixed"@ {
                Position::Fixed
            } else {
                Position::Static
            },
            ..s
        }
    } else if p == "top"@ {
        ComputedStyle { top: opt_length_or(v, s.top), ..s }
    } else if p == "right"@ {
        ComputedStyle { right: opt_length_or(v, s.right), ..s }
    } else if p == "bottom"@ {
        ComputedStyle { bottom: opt_length_or(v, s.bottom), ..s }
    } else if p == "left"@ {
        ComputedStyle { left: opt_length_or(v, s.left), ..s }
    } else if p == "flex-direction"@ {
        ComputedStyle {
            flex_direction: if v == "column"@ {
                FlexDirection::Column
            } else {
                FlexDirection::Row
            },
            ..s
        }
    } else if p == "justify-content"@ {
        ComputedStyle {
            justify_content: if v == "center"@ {
                Justify::Center
            } else if v == "flex-end"@ || v == "end"@ {
                Justify::End
            } else if v == "space-between"@ {
                Justify::SpaceBetween
            } else if v == "space-around"@ {
                Justify::SpaceAround
            } else {
                Justify::Start
            },
            ..s
        }
    } else if p == "align-items"@ {
        ComputedStyle {
            align_items: if v == "center"@ {
                AlignItems::Center
            } else if v == "flex-end"@ || v == "end"@ {
                AlignItems::End
            } else if v == "flex-start"@ || v == "start"@ {
                AlignItems::Start
            } else {
                AlignItems::Stretch
            },
            ..s
        }
    } else if p == "gap"@ {
        ComputedStyle { gap: length_or(v, s.gap), ..s }
    } else if p == "flex-grow"@ {
        ComputedStyle {
            flex_grow: match spec_units(v) {
                Some(g) => g,
                None => s.flex_grow,
            },
            ..s
        }
    } else if p == "flex"@ {
        ComputedStyle {
            flex_grow: match first_word_number(v) {
                Some(g) => g,
                None => s.flex_grow,
            },
            ..s
        }
    } else {
        s
    }
}

// ---------------------------------------------------------------------------
// Executable parts of the values.
// ---------------------------------------------------------------------------

/// Whether the characters are those of the word.
fn is_word(v: &Vec<char>, w: &str) -> (b: bool)
    ensures
        b == (v@ == w@),
{
    let s = collect_all(v);
    let t = w.to_owned();
    s == t
}

/// Whether the string is the word.
fn string_is(s: &String, w: &str) -> (b: bool)
    ensures
        b == (s@ == w@),
{
    let t = w.to_owned();
    *s == t
}

/// The characters of `v` with white space trimmed on both ends.
fn trim_chars(v: &Vec<char>) -> (r: Vec<char>)
    ensures
        r@ == trimmed(v@),
{
    let (a, e) = trim_bounds(v, 0, v.len());
    slice_of(v, a, e)
}

/// Reads a length such as `10px` or `10`, in units of 1/64 pixel.
pub fn parse_length(value: &str) -> (r: Option<i64>)
    ensures
        r == spec_parse_length(value@),
{
    let v = to_chars(value);
    length_of_chars(&v)
}

/// Reads a length from characters.
fn length_of_chars(v: &Vec<char>) -> (r: Option<i64>)
    ensures
        r == spec_parse_length(v@),
{
    let t = trim_chars(v);
    let n = t.len();
    let u = if n >= 2 && t[n - 2] == 'p' && t[n - 1] == 'x' {
        slice_of(&t, 0, n - 2)
    } else {
        assert(t@.subrange(0, n as int) =~= t@);
        slice_of(&t, 0, n)
    };
    let w = trim_chars(&u);
    parse_units(&w)
}

/// Applies one declaration to the style.
pub fn apply_declaration(style: &mut ComputedStyle, decl: &Declaration)
    ensures
        *final(style) == spec_apply(*old(style), decl@),
{
    let raw = to_chars(&decl.value);
    let v = trim_chars(&raw);
    let p = &decl.property;
    if string_is(p, "width") {
        if let Some(u) = length_of_chars(&v) {
            style.width = Some(u);
        }
    } else if string_is(p, "height") {
        if let Some(u) = length_of_chars(&v) {
            style.height = Some(u);
        }
    } else if string_is(p, "padding") {
        if let Some(u) = length_of_chars(&v) {
            style.padding = u;
        }
    } else if string_is(p, "margin") {
        if let Some(u) = length_of_chars(&v) {
            style.margin = u;
        }
    } else if string_is(p, "border-width") {
        if let Some(u) = length_of_chars(&v) {
            style.border_width = u;
        }
    } else if string_is(p, "border-color") {
        if let Some(c) = parse_chars(&v) {
            style.border_color = c;
        }
    } else if string_is(p, "background") || string_is(p, "background-color") {
        if let Some(c) = parse_chars(&v) {
            style.background = c;
        }
    } else if string_is(p, "color") {
        if let Some(c) = parse_chars(&v) {
            style.color = c;
        }
    } else if string_is(p, "font-size") {
        if let Some(u) = length_of_chars(&v) {
            style.font_size = u;
        }
    } else if string_is(p, "text-align") {
        style.text_align = if is_word(&v, "center") {
            TextAlign::Center
        } else if is_word(&v, "right") {
            TextAlign::Right
        } else {
            TextAlign::Left
        };
    } else if string_is(p, "display") {
        style.display = if is_word(&v, "flex") {
            Display::Flex
        } else if is_word(&v, "none") {
            Display::Hidden
        } else {
            Display::Block
        };
    } else if string_is(p, "position") {
        style.position = if is_word(&v, "relative") {
            Position::Relative
        } else if is_word(&v, "absolute") {
            Position::Absolute
        } else if is_word(&v, "fixed") {
            Position::Fixed
        } else {
            Position::Static
        };
    } else if string_is(p, "top") {
        if let Some(u) = length_of_chars(&v) {
            style.top = Some(u);
        }
    } else if string_is(p, "right") {
        if let Some(u) = length_of_chars(&v) {
            style.right = Some(u);
        }
    } else if string_is(p, "bottom") {
        if let Some(u) = length_of_chars(&v) {
            style.bottom = Some(u);
        }
    } else if string_is(p, "left") {
        if let Some(u) = length_of_chars(&v) {
            style.left = Some(u);
        }
    } else if string_is(p, "flex-direction") {
        style.flex_direction = if is_word(&v, "column") {
            FlexDirection::Column
        } else {
            FlexDirection::Row
        };
    } else if string_is(p, "justify-content") {
        style.justify_content = if is_word(&v, "center") {
            Justify::Center
        } else if is_word(&v, "flex-end") || is_word(&v, "end") {
            Justify::End
        } else if is_word(&v, "space-between") {
            Justify::SpaceBetween
        } else if is_word(&v, "space-around") {
            Justify::SpaceAround
        } else {
            Justify::Start
        };
    } else if string_is(p, "align-items") {
        style.align_items = if is_word(&v, "center") {
            AlignItems::Center
        } else if is_word(&v, "flex-end") || is_word(&v, "end") {
            AlignItems::End
        } else if is_word(&v, "flex-start") || is_word(&v, "start") {
            AlignItems::Start
        } else {
            AlignItems::Stretch
        };
    } else if string_is(p, "gap") {
        if let Some(u) = length_of_chars(&v) {
            style.gap = u;
        }
    } else if string_is(p, "flex-grow") {
        if let Some(g) = parse_units(&v) {
            style.flex_grow = g;
        }
    } else if string_is(p, "flex") {
        let ws = split_words(&v);
        if ws.len() > 0 {
            let first = to_chars(ws[0].as_str());
            assert(first@ == words(v@, 0)[0]);
            if let Some(g) = parse_units(&first) {
                style.flex_grow = g;
            }
        }
    }
}

// ---------------------------------------------------------------------------
// Matching and the cascade.
// ---------------------------------------------------------------------------

/// Whether a simple selector picks the element.
pub open spec fn simple_matches(n: NodeV, s: SimpleSelectorV) -> bool {
    match s {
        SimpleSelectorV::Universal => true,
        SimpleSelectorV::Type(t) => n.tag == t,
        SimpleSelectorV::Class(c) => n.classes.contains(c),
    }
}

/// Whether a selector picks the element: `:hover` only while hovering.
pub open spec fn selector_matches(n: NodeV, sel: SelectorV, hovering: bool) -> bool {
    simple_matches(n, sel.simple) && (!sel.hover || hovering)
}

/// The specificity of a selector: 0 for `*`, 1 for a tag, 10 for a class,
/// and 10 more for `:hover`.
pub open spec fn score(sel: SelectorV) -> nat {
    (match sel.simple {
        SimpleSelectorV::Universal => 0nat,
        SimpleSelectorV::Type(_) => 1nat,
        SimpleSelectorV::Class(_) => 10nat,
    }) + if sel.hover {
        10nat
    } else {
        0nat
    }
}

/// The highest specificity among the selectors that pick the element.
pub open spec fn best_score(n: NodeV, sels: Seq<SelectorV>, hovering: bool) -> Option<nat>
    decreases sels.len(),
{
    if sels.len() == 0 {
        None
    } else {
        let rest = best_score(n, sels.drop_last(), hovering);
        let last = sels.last();
        if selector_matches(n, last, hovering) {
            match rest {
                Some(b) => Some(
                    if b >= score(last) {
                        b
                    } else {
                        score(last)
                    },
                ),
                None => Some(score(last)),
            }
        } else {
            rest
        }
    }
}

/// The style with the declarations applied in order.
pub open spec fn apply_all(s: ComputedStyle, ds: Seq<DeclarationV>) -> ComputedStyle
    decreases ds.len(),
{
    if ds.len() == 0 {
        s
    } else {
        spec_apply(apply_all(s, ds.drop_last()), ds.last())
    }
}

/// The style with the declarations of the rules whose best specificity is
/// `level` applied, in the order of the rules.
pub open spec fn apply_level(
    s: ComputedStyle,
    rules: Seq<RuleV>,
    n: NodeV,
    hovering: bool,
    level: nat,
) -> ComputedStyle
    decreases rules.len(),
{
    if rules.len() == 0 {
        s
    } else {
        let prev = apply_level(s, rules.drop_last(), n, hovering, level);
        if best_score(n, rules.last().selectors, hovering) == Some(level) {
            apply_all(prev, rules.last().declarations)
        } else {
            prev
        }
    }
}

/// The starting style of an element: the parent's colour, font size and
/// text alignment (the inherited properties), and defaults for the rest.
pub open spec fn inherited_start(parent: ComputedStyle) -> ComputedStyle {
    ComputedStyle {
        color: parent.color,
        font_size: parent.font_size,
        text_align: parent.text_align,
        ..default_style()
    }
}

/// The computed style of an element: from its inherited start, the matching
/// rules applied from the least to the most specific (specificity is always
/// 0, 1, 10, 11 or 20), and at equal specificity in the order of the text.
pub open spec fn spec_compute_style(
    n: NodeV,
    rules: Seq<RuleV>,
    parent: ComputedStyle,
    hovering: bool,
) -> ComputedStyle {
    let s0 = inherited_start(parent);
    let s1 = apply_level(s0, rules, n, hovering, 0);
    let s2 = apply_level(s1, rules, n, hovering, 1);
    let s3 = apply_level(s2, rules, n, hovering, 10);
    let s4 = apply_level(s3, rules, n, hovering, 11);
    apply_level(s4, rules, n, hovering, 20)
}

/// Whether the element carries the class.
fn has_class(node: &Node, name: &String) -> (b: bool)
    ensures
        b == node@.classes.contains(name@),
{
    proof {
        crate::dom::lemma_node_view(*node);
    }
    let n = node.classes.len();
    let mut i: usize = 0;
    while i < n
        invariant
            i <= n == node.classes@.len(),
            node@.classes == strings_v(node.classes@),
            forall|k: int| 0 <= k < i ==> node@.classes[k] != name@,
        decreases n - i,
    {
        if node.classes[i] == *name {
            assert(node@.classes[i as int] == name@);
            return true;
        }
        i += 1;
    }
    false
}

/// Whether the selector picks the element.
fn matches(node: &Node, selector: &Selector, hovering: bool) -> (b: bool)
    ensures
        b == selector_matches(node@, selector@, hovering),
{
    proof {
        crate::dom::lemma_node_view(*node);
    }
    let simple_ok = match &selector.simple {
        SimpleSelector::Universal => true,
        SimpleSelector::Type(name) => node.tag == *name,
        SimpleSelector::Class(name) => has_class(node, name),
    };
    simple_ok && (!selector.hover || hovering)
}

/// The specificity of a selector.
fn specificity(selector: &Selector) -> (r: u32)
    ensures
        r == score(selector@),
{
    let base: u32 = match &selector.simple {
        SimpleSelector::Universal => 0,
        SimpleSelector::Type(_) => 1,
        SimpleSelector::Class(_) => 10,
    };
    base + if selector.hover {
        10
    } else {
        0
    }
}

/// The best specificity among the selectors that pick the element.
fn best_of(node: &Node, sels: &Vec<Selector>, hovering: bool) -> (r: Option<u32>)
    ensures
        match r {
            Some(v) => best_score(node@, crate::css::selectors_v(sels@), hovering) == Some(v as nat),
            None => best_score(node@, crate::css::selectors_v(sels@), hovering) is None,
        },
{
    let mut best: Option<u32> = None;
    let n = sels.len();
    let mut i: usize = 0;
    while i < n
        invariant
            i <= n == sels@.len(),
            best matches Some(v) ==> v <= 20,
            match best {
                Some(v) => best_score(node@, crate::css::selectors_v(sels@.take(i as int)), hovering)
                    == Some(v as nat),
                None => best_score(node@, crate::css::selectors_v(sels@.take(i as int)), hovering) is None,
            },
        decreases n - i,
    {
        proof {
            assert(crate::css::selectors_v(sels@.take(i + 1)).drop_last() =~= crate::css::selectors_v(
                sels@.take(i as int),
            ));
            assert(crate::css::selectors_v(sels@.take(i + 1)).last() == sels@[i as int]@);
        }
        if matches(node, &sels[i], hovering) {
            let sc = specificity(&sels[i]);
            best = match best {
                Some(b) => Some(
                    if b >= sc {
                        b
                    } else {
                        sc
                    },
                ),
                None => Some(sc),
            };
        }
        i += 1;
    }
    assert(sels@.take(n as int) =~= sels@);
    best
}

/// Whether any of the selectors picks the element.
pub fn matches_any(node: &Node, sels: &Vec<Selector>, hovering: bool) -> (b: bool)
    ensures
        b == (best_score(node@, crate::css::selectors_v(sels@), hovering) is Some),
{
    best_of(node, sels, hovering).is_some()
}

/// Applies the declarations in order.
fn apply_declarations(style: &mut ComputedStyle, ds: &Vec<Declaration>)
    ensures
        *final(style) == apply_all(*old(style), crate::css::declarations_v(ds@)),
{
    let n = ds.len();
    let mut i: usize = 0;
    while i < n
        invariant
            i <= n == ds@.len(),
            *style == apply_all(*old(style), crate::css::declarations_v(ds@.take(i as int))),
        decreases n - i,
    {
        proof {
            assert(crate::css::declarations_v(ds@.take(i + 1)).drop_last() =~= crate::css::declarations_v(
                ds@.take(i as int),
            ));
            assert(crate::css::declarations_v(ds@.take(i + 1)).last() == ds@[i as int]@);
        }
        apply_declaration(style, &ds[i]);
        i += 1;
    }
    assert(ds@.take(n as int) =~= ds@);
}

/// Applies the rules whose best specificity is `level`, in order.
fn apply_level_exec(
    style: &mut ComputedStyle,
    node: &Node,
    sheet: &Stylesheet,
    hovering: bool,
    level: u32,
)
    ensures
        *final(style) == apply_level(*old(style), sheet@, node@, hovering, level as nat),
{
    let n = sheet.rules.len();
    let mut i: usize = 0;
    while i < n
        invariant
            i <= n == sheet.rules@.len(),
            *style == apply_level(
                *old(style),
                crate::css::rules_v(sheet.rules@.take(i as int)),
                node@,
                hovering,
                level as nat,
            ),
        decreases n - i,
    {
        let rule = &sheet.rules[i];
        proof {
            assert(crate::css::rules_v(sheet.rules@.take(i + 1)).drop_last() =~= crate::css::rules_v(
                sheet.rules@.take(i as int),
            ));
            assert(crate::css::rules_v(sheet.rules@.take(i + 1)).last() == rule@);
            assert(sheet@[i as int] == rule@);
        }
        match best_of(node, &rule.selectors, hovering) {
            Some(b) => {
                if b == level {
                    apply_declarations(style, &rule.declarations);
                }
            },
            None => {},
        }
        i += 1;
    }
    assert(sheet.rules@.take(n as int) =~= sheet.rules@);
}

/// Computes the style of an element: the inherited properties (colour, font
/// size, text alignment) start from the parent's, the rest from defaults;
/// then the matching rules are applied from the least to the most specific,
/// and at equal specificity in the order of the text. `hovering` says whether
/// `:hover` rules apply.
pub fn compute_style(
    node: &Node,
    stylesheet: &Stylesheet,
    parent: &ComputedStyle,
    hovering: bool,
) -> (s: ComputedStyle)
    ensures
        s == spec_compute_style(node@, stylesheet@, *parent, hovering),
{
    let mut style = ComputedStyle {
        color: parent.color,
        font_size: parent.font_size,
        text_align: parent.text_align,
        ..ComputedStyle::default()
    };
    apply_level_exec(&mut style, node, stylesheet, hovering, 0);
    apply_level_exec(&mut style, node, stylesheet, hovering, 1);
    apply_level_exec(&mut style, node, stylesheet, hovering, 10);
    apply_level_exec(&mut style, node, stylesheet, hovering, 11);
    apply_level_exec(&mut style, node, stylesheet, hovering, 20);
    style
}

// ---------------------------------------------------------------------------
// Bounds of computed styles.
// ---------------------------------------------------------------------------

/// Whether an optional length lies within the bound.
pub open spec fn opt_bounded(o: Option<i64>) -> bool {
    match o {
        Some(v) => bounded(v as int),
        None => true,
    }
}

/// Whether every length of a style lies within the bound.
pub open spec fn style_bounded(s: ComputedStyle) -> bool {
    &&& opt_bounded(s.width)
    &&& opt_bounded(s.height)
    &&& bounded(s.padding as int)
    &&& bounded(s.margin as int)
    &&& bounded(s.border_width as int)
    &&& bounded(s.font_size as int)
    &&& opt_bounded(s.top)
    &&& opt_bounded(s.right)
    &&& opt_bounded(s.bottom)
    &&& opt_bounded(s.left)
    &&& bounded(s.gap as int)
    &&& bounded(s.flex_grow as int)
}

/// A number read as a length lies within the bound.
pub proof fn lemma_units_bounded(t: Seq<char>)
    ensures
        opt_bounded(spec_units(t)),
{
    match spec_float(t) {
        Some((neg, v)) => {
            match v {
                FloatV::Fin(m, x) => {
                    let c = capped(crate::number::scaled(m, x));
                    assert(0 <= c <= len_max());
                },
                _ => {},
            }
        },
        None => {},
    }
}

/// Applying a declaration keeps every length within the bound.
#[verifier::rlimit(60)]
#[verifier::spinoff_prover]
pub proof fn lemma_apply_bounded(s: ComputedStyle, d: DeclarationV)
    requires
        style_bounded(s),
    ensures
        style_bounded(spec_apply(s, d)),
{
    let v = trimmed(d.value);
    let p = d.property;
    lemma_units_bounded(trimmed(strip_px(trimmed(v))));
    lemma_units_bounded(v);
    let w = words(v, 0);
    if w.len() > 0 {
        lemma_units_bounded(w[0]);
    }
    assert(opt_bounded(spec_parse_length(v)));
    assert(opt_bounded(opt_length_or(v, s.width)) && opt_bounded(opt_length_or(v, s.height)));
    assert(opt_bounded(opt_length_or(v, s.top)) && opt_bounded(opt_length_or(v, s.right)));
    assert(opt_bounded(opt_length_or(v, s.bottom)) && opt_bounded(opt_length_or(v, s.left)));
    let r = spec_apply(s, d);
    let others = !(p == "width"@ || p == "height"@ || p == "padding"@ || p == "margin"@ || p
        == "border-width"@ || p == "font-size"@ || p == "top"@ || p == "right"@ || p == "bottom"@
        || p == "left"@ || p == "gap"@ || p == "flex-grow"@ || p == "flex"@);
    if others {
        assert(r.width == s.width && r.height == s.height && r.padding == s.padding && r.margin
            == s.margin && r.border_width == s.border_width && r.font_size == s.font_size && r.top
            == s.top && r.right == s.right && r.bottom == s.bottom && r.left == s.left && r.gap
            == s.gap && r.flex_grow == s.flex_grow);
    }
}

/// Applying declarations keeps every length within the bound.
pub proof fn lemma_apply_all_bounded(s: ComputedStyle, ds: Seq<DeclarationV>)
    requires
        style_bounded(s),
    ensures
        style_bounded(apply_all(s, ds)),
    decreases ds.len(),
{
    if ds.len() > 0 {
        lemma_apply_all_bounded(s, ds.drop_last());
        lemma_apply_bounded(apply_all(s, ds.drop_last()), ds.last());
    }
}

/// Applying one level of rules keeps every length within the bound.
pub proof fn lemma_apply_level_bounded(
    s: ComputedStyle,
    rules: Seq<RuleV>,
    n: NodeV,
    hovering: bool,
    level: nat,
)
    requires
        style_bounded(s),
    ensures
        style_bounded(apply_level(s, rules, n, hovering, level)),
    decreases rules.len(),
{
    if rules.len() > 0 {
        lemma_apply_level_bounded(s, rules.drop_last(), n, hovering, level);
        lemma_apply_all_bounded(
            apply_level(s, rules.drop_last(), n, hovering, level),
            rules.last().declarations,
        );
    }
}

/// A computed style keeps every length within the bound, when its parent's do.
pub proof fn lemma_style_bounded(n: NodeV, rules: Seq<RuleV>, parent: ComputedStyle, hovering: bool)
    requires
        style_bounded(parent),
    ensures
        style_bounded(spec_compute_style(n, rules, parent, hovering)),
{
    let s0 = inherited_start(parent);
    lemma_apply_level_bounded(s0, rules, n, hovering, 0);
    let s1 = apply_level(s0, rules, n, hovering, 0);
    lemma_apply_level_bounded(s1, rules, n, hovering, 1);
    let s2 = apply_level(s1, rules, n, hovering, 1);
    lemma_apply_level_bounded(s2, rules, n, hovering, 10);
    let s3 = apply_level(s2, rules, n, hovering, 10);
    lemma_apply_level_bounded(s3, rules, n, hovering, 11);
    let s4 = apply_level(s3, rules, n, hovering, 11);
    lemma_apply_level_bounded(s4, rules, n, hovering, 20);
}

// ---------------------------------------------------------------------------
// Laws of the cascade.
// ---------------------------------------------------------------------------

/// One rule applied at a level, after the rules before it.
pub open spec fn level_step(s: ComputedStyle, r: RuleV, n: NodeV, hovering: bool, level: nat) -> ComputedStyle {
    if best_score(n, r.selectors, hovering) == Some(level) {
        apply_all(s, r.declarations)
    } else {
        s
    }
}

/// Applying a level to rules that end with `r` applies the rest, then `r`.
proof fn lemma_level_last(s: ComputedStyle, x: Seq<RuleV>, r: RuleV, n: NodeV, hovering: bool, level: nat)
    ensures
        apply_level(s, x.push(r), n, hovering, level) == level_step(
            apply_level(s, x, n, hovering, level),
            r,
            n,
            hovering,
            level,
        ),
{
    assert(x.push(r).drop_last() =~= x);
}

/// Two sequences of rules that give the same style at a level still do when
/// the same rules follow both.
proof fn lemma_level_extend(
    s: ComputedStyle,
    x: Seq<RuleV>,
    y: Seq<RuleV>,
    b: Seq<RuleV>,
    n: NodeV,
    hovering: bool,
    level: nat,
)
    requires
        apply_level(s, x, n, hovering, level) == apply_level(s, y, n, hovering, level),
    ensures
        apply_level(s, x + b, n, hovering, level) == apply_level(s, y + b, n, hovering, level),
    decreases b.len(),
{
    if b.len() == 0 {
        assert(x + b =~= x);
        assert(y + b =~= y);
    } else {
        lemma_level_extend(s, x, y, b.drop_last(), n, hovering, level);
        assert(x + b =~= (x + b.drop_last()).push(b.last()));
        assert(y + b =~= (y + b.drop_last()).push(b.last()));
        lemma_level_last(s, x + b.drop_last(), b.last(), n, hovering, level);
        lemma_level_last(s, y + b.drop_last(), b.last(), n, hovering, level);
    }
}

/// At one level, two neighbouring rules whose best specificities differ
/// can be swapped.
proof fn lemma_level_swap(
    s: ComputedStyle,
    a: Seq<RuleV>,
    r1: RuleV,
    r2: RuleV,
    b: Seq<RuleV>,
    n: NodeV,
    hovering: bool,
    level: nat,
)
    requires
        !(best_score(n, r1.selectors, hovering) is Some && best_score(n, r1.selectors, hovering)
            == best_score(n, r2.selectors, hovering)),
    ensures
        apply_level(s, a + seq![r1, r2] + b, n, hovering, level) == apply_level(
            s,
            a + seq![r2, r1] + b,
            n,
            hovering,
            level,
        ),
{
    let x = a + seq![r1, r2];
    let y = a + seq![r2, r1];
    assert(x =~= a.push(r1).push(r2));
    assert(y =~= a.push(r2).push(r1));
    lemma_level_last(s, a, r1, n, hovering, level);
    lemma_level_last(s, a.push(r1), r2, n, hovering, level);
    lemma_level_last(s, a, r2, n, hovering, level);
    lemma_level_last(s, a.push(r2), r1, n, hovering, level);
    lemma_level_extend(s, x, y, b, n, hovering, level);
}

/// Only specificity orders rules of different specificity: swapping two
/// neighbouring rules whose best specificities for the element differ (or
/// that do not both match) leaves its computed style unchanged.
pub proof fn law_specificity_orders_rules(
    n: NodeV,
    a: Seq<RuleV>,
    r1: RuleV,
    r2: RuleV,
    b: Seq<RuleV>,
    parent: ComputedStyle,
    hovering: bool,
)
    requires
        !(best_score(n, r1.selectors, hovering) is Some && best_score(n, r1.selectors, hovering)
            == best_score(n, r2.selectors, hovering)),
    ensures
        spec_compute_style(n, a + seq![r1, r2] + b, parent, hovering) == spec_compute_style(
            n,
            a + seq![r2, r1] + b,
            parent,
            hovering,
        ),
{
    let x = a + seq![r1, r2] + b;
    let y = a + seq![r2, r1] + b;
    let s0 = inherited_start(parent);
    lemma_level_swap(s0, a, r1, r2, b, n, hovering, 0);
    let s1 = apply_level(s0, x, n, hovering, 0);
    lemma_level_swap(s1, a, r1, r2, b, n, hovering, 1);
    let s2 = apply_level(s1, x, n, hovering, 1);
    lemma_level_swap(s2, a, r1, r2, b, n, hovering, 10);
    let s3 = apply_level(s2, x, n, hovering, 10);
    lemma_level_swap(s3, a, r1, r2, b, n, hovering, 11);
    let s4 = apply_level(s3, x, n, hovering, 11);
    lemma_level_swap(s4, a, r1, r2, b, n, hovering, 20);
}

/// Whether a rule that matches the element declares the property.
pub open spec fn sets_property(n: NodeV, rules: Seq<RuleV>, hovering: bool, p: Seq<char>) -> bool {
    exists|i: int, j: int|
        0 <= i < rules.len() && best_score(n, rules[i].selectors, hovering) is Some && 0 <= j
            < rules[i].declarations.len() && (#[trigger] rules[i].declarations[j]).property == p
}

/// Declarations that do not name `color` keep the colour.
proof fn lemma_apply_all_keeps_color(s: ComputedStyle, ds: Seq<DeclarationV>)
    requires
        forall|j: int| 0 <= j < ds.len() ==> (#[trigger] ds[j]).property != "color"@,
    ensures
        apply_all(s, ds).color == s.color,
    decreases ds.len(),
{
    if ds.len() > 0 {
        lemma_apply_all_keeps_color(s, ds.drop_last());
        assert(ds.last() == ds[ds.len() - 1]);
    }
}

/// Rules that do not set `color` keep the colour, at any level.
proof fn lemma_level_keeps_color(s: ComputedStyle, rules: Seq<RuleV>, n: NodeV, hovering: bool, level: nat)
    requires
        !sets_property(n, rules, hovering, "color"@),
    ensures
        apply_level(s, rules, n, hovering, level).color == s.color,
    decreases rules.len(),
{
    if rules.len() > 0 {
        let x = rules.drop_last();
        assert(!sets_property(n, x, hovering, "color"@)) by {
            if sets_property(n, x, hovering, "color"@) {
                let (i, j) = choose|i: int, j: int|
                    0 <= i < x.len() && best_score(n, x[i].selectors, hovering) is Some && 0 <= j
                        < x[i].declarations.len() && (#[trigger] x[i].declarations[j]).property == "color"@;
                assert(rules[i] == x[i]);
                assert(rules[i].declarations[j].property == "color"@);
            }
        }
        lemma_level_keeps_color(s, x, n, hovering, level);
        let r = rules.last();
        if best_score(n, r.selectors, hovering) == Some(level) {
            assert forall|j: int| 0 <= j < r.declarations.len() implies (#[trigger] r.declarations[j]).property != "color"@ by {
                assert(rules[rules.len() - 1] == r);
                if r.declarations[j].property == "color"@ {
                    assert(rules[rules.len() - 1].declarations[j].property == "color"@);
                }
            }
            lemma_apply_all_keeps_color(apply_level(s, x, n, hovering, level), r.declarations);
        }
    }
}

/// Colour is inherited: an element's colour is its parent's unless a rule
/// that matches the element declares `color`.
pub proof fn law_color_inherits(n: NodeV, rules: Seq<RuleV>, parent: ComputedStyle, hovering: bool)
    requires
        !sets_property(n, rules, hovering, "color"@),
    ensures
        spec_compute_style(n, rules, parent, hovering).color == parent.color,
{
    let s0 = inherited_start(parent);
    lemma_level_keeps_color(s0, rules, n, hovering, 0);
    let s1 = apply_level(s0, rules, n, hovering, 0);
    lemma_level_keeps_color(s1, rules, n, hovering, 1);
    let s2 = apply_level(s1, rules, n, hovering, 1);
    lemma_level_keeps_color(s2, rules, n, hovering, 10);
    let s3 = apply_level(s2, rules, n, hovering, 10);
    lemma_level_keeps_color(s3, rules, n, hovering, 11);
    let s4 = apply_level(s3, rules, n, hovering, 11);
    lemma_level_keeps_color(s4, rules, n, hovering, 20);
}

/// Declarations that do not name `font-size` keep the font size.
#[verifier::spinoff_prover]
proof fn lemma_apply_all_keeps_font_size(s: ComputedStyle, ds: Seq<DeclarationV>)
    requires
        forall|j: int| 0 <= j < ds.len() ==> (#[trigger] ds[j]).property != "font-size"@,
    ensures
        apply_all(s, ds).font_size == s.font_size,
    decreases ds.len(),
{
    if ds.len() > 0 {
        lemma_apply_all_keeps_font_size(s, ds.drop_last());
        assert(ds.last() == ds[ds.len() - 1]);
    }
}

/// Rules that do not set `font-size` keep the font size, at any level.
proof fn lemma_level_keeps_font_size(s: ComputedStyle, rules: Seq<RuleV>, n: NodeV, hovering: bool, level: nat)
    requires
        !sets_property(n, rules, hovering, "font-size"@),
    ensures
        apply_level(s, rules, n, hovering, level).font_size == s.font_size,
    decreases rules.len(),
{
    if rules.len() > 0 {
        let x = rules.drop_last();
        assert(!sets_property(n, x, hovering, "font-size"@)) by {
            if sets_property(n, x, hovering, "font-size"@) {
                let (i, j) = choose|i: int, j: int|
                    0 <= i < x.len() && best_score(n, x[i].selectors, hovering) is Some && 0 <= j
                        < x[i].declarations.len() && (#[trigger] x[i].declarations[j]).property == "font-size"@;
                assert(rules[i] == x[i]);
                assert(rules[i].declarations[j].property == "font-size"@);
            }
        }
        lemma_level_keeps_font_size(s, x, n, hovering, level);
        let r = rules.last();
        if best_score(n, r.selectors, hovering) == Some(level) {
            assert forall|j: int| 0 <= j < r.declarations.len() implies (#[trigger] r.declarations[j]).property != "font-size"@ by {
                assert(rules[rules.len() - 1] == r);
                if r.declarations[j].property == "font-size"@ {
                    assert(rules[rules.len() - 1].declarations[j].property == "font-size"@);
                }
            }
            lemma_apply_all_keeps_font_size(apply_level(s, x, n, hovering, level), r.declarations);
        }
    }
}

/// The font size is inherited: an element's font size is its parent's unless a
/// rule that matches the element declares `font-size`.
pub proof fn law_font_size_inherits(n: NodeV, rules: Seq<RuleV>, parent: ComputedStyle, hovering: bool)
    requires
        !sets_property(n, rules, hovering, "font-size"@),
    ensures
        spec_compute_style(n, rules, parent, hovering).font_size == parent.font_size,
{
    let s0 = inherited_start(parent);
    lemma_level_keeps_font_size(s0, rules, n, hovering, 0);
    let s1 = apply_level(s0, rules, n, hovering, 0);
    lemma_level_keeps_font_size(s1, rules, n, hovering, 1);
    let s2 = apply_level(s1, rules, n, hovering, 1);
    lemma_level_keeps_font_size(s2, rules, n, hovering, 10);
    let s3 = apply_level(s2, rules, n, hovering, 10);
    lemma_level_keeps_font_size(s3, rules, n, hovering, 11);
    let s4 = apply_level(s3, rules, n, hovering, 11);
    lemma_level_keeps_font_size(s4, rules, n, hovering, 20);
}

/// Declarations that do not name `text-align` keep the text alignment.
#[verifier::spinoff_prover]
#[verifier::rlimit(50)]
proof fn lemma_apply_all_keeps_text_align(s: ComputedStyle, ds: Seq<DeclarationV>)
    requires
        forall|j: int| 0 <= j < ds.len() ==> (#[trigger] ds[j]).property != "text-align"@,
    ensures
        apply_all(s, ds).text_align == s.text_align,
    decreases ds.len(),
{
    if ds.len() > 0 {
        lemma_apply_all_keeps_text_align(s, ds.drop_last());
        assert(ds.last() == ds[ds.len() - 1]);
    }
}

/// Rules that do not set `text-align` keep the text alignment, at any level.
proof fn lemma_level_keeps_text_align(s: ComputedStyle, rules: Seq<RuleV>, n: NodeV, hovering: bool, level: nat)
    requires
        !sets_property(n, rules, hovering, "text-align"@),
    ensures
        apply_level(s, rules, n, hovering, level).text_align == s.text_align,
    decreases rules.len(),
{
    if rules.len() > 0 {
        let x = rules.drop_last();
        assert(!sets_property(n, x, hovering, "text-align"@)) by {
            if sets_property(n, x, hovering, "text-align"@) {
                let (i, j) = choose|i: int, j: int|
                    0 <= i < x.len() && best_score(n, x[i].selectors, hovering) is Some && 0 <= j
                        < x[i].declarations.len() && (#[trigger] x[i].declarations[j]).property == "text-align"@;
                assert(rules[i] == x[i]);
                assert(rules[i].declarations[j].property == "text-align"@);
            }
        }
        lemma_level_keeps_text_align(s, x, n, hovering, level);
        let r = rules.last();
        if best_score(n, r.selectors, hovering) == Some(level) {
            assert forall|j: int| 0 <= j < r.declarations.len() implies (#[trigger] r.declarations[j]).property != "text-align"@ by {
                assert(rules[rules.len() - 1] == r);
                if r.declarations[j].property == "text-align"@ {
                    assert(rules[rules.len() - 1].declarations[j].property == "text-align"@);
                }
            }
            lemma_apply_all_keeps_text_align(apply_level(s, x, n, hovering, level), r.declarations);
        }
    }
}

/// The text alignment is inherited: an element's text alignment is its parent's unless a
/// rule that matches the element declares `text-align`.
pub proof fn law_text_align_inherits(n: NodeV, rules: Seq<RuleV>, parent: ComputedStyle, hovering: bool)
    requires
        !sets_property(n, rules, hovering, "text-align"@),
    ensures
        spec_compute_style(n, rules, parent, hovering).text_align == parent.text_align,
{
    let s0 = inherited_start(parent);
    lemma_level_keeps_text_align(s0, rules, n, hovering, 0);
    let s1 = apply_level(s0, rules, n, hovering, 0);
    lemma_level_keeps_text_align(s1, rules, n, hovering, 1);
    let s2 = apply_level(s1, rules, n, hovering, 1);
    lemma_level_keeps_text_align(s2, rules, n, hovering, 10);
    let s3 = apply_level(s2, rules, n, hovering, 10);
    lemma_level_keeps_text_align(s3, rules, n, hovering, 11);
    let s4 = apply_level(s3, rules, n, hovering, 11);
    lemma_level_keeps_text_align(s4, rules, n, hovering, 20);
}

/// Declarations that name neither `background` nor `background-color` keep
/// the background.
proof fn lemma_apply_all_keeps_background(s: ComputedStyle, ds: Seq<DeclarationV>)
    requires
        forall|j: int|
            0 <= j < ds.len() ==> (#[trigger] ds[j]).property != "background"@ && ds[j].property
                != "background-color"@,
    ensures
        apply_all(s, ds).background == s.background,
    decreases ds.len(),
{
    if ds.len() > 0 {
        lemma_apply_all_keeps_background(s, ds.drop_last());
        assert(ds.last() == ds[ds.len() - 1]);
    }
}

/// Rules that set no background keep the background, at any level.
proof fn lemma_level_keeps_background(s: ComputedStyle, rules: Seq<RuleV>, n: NodeV, hovering: bool, level: nat)
    requires
        !sets_property(n, rules, hovering, "background"@),
        !sets_property(n, rules, hovering, "background-color"@),
    ensures
        apply_level(s, rules, n, hovering, level).background == s.background,
    decreases rules.len(),
{
    if rules.len() > 0 {
        let x = rules.drop_last();
        assert forall|p: Seq<char>| #[trigger] sets_property(n, x, hovering, p) implies sets_property(n, rules, hovering, p) by {
            let (i, j) = choose|i: int, j: int|
                0 <= i < x.len() && best_score(n, x[i].selectors, hovering) is Some && 0 <= j
                    < x[i].declarations.len() && (#[trigger] x[i].declarations[j]).property == p;
            assert(rules[i] == x[i]);
            assert(rules[i].declarations[j].property == p);
        }
        lemma_level_keeps_background(s, x, n, hovering, level);
        let r = rules.last();
        if best_score(n, r.selectors, hovering) == Some(level) {
            assert forall|j: int| 0 <= j < r.declarations.len() implies (#[trigger] r.declarations[j]).property
                != "background"@ && r.declarations[j].property != "background-color"@ by {
                assert(rules[rules.len() - 1] == r);
                if r.declarations[j].property == "background"@ {
                    assert(rules[rules.len() - 1].declarations[j].property == "background"@);
                }
                if r.declarations[j].property == "background-color"@ {
                    assert(rules[rules.len() - 1].declarations[j].property == "background-color"@);
                }
            }
            lemma_apply_all_keeps_background(apply_level(s, x, n, hovering, level), r.declarations);
        }
    }
}

/// The background is not inherited: an element's background is transparent
/// unless a rule that matches the element declares it.
pub proof fn law_background_not_inherited(n: NodeV, rules: Seq<RuleV>, parent: ComputedStyle, hovering: bool)
    requires
        !sets_property(n, rules, hovering, "background"@),
        !sets_property(n, rules, hovering, "background-color"@),
    ensures
        spec_compute_style(n, rules, parent, hovering).background == (Color { r: 0, g: 0, b: 0, a: 0 }),
{
    let s0 = inherited_start(parent);
    lemma_level_keeps_background(s0, rules, n, hovering, 0);
    let s1 = apply_level(s0, rules, n, hovering, 0);
    lemma_level_keeps_background(s1, rules, n, hovering, 1);
    let s2 = apply_level(s1, rules, n, hovering, 1);
    lemma_level_keeps_background(s2, rules, n, hovering, 10);
    let s3 = apply_level(s2, rules, n, hovering, 10);
    lemma_level_keeps_background(s3, rules, n, hovering, 11);
    let s4 = apply_level(s3, rules, n, hovering, 11);
    lemma_level_keeps_background(s4, rules, n, hovering, 20);
}

/// An element that no rule matches has a transparent background.
pub proof fn law_background_transparent_without_match(n: NodeV, rules: Seq<RuleV>, parent: ComputedStyle, hovering: bool)
    requires
        forall|i: int| 0 <= i < rules.len() ==> best_score(n, (#[trigger] rules[i]).selectors, hovering) is None,
    ensures
        spec_compute_style(n, rules, parent, hovering).background == (Color { r: 0, g: 0, b: 0, a: 0 }),
{
    assert(!sets_property(n, rules, hovering, "background"@));
    assert(!sets_property(n, rules, hovering, "background-color"@));
    law_background_not_inherited(n, rules, parent, hovering);
}

/// Whether a declaration names the background.
pub open spec fn names_background(d: DeclarationV) -> bool {
    d.property == "background"@ || d.property == "background-color"@
}

/// The background that a list of declarations sets: that of the last
/// background declaration whose colour is read, if any.
pub open spec fn decl_background(ds: Seq<DeclarationV>) -> Option<Color>
    decreases ds.len(),
{
    if ds.len() == 0 {
        None
    } else if names_background(ds.last()) && spec_parse_color(trimmed(ds.last().value)) is Some {
        spec_parse_color(trimmed(ds.last().value))
    } else {
        decl_background(ds.drop_last())
    }
}

/// A background declaration sets the background it reads, else keeps it.
#[verifier::spinoff_prover]
proof fn lemma_apply_background(s: ComputedStyle, d: DeclarationV)
    requires
        d.property == "background"@ || d.property == "background-color"@,
    ensures
        spec_apply(s, d).background == color_or(trimmed(d.value), s.background),
{
    reveal_strlit("background");
    reveal_strlit("background-color");
    reveal_strlit("width");
    reveal_strlit("height");
    reveal_strlit("padding");
    reveal_strlit("margin");
    reveal_strlit("border-width");
    reveal_strlit("border-color");
    let p = d.property;
    assert("width"@.len() == 5);
    assert("height"@.len() == 6);
    assert("background"@.len() == 10);
    assert("background-color"@.len() == 16);
    assert(p.len() == 10 || p.len() == 16);
    assert(p != "width"@);
    assert(p != "height"@);
    assert(p != "padding"@);
    assert(p != "margin"@);
    assert(p != "border-width"@);
    assert(p != "border-color"@);
}

/// Applying declarations sets the background they set, else keeps it.
proof fn lemma_apply_all_background(s: ComputedStyle, ds: Seq<DeclarationV>)
    ensures
        apply_all(s, ds).background == match decl_background(ds) {
            Some(c) => c,
            None => s.background,
        },
    decreases ds.len(),
{
    if ds.len() > 0 {
        lemma_apply_all_background(s, ds.drop_last());
        let d = ds.last();
        let prev = apply_all(s, ds.drop_last());
        if d.property == "background"@ || d.property == "background-color"@ {
            lemma_apply_background(prev, d);        } else {
            assert(spec_apply(prev, d).background == prev.background);
        }
    }
}

/// A level at which no rule declares a background keeps the background.
proof fn lemma_level_keeps_background_at(s: ComputedStyle, rules: Seq<RuleV>, n: NodeV, hovering: bool, level: nat)
    requires
        forall|j: int, k: int|
            0 <= j < rules.len() && best_score(n, rules[j].selectors, hovering) == Some(level) && 0 <= k
                < rules[j].declarations.len() ==> !names_background(#[trigger] rules[j].declarations[k]),
    ensures
        apply_level(s, rules, n, hovering, level).background == s.background,
    decreases rules.len(),
{
    if rules.len() > 0 {
        let x = rules.drop_last();
        assert forall|j: int, k: int|
            0 <= j < x.len() && best_score(n, x[j].selectors, hovering) == Some(level) && 0 <= k
                < x[j].declarations.len() implies !names_background(#[trigger] x[j].declarations[k]) by {
            assert(rules[j] == x[j]);
        }
        lemma_level_keeps_background_at(s, x, n, hovering, level);
        let r = rules.last();
        if best_score(n, r.selectors, hovering) == Some(level) {
            assert forall|k: int| 0 <= k < r.declarations.len() implies (#[trigger] r.declarations[k]).property
                != "background"@ && r.declarations[k].property != "background-color"@ by {
                assert(rules[rules.len() - 1] == r);
                assert(!names_background(rules[rules.len() - 1].declarations[k]));
            }
            lemma_apply_all_keeps_background(apply_level(s, x, n, hovering, level), r.declarations);
        }
    }
}

/// At the winner's level, the rules up to `k` (past the winner) leave the
/// winner's background.
proof fn lemma_level_winner(s: ComputedStyle, rules: Seq<RuleV>, n: NodeV, hovering: bool, w: int, k: int)
    requires
        0 <= w < k <= rules.len(),
        best_score(n, rules[w].selectors, hovering) is Some,
        decl_background(rules[w].declarations) is Some,
        forall|j: int, q: int|
            w < j < rules.len() && best_score(n, rules[j].selectors, hovering) == best_score(
                n,
                rules[w].selectors,
                hovering,
            ) && 0 <= q < rules[j].declarations.len() ==> !names_background(#[trigger] rules[j].declarations[q]),
    ensures
        apply_level(s, rules.take(k), n, hovering, best_score(n, rules[w].selectors, hovering)->0).background
            == decl_background(rules[w].declarations)->0,
    decreases k,
{
    let level = best_score(n, rules[w].selectors, hovering)->0;
    let t = rules.take(k);
    assert(t.drop_last() =~= rules.take(k - 1));
    assert(t.last() == rules[k - 1]);
    if k == w + 1 {
        lemma_apply_all_background(apply_level(s, rules.take(k - 1), n, hovering, level), rules[w].declarations);
    } else {
        lemma_level_winner(s, rules, n, hovering, w, k - 1);
        let r = rules[k - 1];
        if best_score(n, r.selectors, hovering) == Some(level) {
            assert forall|q: int| 0 <= q < r.declarations.len() implies (#[trigger] r.declarations[q]).property
                != "background"@ && r.declarations[q].property != "background-color"@ by {
                assert(!names_background(rules[k - 1].declarations[q]));
            }
            lemma_apply_all_keeps_background(apply_level(s, rules.take(k - 1), n, hovering, level), r.declarations);
        }
    }
}

/// A selector's specificity is 0, 1, 10, 11 or 20.
proof fn lemma_best_score_levels(n: NodeV, sels: Seq<SelectorV>, hovering: bool)
    ensures
        best_score(n, sels, hovering) matches Some(b) ==> (b == 0 || b == 1 || b == 10 || b == 11 || b == 20),
    decreases sels.len(),
{
    if sels.len() > 0 {
        lemma_best_score_levels(n, sels.drop_last(), hovering);
    }
}

/// The background comes from the winning rule: among the matching rules
/// that set a background the element takes that of the one with the highest
/// specificity, and at equal specificity the one last in the text; within
/// it, its last background declaration whose colour is read.
pub proof fn law_background_from_winner(n: NodeV, rules: Seq<RuleV>, parent: ComputedStyle, hovering: bool, w: int)
    requires
        0 <= w < rules.len(),
        best_score(n, rules[w].selectors, hovering) is Some,
        decl_background(rules[w].declarations) is Some,
        forall|j: int, q: int|
            #![trigger rules[j].declarations[q]]
            0 <= j < rules.len() && j != w && 0 <= q < rules[j].declarations.len()
                && best_score(n, rules[j].selectors, hovering) is Some
                && (best_score(n, rules[j].selectors, hovering)->0 > best_score(n, rules[w].selectors, hovering)->0
                    || (best_score(n, rules[j].selectors, hovering) == best_score(n, rules[w].selectors, hovering) && j > w))
                ==> !names_background(rules[j].declarations[q]),
    ensures
        spec_compute_style(n, rules, parent, hovering).background == decl_background(rules[w].declarations)->0,
{
    let level = best_score(n, rules[w].selectors, hovering)->0;
    let c = decl_background(rules[w].declarations)->0;
    lemma_best_score_levels(n, rules[w].selectors, hovering);
    let s0 = inherited_start(parent);
    let s1 = apply_level(s0, rules, n, hovering, 0);
    let s2 = apply_level(s1, rules, n, hovering, 1);
    let s3 = apply_level(s2, rules, n, hovering, 10);
    let s4 = apply_level(s3, rules, n, hovering, 11);
    let s5 = apply_level(s4, rules, n, hovering, 20);
    assert(rules.take(rules.len() as int) =~= rules);
    assert forall|j: int, q: int|
        w < j < rules.len() && best_score(n, rules[j].selectors, hovering) == best_score(n, rules[w].selectors, hovering)
            && 0 <= q < rules[j].declarations.len() implies !names_background(#[trigger] rules[j].declarations[q]) by {
    }
    if level == 0 {
        lemma_level_winner(s0, rules, n, hovering, w, rules.len() as int);
        lemma_level_keeps_background_at(s1, rules, n, hovering, 1);
        lemma_level_keeps_background_at(s2, rules, n, hovering, 10);
        lemma_level_keeps_background_at(s3, rules, n, hovering, 11);
        lemma_level_keeps_background_at(s4, rules, n, hovering, 20);
    } else if level == 1 {
        lemma_level_winner(s1, rules, n, hovering, w, rules.len() as int);
        lemma_level_keeps_background_at(s2, rules, n, hovering, 10);
        lemma_level_keeps_background_at(s3, rules, n, hovering, 11);
        lemma_level_keeps_background_at(s4, rules, n, hovering, 20);
    } else if level == 10 {
        lemma_level_winner(s2, rules, n, hovering, w, rules.len() as int);
        lemma_level_keeps_background_at(s3, rules, n, hovering, 11);
        lemma_level_keeps_background_at(s4, rules, n, hovering, 20);
    } else if level == 11 {
        lemma_level_winner(s3, rules, n, hovering, w, rules.len() as int);
        lemma_level_keeps_background_at(s4, rules, n, hovering, 20);
    } else {
        lemma_level_winner(s4, rules, n, hovering, w, rules.len() as int);
    }
}

/// Whether some selector of the rules carries `:hover`.
pub open spec fn has_hover(rules: Seq<RuleV>) -> bool {
    exists|i: int, k: int|
        0 <= i < rules.len() && 0 <= k < rules[i].selectors.len() && (#[trigger] rules[i].selectors[k]).hover
}

/// Without `:hover` selectors, hovering does not change the best specificity.
proof fn lemma_best_score_hover(n: NodeV, sels: Seq<SelectorV>)
    requires
        forall|k: int| 0 <= k < sels.len() ==> !(#[trigger] sels[k]).hover,
    ensures
        best_score(n, sels, true) == best_score(n, sels, false),
    decreases sels.len(),
{
    if sels.len() > 0 {
        let x = sels.drop_last();
        assert forall|k: int| 0 <= k < x.len() implies !(#[trigger] x[k]).hover by {
            assert(x[k] == sels[k]);
        }
        lemma_best_score_hover(n, x);
        assert(!sels[sels.len() - 1].hover);
    }
}

/// Without `:hover` selectors, hovering does not change a level.
proof fn lemma_level_hover(s: ComputedStyle, rules: Seq<RuleV>, n: NodeV, level: nat)
    requires
        !has_hover(rules),
    ensures
        apply_level(s, rules, n, true, level) == apply_level(s, rules, n, false, level),
    decreases rules.len(),
{
    if rules.len() > 0 {
        let x = rules.drop_last();
        assert(!has_hover(x)) by {
            if has_hover(x) {
                let (i, k) = choose|i: int, k: int|
                    0 <= i < x.len() && 0 <= k < x[i].selectors.len() && (#[trigger] x[i].selectors[k]).hover;
                assert(rules[i] == x[i]);
                assert(rules[i].selectors[k].hover);
            }
        }
        lemma_level_hover(s, x, n, level);
        let r = rules.last();
        assert forall|k: int| 0 <= k < r.selectors.len() implies !(#[trigger] r.selectors[k]).hover by {
            assert(rules[rules.len() - 1] == r);
            if r.selectors[k].hover {
                assert(rules[rules.len() - 1].selectors[k].hover);
            }
        }
        lemma_best_score_hover(n, r.selectors);
    }
}

/// `:hover` rules are the only ones that depend on the pointer: without
/// them, hovering leaves the computed style unchanged.
pub proof fn law_hover_only_through_hover_rules(n: NodeV, rules: Seq<RuleV>, parent: ComputedStyle)
    requires
        !has_hover(rules),
    ensures
        spec_compute_style(n, rules, parent, true) == spec_compute_style(n, rules, parent, false),
{
    let s0 = inherited_start(parent);
    lemma_level_hover(s0, rules, n, 0);
    let s1 = apply_level(s0, rules, n, false, 0);
    lemma_level_hover(s1, rules, n, 1);
    let s2 = apply_level(s1, rules, n, false, 1);
    lemma_level_hover(s2, rules, n, 10);
    let s3 = apply_level(s2, rules, n, false, 10);
    lemma_level_hover(s3, rules, n, 11);
    let s4 = apply_level(s3, rules, n, false, 11);
    lemma_level_hover(s4, rules, n, 20);
}

} // verus!
