use makecss_core::css;
use makecss_core::style::{
    apply_declaration, compute_style, parse_length, AlignItems, ComputedStyle, Display, FlexDirection, Justify,
    Position, TextAlign,
};
use makecss_core::{Color, Node};

fn root() -> ComputedStyle {
    ComputedStyle::default()
}

#[test]
fn class_beats_type() {
    // Both match; the class is more specific, so red wins.
    let sheet = css::parse("div { background: blue; } .card { background: red; }");
    let node = Node::new("div").class("card");
    let style = compute_style(&node, &sheet, &root(), false);
    assert_eq!(style.background, Color::rgb(255, 0, 0));
}

#[test]
fn parses_lengths() {
    // Lengths are in units of 1/64 pixel.
    let sheet = css::parse(".x { width: 200px; padding: 8; }");
    let node = Node::new("div").class("x");
    let style = compute_style(&node, &sheet, &root(), false);
    assert_eq!(style.width, Some(200 * 64));
    assert_eq!(style.padding, 8 * 64);
}

#[test]
fn color_inherits_but_background_does_not() {
    let sheet = css::parse("");
    let parent = ComputedStyle { color: Color::rgb(0, 0, 255), ..ComputedStyle::default() };
    let child = compute_style(&Node::new("span"), &sheet, &parent, false);
    assert_eq!(child.color, Color::rgb(0, 0, 255));
    assert_eq!(child.background, Color::transparent());
}

#[test]
fn hover_rules_apply_only_when_hovering() {
    let sheet = css::parse(".b { background: white; } .b:hover { background: black; }");
    let node = Node::new("div").class("b");
    let normal = compute_style(&node, &sheet, &root(), false);
    let hovered = compute_style(&node, &sheet, &root(), true);
    assert_eq!(normal.background, Color::white());
    assert_eq!(hovered.background, Color::black());
}

#[test]
fn later_rule_wins_at_equal_specificity() {
    let sheet = css::parse(".a { color: red; } .b { color: blue; }");
    let node = Node::new("div").class("a").class("b");
    let style = compute_style(&node, &sheet, &root(), false);
    assert_eq!(style.color, Color::rgb(0, 0, 255));
    let sheet2 = css::parse(".b { color: blue; } .a { color: red; }");
    assert_eq!(compute_style(&node, &sheet2, &root(), false).color, Color::rgb(255, 0, 0));
}

#[test]
fn type_beats_universal_in_any_order() {
    let sheet = css::parse("p { margin: 3px; } * { margin: 9px; }");
    let style = compute_style(&Node::new("p"), &sheet, &root(), false);
    assert_eq!(style.margin, 3 * 64);
}

#[test]
fn keywords_and_unknown_values() {
    let sheet = css::parse(
        "div { display: flex; position: absolute; flex-direction: column; \
         justify-content: space-around; align-items: end; text-align: right; \
         flex: 2 1 0; gap: 4px; top: 1px; left: -2px; unknown: 5px; }",
    );
    let s = compute_style(&Node::new("div"), &sheet, &root(), false);
    assert_eq!(s.display, Display::Flex);
    assert_eq!(s.position, Position::Absolute);
    assert_eq!(s.flex_direction, FlexDirection::Column);
    assert_eq!(s.justify_content, Justify::SpaceAround);
    assert_eq!(s.align_items, AlignItems::End);
    assert_eq!(s.text_align, TextAlign::Right);
    assert_eq!(s.flex_grow, 2 * 64);
    assert_eq!(s.gap, 4 * 64);
    assert_eq!(s.top, Some(64));
    assert_eq!(s.left, Some(-128));
    // A value that is not read leaves the default.
    let s2 = compute_style(&Node::new("div"), &css::parse("div { padding: wide; display: grid; }"), &root(), false);
    assert_eq!(s2.padding, 0);
    assert_eq!(s2.display, Display::Block);
}

#[test]
fn length_values() {
    assert_eq!(parse_length("10px"), Some(640));
    assert_eq!(parse_length(" 10 "), Some(640));
    assert_eq!(parse_length("1.5px"), Some(96));
    assert_eq!(parse_length("0.1px"), Some(6));
    assert_eq!(parse_length("-0.1px"), Some(-6));
    assert_eq!(parse_length("2e1px"), Some(1280));
    assert_eq!(parse_length("1e30"), Some(1099511627776));
    assert_eq!(parse_length("-inf"), Some(-1099511627776));
    assert_eq!(parse_length("1e-30"), Some(0));
    assert_eq!(parse_length("NaN"), None);
    assert_eq!(parse_length("px"), None);
    assert_eq!(parse_length("10 px"), Some(640));
    assert_eq!(parse_length("em"), None);
}

fn decl(p: &str, v: &str) -> css::Declaration {
    css::Declaration { property: p.to_string(), value: v.to_string() }
}

#[test]
fn a_length_that_cannot_be_read_keeps_the_old_value() {
    let mut s = ComputedStyle::default();
    apply_declaration(&mut s, &decl("width", "200px"));
    assert_eq!(s.width, Some(200 * 64));
    apply_declaration(&mut s, &decl("width", "50%"));
    assert_eq!(s.width, Some(200 * 64));
    for p in ["height", "top", "right", "bottom", "left"] {
        apply_declaration(&mut s, &decl(p, "7px"));
        apply_declaration(&mut s, &decl(p, "auto"));
    }
    assert_eq!((s.height, s.top, s.right, s.bottom, s.left), (Some(448), Some(448), Some(448), Some(448), Some(448)));
    let before = s;
    apply_declaration(&mut s, &decl("colour", "red"));
    apply_declaration(&mut s, &decl("color", "#aé123"));
    assert_eq!(format!("{:?}", s), format!("{:?}", before));
}

#[test]
fn the_winning_rule_gives_the_background() {
    let node = Node::new("div").class("card");
    // Highest specificity wins, wherever it stands.
    let sheet = css::parse(".card { background: red; background: nope; } div { background: blue; }");
    assert_eq!(compute_style(&node, &sheet, &root(), false).background, Color::rgb(255, 0, 0));
    // At equal specificity the later rule wins.
    let sheet = css::parse(".card { background: red; } .card { background-color: #00ff00; }");
    assert_eq!(compute_style(&node, &sheet, &root(), false).background, Color::rgb(0, 255, 0));
}

#[test]
fn no_matching_rule_leaves_the_background_transparent() {
    let sheet = css::parse("span { background: red; } .x { background: blue; }");
    let style = compute_style(&Node::new("div").class("y"), &sheet, &root(), false);
    assert_eq!(style.background, Color::transparent());
}
