use makecss_core::{render, render_html, render_html_with_font_hover, BitmapFont, Node};

#[test]
fn renders_a_red_box_on_white() {
    // A 50x50 red box at the top left of a white 100x100 canvas.
    let root = Node::new("div").child(Node::new("div").class("box"));
    let css = ".box { width: 50px; height: 50px; background: red; }";
    let canvas = render(&root, css, 100, 100);
    let inside = canvas.pixels[10 * 100 + 10];
    let outside = canvas.pixels[80 * 100 + 80];
    assert_eq!(inside, 0xff0000);
    assert_eq!(outside, 0xffffff);
}

#[test]
fn draws_text_pixels() {
    // Black text on white leaves at least one black pixel.
    let root = Node::new("div").class("t").text("I");
    let css = ".t { color: black; font-size: 14px; }";
    let canvas = render(&root, css, 60, 30);
    let has_black = canvas.pixels.contains(&0x000000);
    assert!(has_black, "no pixel of the text was drawn");
}

#[test]
fn child_text_inherits_parent_color() {
    // Only the parent sets a red colour; the child's text inherits it.
    let html = r#"<div class="box"><div class="t">I</div></div>"#;
    let css = ".box { color: red; } .t { font-size: 14px; }";
    let canvas = render_html(html, css, 60, 30);
    assert!(canvas.pixels.contains(&0xff0000), "the text should be the inherited red");
    assert!(!canvas.pixels.contains(&0x000000), "black text means the colour was not inherited");
}

#[test]
fn text_is_drawn_at_the_dot_scale() {
    // "I" at 14px: one pixel per dot; its top row is dots 1..=3 of 5.
    let root = Node::new("div").text("I");
    let canvas = render(&root, "div { font-size: 14px; }", 20, 20);
    assert_eq!(canvas.pixels[0 * 20 + 1], 0x000000);
    assert_eq!(canvas.pixels[0 * 20 + 3], 0x000000);
    assert_eq!(canvas.pixels[0 * 20 + 0], 0xffffff);
    assert_eq!(canvas.pixels[0 * 20 + 4], 0xffffff);
    // The stem, one dot wide, runs down the middle.
    assert_eq!(canvas.pixels[3 * 20 + 2], 0x000000);
    assert_eq!(canvas.pixels[3 * 20 + 1], 0xffffff);
}

#[test]
fn border_frames_the_background() {
    let html = r#"<div class="b"></div>"#;
    let css = ".b { width: 10px; height: 10px; border-width: 2px; border-color: blue; background: red; }";
    let canvas = render_html(html, css, 20, 20);
    assert_eq!(canvas.pixels[0], 0x0000ff);
    assert_eq!(canvas.pixels[1 * 20 + 1], 0x0000ff);
    assert_eq!(canvas.pixels[2 * 20 + 2], 0xff0000);
    assert_eq!(canvas.pixels[13 * 20 + 13], 0x0000ff);
    assert_eq!(canvas.pixels[14 * 20 + 14], 0xffffff);
}

#[test]
fn a_colour_that_cannot_be_read_is_ignored() {
    let html = r#"<div class="b"></div>"#;
    let css = ".b { width: 4px; height: 4px; background: red; background: #a\u{e9}123; }";
    let canvas = render_html(html, css, 8, 8);
    assert_eq!(canvas.pixels[0], 0xff0000);
    r(html, "div { color: #a\u{e9}123 }", 10, 10);
}

/// Renders one case; a panic inside fails the test.
fn r(html: &str, css: &str, w: u32, h: u32) {
    let canvas = render_html(html, css, w, h);
    assert_eq!(canvas.pixels.len(), (w * h) as usize);
}

#[test]
fn empty_inputs() {
    r("", "", 50, 50);
    r("", ".x { color: red; }", 50, 50);
    r("<div></div>", "", 50, 50);
}

#[test]
fn zero_and_tiny_sizes() {
    r("<div>hi</div>", "div { padding: 4px; }", 0, 0);
    r("<div>hi</div>", "div { padding: 4px; }", 1, 1);
    r("<div>hi</div>", "div { padding: 4px; }", 2, 100);
}

#[test]
fn negative_and_huge_lengths() {
    r("<div>x</div>", "div { width: -10px; }", 80, 80);
    r("<div>x</div>", "div { padding: 100000px; }", 80, 80);
    r("<div>x</div>", "div { margin: -50px; height: -5px; }", 80, 80);
}

#[test]
fn display_none_everywhere() {
    r("<div style></div>", ".gone { display: none; }", 40, 40);
    r(r#"<div class="gone">hi</div>"#, ".gone { display: none; }", 40, 40);
    r(r#"<div class="gone"><div>a</div><div>b</div></div>"#, ".gone { display: none; }", 40, 40);
}

#[test]
fn flex_edge_cases() {
    // A flex container without children.
    r(r#"<div class="f"></div>"#, ".f { display: flex; }", 60, 60);
    // One child and space-between (n - 1 = 0 in a division).
    r(
        r#"<div class="f"><div>a</div></div>"#,
        ".f { display: flex; justify-content: space-between; }",
        60,
        60,
    );
    // A flex column.
    r(
        r#"<div class="f"><div>a</div><div>b</div></div>"#,
        ".f { display: flex; flex-direction: column; gap: 8px; }",
        60,
        60,
    );
    // Every pairing of the alignments.
    for jc in ["flex-start", "center", "flex-end", "space-between", "space-around"] {
        for ai in ["flex-start", "center", "flex-end", "stretch"] {
            let css = format!(
                ".f {{ display: flex; justify-content: {jc}; align-items: {ai}; gap: 6px; }}"
            );
            r(r#"<div class="f"><div>aa</div><div>bbbb</div><div>c</div></div>"#, &css, 120, 60);
        }
    }
}

#[test]
fn position_variants() {
    let css = ".p { position: relative; height: 60px; } \
               .a { position: absolute; top: 5px; left: 5px; width: 10px; height: 10px; } \
               .b { position: absolute; bottom: 5px; right: 5px; width: 10px; height: 10px; } \
               .fx { position: fixed; bottom: 0px; right: 0px; width: 10px; height: 10px; }";
    r(
        r#"<div class="p"><div class="a"></div><div class="b"></div><div class="fx"></div></div>"#,
        css,
        100,
        100,
    );
}

#[test]
fn long_unbreakable_text_and_wrapping() {
    r(
        "<div>supercalifragilisticexpialidocious_a_very_long_unbreakable_token</div>",
        "div { width: 30px; }",
        60,
        120,
    );
    r("<div>one two three four five six seven eight nine ten</div>", "div { width: 40px; }", 60, 200);
}

#[test]
fn unusual_characters() {
    // Characters the font lacks (Hangul, emoji, control characters) do not break it.
    r("<div>안녕하세요 🚀 café</div>", "div { font-size: 16px; }", 200, 80);
    r("<div>\t\n  spaced  </div>", "div {}", 100, 40);
}

#[test]
fn malformed_html_and_css() {
    r("<div><span>unclosed", "div { color: red }", 80, 40);
    r("<<>><div>></div", "}{ : ; garbage", 80, 40);
    r("<div class=>no value</div>", "div { : ; width }", 80, 40);
    r("<!-- comment only -->", "/* nothing */", 40, 40);
}

#[test]
fn absurd_font_size_does_not_oom() {
    // A huge font size ends without exhausting memory (the glyphs may fall off the canvas).
    r("<div>big</div>", "div { font-size: 100000px; }", 80, 80);
}

#[test]
fn deeply_nested() {
    let mut html = String::new();
    for _ in 0..200 {
        html.push_str("<div>");
    }
    html.push_str("deep");
    for _ in 0..200 {
        html.push_str("</div>");
    }
    r(&html, "div { padding: 1px; }", 300, 300);
}

#[test]
fn smallest_example_draws_the_card() {
    let html = r#"<div class="card">Hello, makecss!</div>"#;
    let css = r#".card { background: #eef; padding: 12px; font-size: 20px; }"#;
    let canvas = render_html(html, css, 320, 80);
    assert_eq!(canvas.pixels.len(), 320 * 80);
    // The card's background fills its box: one line of 18px plus 12px of padding around.
    assert_eq!(canvas.pixels[1 * 320 + 1], 0xeeeeff);
    assert_eq!(canvas.pixels[41 * 320 + 300], 0xeeeeff);
    assert_eq!(canvas.pixels[42 * 320 + 300], 0xffffff);
    // The text is drawn in black over it.
    assert!(canvas.pixels.contains(&0x000000));
}

#[test]
fn children_are_painted_over_their_parent() {
    let html = r#"<div class="p"><div class="c"></div></div>"#;
    let css = ".p { background: blue; padding: 5px; } .c { height: 10px; background: red; }";
    let canvas = render_html(html, css, 30, 30);
    assert_eq!(canvas.pixels[0], 0x0000ff);
    assert_eq!(canvas.pixels[6 * 30 + 6], 0xff0000);
    assert_eq!(canvas.pixels[16 * 30 + 6], 0x0000ff);
}

#[test]
fn hover_style_shows_only_under_the_pointer() {
    let html = r#"<div class="a"></div>"#;
    let css = ".a { width: 10px; height: 10px; background: red; } .a:hover { background: blue; }";
    let on = render_html_with_font_hover(html, css, 20, 20, &BitmapFont, Some((5 * 64, 5 * 64)));
    assert_eq!(on.pixels[2 * 20 + 2], 0x0000ff);
    let off = render_html_with_font_hover(html, css, 20, 20, &BitmapFont, Some((15 * 64, 15 * 64)));
    assert_eq!(off.pixels[2 * 20 + 2], 0xff0000);
    let none = render_html_with_font_hover(html, css, 20, 20, &BitmapFont, None);
    assert_eq!(none.pixels[2 * 20 + 2], 0xff0000);
    // Outside the box the canvas stays white either way.
    assert_eq!(on.pixels[15 * 20 + 15], 0xffffff);
}

#[test]
fn hover_changes_background_under_pointer() {
    let html = r#"<div class="btn"></div>"#;
    let css = ".btn { width: 40px; height: 40px; background: white; } \
               .btn:hover { background: red; }";
    // Pointer outside the box (95,5): white. Inside (5,5): red.
    let out = render_html_with_font_hover(html, css, 100, 50, &BitmapFont, Some((95 * 64, 5 * 64)));
    let on = render_html_with_font_hover(html, css, 100, 50, &BitmapFont, Some((5 * 64, 5 * 64)));
    assert_eq!(out.pixels[5 * 100 + 5], 0xffffff);
    assert_eq!(on.pixels[5 * 100 + 5], 0xff0000);
}

#[test]
fn every_pixel_is_rgb() {
    let html = r#"<div class="a">hi<div class="b"></div></div>"#;
    let css = ".a { background: rgba(10, 200, 30, 0.5); color: #123; } .b { height: 5px; background: white; }";
    let canvas = render_html(html, css, 30, 20);
    assert_eq!(canvas.pixels.len(), 600);
    assert!(canvas.pixels.iter().all(|p| p & 0xff00_0000 == 0));
}

#[test]
fn the_pointer_is_placed_to_a_fraction_of_a_pixel() {
    // The box starts at 0.3px (19 units); a pointer at 0.5px (32 units) is over it.
    let html = r#"<div class="a"></div>"#;
    let css = ".a { margin: 0.3px; width: 4px; height: 4px; background: red; } .a:hover { background: blue; }";
    let on = render_html_with_font_hover(html, css, 10, 10, &BitmapFont, Some((32, 32)));
    assert_eq!(on.pixels[2 * 10 + 2], 0x0000ff);
    let off = render_html_with_font_hover(html, css, 10, 10, &BitmapFont, Some((10, 32)));
    assert_eq!(off.pixels[2 * 10 + 2], 0xff0000);
}
