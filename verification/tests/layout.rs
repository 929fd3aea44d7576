use makecss_core::css;
use makecss_core::layout::{layout_tree, LayoutBox};
use makecss_core::BitmapFont;

fn layout(html_css: (&str, &str), w: i64) -> LayoutBox {
    let node = makecss_core::html::parse(html_css.0);
    let sheet = css::parse(html_css.1);
    layout_tree(&node, &sheet, w * 64, 600 * 64, &BitmapFont)
}

#[test]
fn fills_parent_width_minus_padding() {
    let root = layout((r#"<div class="box"></div>"#, ".box { padding: 10px; }"), 300);
    assert_eq!(root.border_box.width, 300 * 64);
}

#[test]
fn block_stacks_children_vertically() {
    let root = layout(
        (r#"<div><div class="c"></div><div class="c"></div></div>"#, ".c { height: 50px; }"),
        200,
    );
    assert_eq!(root.border_box.height, 100 * 64);
    assert!(root.children[1].border_box.y > root.children[0].border_box.y);
}

#[test]
fn flex_row_places_children_side_by_side() {
    let root = layout(
        (
            r#"<div class="row"><div class="a"></div><div class="b"></div></div>"#,
            ".row { display: flex; } .a, .b { width: 40px; height: 20px; }",
        ),
        300,
    );
    let a = &root.children[0];
    let b = &root.children[1];
    assert_eq!(a.border_box.y, b.border_box.y);
    assert!(b.border_box.x > a.border_box.x);
}

#[test]
fn flex_grow_fills_remaining_width() {
    let root = layout(
        (r#"<div class="row"><div class="g"></div></div>"#, ".row { display: flex; } .g { flex: 1; height: 20px; }"),
        200,
    );
    assert!((root.children[0].border_box.width - 200 * 64).abs() < 64);
}

#[test]
fn display_none_is_skipped() {
    let root = layout(
        (
            r#"<div><div class="gone"></div><div class="shown" ></div></div>"#,
            ".gone { display: none; height: 50px; } .shown { height: 30px; }",
        ),
        100,
    );
    assert_eq!(root.children.len(), 1);
    assert_eq!(root.border_box.height, 30 * 64);
}

#[test]
fn absolute_positions_relative_to_positioned_parent() {
    let root = layout(
        (
            r#"<div class="card"><div class="badge"></div></div>"#,
            ".card { position: relative; height: 100px; padding: 0px; } \
             .badge { position: absolute; top: 10px; left: 20px; width: 8px; height: 8px; }",
        ),
        100,
    );
    let badge = &root.children[0];
    assert!((badge.border_box.x - 20 * 64).abs() < 32);
    assert!((badge.border_box.y - 10 * 64).abs() < 32);
}

#[test]
fn flex_space_between_puts_items_at_both_ends() {
    let root = layout(
        (
            r#"<div class="row"><div class="a"></div><div class="a"></div></div>"#,
            ".row { display: flex; justify-content: space-between; } .a { width: 10px; height: 10px; }",
        ),
        100,
    );
    assert_eq!(root.children[0].border_box.x, 0);
    assert_eq!(root.children[1].border_box.x, 90 * 64);
}

#[test]
fn flex_center_and_stretch() {
    let root = layout(
        (
            r#"<div class="row"><div class="a"></div><div class="b"></div></div>"#,
            ".row { display: flex; justify-content: center; height: 40px; } \
             .a { width: 10px; height: 10px; } .b { width: 30px; }",
        ),
        100,
    );
    // 40 of 100 used: the items start at 30.
    assert_eq!(root.children[0].border_box.x, 30 * 64);
    assert_eq!(root.children[1].border_box.x, 40 * 64);
    // Stretched across the row's 40px height.
    assert_eq!(root.children[0].border_box.height, 40 * 64);
}

#[test]
fn relative_moves_without_changing_the_flow() {
    let root = layout(
        (
            r#"<div><div class="r"></div><div class="n"></div></div>"#,
            ".r { position: relative; top: 5px; left: 7px; height: 10px; } .n { height: 10px; }",
        ),
        100,
    );
    assert_eq!(root.children[0].border_box.x, 7 * 64);
    assert_eq!(root.children[0].border_box.y, 5 * 64);
    // The next box stays where the flow put it.
    assert_eq!(root.children[1].border_box.y, 10 * 64);
}

#[test]
fn text_sets_the_height() {
    // Two words of 30px (5 characters of 6px at 14px) in 40px: two lines of 9px.
    let root = layout((r#"<div>aaaaa bbbbb</div>"#, "div { font-size: 14px; width: 40px; }"), 100);
    assert_eq!(root.border_box.height, 18 * 64);
}

#[test]
fn a_block_with_margin_fills_what_is_left() {
    let root = layout(
        (r#"<div class="b"></div>"#, ".b { margin: 5px; padding: 2px; border-width: 1px; }"),
        100,
    );
    assert_eq!(root.border_box.x, 5 * 64);
    assert_eq!(root.border_box.y, 5 * 64);
    assert_eq!(root.border_box.width, 90 * 64);
    let wide = layout((r#"<div class="b"></div>"#, ".b { margin: 60px; padding: 2px; }"), 100);
    assert_eq!(wide.border_box.width, 4 * 64);
}
