use makecss_core::dom::Node;
use makecss_core::html::{parse, parse_fragment};

#[test]
fn parses_nested_elements_and_classes() {
    let root = parse(r#"<div class="card"><p class="a b">hi</p></div>"#);
    assert_eq!(root.tag, "div");
    assert_eq!(root.classes, vec!["card"]);
    assert_eq!(root.children.len(), 1);
    let p = &root.children[0];
    assert_eq!(p.tag, "p");
    assert_eq!(p.classes, vec!["a", "b"]);
    assert_eq!(p.text.as_deref(), Some("hi"));
}

#[test]
fn text_only_element_keeps_text_on_itself() {
    let root = parse(r#"<span class="x">hello world</span>"#);
    assert_eq!(root.tag, "span");
    assert!(root.children.is_empty());
    assert_eq!(root.text.as_deref(), Some("hello world"));
}

#[test]
fn wraps_multiple_roots_and_skips_comments() {
    let root = parse("<!-- 주석 --><a></a><b></b>");
    assert_eq!(root.tag, "div");
    assert_eq!(root.children.len(), 2);
    assert_eq!(root.children[0].tag, "a");
    assert_eq!(root.children[1].tag, "b");
}

#[test]
fn handles_self_closing_and_void_and_entities() {
    let root = parse("<div><br><img class=\"logo\"/>5 &lt; 10</div>");
    assert_eq!(root.children.len(), 3);
    assert_eq!(root.children[0].tag, "br");
    assert_eq!(root.children[1].tag, "img");
    assert_eq!(root.children[1].classes, vec!["logo"]);
    assert_eq!(root.children[2].tag, "#text");
    assert_eq!(root.children[2].text.as_deref(), Some("5 < 10"));
}

#[test]
fn tags_and_attribute_names_are_lower_cased() {
    let root = parse("<DIV CLASS='Big  Box'>x</DIV>");
    assert_eq!(root.tag, "div");
    assert_eq!(root.classes, vec!["Big", "Box"]);
    assert_eq!(root.text.as_deref(), Some("x"));
}

#[test]
fn entities_decode_in_order() {
    let root = parse("<p>&amp;lt; &quot;q&quot; &#39;a&apos; x&nbsp;y</p>");
    assert_eq!(root.text.as_deref(), Some("< \"q\" 'a' x y"));
}

#[test]
fn empty_and_blank_inputs_give_an_empty_div() {
    let root = parse("");
    assert_eq!(root.tag, "div");
    assert!(root.children.is_empty());
    assert!(root.text.is_none());
    assert!(parse_fragment("   \n ").is_empty());
}

#[test]
fn broken_markup_does_not_fail() {
    let root = parse("<<>><div>></div");
    assert_eq!(root.tag, "div");
    let root = parse("<div class=>no value</div>");
    assert_eq!(root.text.as_deref(), Some("no value"));
    assert_eq!(parse("<div><span>unclosed").children[0].text.as_deref(), Some("unclosed"));
}

#[test]
fn last_class_attribute_wins_and_others_are_dropped() {
    let root = parse("<a class=\"x\" id=main class=y z=\"1\"></a>");
    assert_eq!(root.classes, vec!["y"]);
}

#[test]
fn builders_chain() {
    let n = Node::new("div").class("a").class("b").child(Node::new("span").text("t"));
    assert_eq!(n.tag, "div");
    assert_eq!(n.classes, vec!["a", "b"]);
    assert_eq!(n.children.len(), 1);
    assert_eq!(n.children[0].text.as_deref(), Some("t"));
    assert!(n.text.is_none());
}

/// Checks the shape that every element read from HTML has.
fn well_formed(n: &Node) -> bool {
    let void = ["br", "img", "hr", "input", "meta", "link", "area", "base"].contains(&n.tag.as_str());
    let text_node = n.tag == "#text" && n.classes.is_empty() && n.children.is_empty() && n.text.is_some();
    let tag_ok = n.tag.chars().all(|c| c.is_ascii_lowercase() || c.is_ascii_digit() || c == '-' || c == '_');
    !n.tag.is_empty()
        && (text_node || tag_ok)
        && n.classes.iter().all(|c| !c.is_empty() && !c.chars().any(char::is_whitespace))
        && n.text.as_ref().map_or(true, |t| !t.is_empty() && n.children.is_empty())
        && (n.children.is_empty() || n.children.iter().any(|c| c.tag != "#text"))
        && (!void || (n.children.is_empty() && n.text.is_none()))
        && n.children.iter().all(well_formed)
}

#[test]
fn every_element_read_is_well_formed() {
    let html = r#"<DIV> <p>  </p><br>x</br><span class=" x  y ">a<b class=q>c</b> d</span><img src=x>y</img><!-- c --></div>tail"#;
    let nodes = parse_fragment(html);
    assert!(!nodes.is_empty());
    assert!(nodes.iter().all(well_formed));
}
