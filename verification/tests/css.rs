use makecss_core::css::{parse, Selector, SimpleSelector};

#[test]
fn parses_hover_pseudo_class() {
    let sheet = parse(".btn:hover { background: red; }");
    let sel = &sheet.rules[0].selectors[0];
    assert_eq!(sel.simple, SimpleSelector::Class("btn".into()));
    assert!(sel.hover);
}

#[test]
fn parses_a_simple_rule() {
    let sheet = parse(".card { background: blue; padding: 10px; }");
    assert_eq!(sheet.rules.len(), 1);
    let rule = &sheet.rules[0];
    assert_eq!(rule.selectors, vec![Selector::simple(SimpleSelector::Class("card".into()))]);
    assert_eq!(rule.declarations.len(), 2);
    assert_eq!(rule.declarations[0].property, "background");
    assert_eq!(rule.declarations[0].value, "blue");
    assert_eq!(rule.declarations[1].property, "padding");
    assert_eq!(rule.declarations[1].value, "10px");
}

#[test]
fn recovers_after_at_rules_and_stray_tokens() {
    let sheet = parse("@media screen { .x { color: red; } } } .a { color: blue; }");
    let last = sheet.rules.last().expect("the rule after the at-rule survives");
    assert_eq!(last.selectors, vec![Selector::simple(SimpleSelector::Class("a".into()))]);
    assert_eq!(last.declarations[0].value, "blue");
}

#[test]
fn parses_multiple_selectors_and_rules() {
    let sheet = parse("h1, .title { color: red; }\n* { margin: 0; }");
    assert_eq!(sheet.rules.len(), 2);
    assert_eq!(sheet.rules[0].selectors.len(), 2);
    assert_eq!(sheet.rules[1].selectors, vec![Selector::simple(SimpleSelector::Universal)]);
}

#[test]
fn at_rule_is_skipped_whole() {
    let sheet = parse("@media screen { .x { color: red; } } .a { color: blue; }");
    assert_eq!(sheet.rules.len(), 1);
    let sheet = parse("@import url(x.css); .b { margin: 1px }");
    assert_eq!(sheet.rules.len(), 1);
    assert_eq!(sheet.rules[0].declarations[0].property, "margin");
    assert_eq!(sheet.rules[0].declarations[0].value, "1px");
}

#[test]
fn unknown_pseudo_class_voids_selector() {
    let sheet = parse("a:focus, .b { color: red; }");
    assert_eq!(sheet.rules.len(), 1);
    assert_eq!(sheet.rules[0].selectors, vec![Selector::simple(SimpleSelector::Class("b".into()))]);
}

#[test]
fn broken_declarations_are_skipped() {
    let sheet = parse("div { : ; width }");
    assert_eq!(sheet.rules.len(), 1);
    assert_eq!(sheet.rules[0].declarations.len(), 0);
    let sheet = parse("div { color red; margin: 2px; }");
    assert_eq!(sheet.rules[0].declarations.len(), 1);
    assert_eq!(sheet.rules[0].declarations[0].property, "margin");
}

#[test]
fn value_is_trimmed_and_may_end_at_brace() {
    let sheet = parse("p{color:  dark red  }");
    assert_eq!(sheet.rules[0].declarations[0].value, "dark red");
    assert_eq!(sheet.rules[0].selectors, vec![Selector::simple(SimpleSelector::Type("p".into()))]);
}

#[test]
fn odd_input_is_read_without_panicking() {
    assert_eq!(parse("}{ : ; garbage").rules.len(), 1);
    assert_eq!(parse("").rules.len(), 0);
    assert_eq!(parse("/* nothing */").rules.len(), 3);
}

#[test]
fn an_at_rule_block_is_skipped_to_its_balancing_brace() {
    let sheet = parse("@media x { a { color: red } .c { } } b { color: blue }");
    assert_eq!(sheet.rules.len(), 1);
    assert_eq!(sheet.rules[0].declarations[0].value, "blue");
    let sheet = parse("@import url(x.css); i { color: red }");
    assert_eq!(sheet.rules.len(), 1);
}
