use makecss_core::color::Color;

#[test]
fn parses_hex_and_names() {
    assert_eq!(Color::parse("#fff"), Some(Color::white()));
    assert_eq!(Color::parse("#ff0000"), Some(Color::rgb(255, 0, 0)));
    assert_eq!(Color::parse("red"), Some(Color::rgb(255, 0, 0)));
    assert_eq!(Color::parse("rgb(0, 128, 0)"), Some(Color::rgb(0, 128, 0)));
    assert_eq!(Color::parse("rgba(0,0,0,0)"), Some(Color::transparent()));
    assert_eq!(Color::parse("nope"), None);
}

#[test]
fn constants_and_constructors() {
    assert_eq!(Color::black(), Color { r: 0, g: 0, b: 0, a: 255 });
    assert_eq!(Color::white(), Color::rgba(255, 255, 255, 255));
    assert_eq!(Color::transparent(), Color::rgba(0, 0, 0, 0));
    assert_eq!(Color::rgb(1, 2, 3).a, 255);
}

#[test]
fn hex_forms() {
    assert_eq!(Color::parse("#1a2B3c"), Some(Color::rgb(0x1a, 0x2b, 0x3c)));
    assert_eq!(Color::parse("  #a0f  "), Some(Color::rgb(0xaa, 0x00, 0xff)));
    assert_eq!(Color::parse("#+f+f+f"), None);
    assert_eq!(Color::parse("#+f+"), None);
    assert_eq!(Color::parse("#ff"), None);
    assert_eq!(Color::parse("#gggggg"), None);
    assert_eq!(Color::parse("#1234"), None);
    assert_eq!(Color::parse("#ééé"), None);
}

#[test]
fn non_ascii_hex_is_no_colour() {
    assert_eq!(Color::parse("#aé123"), None);
    assert_eq!(Color::parse("#aééa"), None);
    assert_eq!(Color::parse("#ff€a"), None);
    assert_eq!(Color::parse("#ffffé"), None);
}

#[test]
fn rgb_functions() {
    assert_eq!(Color::parse("rgb( 1 , +2 ,003 )"), Some(Color::rgb(1, 2, 3)));
    assert_eq!(Color::parse("rgb(256, 0, 0)"), None);
    assert_eq!(Color::parse("rgb(1, 2)"), None);
    assert_eq!(Color::parse("rgb(1, 2, 3, 4)"), None);
    assert_eq!(Color::parse("rgb(-1, 2, 3)"), None);
    assert_eq!(Color::parse("rgb(1, 2, 3"), None);
    assert_eq!(Color::parse("rgba(1, 2, 3)"), None);
}

#[test]
fn alpha_values() {
    assert_eq!(Color::parse("rgba(0,0,0,0.5)"), Some(Color::rgba(0, 0, 0, 128)));
    assert_eq!(Color::parse("rgba(0,0,0,1)"), Some(Color::rgba(0, 0, 0, 255)));
    assert_eq!(Color::parse("rgba(0,0,0,2.5)"), Some(Color::rgba(0, 0, 0, 255)));
    assert_eq!(Color::parse("rgba(0,0,0,-3)"), Some(Color::rgba(0, 0, 0, 0)));
    assert_eq!(Color::parse("rgba(0,0,0,.1)"), Some(Color::rgba(0, 0, 0, 26)));
    assert_eq!(Color::parse("rgba(0,0,0,0.3)"), Some(Color::rgba(0, 0, 0, 77)));
    assert_eq!(Color::parse("rgba(0,0,0,5e-1)"), Some(Color::rgba(0, 0, 0, 128)));
    assert_eq!(Color::parse("rgba(0,0,0,1E-2)"), Some(Color::rgba(0, 0, 0, 3)));
    assert_eq!(Color::parse("rgba(0,0,0,inf)"), Some(Color::rgba(0, 0, 0, 255)));
    assert_eq!(Color::parse("rgba(0,0,0,-Infinity)"), Some(Color::rgba(0, 0, 0, 0)));
    assert_eq!(Color::parse("rgba(0,0,0,NaN)"), Some(Color::rgba(0, 0, 0, 0)));
    assert_eq!(Color::parse("rgba(0,0,0,1e999999999999999999999)"), Some(Color::rgba(0, 0, 0, 255)));
    assert_eq!(Color::parse("rgba(0,0,0,1e-999999999999999999999)"), Some(Color::rgba(0, 0, 0, 0)));
    assert_eq!(Color::parse("rgba(0,0,0,0.)"), Some(Color::rgba(0, 0, 0, 0)));
    assert_eq!(Color::parse("rgba(0,0,0,.)"), None);
    assert_eq!(Color::parse("rgba(0,0,0,e5)"), None);
    assert_eq!(Color::parse("rgba(0,0,0,1e)"), None);
    assert_eq!(Color::parse("rgba(0,0,0,half)"), None);
}

#[test]
fn names_in_any_case() {
    assert_eq!(Color::parse("BLACK"), Some(Color::black()));
    assert_eq!(Color::parse("Grey"), Some(Color::rgb(128, 128, 128)));
    assert_eq!(Color::parse("lightGray"), Some(Color::rgb(211, 211, 211)));
    assert_eq!(Color::parse("orange"), Some(Color::rgb(255, 165, 0)));
    assert_eq!(Color::parse("blue"), Some(Color::rgb(0, 0, 255)));
    assert_eq!(Color::parse("green"), Some(Color::rgb(0, 128, 0)));
    assert_eq!(Color::parse("Transparent"), Some(Color::transparent()));
    assert_eq!(Color::parse(""), None);
}
