use makecss_core::paint::{pack_color, Canvas, Rect};
use makecss_core::Color;

#[test]
fn fills_within_bounds() {
    let mut canvas = Canvas::new(4, 4, Color::white());
    canvas.fill_rect(Rect { x: 64, y: 64, width: 128, height: 128 }, Color::rgb(255, 0, 0));
    assert_eq!(canvas.pixels[1 * 4 + 1], pack_color(Color::rgb(255, 0, 0)));
    assert_eq!(canvas.pixels[0], pack_color(Color::white()));
}

#[test]
fn half_transparent_blends() {
    // 50% black over white gives grey, about 128.
    let mut canvas = Canvas::new(1, 1, Color::white());
    canvas.fill_rect(Rect { x: 0, y: 0, width: 64, height: 64 }, Color::rgba(0, 0, 0, 128));
    let r = (canvas.pixels[0] >> 16) & 0xff;
    assert!((r as i32 - 128).abs() <= 1);
}

#[test]
fn edges_round_to_the_nearest_pixel() {
    let mut canvas = Canvas::new(4, 1, Color::white());
    // From 0.5px to 2.49px: pixels 1 only (0.5 rounds up to 1, 2.49 down to 2).
    canvas.fill_rect(Rect { x: 32, y: 0, width: 127, height: 64 }, Color::black());
    assert_eq!(canvas.pixels[0], 0xffffff);
    assert_eq!(canvas.pixels[1], 0x000000);
    assert_eq!(canvas.pixels[2], 0xffffff);
}

#[test]
fn fills_clip_to_the_canvas() {
    let mut canvas = Canvas::new(3, 3, Color::white());
    canvas.fill_rect(Rect { x: -640, y: 128, width: 6400, height: 6400 }, Color::rgb(0, 255, 0));
    assert_eq!(canvas.pixels[0], 0xffffff);
    assert_eq!(canvas.pixels[2 * 3], 0x00ff00);
    assert_eq!(canvas.pixels[2 * 3 + 2], 0x00ff00);
}

#[test]
fn transparent_fill_changes_nothing() {
    let mut canvas = Canvas::new(2, 2, Color::white());
    canvas.fill_rect(Rect { x: 0, y: 0, width: 128, height: 128 }, Color::transparent());
    assert!(canvas.pixels.iter().all(|p| *p == 0xffffff));
}

#[test]
fn opaque_fill_twice_is_fill_once() {
    let mut a = Canvas::new(3, 3, Color::rgba(10, 20, 30, 255));
    let r = Rect { x: 64, y: 0, width: 128, height: 128 };
    a.fill_rect(r, Color::rgb(1, 2, 3));
    let once = a.pixels.clone();
    a.fill_rect(r, Color::rgb(1, 2, 3));
    assert_eq!(a.pixels, once);
}

#[test]
fn mixing_stays_between_the_colours() {
    let mut c = Canvas::new(1, 1, Color::rgb(200, 10, 90));
    c.fill_rect(Rect { x: 0, y: 0, width: 64, height: 64 }, Color::rgba(40, 250, 90, 77));
    let p = c.pixels[0];
    let (r, g, b) = ((p >> 16) & 0xff, (p >> 8) & 0xff, p & 0xff);
    assert!((40..=200).contains(&r));
    assert!((10..=250).contains(&g));
    assert_eq!(b, 90);
    // (40 * 77 + 200 * 178 + 127) / 255 = 152
    assert_eq!(r, 152);
}
