use makecss_core::style::TextAlign;
use makecss_core::text::layout_text;
use makecss_core::BitmapFont;

#[test]
fn wraps_into_multiple_lines() {
    let block = layout_text("one two three four five", &BitmapFont, 14 * 64, 60 * 64, TextAlign::Left);
    assert!(block.lines.len() > 1, "no line was wrapped");
    assert!(block.height >= block.lines.len() as i64 * 64);
}

#[test]
fn center_shifts_glyphs_right() {
    let left = layout_text("hi", &BitmapFont, 14 * 64, 200 * 64, TextAlign::Left);
    let center = layout_text("hi", &BitmapFont, 14 * 64, 200 * 64, TextAlign::Center);
    assert_eq!(left.lines[0].glyphs[0].x, 0);
    assert!(center.lines[0].glyphs[0].x > 0);
}

#[test]
fn wrapping_positions() {
    // Characters advance 6px at 14px; "one two" is 42px, too wide for 40px.
    let block = layout_text("one two", &BitmapFont, 14 * 64, 40 * 64, TextAlign::Left);
    assert_eq!(block.lines.len(), 2);
    assert_eq!(block.lines[0].width, 18 * 64);
    assert_eq!(block.lines[1].top, 9 * 64);
    assert_eq!(block.lines[1].glyphs[2].x, 12 * 64);
    assert_eq!(block.height, 18 * 64);
}

#[test]
fn long_word_breaks_between_characters() {
    let block = layout_text("abcdefgh", &BitmapFont, 14 * 64, 20 * 64, TextAlign::Left);
    // Three characters of 6px fit in 20px.
    assert_eq!(block.lines.len(), 3);
    assert_eq!(block.lines[0].glyphs.len(), 3);
    assert_eq!(block.lines[2].glyphs.len(), 2);
}

#[test]
fn right_alignment_takes_the_free_space() {
    let block = layout_text("ab", &BitmapFont, 14 * 64, 100 * 64, TextAlign::Right);
    assert_eq!(block.lines[0].glyphs[0].x, 88 * 64);
}

#[test]
fn empty_text_is_one_empty_line() {
    let block = layout_text("   ", &BitmapFont, 14 * 64, 100 * 64, TextAlign::Left);
    assert_eq!(block.lines.len(), 1);
    assert_eq!(block.lines[0].glyphs.len(), 0);
    assert_eq!(block.height, 9 * 64);
}

#[test]
fn wrapping_keeps_every_character_in_order() {
    let text = "  the quick  brown fox\tjumps over a supercalifragilistic dog ";
    let block = layout_text(text, &BitmapFont, 14 * 64, 40 * 64, TextAlign::Center);
    let got: String = block.lines.iter().flat_map(|l| l.glyphs.iter().map(|g| g.ch)).collect();
    let want: String = text.split_whitespace().collect();
    assert_eq!(got, want);
}

#[test]
fn lines_fit_their_width() {
    let block = layout_text("aaa bb c dddddddddd e", &BitmapFont, 14 * 64, 25 * 64, TextAlign::Left);
    for line in &block.lines {
        assert!(line.width <= 25 * 64);
    }
}

#[test]
fn lines_stand_one_line_height_apart() {
    let block = layout_text("one two three four five", &BitmapFont, 14 * 64, 60 * 64, TextAlign::Left);
    for (i, line) in block.lines.iter().enumerate() {
        assert_eq!(line.top, i as i64 * 9 * 64);
    }
    assert_eq!(block.height, block.lines.len() as i64 * 9 * 64);
    assert_eq!(block.width, 60 * 64);
    let empty = layout_text("   ", &BitmapFont, 14 * 64, 60 * 64, TextAlign::Left);
    assert_eq!(empty.lines.len(), 1);
    // A size beyond the bound is taken at the bound.
    let huge = layout_text("a", &BitmapFont, i64::MAX, 60 * 64, TextAlign::Left);
    assert_eq!(huge.lines.len(), 1);
}

#[test]
fn the_block_keeps_the_width_it_was_given() {
    let w: i64 = 1 << 41;
    let block = layout_text("a", &BitmapFont, 896, w, TextAlign::Left);
    assert_eq!(block.width, w);
}
