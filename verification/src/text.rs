//! Text layout: word wrapping and alignment.
//!
//! Words are laid out one after another; when a word would cross the width,
//! a new line starts. A word wider than the whole width is broken between
//! characters. Each finished line is then shifted left, centre or right.

use vstd::prelude::*;

use crate::chars::to_chars;
use crate::fixed::{add_len, bound, clamp, mul_len, sub_len};
use crate::font::{dot_size, BitmapFont};
use crate::html::{split_words, words};
use crate::dom::strings_v;
use crate::style::TextAlign;
use crate::color::Color;
use crate::fixed::{bounded, max, min};
use crate::font::{bit_of, dot_set, row_of, glyph_code};
use crate::paint::{lemma_fill_rgb, px_round, rgb_pixels, round_px, spec_fill, Canvas};

verus! {

/// A character placed on a line; `x` is measured from the left of the block,
/// in units of 1/64 pixel.
#[derive(Debug, Clone, Copy)]
pub struct PlacedGlyph {
    pub ch: char,
    pub x: i64,
}

/// One laid-out line.
#[derive(Debug, Clone)]
pub struct TextLine {
    pub glyphs: Vec<PlacedGlyph>,
    /// The width that the line's characters take.
    pub width: i64,
    /// The line's top, measured from the top of the block.
    pub top: i64,
}

/// Text laid out in lines.
#[derive(Debug, Clone)]
pub struct TextBlock {
    pub lines: Vec<TextLine>,
    /// The width the text was wrapped to.
    pub width: i64,
    /// The height of all the lines.
    pub height: i64,
}

/// The mathematical value of a `TextLine`.
pub struct TextLineV {
    pub glyphs: Seq<PlacedGlyph>,
    pub width: i64,
    pub top: i64,
}

/// The mathematical value of a `TextBlock`.
pub struct TextBlockV {
    pub lines: Seq<TextLineV>,
    pub width: i64,
    pub height: i64,
}

impl View for TextLine {
    type V = TextLineV;

    open spec fn view(&self) -> TextLineV {
        TextLineV { glyphs: self.glyphs@, width: self.width, top: self.top }
    }
}

/// The values of a sequence of lines.
pub open spec fn lines_v(v: Seq<TextLine>) -> Seq<TextLineV> {
    v.map_values(|l: TextLine| l@)
}

impl View for TextBlock {
    type V = TextBlockV;

    open spec fn view(&self) -> TextBlockV {
        TextBlockV { lines: lines_v(self.lines@), width: self.width, height: self.height }
    }
}

/// The state of wrapping: the finished lines, the line being filled and the
/// pen's position on it.
pub struct Wrap {
    pub lines: Seq<TextLineV>,
    pub cur: Seq<PlacedGlyph>,
    pub cur_w: int,
}

/// Nothing wrapped yet.
pub open spec fn wrap_start() -> Wrap {
    Wrap { lines: Seq::empty(), cur: Seq::empty(), cur_w: 0 }
}

/// The current line finished, a new one begun.
pub open spec fn flush(st: Wrap) -> Wrap {
    Wrap {
        lines: st.lines.push(TextLineV { glyphs: st.cur, width: st.cur_w as i64, top: 0 }),
        cur: Seq::empty(),
        cur_w: 0,
    }
}

/// A character placed at the pen, the pen moved by the advance.
pub open spec fn place(st: Wrap, c: char, aw: int) -> Wrap {
    Wrap { cur: st.cur.push(PlacedGlyph { ch: c, x: st.cur_w as i64 }), cur_w: clamp(st.cur_w + aw), ..st }
}

/// The characters placed one after another.
pub open spec fn place_all(st: Wrap, w: Seq<char>, aw: int) -> Wrap
    decreases w.len(),
{
    if w.len() == 0 {
        st
    } else {
        place(place_all(st, w.drop_last(), aw), w.last(), aw)
    }
}

/// A character placed, on a new line when it would cross the width.
pub open spec fn break_one(st: Wrap, c: char, aw: int, maxw: int) -> Wrap {
    let st1 = if st.cur.len() > 0 && st.cur_w + aw > maxw {
        flush(st)
    } else {
        st
    };
    place(st1, c, aw)
}

/// The characters placed one after another, breaking lines between them.
pub open spec fn break_all(st: Wrap, w: Seq<char>, aw: int, maxw: int) -> Wrap
    decreases w.len(),
{
    if w.len() == 0 {
        st
    } else {
        break_one(break_all(st, w.drop_last(), aw, maxw), w.last(), aw, maxw)
    }
}

/// One word wrapped: a word wider than the width starts a line and is broken
/// between characters; another word goes on the current line after a space,
/// or on a new line when it would cross the width.
pub open spec fn wrap_word(st: Wrap, w: Seq<char>, aw: int, maxw: int) -> Wrap {
    let ww = clamp(w.len() * aw);
    if maxw > 0 && ww > maxw {
        let st1 = if st.cur.len() > 0 {
            flush(st)
        } else {
            st
        };
        break_all(st1, w, aw, maxw)
    } else {
        let with_space = if st.cur.len() == 0 {
            0
        } else {
            aw
        };
        let st1 = if st.cur.len() > 0 && st.cur_w + with_space + ww > maxw {
            flush(st)
        } else {
            st
        };
        let st2 = if st1.cur.len() > 0 {
            Wrap { cur_w: clamp(st1.cur_w + aw), ..st1 }
        } else {
            st1
        };
        place_all(st2, w, aw)
    }
}

/// The words wrapped one after another.
pub open spec fn wrap_words(st: Wrap, ws: Seq<Seq<char>>, aw: int, maxw: int) -> Wrap
    decreases ws.len(),
{
    if ws.len() == 0 {
        st
    } else {
        wrap_word(wrap_words(st, ws.drop_last(), aw, maxw), ws.last(), aw, maxw)
    }
}

/// The lines of the text wrapped to `maxw`, with every character advancing
/// by `aw`; an empty text gives one empty line.
pub open spec fn wrapped_lines(text: Seq<char>, aw: int, maxw: int) -> Seq<TextLineV> {
    let st = wrap_words(wrap_start(), words(text, 0), aw, maxw);
    (if st.cur.len() > 0 || st.lines.len() == 0 {
        flush(st)
    } else {
        st
    }).lines
}

/// How far a line of the given width moves right: none for left alignment,
/// half the free space for centring, all of it for right alignment.
pub open spec fn align_offset(width: int, maxw: int, align: TextAlign) -> int {
    let free = if maxw - width > 0 {
        maxw - width
    } else {
        0
    };
    match align {
        TextAlign::Left => 0,
        TextAlign::Center => free / 2,
        TextAlign::Right => free,
    }
}

/// Line `i` aligned and placed at its height.
pub open spec fn aligned_line(l: TextLineV, i: int, maxw: int, align: TextAlign, lh: int) -> TextLineV {
    let off = align_offset(l.width as int, maxw, align);
    TextLineV {
        glyphs: Seq::new(
            l.glyphs.len(),
            |k: int| PlacedGlyph { ch: l.glyphs[k].ch, x: clamp(l.glyphs[k].x + off) as i64 },
        ),
        width: l.width,
        top: clamp(i * lh) as i64,
    }
}

/// The text laid out in the bitmap font at the given size, wrapped to
/// `maxw` and aligned.
pub open spec fn spec_layout_text(text: Seq<char>, font_size: int, maxw: int, align: TextAlign) -> TextBlockV {
    let aw = 6 * dot_size(font_size) * 64;
    let lh = 9 * dot_size(font_size) * 64;
    let ls = wrapped_lines(text, aw, maxw);
    TextBlockV {
        lines: Seq::new(ls.len(), |i: int| aligned_line(ls[i], i, maxw, align, lh)),
        width: maxw as i64,
        height: clamp(ls.len() * lh) as i64,
    }
}

/// Whether every glyph lies within `0..=bound()`.
pub open spec fn glyphs_ok(g: Seq<PlacedGlyph>) -> bool {
    forall|q: int| 0 <= q < g.len() ==> 0 <= #[trigger] g[q].x <= bound()
}

/// Whether every line's width and glyphs lie within `0..=bound()`.
pub open spec fn lines_ok(l: Seq<TextLine>) -> bool {
    forall|k: int| 0 <= k < l.len() ==> 0 <= #[trigger] l[k].width <= bound() && glyphs_ok(l[k].glyphs@)
}

/// A count times a length, clamped.
pub(crate) fn count_times(n: usize, l: i64) -> (r: i64)
    requires
        1 <= l <= 2 * bound(),
    ensures
        r == clamp(n * l),
{
    if n as u64 > 1099511627776 {
        assert((n as int) * (l as int) >= n) by (nonlinear_arith)
            requires
                l >= 1,
                n >= 0,
        ;
        1099511627776
    } else {
        mul_len(n as i64, l)
    }
}

/// Whether a wrapping state is one that the executable state holds.
pub open spec fn holds(lines: Seq<TextLine>, cur: Seq<PlacedGlyph>, cur_w: i64, st: Wrap) -> bool {
    lines_v(lines) == st.lines && cur == st.cur && cur_w == st.cur_w
}

/// Finishes the current line.
fn flush_exec(lines: &mut Vec<TextLine>, cur: &mut Vec<PlacedGlyph>, cur_w: &mut i64, Ghost(st): Ghost<Wrap>)
    requires
        holds(old(lines)@, old(cur)@, *old(cur_w), st),
        lines_ok(old(lines)@),
        glyphs_ok(old(cur)@),
        0 <= *old(cur_w) <= bound(),
    ensures
        holds(final(lines)@, final(cur)@, *final(cur_w), flush(st)),
        lines_ok(final(lines)@),
        glyphs_ok(final(cur)@),
        *final(cur_w) == 0,
{
    let mut g: Vec<PlacedGlyph> = Vec::new();
    std::mem::swap(&mut g, cur);
    lines.push(TextLine { glyphs: g, width: *cur_w, top: 0 });
    *cur_w = 0;
    assert(lines_v(lines@) =~= flush(st).lines);
}

/// Places a character at the pen.
fn place_exec(cur: &mut Vec<PlacedGlyph>, cur_w: &mut i64, c: char, aw: i64)
    requires
        0 <= *old(cur_w) <= bound(),
        0 <= aw <= bound(),
        glyphs_ok(old(cur)@),
    ensures
        final(cur)@ == old(cur)@.push(PlacedGlyph { ch: c, x: *old(cur_w) }),
        *final(cur_w) == clamp(*old(cur_w) + aw),
        0 <= *final(cur_w) <= bound(),
        glyphs_ok(final(cur)@),
{
    cur.push(PlacedGlyph { ch: c, x: *cur_w });
    *cur_w = add_len(*cur_w, aw);
}

/// Wraps one word.
fn wrap_word_exec(
    lines: &mut Vec<TextLine>,
    cur: &mut Vec<PlacedGlyph>,
    cur_w: &mut i64,
    w: &Vec<char>,
    aw: i64,
    maxw: i64,
    Ghost(st): Ghost<Wrap>,
)
    requires
        holds(old(lines)@, old(cur)@, *old(cur_w), st),
        lines_ok(old(lines)@),
        glyphs_ok(old(cur)@),
        0 <= *old(cur_w) <= bound(),
        1 <= aw <= bound(),
        -bound() <= maxw <= bound(),
    ensures
        holds(final(lines)@, final(cur)@, *final(cur_w), wrap_word(st, w@, aw as int, maxw as int)),
        lines_ok(final(lines)@),
        glyphs_ok(final(cur)@),
        0 <= *final(cur_w) <= bound(),
{
    let n = w.len();
    let ww = count_times(n, aw);
    if maxw > 0 && ww > maxw {
        let ghost st1 = if st.cur.len() > 0 {
            flush(st)
        } else {
            st
        };
        if cur.len() > 0 {
            flush_exec(lines, cur, cur_w, Ghost(st));
        }
        let mut i: usize = 0;
        while i < n
            invariant
                i <= n == w@.len(),
                0 <= *cur_w <= bound(),
                1 <= aw <= bound(),
                -bound() <= maxw <= bound(),
                lines_ok(lines@),
                glyphs_ok(cur@),
                holds(lines@, cur@, *cur_w, break_all(st1, w@.take(i as int), aw as int, maxw as int)),
            decreases n - i,
        {
            let ghost sti = break_all(st1, w@.take(i as int), aw as int, maxw as int);
            assert(w@.take(i + 1).drop_last() =~= w@.take(i as int));
            if cur.len() > 0 && *cur_w + aw > maxw {
                flush_exec(lines, cur, cur_w, Ghost(sti));
            }
            place_exec(cur, cur_w, w[i], aw);
            assert(lines_v(lines@) == break_one(sti, w@[i as int], aw as int, maxw as int).lines);
            i += 1;
        }
        assert(w@.take(n as int) =~= w@);
    } else {
        let with_space: i64 = if cur.len() == 0 {
            0
        } else {
            aw
        };
        let ghost st1 = if st.cur.len() > 0 && st.cur_w + with_space + ww > maxw {
            flush(st)
        } else {
            st
        };
        if cur.len() > 0 && *cur_w + with_space + ww > maxw {
            flush_exec(lines, cur, cur_w, Ghost(st));
        }
        let ghost st2 = if st1.cur.len() > 0 {
            Wrap { cur_w: clamp(st1.cur_w + aw), ..st1 }
        } else {
            st1
        };
        if cur.len() > 0 {
            *cur_w = add_len(*cur_w, aw);
        }
        assert(holds(lines@, cur@, *cur_w, st2));
        let mut i: usize = 0;
        while i < n
            invariant
                i <= n == w@.len(),
                0 <= *cur_w <= bound(),
                1 <= aw <= bound(),
                lines_ok(lines@),
                glyphs_ok(cur@),
                holds(lines@, cur@, *cur_w, place_all(st2, w@.take(i as int), aw as int)),
            decreases n - i,
        {
            assert(w@.take(i + 1).drop_last() =~= w@.take(i as int));
            place_exec(cur, cur_w, w[i], aw);
            i += 1;
        }
        assert(w@.take(n as int) =~= w@);
    }
}

/// Lays out text in the bitmap font at `font_size`, wrapped to `max_width`
/// (in units of 1/64 pixel) and aligned.
///
/// Words are placed one after another with a space between them; a word
/// that would cross the width starts a new line, and a word wider than the
/// whole width starts a line and is broken between characters. Each line is
/// then shifted by its share of the free space, and stacked a line height
/// below the one before.
/// A font size or a width beyond the bound of `2^40` units is laid out at
/// the bound; the block keeps the width it was given.
pub fn layout_text(
    text: &str,
    font: &BitmapFont,
    font_size: i64,
    max_width: i64,
    align: TextAlign,
) -> (b: TextBlock)
    ensures
        b@ == (TextBlockV {
            width: max_width,
            ..spec_layout_text(text@, clamp(font_size as int), clamp(max_width as int), align)
        }),
        b@.width == max_width,
        block_ok(b@),
        0 <= b@.height <= bound(),
{
    let fs = clamp_exec(font_size);
    let mw = clamp_exec(max_width);
    let mut b = layout_text_bounded(text, font, fs, mw, align);
    b.width = max_width;
    b
}

/// A length taken within the bound.
fn clamp_exec(x: i64) -> (r: i64)
    ensures
        r == clamp(x as int),
{
    if x > 1_099_511_627_776 {
        1_099_511_627_776
    } else if x < -1_099_511_627_776 {
        -1_099_511_627_776
    } else {
        x
    }
}

/// Lays out text whose size and width lie within the bound.
fn layout_text_bounded(
    text: &str,
    font: &BitmapFont,
    font_size: i64,
    max_width: i64,
    align: TextAlign,
) -> (b: TextBlock)
    requires
        font_size <= bound(),
        -bound() <= max_width <= bound(),
    ensures
        b@ == spec_layout_text(text@, font_size as int, max_width as int, align),
        block_ok(b@),
        0 <= b@.height <= bound(),
{
    let aw = font.advance(' ', font_size);
    let lh = font.line_height(font_size);
    let ghost ds = dot_size(font_size as int);
    assert(1 <= ds <= 2147483648) by {
        assert(font_size >= 512 ==> font_size / 512 <= 2147483648);
    }
    let chars = to_chars(text);
    let ws = split_words(&chars);
    let ghost wv = words(text@, 0);
    let mut lines: Vec<TextLine> = Vec::new();
    let mut cur: Vec<PlacedGlyph> = Vec::new();
    let mut cur_w: i64 = 0;
    assert(lines_v(lines@) =~= Seq::<TextLineV>::empty());
    let nw = ws.len();
    let mut i: usize = 0;
    while i < nw
        invariant
            i <= nw == ws@.len(),
            strings_v(ws@) == wv,
            0 <= cur_w <= bound(),
            1 <= aw <= bound(),
            lines_ok(lines@),
            glyphs_ok(cur@),
            aw == 6 * dot_size(font_size as int) * 64,
            -bound() <= max_width <= bound(),
            holds(lines@, cur@, cur_w, wrap_words(wrap_start(), wv.take(i as int), aw as int, max_width as int)),
        decreases nw - i,
    {
        let ghost st = wrap_words(wrap_start(), wv.take(i as int), aw as int, max_width as int);
        assert(wv.take(i + 1).drop_last() =~= wv.take(i as int));
        assert(wv[i as int] == ws@[i as int]@);
        let w = to_chars(ws[i].as_str());
        wrap_word_exec(&mut lines, &mut cur, &mut cur_w, &w, aw, max_width, Ghost(st));
        i += 1;
    }
    assert(wv.take(nw as int) =~= wv);
    let ghost st = wrap_words(wrap_start(), wv, aw as int, max_width as int);
    if cur.len() > 0 || lines.len() == 0 {
        flush_exec(&mut lines, &mut cur, &mut cur_w, Ghost(st));
    }
    let ghost ls = wrapped_lines(text@, aw as int, max_width as int);
    assert(lines_v(lines@) == ls);
    // Alignment, and each line's top.
    let mut out: Vec<TextLine> = Vec::new();
    let nl = lines.len();
    let mut j: usize = 0;
    while j < nl
        invariant
            j <= nl == lines@.len(),
            lines_v(lines@) == ls,
            lines_ok(lines@),
            -bound() <= max_width <= bound(),
            1 <= lh <= 9 * 2147483648 * 64,
            lh == 9 * dot_size(font_size as int) * 64,
            out@.len() == j,
            forall|k: int| 0 <= k < j ==> #[trigger] out@[k]@ == aligned_line(ls[k], k, max_width as int, align, lh as int),
        decreases nl - j,
    {
        let line = &lines[j];
        assert(ls[j as int] == line@);
        assert(0 <= line.width <= bound() && glyphs_ok(line.glyphs@));
        let free = if max_width - line.width > 0 {
            max_width - line.width
        } else {
            0
        };
        let off: i64 = match align {
            TextAlign::Left => 0,
            TextAlign::Center => free / 2,
            TextAlign::Right => free,
        };
        let ng = line.glyphs.len();
        let mut gs: Vec<PlacedGlyph> = Vec::new();
        let mut k: usize = 0;
        while k < ng
            invariant
                k <= ng == line.glyphs@.len(),
                0 <= off <= 2 * bound(),
                off == align_offset(line.width as int, max_width as int, align),
                gs@.len() == k,
                forall|q: int| 0 <= q < k ==> #[trigger] gs@[q] == (PlacedGlyph {
                    ch: line.glyphs@[q].ch,
                    x: clamp(line.glyphs@[q].x + off) as i64,
                }),
                glyphs_ok(line.glyphs@),
            decreases ng - k,
        {
            let g = line.glyphs[k];
            gs.push(PlacedGlyph { ch: g.ch, x: add_len(g.x, off) });
            k += 1;
        }
        let top = count_times(j, lh);
        out.push(TextLine { glyphs: gs, width: line.width, top });
        proof {
            assert(out@[j as int]@.glyphs =~= aligned_line(ls[j as int], j as int, max_width as int, align, lh as int).glyphs);
        }
        j += 1;
    }
    let height = count_times(nl, lh);
    let b = TextBlock { lines: out, width: max_width, height };
    assert(b@.lines =~= spec_layout_text(text@, font_size as int, max_width as int, align).lines);
    assert forall|i: int| 0 <= i < b@.lines.len() implies bounded(#[trigger] b@.lines[i].top as int) && forall|k: int|
        0 <= k < b@.lines[i].glyphs.len() ==> bounded(#[trigger] b@.lines[i].glyphs[k].x as int) by {
        assert(b@.lines[i] == aligned_line(ls[i], i, max_width as int, align, lh as int));
    }
    assert(0 <= nl) by {}
    b
}

// ---------------------------------------------------------------------------
// Laws of wrapping.
// ---------------------------------------------------------------------------

/// The characters of placed glyphs.
pub open spec fn glyph_chars(gs: Seq<PlacedGlyph>) -> Seq<char> {
    gs.map_values(|g: PlacedGlyph| g.ch)
}

/// The characters of all lines, in order.
pub open spec fn line_chars(ls: Seq<TextLineV>) -> Seq<char>
    decreases ls.len(),
{
    if ls.len() == 0 {
        Seq::empty()
    } else {
        line_chars(ls.drop_last()) + glyph_chars(ls.last().glyphs)
    }
}

/// The characters of the words, one after another.
pub open spec fn word_chars(ws: Seq<Seq<char>>) -> Seq<char>
    decreases ws.len(),
{
    if ws.len() == 0 {
        Seq::empty()
    } else {
        word_chars(ws.drop_last()) + ws.last()
    }
}

/// The characters that a wrapping state has placed.
pub open spec fn placed(st: Wrap) -> Seq<char> {
    line_chars(st.lines) + glyph_chars(st.cur)
}

proof fn lemma_flush_placed(st: Wrap)
    ensures
        placed(flush(st)) == placed(st),
{
    let f = flush(st);
    assert(f.lines.drop_last() =~= st.lines);
    assert(glyph_chars(f.cur) =~= Seq::<char>::empty());
    assert(placed(f) =~= placed(st));
}

proof fn lemma_place_placed(st: Wrap, c: char, aw: int)
    ensures
        placed(place(st, c, aw)) == placed(st).push(c),
{
    let p = place(st, c, aw);
    assert(glyph_chars(p.cur) =~= glyph_chars(st.cur).push(c));
    assert(placed(p) =~= placed(st).push(c));
}

proof fn lemma_place_all_placed(st: Wrap, w: Seq<char>, aw: int)
    ensures
        placed(place_all(st, w, aw)) == placed(st) + w,
    decreases w.len(),
{
    if w.len() == 0 {
        assert(placed(st) + w =~= placed(st));
    } else {
        lemma_place_all_placed(st, w.drop_last(), aw);
        lemma_place_placed(place_all(st, w.drop_last(), aw), w.last(), aw);
        assert(placed(st) + w.drop_last() + seq![w.last()] =~= placed(st) + w);
        assert((placed(st) + w.drop_last()).push(w.last()) =~= placed(st) + w);
    }
}

proof fn lemma_break_all_placed(st: Wrap, w: Seq<char>, aw: int, maxw: int)
    ensures
        placed(break_all(st, w, aw, maxw)) == placed(st) + w,
    decreases w.len(),
{
    if w.len() == 0 {
        assert(placed(st) + w =~= placed(st));
    } else {
        let prev = break_all(st, w.drop_last(), aw, maxw);
        lemma_break_all_placed(st, w.drop_last(), aw, maxw);
        lemma_flush_placed(prev);
        let st1 = if prev.cur.len() > 0 && prev.cur_w + aw > maxw {
            flush(prev)
        } else {
            prev
        };
        lemma_place_placed(st1, w.last(), aw);
        assert((placed(st) + w.drop_last()).push(w.last()) =~= placed(st) + w);
    }
}

proof fn lemma_wrap_word_placed(st: Wrap, w: Seq<char>, aw: int, maxw: int)
    ensures
        placed(wrap_word(st, w, aw, maxw)) == placed(st) + w,
{
    lemma_flush_placed(st);
    let ww = clamp(w.len() * aw);
    if maxw > 0 && ww > maxw {
        let st1 = if st.cur.len() > 0 {
            flush(st)
        } else {
            st
        };
        lemma_break_all_placed(st1, w, aw, maxw);
    } else {
        let with_space = if st.cur.len() == 0 {
            0
        } else {
            aw
        };
        let st1 = if st.cur.len() > 0 && st.cur_w + with_space + ww > maxw {
            flush(st)
        } else {
            st
        };
        let st2 = if st1.cur.len() > 0 {
            Wrap { cur_w: clamp(st1.cur_w + aw), ..st1 }
        } else {
            st1
        };
        assert(placed(st2) == placed(st1));
        lemma_place_all_placed(st2, w, aw);
    }
}

proof fn lemma_wrap_words_placed(ws: Seq<Seq<char>>, aw: int, maxw: int)
    ensures
        placed(wrap_words(wrap_start(), ws, aw, maxw)) == word_chars(ws),
    decreases ws.len(),
{
    if ws.len() == 0 {
        assert(placed(wrap_start()) =~= Seq::<char>::empty());
    } else {
        lemma_wrap_words_placed(ws.drop_last(), aw, maxw);
        lemma_wrap_word_placed(wrap_words(wrap_start(), ws.drop_last(), aw, maxw), ws.last(), aw, maxw);
    }
}

/// Aligning keeps the characters of every line.
proof fn lemma_aligned_chars(ls: Seq<TextLineV>, maxw: int, align: TextAlign, lh: int, k: int)
    requires
        0 <= k <= ls.len(),
    ensures
        line_chars(Seq::new(k as nat, |i: int| aligned_line(ls[i], i, maxw, align, lh))) == line_chars(ls.take(k)),
    decreases k,
{
    if k > 0 {
        lemma_aligned_chars(ls, maxw, align, lh, k - 1);
        let a = Seq::new(k as nat, |i: int| aligned_line(ls[i], i, maxw, align, lh));
        assert(a.drop_last() =~= Seq::new((k - 1) as nat, |i: int| aligned_line(ls[i], i, maxw, align, lh)));
        assert(ls.take(k).drop_last() =~= ls.take(k - 1));
        assert(glyph_chars(a.last().glyphs) =~= glyph_chars(ls.take(k).last().glyphs));
    }
}

/// Wrapping and aligning lose no character and keep their order: the
/// characters of the lines, read one after another, are those of the text's
/// words without the white space between them.
pub proof fn law_layout_keeps_characters(text: Seq<char>, font_size: int, maxw: int, align: TextAlign)
    ensures
        line_chars(spec_layout_text(text, font_size, maxw, align).lines) == word_chars(words(text, 0)),
{
    let aw = 6 * dot_size(font_size) * 64;
    let lh = 9 * dot_size(font_size) * 64;
    let st = wrap_words(wrap_start(), words(text, 0), aw, maxw);
    lemma_wrap_words_placed(words(text, 0), aw, maxw);
    let fin = if st.cur.len() > 0 || st.lines.len() == 0 {
        flush(st)
    } else {
        st
    };
    lemma_flush_placed(st);
    assert(line_chars(fin.lines) == word_chars(words(text, 0))) by {
        if !(st.cur.len() > 0 || st.lines.len() == 0) {
            assert(glyph_chars(st.cur) =~= Seq::<char>::empty());
            assert(placed(st) =~= line_chars(st.lines));
        } else {
            assert(glyph_chars(fin.cur) =~= Seq::<char>::empty());
            assert(placed(fin) =~= line_chars(fin.lines));
        }
    }
    let ls = wrapped_lines(text, aw, maxw);
    lemma_aligned_chars(ls, maxw, align, lh, ls.len() as int);
    assert(ls.take(ls.len() as int) =~= ls);
    assert(spec_layout_text(text, font_size, maxw, align).lines =~= Seq::new(
        ls.len(),
        |i: int| aligned_line(ls[i], i, maxw, align, lh),
    ));
}

/// Whether a wrapping state keeps within the width: the pen is at 0 on an
/// empty line, never past `maxw`, and every finished line is at most `maxw`
/// wide.
pub open spec fn fits(st: Wrap, maxw: int) -> bool {
    &&& (st.cur.len() == 0 ==> st.cur_w == 0)
    &&& 0 <= st.cur_w <= maxw
    &&& forall|i: int| 0 <= i < st.lines.len() ==> 0 <= #[trigger] st.lines[i].width <= maxw
}

proof fn lemma_flush_fits(st: Wrap, maxw: int)
    requires
        fits(st, maxw),
        maxw <= bound(),
    ensures
        fits(flush(st), maxw),
{
    let f = flush(st);
    assert forall|i: int| 0 <= i < f.lines.len() implies 0 <= #[trigger] f.lines[i].width <= maxw by {
        if i < st.lines.len() {
            assert(f.lines[i] == st.lines[i]);
        }
    }
}

/// Placing a character adds one glyph and keeps the lines.
proof fn lemma_place_len(st: Wrap, c: char, aw: int)
    ensures
        place(st, c, aw).cur.len() == st.cur.len() + 1,
        place(st, c, aw).lines == st.lines,
        place(st, c, aw).cur_w == clamp(st.cur_w + aw),
{
}

/// Placing characters moves the pen by their advances, clamped.
proof fn lemma_place_all_pen(st: Wrap, w: Seq<char>, aw: int)
    requires
        0 <= st.cur_w <= bound(),
        0 <= aw,
    ensures
        place_all(st, w, aw).cur_w == clamp(st.cur_w + w.len() * aw),
        place_all(st, w, aw).lines == st.lines,
        place_all(st, w, aw).cur.len() == st.cur.len() + w.len(),
    decreases w.len(),
{
    if w.len() > 0 {
        lemma_place_all_pen(st, w.drop_last(), aw);
        lemma_place_len(place_all(st, w.drop_last(), aw), w.last(), aw);
        assert((w.len() - 1) * aw + aw == w.len() * aw) by (nonlinear_arith);
        assert(0 <= (w.len() - 1) * aw) by (nonlinear_arith)
            requires
                w.len() >= 1,
                aw >= 0,
        ;
    } else {
        assert(w.len() * aw == 0) by (nonlinear_arith)
            requires
                w.len() == 0,
        ;
    }
}

proof fn lemma_break_all_fits(st: Wrap, w: Seq<char>, aw: int, maxw: int)
    requires
        fits(st, maxw),
        0 < aw <= maxw <= bound(),
    ensures
        fits(break_all(st, w, aw, maxw), maxw),
    decreases w.len(),
{
    if w.len() > 0 {
        let prev = break_all(st, w.drop_last(), aw, maxw);
        lemma_break_all_fits(st, w.drop_last(), aw, maxw);
        lemma_flush_fits(prev, maxw);
        let st1 = if prev.cur.len() > 0 && prev.cur_w + aw > maxw {
            flush(prev)
        } else {
            prev
        };
        assert(fits(st1, maxw));
        assert(st1.cur_w + aw <= maxw);
        lemma_place_len(st1, w.last(), aw);
        let r = place(st1, w.last(), aw);
        assert(break_all(st, w, aw, maxw) == r);
    }
}

proof fn lemma_wrap_word_fits(st: Wrap, w: Seq<char>, aw: int, maxw: int)
    requires
        fits(st, maxw),
        0 < aw <= maxw <= bound(),
    ensures
        fits(wrap_word(st, w, aw, maxw), maxw),
{
    lemma_flush_fits(st, maxw);
    let ww = clamp(w.len() * aw);
    assert(0 <= w.len() * aw) by (nonlinear_arith)
        requires
            aw > 0,
    ;
    if maxw > 0 && ww > maxw {
        let st1 = if st.cur.len() > 0 {
            flush(st)
        } else {
            st
        };
        lemma_break_all_fits(st1, w, aw, maxw);
    } else {
        let with_space = if st.cur.len() == 0 {
            0
        } else {
            aw
        };
        let st1 = if st.cur.len() > 0 && st.cur_w + with_space + ww > maxw {
            flush(st)
        } else {
            st
        };
        let st2 = if st1.cur.len() > 0 {
            Wrap { cur_w: clamp(st1.cur_w + aw), ..st1 }
        } else {
            st1
        };
        assert(st2.cur_w + ww <= maxw);
        lemma_place_all_pen(st2, w, aw);
        let r = place_all(st2, w, aw);
        assert(r.cur_w <= maxw) by {
            if w.len() * aw <= bound() {
                assert(ww == w.len() * aw);
            } else {
                assert(ww == bound());
                assert(st2.cur_w == 0);
            }
        }
        assert(r.cur.len() == 0 ==> w.len() == 0);
        assert(w.len() == 0 ==> r.cur_w == st2.cur_w) by {
            if w.len() == 0 {
                assert(w.len() * aw == 0) by (nonlinear_arith)
                    requires
                        w.len() == 0,
                ;
            }
        }
    }
}

proof fn lemma_wrap_words_fits(ws: Seq<Seq<char>>, aw: int, maxw: int)
    requires
        0 < aw <= maxw <= bound(),
    ensures
        fits(wrap_words(wrap_start(), ws, aw, maxw), maxw),
    decreases ws.len(),
{
    if ws.len() > 0 {
        lemma_wrap_words_fits(ws.drop_last(), aw, maxw);
        lemma_wrap_word_fits(wrap_words(wrap_start(), ws.drop_last(), aw, maxw), ws.last(), aw, maxw);
    }
}

/// Wrapped text fits its width: when the width holds at least one character,
/// no line is wider than it.
pub proof fn law_lines_fit(text: Seq<char>, font_size: int, maxw: int, align: TextAlign)
    requires
        6 * dot_size(font_size) * 64 <= maxw <= bound(),
    ensures
        forall|i: int|
            0 <= i < spec_layout_text(text, font_size, maxw, align).lines.len() ==> (
            #[trigger] spec_layout_text(text, font_size, maxw, align).lines[i]).width <= maxw,
{
    let aw = 6 * dot_size(font_size) * 64;
    assert(aw > 0) by {
        assert(dot_size(font_size) >= 1);
    }
    let st = wrap_words(wrap_start(), words(text, 0), aw, maxw);
    lemma_wrap_words_fits(words(text, 0), aw, maxw);
    lemma_flush_fits(st, maxw);
    let ls = wrapped_lines(text, aw, maxw);
    assert forall|i: int| 0 <= i < ls.len() implies #[trigger] ls[i].width <= maxw by {}
}

// ---------------------------------------------------------------------------
// Painting text.
// ---------------------------------------------------------------------------

/// The pixels with a colour laid over the square dot of side `s` at pixel
/// `(x, y)`, clipped to the grid.
pub open spec fn fill_dot(px: Seq<u32>, w: int, h: int, x: int, y: int, s: int, c: Color) -> Seq<u32> {
    spec_fill(px, w, max(x, 0), max(y, 0), min(x + s, w), min(y + s, h), c)
}

/// The first `k` dots of row `r` of the glyph of `ch`, drawn at pixel `(x, y)`.
pub open spec fn paint_row(
    px: Seq<u32>,
    w: int,
    h: int,
    ch: char,
    r: int,
    k: int,
    x: int,
    y: int,
    s: int,
    c: Color,
) -> Seq<u32>
    decreases k,
{
    if k <= 0 {
        px
    } else {
        let p = paint_row(px, w, h, ch, r, k - 1, x, y, s, c);
        if dot_set(ch, r, k - 1) {
            fill_dot(p, w, h, x + (k - 1) * s, y + r * s, s, c)
        } else {
            p
        }
    }
}

/// The first `r` rows of the glyph of `ch`, drawn at pixel `(x, y)`.
pub open spec fn paint_rows(
    px: Seq<u32>,
    w: int,
    h: int,
    ch: char,
    r: int,
    x: int,
    y: int,
    s: int,
    c: Color,
) -> Seq<u32>
    decreases r,
{
    if r <= 0 {
        px
    } else {
        paint_row(paint_rows(px, w, h, ch, r - 1, x, y, s, c), w, h, ch, r - 1, 5, x, y, s, c)
    }
}

/// The glyphs of a line drawn, the line's left at `ox` and top at `top` (units).
pub open spec fn paint_glyphs(
    px: Seq<u32>,
    w: int,
    h: int,
    gs: Seq<PlacedGlyph>,
    ox: int,
    top: int,
    s: int,
    c: Color,
) -> Seq<u32>
    decreases gs.len(),
{
    if gs.len() == 0 {
        px
    } else {
        let p = paint_glyphs(px, w, h, gs.drop_last(), ox, top, s, c);
        let g = gs.last();
        if glyph_code(g.ch) == 0 {
            p
        } else {
            paint_rows(p, w, h, g.ch, 7, px_round(clamp(ox + g.x)), px_round(top), s, c)
        }
    }
}

/// The lines drawn, the block's top-left corner at `(ox, oy)` (units).
pub open spec fn paint_lines(
    px: Seq<u32>,
    w: int,
    h: int,
    ls: Seq<TextLineV>,
    ox: int,
    oy: int,
    s: int,
    c: Color,
) -> Seq<u32>
    decreases ls.len(),
{
    if ls.len() == 0 {
        px
    } else {
        let l = ls.last();
        paint_glyphs(paint_lines(px, w, h, ls.drop_last(), ox, oy, s, c), w, h, l.glyphs, ox, clamp(oy + l.top), s, c)
    }
}

/// The pixels with a text block drawn at `(ox, oy)`: each dot of each glyph
/// a square of the dot size, in the text colour.
pub open spec fn spec_paint_text(
    px: Seq<u32>,
    w: int,
    h: int,
    b: TextBlockV,
    ox: int,
    oy: int,
    font_size: int,
    c: Color,
) -> Seq<u32> {
    if c.a == 0 {
        px
    } else {
        paint_lines(px, w, h, b.lines, ox, oy, dot_size(font_size), c)
    }
}

/// Drawing text keeps every pixel of the form `0x00RRGGBB`, and their number.
pub proof fn lemma_paint_text_rgb(
    px: Seq<u32>,
    w: int,
    h: int,
    b: TextBlockV,
    ox: int,
    oy: int,
    font_size: int,
    c: Color,
)
    requires
        rgb_pixels(px),
    ensures
        rgb_pixels(spec_paint_text(px, w, h, b, ox, oy, font_size, c)),
        spec_paint_text(px, w, h, b, ox, oy, font_size, c).len() == px.len(),
{
    if c.a != 0 {
        lemma_lines_rgb(px, w, h, b.lines, ox, oy, dot_size(font_size), c);
    }
}

proof fn lemma_lines_rgb(px: Seq<u32>, w: int, h: int, ls: Seq<TextLineV>, ox: int, oy: int, s: int, c: Color)
    requires
        rgb_pixels(px),
    ensures
        rgb_pixels(paint_lines(px, w, h, ls, ox, oy, s, c)),
        paint_lines(px, w, h, ls, ox, oy, s, c).len() == px.len(),
    decreases ls.len(),
{
    if ls.len() > 0 {
        lemma_lines_rgb(px, w, h, ls.drop_last(), ox, oy, s, c);
        let l = ls.last();
        lemma_glyphs_rgb(paint_lines(px, w, h, ls.drop_last(), ox, oy, s, c), w, h, l.glyphs, ox, clamp(oy + l.top), s, c);
    }
}

proof fn lemma_glyphs_rgb(px: Seq<u32>, w: int, h: int, gs: Seq<PlacedGlyph>, ox: int, top: int, s: int, c: Color)
    requires
        rgb_pixels(px),
    ensures
        rgb_pixels(paint_glyphs(px, w, h, gs, ox, top, s, c)),
        paint_glyphs(px, w, h, gs, ox, top, s, c).len() == px.len(),
    decreases gs.len(),
{
    if gs.len() > 0 {
        lemma_glyphs_rgb(px, w, h, gs.drop_last(), ox, top, s, c);
        let g = gs.last();
        lemma_rows_rgb(paint_glyphs(px, w, h, gs.drop_last(), ox, top, s, c), w, h, g.ch, 7, px_round(clamp(ox + g.x)), px_round(top), s, c);
    }
}

proof fn lemma_rows_rgb(px: Seq<u32>, w: int, h: int, ch: char, r: int, x: int, y: int, s: int, c: Color)
    requires
        rgb_pixels(px),
    ensures
        rgb_pixels(paint_rows(px, w, h, ch, r, x, y, s, c)),
        paint_rows(px, w, h, ch, r, x, y, s, c).len() == px.len(),
    decreases r,
{
    if r > 0 {
        lemma_rows_rgb(px, w, h, ch, r - 1, x, y, s, c);
        lemma_row_rgb(paint_rows(px, w, h, ch, r - 1, x, y, s, c), w, h, ch, r - 1, 5, x, y, s, c);
    }
}

proof fn lemma_row_rgb(px: Seq<u32>, w: int, h: int, ch: char, r: int, k: int, x: int, y: int, s: int, c: Color)
    requires
        rgb_pixels(px),
    ensures
        rgb_pixels(paint_row(px, w, h, ch, r, k, x, y, s, c)),
        paint_row(px, w, h, ch, r, k, x, y, s, c).len() == px.len(),
    decreases k,
{
    if k > 0 {
        lemma_row_rgb(px, w, h, ch, r, k - 1, x, y, s, c);
        let p = paint_row(px, w, h, ch, r, k - 1, x, y, s, c);
        let xx = x + (k - 1) * s;
        let yy = y + r * s;
        lemma_fill_rgb(p, w, max(xx, 0), max(yy, 0), min(xx + s, w), min(yy + s, h), c);
    }
}

/// Whether every pen position and glyph place of a wrap state lies within
/// the bound.
pub open spec fn places_ok(st: Wrap) -> bool {
    &&& bounded(st.cur_w)
    &&& forall|k: int| 0 <= k < st.cur.len() ==> bounded((#[trigger] st.cur[k]).x as int)
    &&& forall|i: int, k: int|
        0 <= i < st.lines.len() && 0 <= k < st.lines[i].glyphs.len() ==> bounded(
            (#[trigger] st.lines[i].glyphs[k]).x as int,
        )
}

proof fn lemma_flush_places(st: Wrap)
    requires
        places_ok(st),
    ensures
        places_ok(flush(st)),
{
    let f = flush(st);
    assert forall|i: int, k: int|
        0 <= i < f.lines.len() && 0 <= k < f.lines[i].glyphs.len() implies bounded(
            (#[trigger] f.lines[i].glyphs[k]).x as int,
        ) by {
        if i < st.lines.len() {
            assert(f.lines[i] == st.lines[i]);
        } else {
            assert(f.lines[i].glyphs == st.cur);
        }
    }
}

proof fn lemma_place_places(st: Wrap, c: char, aw: int)
    requires
        places_ok(st),
    ensures
        places_ok(place(st, c, aw)),
{
    let p = place(st, c, aw);
    assert forall|k: int| 0 <= k < p.cur.len() implies bounded((#[trigger] p.cur[k]).x as int) by {
        if k < st.cur.len() {
            assert(p.cur[k] == st.cur[k]);
        }
    }
}

proof fn lemma_place_all_places(st: Wrap, w: Seq<char>, aw: int)
    requires
        places_ok(st),
    ensures
        places_ok(place_all(st, w, aw)),
    decreases w.len(),
{
    if w.len() > 0 {
        lemma_place_all_places(st, w.drop_last(), aw);
        lemma_place_places(place_all(st, w.drop_last(), aw), w.last(), aw);
    }
}

proof fn lemma_break_all_places(st: Wrap, w: Seq<char>, aw: int, maxw: int)
    requires
        places_ok(st),
    ensures
        places_ok(break_all(st, w, aw, maxw)),
    decreases w.len(),
{
    if w.len() > 0 {
        lemma_break_all_places(st, w.drop_last(), aw, maxw);
        let p = break_all(st, w.drop_last(), aw, maxw);
        lemma_flush_places(p);
        let p1 = if p.cur.len() > 0 && p.cur_w + aw > maxw {
            flush(p)
        } else {
            p
        };
        lemma_place_places(p1, w.last(), aw);
    }
}

proof fn lemma_wrap_words_places(ws: Seq<Seq<char>>, aw: int, maxw: int)
    ensures
        places_ok(wrap_words(wrap_start(), ws, aw, maxw)),
    decreases ws.len(),
{
    if ws.len() > 0 {
        lemma_wrap_words_places(ws.drop_last(), aw, maxw);
        let st = wrap_words(wrap_start(), ws.drop_last(), aw, maxw);
        let w = ws.last();
        lemma_flush_places(st);
        let st1 = if st.cur.len() > 0 {
            flush(st)
        } else {
            st
        };
        lemma_break_all_places(st1, w, aw, maxw);
        let ww = clamp(w.len() * aw);
        let with_space = if st.cur.len() == 0 {
            0
        } else {
            aw
        };
        let st1b = if st.cur.len() > 0 && st.cur_w + with_space + ww > maxw {
            flush(st)
        } else {
            st
        };
        let st2 = if st1b.cur.len() > 0 {
            Wrap { cur_w: clamp(st1b.cur_w + aw), ..st1b }
        } else {
            st1b
        };
        assert(places_ok(st2));
        lemma_place_all_places(st2, w, aw);
    }
}

/// The glyphs of wrapped lines lie within the bound.
proof fn lemma_wrapped_places(text: Seq<char>, aw: int, maxw: int)
    ensures
        forall|i: int, k: int|
            0 <= i < wrapped_lines(text, aw, maxw).len() && 0 <= k < wrapped_lines(text, aw, maxw)[i].glyphs.len()
                ==> bounded((#[trigger] wrapped_lines(text, aw, maxw)[i].glyphs[k]).x as int),
{
    let st = wrap_words(wrap_start(), words(text, 0), aw, maxw);
    lemma_wrap_words_places(words(text, 0), aw, maxw);
    lemma_flush_places(st);
}

/// Alignment only moves each line sideways, by a share of its free space
/// (the width less the line's width, when positive): centred text is moved
/// by half of it, rounded down, and right-aligned text by all of it, from
/// where left-aligned text stands. Lines, characters and widths are those of
/// the left-aligned text.
pub proof fn law_align_shifts(text: Seq<char>, font_size: int, maxw: int)
    ensures
        ({
            let l = spec_layout_text(text, font_size, maxw, TextAlign::Left);
            let c = spec_layout_text(text, font_size, maxw, TextAlign::Center);
            let r = spec_layout_text(text, font_size, maxw, TextAlign::Right);
            &&& c.lines.len() == l.lines.len() && r.lines.len() == l.lines.len()
            &&& forall|i: int|
                #![trigger l.lines[i]]
                0 <= i < l.lines.len() ==> {
                    let free = if maxw - l.lines[i].width > 0 {
                        maxw - l.lines[i].width
                    } else {
                        0
                    };
                    &&& c.lines[i].width == l.lines[i].width && r.lines[i].width == l.lines[i].width
                    &&& c.lines[i].glyphs.len() == l.lines[i].glyphs.len()
                    &&& r.lines[i].glyphs.len() == l.lines[i].glyphs.len()
                    &&& forall|k: int|
                        0 <= k < l.lines[i].glyphs.len() ==> {
                            &&& (#[trigger] c.lines[i].glyphs[k]).ch == l.lines[i].glyphs[k].ch
                            &&& c.lines[i].glyphs[k].x == clamp(l.lines[i].glyphs[k].x + free / 2)
                            &&& r.lines[i].glyphs[k].x == clamp(l.lines[i].glyphs[k].x + free)
                        }
                }
        }),
{
    let aw = 6 * dot_size(font_size) * 64;
    let ls = wrapped_lines(text, aw, maxw);
    lemma_wrapped_places(text, aw, maxw);
    let l = spec_layout_text(text, font_size, maxw, TextAlign::Left);
    assert forall|i: int, k: int| 0 <= i < l.lines.len() && 0 <= k < l.lines[i].glyphs.len() implies
        #[trigger] l.lines[i].glyphs[k].x == ls[i].glyphs[k].x by {
        assert(bounded(ls[i].glyphs[k].x as int));
    }
}

/// Laid-out text has at least one line; line `i` stands `i` line heights
/// down (a line height is nine dots), the block is as high as its lines
/// together and as wide as the width it was given; lengths are taken at the
/// bound of `2^40` units.
pub proof fn law_text_geometry(text: Seq<char>, font_size: int, maxw: int, align: TextAlign)
    ensures
        ({
            let b = spec_layout_text(text, font_size, maxw, align);
            let lh = 9 * dot_size(font_size) * 64;
            &&& b.lines.len() >= 1
            &&& b.width == maxw as i64
            &&& b.height == clamp(b.lines.len() * lh) as i64
            &&& forall|i: int| 0 <= i < b.lines.len() ==> (#[trigger] b.lines[i]).top == clamp(i * lh) as i64
        }),
{
    let aw = 6 * dot_size(font_size) * 64;
    let st = wrap_words(wrap_start(), words(text, 0), aw, maxw);
    if st.cur.len() > 0 || st.lines.len() == 0 {
        assert(flush(st).lines.len() == st.lines.len() + 1);
    }
}

/// Whether every position in the block lies within the bound.
pub open spec fn block_ok(b: TextBlockV) -> bool {
    forall|i: int|
        0 <= i < b.lines.len() ==> bounded(#[trigger] b.lines[i].top as int) && forall|k: int|
            0 <= k < b.lines[i].glyphs.len() ==> bounded(#[trigger] b.lines[i].glyphs[k].x as int)
}

/// Draws one glyph's dots.
fn paint_glyph_exec(canvas: &mut Canvas, ch: char, code: u64, x: i64, y: i64, s: i64, color: Color)
    requires
        old(canvas).wf(),
        code == glyph_code(ch),
        -68_719_476_736 <= x <= 68_719_476_736,
        -68_719_476_736 <= y <= 68_719_476_736,
        1 <= s <= 2147483648,
    ensures
        final(canvas).wf(),
        final(canvas).width == old(canvas).width,
        final(canvas).height == old(canvas).height,
        final(canvas).pixels@ == paint_rows(
            old(canvas).pixels@,
            old(canvas).width as int,
            old(canvas).height as int,
            ch,
            7,
            x as int,
            y as int,
            s as int,
            color,
        ),
{
    let ghost px0 = canvas.pixels@;
    let ghost w = canvas.width as int;
    let ghost h = canvas.height as int;
    let wi = canvas.width as i64;
    let hi = canvas.height as i64;
    let mut r: u32 = 0;
    while r < 7
        invariant
            r <= 7,
            canvas.wf(),
            canvas.width == w,
            canvas.height == h,
            wi == w,
            hi == h,
            code == glyph_code(ch),
            -68_719_476_736 <= x <= 68_719_476_736,
            -68_719_476_736 <= y <= 68_719_476_736,
            1 <= s <= 2147483648,
            canvas.pixels@ == paint_rows(px0, w, h, ch, r as int, x as int, y as int, s as int, color),
        decreases 7 - r,
    {
        let bits = row_of(code, r);
        let ghost prow = canvas.pixels@;
        let mut k: u32 = 0;
        while k < 5
            invariant
                k <= 5,
                r < 7,
                canvas.wf(),
                canvas.width == w,
                canvas.height == h,
                wi == w,
                hi == h,
                -68_719_476_736 <= x <= 68_719_476_736,
                -68_719_476_736 <= y <= 68_719_476_736,
                1 <= s <= 2147483648,
                bits == (glyph_code(ch) as int / crate::font::row_weight(r as int)) % 32,
                canvas.pixels@ == paint_row(prow, w, h, ch, r as int, k as int, x as int, y as int, s as int, color),
            decreases 5 - k,
        {
            if bit_of(bits, k) {
                assert(0 <= (k as int) * (s as int) <= 5 * 2147483648) by (nonlinear_arith)
                    requires
                        k <= 5,
                        1 <= s <= 2147483648,
                ;
                assert(0 <= (r as int) * (s as int) <= 7 * 2147483648) by (nonlinear_arith)
                    requires
                        r <= 7,
                        1 <= s <= 2147483648,
                ;
                let dx = x + (k as i64) * s;
                let dy = y + (r as i64) * s;
                let x0 = if dx > 0 {
                    dx
                } else {
                    0
                };
                let y0 = if dy > 0 {
                    dy
                } else {
                    0
                };
                let x1 = if dx + s < wi {
                    dx + s
                } else {
                    wi
                };
                let y1 = if dy + s < hi {
                    dy + s
                } else {
                    hi
                };
                canvas.fill_px(x0, y0, x1, y1, color);
            }
            k += 1;
        }
        r += 1;
    }
}

/// Draws a laid-out text block with its top-left corner at `(origin_x,
/// origin_y)` (units of 1/64 pixel), in the bitmap font at `font_size`: each
/// dot of each glyph is a square of the dot size laid over the canvas in the
/// colour; a transparent colour draws nothing.
pub fn paint_text(
    canvas: &mut Canvas,
    block: &TextBlock,
    origin_x: i64,
    origin_y: i64,
    font: &BitmapFont,
    font_size: i64,
    color: Color,
)
    requires
        old(canvas).wf(),
        bounded(origin_x as int),
        bounded(origin_y as int),
        font_size <= bound(),
        block_ok(block@),
    ensures
        final(canvas).wf(),
        final(canvas).width == old(canvas).width,
        final(canvas).height == old(canvas).height,
        final(canvas).pixels@ == spec_paint_text(
            old(canvas).pixels@,
            old(canvas).width as int,
            old(canvas).height as int,
            block@,
            origin_x as int,
            origin_y as int,
            font_size as int,
            color,
        ),
{
    if color.a == 0 {
        return;
    }
    let ghost px0 = canvas.pixels@;
    let ghost w = canvas.width as int;
    let ghost h = canvas.height as int;
    let s = font.dot(font_size);
    let nl = block.lines.len();
    let mut i: usize = 0;
    while i < nl
        invariant
            i <= nl == block.lines@.len(),
            canvas.wf(),
            canvas.width == w,
            canvas.height == h,
            bounded(origin_x as int),
            bounded(origin_y as int),
            block_ok(block@),
            s == dot_size(font_size as int),
            1 <= s <= 2147483648,
            canvas.pixels@ == paint_lines(px0, w, h, block@.lines.take(i as int), origin_x as int, origin_y as int, s as int, color),
        decreases nl - i,
    {
        let line = &block.lines[i];
        assert(block@.lines[i as int] == line@);
        assert(block@.lines.take(i + 1).drop_last() =~= block@.lines.take(i as int));
        assert(bounded(block@.lines[i as int].top as int));
        assert forall|q: int| 0 <= q < line.glyphs@.len() implies bounded(#[trigger] line.glyphs@[q].x as int) by {
            assert(bounded(block@.lines[i as int].glyphs[q].x as int));
        }
        let top = add_len(origin_y, line.top);
        let y = round_px(top);
        let ghost pl = canvas.pixels@;
        let ng = line.glyphs.len();
        let mut k: usize = 0;
        while k < ng
            invariant
                k <= ng == line.glyphs@.len(),
                canvas.wf(),
                canvas.width == w,
                canvas.height == h,
                bounded(origin_x as int),
                bounded(top as int),
                y == px_round(top as int),
                1 <= s <= 2147483648,
                forall|q: int| 0 <= q < ng ==> bounded(#[trigger] line.glyphs@[q].x as int),
                canvas.pixels@ == paint_glyphs(pl, w, h, line.glyphs@.take(k as int), origin_x as int, top as int, s as int, color),
            decreases ng - k,
        {
            let g = line.glyphs[k];
            assert(line.glyphs@.take(k + 1).drop_last() =~= line.glyphs@.take(k as int));
            let code = font.glyph(g.ch);
            if code != 0 {
                let gx = add_len(origin_x, g.x);
                let x = round_px(gx);
                paint_glyph_exec(canvas, g.ch, code, x, y, s, color);
            }
            k += 1;
        }
        assert(line.glyphs@.take(ng as int) =~= line.glyphs@);
        i += 1;
    }
    assert(block@.lines.take(nl as int) =~= block@.lines);
}

} // verus!
