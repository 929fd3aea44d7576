//! Colours and the CSS colour syntax.
//!
//! Every colour mixes red, green and blue light, each 0 to 255, with an
//! alpha (opacity): 0 is fully transparent, 255 fully opaque.

use vstd::prelude::*;

use crate::chars::{lower_range, lower_seq, range_eq, run_end, scan, slice_of, to_chars, trim, trim_bounds, Run, lemma_run_end, lemma_run_moves};
use crate::number::{parse_alpha, parse_u8, spec_alpha, spec_parse_u8};

verus! {

/// One colour; each channel is 0 to 255.
#[derive(Debug, Clone, Copy, PartialEq, Eq, Structural)]
pub struct Color {
    pub r: u8,
    pub g: u8,
    pub b: u8,
    pub a: u8,
}

impl Color {
    /// Fully transparent: the default "no background".
    pub fn transparent() -> (c: Color)
        ensures
            c == (Color { r: 0, g: 0, b: 0, a: 0 }),
    {
        Color { r: 0, g: 0, b: 0, a: 0 }
    }

    /// Opaque black.
    pub fn black() -> (c: Color)
        ensures
            c == (Color { r: 0, g: 0, b: 0, a: 255 }),
    {
        Color { r: 0, g: 0, b: 0, a: 255 }
    }

    /// Opaque white.
    pub fn white() -> (c: Color)
        ensures
            c == (Color { r: 255, g: 255, b: 255, a: 255 }),
    {
        Color { r: 255, g: 255, b: 255, a: 255 }
    }

    /// A colour from its four channels.
    pub fn rgba(r: u8, g: u8, b: u8, a: u8) -> (c: Color)
        ensures
            c == (Color { r, g, b, a }),
    {
        Color { r, g, b, a }
    }

    /// An opaque colour from its three colour channels.
    pub fn rgb(r: u8, g: u8, b: u8) -> (c: Color)
        ensures
            c == (Color { r, g, b, a: 255 }),
    {
        Color { r, g, b, a: 255 }
    }

    /// Reads a CSS colour: `#rgb`, `#rrggbb`, `rgb(r, g, b)`, `rgba(r, g, b, a)`
    /// or one of a few names, in any case, with white space around it.
    /// Anything else gives `None`.
    pub fn parse(input: &str) -> (c: Option<Color>)
        ensures
            c == spec_parse_color(input@),
    {
        let v = to_chars(input);
        parse_chars(&v)
    }
}

// ---------------------------------------------------------------------------
// The colour syntax.
// ---------------------------------------------------------------------------

/// An opaque colour.
pub open spec fn opaque(r: u8, g: u8, b: u8) -> Color {
    Color { r, g, b, a: 255 }
}

/// The value of a hexadecimal digit.
pub open spec fn hex_value(c: char) -> Option<nat> {
    if '0' <= c && c <= '9' {
        Some((c as u32 - '0' as u32) as nat)
    } else if 'a' <= c && c <= 'f' {
        Some((c as u32 - 'a' as u32 + 10) as nat)
    } else if 'A' <= c && c <= 'F' {
        Some((c as u32 - 'A' as u32 + 10) as nat)
    } else {
        None
    }
}

/// Two hexadecimal digits read as a byte; `None` unless both are digits.
pub open spec fn hex_pair(c0: char, c1: char) -> Option<u8> {
    match (hex_value(c0), hex_value(c1)) {
        (Some(h), Some(l)) => Some((16 * h + l) as u8),
        _ => None,
    }
}

/// The colour of the text after `#`: three hexadecimal digits (each
/// doubled) or six; anything else is no colour.
pub open spec fn spec_parse_hex(h: Seq<char>) -> Option<Color> {
    if h.len() == 3 {
        match (hex_value(h[0]), hex_value(h[1]), hex_value(h[2])) {
            (Some(r), Some(g), Some(b)) => Some(
                opaque((r * 17) as u8, (g * 17) as u8, (b * 17) as u8),
            ),
            _ => None,
        }
    } else if h.len() == 6 {
        match (hex_pair(h[0], h[1]), hex_pair(h[2], h[3]), hex_pair(h[4], h[5])) {
            (Some(r), Some(g), Some(b)) => Some(opaque(r, g, b)),
            _ => None,
        }
    } else {
        None
    }
}

/// The pieces of `s` from `p` on, split at every `,`.
pub open spec fn pieces(s: Seq<char>, p: int) -> Seq<Seq<char>>
    decreases s.len() - p,
{
    let e = run_end(s, p, Run::NotComma);
    if 0 <= p <= s.len() && e < s.len() {
        proof {
            lemma_run_moves(s, p, Run::NotComma);
        }
        seq![s.subrange(p, e)] + pieces(s, e + 1)
    } else {
        seq![s.subrange(p, e)]
    }
}

/// A piece with white space trimmed on both ends.
pub open spec fn trimmed(t: Seq<char>) -> Seq<char> {
    trim(t, 0, t.len() as int)
}

/// The colour of the inside of `rgb(...)` (three parts) or `rgba(...)` (four).
pub open spec fn spec_rgb_func(inner: Seq<char>, has_alpha: bool) -> Option<Color> {
    let parts = pieces(inner, 0);
    let expected: nat = if has_alpha {
        4
    } else {
        3
    };
    if parts.len() != expected {
        None
    } else {
        match (
            spec_parse_u8(trimmed(parts[0])),
            spec_parse_u8(trimmed(parts[1])),
            spec_parse_u8(trimmed(parts[2])),
        ) {
            (Some(r), Some(g), Some(b)) => if has_alpha {
                match spec_alpha(trimmed(parts[3])) {
                    Some(a) => Some(Color { r, g, b, a }),
                    None => None,
                }
            } else {
                Some(Color { r, g, b, a: 255 })
            },
            _ => None,
        }
    }
}

/// The colour of a name, in lower case.
pub open spec fn spec_named(n: Seq<char>) -> Option<Color> {
    if n == seq!['b', 'l', 'a', 'c', 'k'] {
        Some(opaque(0, 0, 0))
    } else if n == seq!['w', 'h', 'i', 't', 'e'] {
        Some(opaque(255, 255, 255))
    } else if n == seq!['r', 'e', 'd'] {
        Some(opaque(255, 0, 0))
    } else if n == seq!['g', 'r', 'e', 'e', 'n'] {
        Some(opaque(0, 128, 0))
    } else if n == seq!['b', 'l', 'u', 'e'] {
        Some(opaque(0, 0, 255))
    } else if n == seq!['g', 'r', 'a', 'y'] || n == seq!['g', 'r', 'e', 'y'] {
        Some(opaque(128, 128, 128))
    } else if n == seq!['l', 'i', 'g', 'h', 't', 'g', 'r', 'a', 'y'] || n == seq![
        'l',
        'i',
        'g',
        'h',
        't',
        'g',
        'r',
        'e',
        'y',
    ] {
        Some(opaque(211, 211, 211))
    } else if n == seq!['o', 'r', 'a', 'n', 'g', 'e'] {
        Some(opaque(255, 165, 0))
    } else if n == seq!['t', 'r', 'a', 'n', 's', 'p', 'a', 'r', 'e', 'n', 't'] {
        Some(Color { r: 0, g: 0, b: 0, a: 0 })
    } else {
        None
    }
}

/// The characters of `rgba(`.
pub open spec fn rgba_open() -> Seq<char> {
    seq!['r', 'g', 'b', 'a', '(']
}

/// The characters of `rgb(`.
pub open spec fn rgb_open() -> Seq<char> {
    seq!['r', 'g', 'b', '(']
}

/// The colour that a CSS colour text stands for, if any.
pub open spec fn spec_parse_color(s: Seq<char>) -> Option<Color> {
    let t = trimmed(s);
    if t.len() > 0 && t[0] == '#' {
        spec_parse_hex(t.skip(1))
    } else if t.len() >= 6 && t.take(5) == rgba_open() && t.last() == ')' {
        spec_rgb_func(t.subrange(5, t.len() - 1), true)
    } else if t.len() >= 5 && t.take(4) == rgb_open() && t.last() == ')' {
        spec_rgb_func(t.subrange(4, t.len() - 1), false)
    } else {
        spec_named(lower_seq(t))
    }
}

// ---------------------------------------------------------------------------
// Executable parts.
// ---------------------------------------------------------------------------

/// The value of a hexadecimal digit.
fn hex_digit(c: char) -> (r: Option<u8>)
    ensures
        match hex_value(c) {
            Some(v) => r == Some(v as u8),
            None => r is None,
        },
{
    if '0' <= c && c <= '9' {
        Some((c as u32 - '0' as u32) as u8)
    } else if 'a' <= c && c <= 'f' {
        Some((c as u32 - 'a' as u32 + 10) as u8)
    } else if 'A' <= c && c <= 'F' {
        Some((c as u32 - 'A' as u32 + 10) as u8)
    } else {
        None
    }
}

/// Two characters read as a hexadecimal byte.
fn hex_byte(c0: char, c1: char) -> (r: Option<u8>)
    ensures
        r == hex_pair(c0, c1),
{
    match (hex_digit(c0), hex_digit(c1)) {
        (Some(h), Some(l)) => Some(16 * h + l),
        _ => None,
    }
}

/// The colour of `v[a..]`, the text after `#`.
fn parse_hex(v: &Vec<char>, a: usize) -> (c: Option<Color>)
    requires
        a <= v.len(),
    ensures
        c == spec_parse_hex(v@.skip(a as int)),
{
    let len = v.len() - a;
    if len == 3 {
        let r = hex_digit(v[a]);
        let g = hex_digit(v[a + 1]);
        let b = hex_digit(v[a + 2]);
        match (r, g, b) {
            (Some(r), Some(g), Some(b)) => Some(Color::rgb(r * 17, g * 17, b * 17)),
            _ => None,
        }
    } else if len == 6 {
        match (hex_byte(v[a], v[a + 1]), hex_byte(v[a + 2], v[a + 3]), hex_byte(v[a + 4], v[a + 5])) {
            (Some(r), Some(g), Some(b)) => Some(Color::rgb(r, g, b)),
            _ => None,
        }
    } else {
        None
    }
}

/// The pieces of `v`, split at every `,`, each trimmed.
fn split_commas(v: &Vec<char>) -> (r: Vec<Vec<char>>)
    ensures
        r@.len() == pieces(v@, 0).len(),
        forall|i: int| 0 <= i < r@.len() ==> #[trigger] r@[i]@ == trimmed(pieces(v@, 0)[i]),
{
    let mut r: Vec<Vec<char>> = Vec::new();
    let mut p: usize = 0;
    loop
        invariant_except_break
            p <= v.len(),
            r@.len() + pieces(v@, p as int).len() == pieces(v@, 0).len(),
            forall|i: int| 0 <= i < r@.len() ==> #[trigger] r@[i]@ == trimmed(pieces(v@, 0)[i]),
            forall|i: int|
                0 <= i < pieces(v@, p as int).len() ==> #[trigger] pieces(v@, p as int)[i]
                    == pieces(v@, 0)[r@.len() + i],
        ensures
            r@.len() == pieces(v@, 0).len(),
            forall|i: int| 0 <= i < r@.len() ==> #[trigger] r@[i]@ == trimmed(pieces(v@, 0)[i]),
        decreases v.len() - p,
    {
        proof {
            lemma_run_moves(v@, p as int, Run::NotComma);
        }
        let e = scan(v, p, Run::NotComma);
        let piece = slice_of(v, p, e);
        let (ta, tb) = trim_bounds(&piece, 0, piece.len());
        let t = slice_of(&piece, ta, tb);
        proof {
            assert(pieces(v@, p as int)[0] == v@.subrange(p as int, e as int));
            assert(piece@.subrange(0, piece@.len() as int) =~= piece@);
        }
        let ghost k = r@.len();
        r.push(t);
        proof {
            assert(r@[k as int]@ == trimmed(pieces(v@, 0)[k as int]));
        }
        if e >= v.len() {
            break;
        }
        proof {
            let rest = pieces(v@, e + 1);
            assert(pieces(v@, p as int) == seq![v@.subrange(p as int, e as int)] + rest);
            assert forall|i: int| 0 <= i < rest.len() implies #[trigger] rest[i] == pieces(v@, 0)[r@.len() + i] by {
                assert(pieces(v@, p as int)[i + 1] == rest[i]);
            }
        }
        p = e + 1;
    }
    r
}

/// The colour inside `rgb(...)` or `rgba(...)`.
fn parse_rgb_func(inner: &Vec<char>, has_alpha: bool) -> (c: Option<Color>)
    ensures
        c == spec_rgb_func(inner@, has_alpha),
{
    let parts = split_commas(inner);
    let expected: usize = if has_alpha {
        4
    } else {
        3
    };
    if parts.len() != expected {
        return None;
    }
    let r = parse_u8(&parts[0]);
    let g = parse_u8(&parts[1]);
    let b = parse_u8(&parts[2]);
    match (r, g, b) {
        (Some(r), Some(g), Some(b)) => {
            if has_alpha {
                match parse_alpha(&parts[3]) {
                    Some(a) => Some(Color::rgba(r, g, b, a)),
                    None => None,
                }
            } else {
                Some(Color::rgb(r, g, b))
            }
        },
        _ => None,
    }
}

/// The colour of a lower-case name.
fn named(n: &Vec<char>) -> (c: Option<Color>)
    ensures
        c == spec_named(n@),
{
    let len = n.len();
    assert(n@.subrange(0, len as int) =~= n@);
    let black: &[char] = &['b', 'l', 'a', 'c', 'k'];
    let white: &[char] = &['w', 'h', 'i', 't', 'e'];
    let red: &[char] = &['r', 'e', 'd'];
    let green: &[char] = &['g', 'r', 'e', 'e', 'n'];
    let blue: &[char] = &['b', 'l', 'u', 'e'];
    let gray: &[char] = &['g', 'r', 'a', 'y'];
    let grey: &[char] = &['g', 'r', 'e', 'y'];
    let lightgray: &[char] = &['l', 'i', 'g', 'h', 't', 'g', 'r', 'a', 'y'];
    let lightgrey: &[char] = &['l', 'i', 'g', 'h', 't', 'g', 'r', 'e', 'y'];
    let orange: &[char] = &['o', 'r', 'a', 'n', 'g', 'e'];
    let transparent: &[char] = &['t', 'r', 'a', 'n', 's', 'p', 'a', 'r', 'e', 'n', 't'];
    assert(black@ =~= seq!['b', 'l', 'a', 'c', 'k'] && white@ =~= seq!['w', 'h', 'i', 't', 'e']);
    assert(red@ =~= seq!['r', 'e', 'd'] && green@ =~= seq!['g', 'r', 'e', 'e', 'n']);
    assert(blue@ =~= seq!['b', 'l', 'u', 'e'] && gray@ =~= seq!['g', 'r', 'a', 'y']);
    assert(grey@ =~= seq!['g', 'r', 'e', 'y']);
    assert(lightgray@ =~= seq!['l', 'i', 'g', 'h', 't', 'g', 'r', 'a', 'y']);
    assert(lightgrey@ =~= seq!['l', 'i', 'g', 'h', 't', 'g', 'r', 'e', 'y']);
    assert(orange@ =~= seq!['o', 'r', 'a', 'n', 'g', 'e']);
    assert(transparent@ =~= seq!['t', 'r', 'a', 'n', 's', 'p', 'a', 'r', 'e', 'n', 't']);
    if range_eq(n, 0, len, black) {
        Some(Color::rgb(0, 0, 0))
    } else if range_eq(n, 0, len, white) {
        Some(Color::rgb(255, 255, 255))
    } else if range_eq(n, 0, len, red) {
        Some(Color::rgb(255, 0, 0))
    } else if range_eq(n, 0, len, green) {
        Some(Color::rgb(0, 128, 0))
    } else if range_eq(n, 0, len, blue) {
        Some(Color::rgb(0, 0, 255))
    } else if range_eq(n, 0, len, gray) || range_eq(n, 0, len, grey) {
        Some(Color::rgb(128, 128, 128))
    } else if range_eq(n, 0, len, lightgray) || range_eq(n, 0, len, lightgrey) {
        Some(Color::rgb(211, 211, 211))
    } else if range_eq(n, 0, len, orange) {
        Some(Color::rgb(255, 165, 0))
    } else if range_eq(n, 0, len, transparent) {
        Some(Color::rgba(0, 0, 0, 0))
    } else {
        None
    }
}

/// The colour of a text given as characters.
pub(crate) fn parse_chars(v: &Vec<char>) -> (c: Option<Color>)
    ensures
        c == spec_parse_color(v@),
{
    let (a, e) = trim_bounds(v, 0, v.len());
    let t = slice_of(v, a, e);
    let n = t.len();
    if n > 0 && t[0] == '#' {
        return parse_hex(&t, 1);
    }
    let rgba_l: &[char] = &['r', 'g', 'b', 'a', '('];
    let rgb_l: &[char] = &['r', 'g', 'b', '('];
    assert(rgba_l@ =~= rgba_open() && rgb_l@ =~= rgb_open());
    if n >= 6 && range_eq(&t, 0, 5, rgba_l) && t[n - 1] == ')' {
        let inner = slice_of(&t, 5, n - 1);
        return parse_rgb_func(&inner, true);
    }
    if n >= 5 && range_eq(&t, 0, 4, rgb_l) && t[n - 1] == ')' {
        let inner = slice_of(&t, 4, n - 1);
        return parse_rgb_func(&inner, false);
    }
    let low = lower_range(&t, 0, n);
    assert(t@.subrange(0, n as int) =~= t@);
    named(&low)
}

} // verus!
