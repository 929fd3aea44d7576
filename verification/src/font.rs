//! The built-in bitmap font: each glyph is a grid of 5 by 7 dots, scaled up
//! by whole pixels for larger font sizes. It needs no font file.
//!
//! Every character advances by the same width, six dots (five for the glyph
//! and one of space). Characters that the font lacks are drawn as a box.

use vstd::prelude::*;

verus! {

/// The built-in 5x7 bitmap font.
#[derive(Debug, Clone, Copy)]
pub struct BitmapFont;

/// The side of one dot, in pixels: the font size (in units of 1/64 pixel)
/// over eight pixels, at least one.
pub open spec fn dot_size(font_size: int) -> int {
    if font_size >= 512 {
        font_size / 512
    } else {
        1
    }
}

/// The seven rows of five dots of a glyph, packed five bits to a row, top row
/// first; the leftmost dot of a row is its highest bit.
pub open spec fn glyph_code(c: char) -> u64 {
    match c {
        ' ' => 0,
        '0' => 15623448110,
        '1' => 4701950094,
        '2' => 15603929375,
        '3' => 33357366830,
        '4' => 2359917634,
        '5' => 33854359086,
        '6' => 6728664622,
        '7' => 33321787656,
        '8' => 15621113390,
        '9' => 15621129292,
        'A' => 15621670449,
        'B' => 32801506878,
        'C' => 15620129326,
        'D' => 30687151708,
        'E' => 33840644639,
        'F' => 33840644624,
        'G' => 15620359727,
        'H' => 18842895921,
        'I' => 15170932878,
        'J' => 7585466956,
        'K' => 18879369809,
        'L' => 17734058527,
        'M' => 19182306865,
        'N' => 18850958897,
        'O' => 15621211694,
        'P' => 32801505808,
        'Q' => 15621215821,
        'R' => 32801509969,
        'S' => 16660235326,
        'T' => 33424543876,
        'U' => 18842437166,
        'V' => 18842436932,
        'W' => 18842572458,
        'X' => 18834663985,
        'Y' => 18842194052,
        'Z' => 33321787935,
        'a' => 14728751,
        'b' => 17740645950,
        'c' => 15221294,
        'd' => 1121568303,
        'e' => 15269390,
        'f' => 6753755400,
        'g' => 521714734,
        'h' => 17740645937,
        'i' => 4307685518,
        'j' => 2153843276,
        'k' => 17736295058,
        'l' => 13023449230,
        'm' => 27973169,
        'n' => 23905841,
        'o' => 15255086,
        'p' => 32045584,
        'q' => 14269473,
        'r' => 23904784,
        's' => 15218750,
        't' => 8888000806,
        'u' => 18400877,
        'v' => 18400580,
        'w' => 18405034,
        'x' => 18157905,
        'y' => 18398254,
        'z' => 32575775,
        '!' => 4433514500,
        '"' => 11083448320,
        '#' => 11105828170,
        '$' => 4819720132,
        '%' => 26610901603,
        '&' => 13510137421,
        '\'' => 13027508224,
        '(' => 2290360450,
        ')' => 8726317192,
        '*' => 156718208,
        '+' => 139432064,
        ',' => 12424,
        '-' => 1015808,
        '.' => 396,
        '/' => 35791360,
        ':' => 415248768,
        ';' => 415248520,
        '<' => 2290622594,
        '=' => 32537600,
        '>' => 8726284424,
        '?' => 15603929092,
        '@' => 15604307630,
        '[' => 15309480206,
        '\\' => 545392672,
        ']' => 15101659214,
        '^' => 4648337408,
        '_' => 31,
        '`' => 8726249472,
        '{' => 2286162050,
        '|' => 4433514628,
        '}' => 8728416392,
        '~' => 9078784,
        _ => 33874822719,
    }
}

/// The five dots of row `r` (0 at the top) of a glyph.
pub open spec fn glyph_row(c: char, r: int) -> int {
    (glyph_code(c) as int / row_weight(r)) % 32
}

/// The weight of row `r` in a packed glyph: 32 to the power `6 - r`.
pub open spec fn row_weight(r: int) -> int {
    if r == 0 {
        1073741824
    } else if r == 1 {
        33554432
    } else if r == 2 {
        1048576
    } else if r == 3 {
        32768
    } else if r == 4 {
        1024
    } else if r == 5 {
        32
    } else {
        1
    }
}

/// The weight of column `k` in a row: 2 to the power `4 - k`.
pub open spec fn col_weight(k: int) -> int {
    if k == 0 {
        16
    } else if k == 1 {
        8
    } else if k == 2 {
        4
    } else if k == 3 {
        2
    } else {
        1
    }
}

/// Whether the dot at row `r`, column `k` of a glyph is set.
pub open spec fn dot_set(c: char, r: int, k: int) -> bool {
    (glyph_row(c, r) / col_weight(k)) % 2 == 1
}

impl BitmapFont {
    /// The side of one dot, in pixels.
    pub fn dot(&self, font_size: i64) -> (s: i64)
        requires
            font_size <= 1099511627776,
        ensures
            s == dot_size(font_size as int),
            1 <= s <= 2147483648,
    {
        if font_size >= 512 {
            font_size / 512
        } else {
            1
        }
    }

    /// The height from the baseline to the top of a glyph, in units: seven dots.
    pub fn ascent(&self, font_size: i64) -> (r: i64)
        requires
            font_size <= 1099511627776,
        ensures
            r == 7 * dot_size(font_size as int) * 64,
    {
        7 * self.dot(font_size) * 64
    }

    /// The height of a line, in units: nine dots.
    pub fn line_height(&self, font_size: i64) -> (r: i64)
        requires
            font_size <= 1099511627776,
        ensures
            r == 9 * dot_size(font_size as int) * 64,
    {
        9 * self.dot(font_size) * 64
    }

    /// How far the pen moves after any character, in units: six dots.
    pub fn advance(&self, ch: char, font_size: i64) -> (r: i64)
        requires
            font_size <= 1099511627776,
        ensures
            r == 6 * dot_size(font_size as int) * 64,
    {
        6 * self.dot(font_size) * 64
    }

    /// The packed dots of a glyph.
    pub fn glyph(&self, c: char) -> (g: u64)
        ensures
            g == glyph_code(c),
    {
        match c {
            ' ' => 0,
            '0' => 15623448110,
            '1' => 4701950094,
            '2' => 15603929375,
            '3' => 33357366830,
            '4' => 2359917634,
            '5' => 33854359086,
            '6' => 6728664622,
            '7' => 33321787656,
            '8' => 15621113390,
            '9' => 15621129292,
            'A' => 15621670449,
            'B' => 32801506878,
            'C' => 15620129326,
            'D' => 30687151708,
            'E' => 33840644639,
            'F' => 33840644624,
            'G' => 15620359727,
            'H' => 18842895921,
            'I' => 15170932878,
            'J' => 7585466956,
            'K' => 18879369809,
            'L' => 17734058527,
            'M' => 19182306865,
            'N' => 18850958897,
            'O' => 15621211694,
            'P' => 32801505808,
            'Q' => 15621215821,
            'R' => 32801509969,
            'S' => 16660235326,
            'T' => 33424543876,
            'U' => 18842437166,
            'V' => 18842436932,
            'W' => 18842572458,
            'X' => 18834663985,
            'Y' => 18842194052,
            'Z' => 33321787935,
            'a' => 14728751,
            'b' => 17740645950,
            'c' => 15221294,
            'd' => 1121568303,
            'e' => 15269390,
            'f' => 6753755400,
            'g' => 521714734,
            'h' => 17740645937,
            'i' => 4307685518,
            'j' => 2153843276,
            'k' => 17736295058,
            'l' => 13023449230,
            'm' => 27973169,
            'n' => 23905841,
            'o' => 15255086,
            'p' => 32045584,
            'q' => 14269473,
            'r' => 23904784,
            's' => 15218750,
            't' => 8888000806,
            'u' => 18400877,
            'v' => 18400580,
            'w' => 18405034,
            'x' => 18157905,
            'y' => 18398254,
            'z' => 32575775,
            '!' => 4433514500,
            '"' => 11083448320,
            '#' => 11105828170,
            '$' => 4819720132,
            '%' => 26610901603,
            '&' => 13510137421,
            '\'' => 13027508224,
            '(' => 2290360450,
            ')' => 8726317192,
            '*' => 156718208,
            '+' => 139432064,
            ',' => 12424,
            '-' => 1015808,
            '.' => 396,
            '/' => 35791360,
            ':' => 415248768,
            ';' => 415248520,
            '<' => 2290622594,
            '=' => 32537600,
            '>' => 8726284424,
            '?' => 15603929092,
            '@' => 15604307630,
            '[' => 15309480206,
            '\\' => 545392672,
            ']' => 15101659214,
            '^' => 4648337408,
            '_' => 31,
            '`' => 8726249472,
            '{' => 2286162050,
            '|' => 4433514628,
            '}' => 8728416392,
            '~' => 9078784,
            _ => 33874822719,
        }
    }
}

/// The five dots of a row of a packed glyph.
pub fn row_of(g: u64, r: u32) -> (bits: u64)
    requires
        r < 7,
    ensures
        bits == (g as int / row_weight(r as int)) % 32,
        bits < 32,
{
    let w: u64 = if r == 0 {
        1073741824
    } else if r == 1 {
        33554432
    } else if r == 2 {
        1048576
    } else if r == 3 {
        32768
    } else if r == 4 {
        1024
    } else if r == 5 {
        32
    } else {
        1
    };
    (g / w) % 32
}

/// Whether column `k` of a row of dots is set.
pub fn bit_of(bits: u64, k: u32) -> (b: bool)
    requires
        k < 5,
    ensures
        b == ((bits as int / col_weight(k as int)) % 2 == 1),
{
    let w: u64 = if k == 0 {
        16
    } else if k == 1 {
        8
    } else if k == 2 {
        4
    } else if k == 3 {
        2
    } else {
        1
    };
    (bits / w) % 2 == 1
}

} // verus!
