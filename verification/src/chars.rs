//! Character classes, scanning over character sequences, and conversions
//! between strings and character sequences.

use vstd::prelude::*;

verus! {

broadcast use vstd::string::axiom_spec_iter;

/// The Unicode `White_Space` property, which `char::is_whitespace` tests.
pub open spec fn is_ws(c: char) -> bool {
    let u = c as u32;
    ||| 0x09 <= u <= 0x0d
    ||| u == 0x20
    ||| u == 0x85
    ||| u == 0xa0
    ||| u == 0x1680
    ||| 0x2000 <= u <= 0x200a
    ||| u == 0x2028
    ||| u == 0x2029
    ||| u == 0x202f
    ||| u == 0x205f
    ||| u == 0x3000
}

/// An ASCII letter or digit.
pub open spec fn is_ascii_alnum(c: char) -> bool {
    ||| ('a' <= c && c <= 'z')
    ||| ('A' <= c && c <= 'Z')
    ||| ('0' <= c && c <= '9')
}

/// A character that may appear in a tag, class, attribute or property name:
/// an ASCII letter or digit, `-` or `_`.
pub open spec fn is_name(c: char) -> bool {
    is_ascii_alnum(c) || c == '-' || c == '_'
}

/// ASCII lower-casing of one character; other characters are unchanged.
pub open spec fn lower(c: char) -> char {
    if 'A' <= c && c <= 'Z' {
        ((c as u32) + 32) as char
    } else {
        c
    }
}

/// ASCII lower-casing of a sequence.
pub open spec fn lower_seq(s: Seq<char>) -> Seq<char> {
    s.map_values(|c: char| lower(c))
}

/// Whether `c` has the Unicode `White_Space` property.
pub fn is_whitespace(c: char) -> (b: bool)
    ensures
        b == is_ws(c),
{
    let u = c as u32;
    (0x09 <= u && u <= 0x0d) || u == 0x20 || u == 0x85 || u == 0xa0 || u == 0x1680 || (0x2000 <= u
        && u <= 0x200a) || u == 0x2028 || u == 0x2029 || u == 0x202f || u == 0x205f || u == 0x3000
}

/// Whether `c` may appear in a name.
pub fn is_name_char(c: char) -> (b: bool)
    ensures
        b == is_name(c),
{
    ('a' <= c && c <= 'z') || ('A' <= c && c <= 'Z') || ('0' <= c && c <= '9') || c == '-' || c
        == '_'
}

/// ASCII lower-casing of one character.
pub fn to_lower(c: char) -> (r: char)
    ensures
        r == lower(c),
{
    if 'A' <= c && c <= 'Z' {
        let u = c as u32 + 32;
        assert(u <= 0x7f);
        // The code point stays within ASCII, so it is a valid `char`.
        ascii_char(u)
    } else {
        c
    }
}

/// The `char` of an ASCII code point.
fn ascii_char(u: u32) -> (c: char)
    requires
        u <= 0x7f,
    ensures
        c == u as char,
        c as u32 == u,
{
    let b = u as u8;
    b as char
}

/// The kinds of runs that the parsers consume.
#[derive(Clone, Copy)]
pub enum Run {
    /// Name characters.
    Name,
    /// White space.
    Space,
    /// Anything but `;` and `}`.
    NotSemiOrBrace,
    /// Anything but `<`.
    NotLt,
    /// Anything but the given quote character.
    NotQuote(char),
    /// An unquoted attribute value: anything but white space, `>` and `/`.
    Unquoted,
    /// Anything but white space.
    Word,
    /// ASCII digits.
    Digit,
    /// Anything but `,`.
    NotComma,
}

/// Whether a run of kind `k` goes on over `c`.
pub open spec fn keeps(k: Run, c: char) -> bool {
    match k {
        Run::Name => is_name(c),
        Run::Space => is_ws(c),
        Run::NotSemiOrBrace => c != ';' && c != '}',
        Run::NotLt => c != '<',
        Run::NotQuote(q) => c != q,
        Run::Unquoted => !is_ws(c) && c != '>' && c != '/',
        Run::Word => !is_ws(c),
        Run::Digit => '0' <= c && c <= '9',
        Run::NotComma => c != ',',
    }
}

/// Whether a run of kind `k` goes on over `c`.
pub fn run_keeps(k: Run, c: char) -> (b: bool)
    ensures
        b == keeps(k, c),
{
    match k {
        Run::Name => is_name_char(c),
        Run::Space => is_whitespace(c),
        Run::NotSemiOrBrace => c != ';' && c != '}',
        Run::NotLt => c != '<',
        Run::NotQuote(q) => c != q,
        Run::Unquoted => !is_whitespace(c) && c != '>' && c != '/',
        Run::Word => !is_whitespace(c),
        Run::Digit => '0' <= c && c <= '9',
        Run::NotComma => c != ',',
    }
}

/// Where the run of kind `k` that starts at `pos` ends.
pub open spec fn run_end(s: Seq<char>, pos: int, k: Run) -> int
    decreases s.len() - pos,
{
    if 0 <= pos < s.len() && keeps(k, s[pos]) {
        run_end(s, pos + 1, k)
    } else {
        pos
    }
}

/// The run ends at or after its start, within the sequence, on a character
/// that stops it, and every character in it keeps it going.
pub proof fn lemma_run_end(s: Seq<char>, pos: int, k: Run)
    requires
        0 <= pos <= s.len(),
    ensures
        pos <= run_end(s, pos, k) <= s.len(),
        run_end(s, pos, k) < s.len() ==> !keeps(k, s[run_end(s, pos, k)]),
        forall|i: int| pos <= i < run_end(s, pos, k) ==> keeps(k, #[trigger] s[i]),
    decreases s.len() - pos,
{
    if pos < s.len() && keeps(k, s[pos]) {
        lemma_run_end(s, pos + 1, k);
    }
}

/// A run's end lies at or after its start; within the text when the start is.
pub proof fn lemma_run_moves(s: Seq<char>, p: int, k: Run)
    ensures
        p <= run_end(s, p, k),
        p <= s.len() ==> run_end(s, p, k) <= s.len(),
        p < 0 ==> run_end(s, p, k) == p,
{
    if 0 <= p <= s.len() {
        lemma_run_end(s, p, k);
    }
}

/// Where the white space that starts at `pos` ends.
pub open spec fn ws_end(s: Seq<char>, pos: int) -> int {
    run_end(s, pos, Run::Space)
}

/// The end of the run of kind `k` that starts at `pos`.
pub fn scan(s: &Vec<char>, pos: usize, k: Run) -> (e: usize)
    requires
        pos <= s.len(),
    ensures
        e == run_end(s@, pos as int, k),
        pos <= e <= s.len(),
{
    proof {
        lemma_run_end(s@, pos as int, k);
    }
    let mut i = pos;
    while i < s.len() && run_keeps(k, s[i])
        invariant
            pos <= i <= s.len(),
            run_end(s@, i as int, k) == run_end(s@, pos as int, k),
        decreases s.len() - i,
    {
        i += 1;
    }
    i
}

/// The characters of a string, in order.
pub fn to_chars(s: &str) -> (v: Vec<char>)
    ensures
        v@ == s@,
{
    let mut v: Vec<char> = Vec::new();
    for c in it: s.chars()
        invariant
            v@ == it.seq().take(it.index()),
    {
        v.push(c);
    }
    v
}

/// `String::push`: appends one character to the end of the string.
#[verifier::external_body]
pub(crate) fn push_char(s: &mut String, c: char)
    ensures
        final(s)@ == old(s)@.push(c),
{
    s.push(c);
}

/// The characters `v[a..b]`.
pub fn slice_of(v: &Vec<char>, a: usize, b: usize) -> (r: Vec<char>)
    requires
        a <= b <= v.len(),
    ensures
        r@ == v@.subrange(a as int, b as int),
{
    let mut r: Vec<char> = Vec::new();
    let mut i = a;
    while i < b
        invariant
            a <= i <= b <= v.len(),
            r@ == v@.subrange(a as int, i as int),
        decreases b - i,
    {
        r.push(v[i]);
        assert(v@.subrange(a as int, i + 1) =~= v@.subrange(a as int, i as int).push(v@[i as int]));
        i += 1;
    }
    r
}

/// The string made of `v[a..b]`.
pub fn collect(v: &Vec<char>, a: usize, b: usize) -> (s: String)
    requires
        a <= b <= v.len(),
    ensures
        s@ == v@.subrange(a as int, b as int),
{
    let mut s = String::new();
    let mut i = a;
    while i < b
        invariant
            a <= i <= b <= v.len(),
            s@ == v@.subrange(a as int, i as int),
        decreases b - i,
    {
        push_char(&mut s, v[i]);
        assert(v@.subrange(a as int, i + 1) == v@.subrange(a as int, i as int).push(v@[i as int]));
        i += 1;
    }
    s
}

/// The string made of all of `v`.
pub fn collect_all(v: &Vec<char>) -> (s: String)
    ensures
        s@ == v@,
{
    let s = collect(v, 0, v.len());
    assert(v@.subrange(0, v@.len() as int) == v@);
    s
}

/// The ASCII lower-cased copy of `v[a..b]`.
pub fn lower_range(v: &Vec<char>, a: usize, b: usize) -> (r: Vec<char>)
    requires
        a <= b <= v.len(),
    ensures
        r@ == lower_seq(v@.subrange(a as int, b as int)),
{
    let mut r: Vec<char> = Vec::new();
    let mut i = a;
    while i < b
        invariant
            a <= i <= b <= v.len(),
            r@ == lower_seq(v@.subrange(a as int, i as int)),
        decreases b - i,
    {
        r.push(to_lower(v[i]));
        assert(lower_seq(v@.subrange(a as int, i + 1)) == lower_seq(
            v@.subrange(a as int, i as int),
        ).push(lower(v@[i as int])));
        i += 1;
    }
    r
}

/// Whether `v[a..b]` equals `lit`.
pub fn range_eq(v: &Vec<char>, a: usize, b: usize, lit: &[char]) -> (r: bool)
    requires
        a <= b <= v.len(),
    ensures
        r == (v@.subrange(a as int, b as int) == lit@),
{
    if b - a != lit.len() {
        return false;
    }
    let mut i: usize = 0;
    while i < lit.len()
        invariant
            a <= b <= v.len(),
            b - a == lit@.len(),
            i <= lit@.len(),
            forall|j: int| 0 <= j < i ==> v@[a + j] == lit@[j],
        decreases lit.len() - i,
    {
        if v[a + i] != lit[i] {
            assert(v@.subrange(a as int, b as int)[i as int] != lit@[i as int]);
            return false;
        }
        i += 1;
    }
    assert(v@.subrange(a as int, b as int) =~= lit@);
    true
}

/// Whether `v`, from `pos` on, starts with `lit`.
pub open spec fn starts_at(s: Seq<char>, pos: int, lit: Seq<char>) -> bool {
    pos + lit.len() <= s.len() && s.subrange(pos, pos + lit.len()) == lit
}

/// Whether `v`, from `pos` on, starts with `lit`.
pub fn starts_with_at(v: &Vec<char>, pos: usize, lit: &[char]) -> (r: bool)
    requires
        pos <= v.len(),
    ensures
        r == starts_at(v@, pos as int, lit@),
{
    if v.len() - pos < lit.len() {
        return false;
    }
    range_eq(v, pos, pos + lit.len(), lit)
}

/// Where the content of `s[a..b]` starts once leading white space is dropped.
pub open spec fn trim_start(s: Seq<char>, a: int, b: int) -> int
    decreases b - a,
{
    if a < b && is_ws(s[a]) {
        trim_start(s, a + 1, b)
    } else {
        a
    }
}

/// Where the content of `s[a..b]` ends once trailing white space is dropped.
pub open spec fn trim_end(s: Seq<char>, a: int, b: int) -> int
    decreases b - a,
{
    if a < b && is_ws(s[b - 1]) {
        trim_end(s, a, b - 1)
    } else {
        b
    }
}

/// `s[a..b]` with leading and trailing white space removed, as `str::trim` does.
pub open spec fn trim(s: Seq<char>, a: int, b: int) -> Seq<char> {
    let t = trim_start(s, a, b);
    s.subrange(t, trim_end(s, t, b))
}

/// The bounds of `v[a..b]` once leading and trailing white space is dropped.
pub fn trim_bounds(v: &Vec<char>, a: usize, b: usize) -> (r: (usize, usize))
    requires
        a <= b <= v.len(),
    ensures
        r.0 == trim_start(v@, a as int, b as int),
        r.1 == trim_end(v@, r.0 as int, b as int),
        a <= r.0 <= r.1 <= b,
{
    let mut i = a;
    while i < b && is_whitespace(v[i])
        invariant
            a <= i <= b <= v.len(),
            trim_start(v@, i as int, b as int) == trim_start(v@, a as int, b as int),
        decreases b - i,
    {
        i += 1;
    }
    let mut j = b;
    while j > i && is_whitespace(v[j - 1])
        invariant
            a <= i <= j <= b <= v.len(),
            trim_end(v@, i as int, j as int) == trim_end(v@, i as int, b as int),
        decreases j - i,
    {
        j -= 1;
    }
    (i, j)
}

} // verus!
