//! The HTML parser: markup such as `<div class="card">...</div>` becomes a
//! tree of elements.
//!
//! Supported: elements `<tag class="a b"> ... </tag>`, self-closing `<tag/>`,
//! void tags (`<br>` and the like); the `class` attribute (other attributes
//! are read and dropped); text between tags, where blank runs are dropped;
//! comments `<!-- -->`, `<!DOCTYPE ...>`, and the entities `&amp; &lt; &gt;
//! &quot; &#39; &apos; &nbsp;`.
//!
//! An element that holds only text keeps that text itself, so that its own
//! CSS applies to it; where text is mixed with elements, each piece of text
//! becomes a `#text` element.

use vstd::prelude::*;

use crate::chars::{
    collect, collect_all, is_name, is_ws, keeps, lemma_run_end, lemma_run_moves, lower, lower_range, lower_seq,
    push_char, range_eq, run_end, scan, starts_at, starts_with_at, to_chars, trim,
    trim_bounds, ws_end, Run,
};
use crate::dom::{lemma_node_view, nodes_v, strings_v, Node, NodeV};

verus! {

// ---------------------------------------------------------------------------
// Words and literals.
// ---------------------------------------------------------------------------

/// The tag of text elements.
pub open spec fn text_tag() -> Seq<char> {
    seq!['#', 't', 'e', 'x', 't']
}

/// The tag of the element that wraps several top-level elements.
pub open spec fn div_tag() -> Seq<char> {
    seq!['d', 'i', 'v']
}

/// A text element holding `t`.
pub open spec fn text_node_v(t: Seq<char>) -> NodeV {
    NodeV { tag: text_tag(), classes: Seq::empty(), children: Seq::empty(), text: Some(t) }
}

/// The tags of void elements, which have no closing tag.
pub open spec fn is_void(tag: Seq<char>) -> bool {
    ||| tag == seq!['b', 'r']
    ||| tag == seq!['i', 'm', 'g']
    ||| tag == seq!['h', 'r']
    ||| tag == seq!['i', 'n', 'p', 'u', 't']
    ||| tag == seq!['m', 'e', 't', 'a']
    ||| tag == seq!['l', 'i', 'n', 'k']
    ||| tag == seq!['a', 'r', 'e', 'a']
    ||| tag == seq!['b', 'a', 's', 'e']
}

/// The word `class`.
pub open spec fn class_word() -> Seq<char> {
    seq!['c', 'l', 'a', 's', 's']
}

/// Whether position `p` holds the character `c`.
pub open spec fn at(s: Seq<char>, p: int, c: char) -> bool {
    0 <= p < s.len() && s[p] == c
}

/// `s` with every occurrence of `pat`, from left to right and without
/// overlaps, replaced by `rep`, as `str::replace` does.
pub open spec fn replace_all(s: Seq<char>, pat: Seq<char>, rep: Seq<char>) -> Seq<char>
    decreases s.len(),
{
    if s.len() == 0 {
        s
    } else if pat.len() > 0 && starts_at(s, 0, pat) {
        rep + replace_all(s.skip(pat.len() as int), pat, rep)
    } else {
        seq![s[0]] + replace_all(s.skip(1), pat, rep)
    }
}

/// `s` with the common HTML entities decoded, one entity after the other.
pub open spec fn decode(s: Seq<char>) -> Seq<char> {
    if !s.contains('&') {
        s
    } else {
        let s1 = replace_all(s, seq!['&', 'a', 'm', 'p', ';'], seq!['&']);
        let s2 = replace_all(s1, seq!['&', 'l', 't', ';'], seq!['<']);
        let s3 = replace_all(s2, seq!['&', 'g', 't', ';'], seq!['>']);
        let s4 = replace_all(s3, seq!['&', 'q', 'u', 'o', 't', ';'], seq!['"']);
        let s5 = replace_all(s4, seq!['&', '#', '3', '9', ';'], seq!['\'']);
        let s6 = replace_all(s5, seq!['&', 'a', 'p', 'o', 's', ';'], seq!['\'']);
        replace_all(s6, seq!['&', 'n', 'b', 's', 'p', ';'], seq![' '])
    }
}

/// The white-space separated words of `s` from `p` on, as `str::split_whitespace`
/// gives them.
pub open spec fn words(s: Seq<char>, p: int) -> Seq<Seq<char>>
    decreases s.len() - p,
{
    let a = ws_end(s, p);
    if !(0 <= a < s.len()) {
        Seq::empty()
    } else {
        let e = run_end(s, a, Run::Word);
        proof {
            lemma_run_moves(s, p, Run::Space);
            lemma_run_end(s, p, Run::Space);
            lemma_run_moves(s, a + 1, Run::Word);
        }
        seq![s.subrange(a, e)] + words(s, e)
    }
}

/// The pieces of `v` joined with `sep` between them.
pub open spec fn join(v: Seq<Seq<char>>, sep: Seq<char>) -> Seq<char>
    decreases v.len(),
{
    if v.len() == 0 {
        Seq::empty()
    } else if v.len() == 1 {
        v[0]
    } else {
        join(v.drop_last(), sep) + sep + v.last()
    }
}

/// The cursor after the first occurrence of `lit` at or after `p`, or the end.
pub open spec fn skip_past_end(s: Seq<char>, p: int, lit: Seq<char>) -> int
    decreases s.len() - p,
{
    if !(0 <= p < s.len()) {
        p
    } else if starts_at(s, p, lit) {
        p + lit.len()
    } else {
        skip_past_end(s, p + 1, lit)
    }
}

// ---------------------------------------------------------------------------
// The grammar, over the text's characters and a cursor position.
// ---------------------------------------------------------------------------

/// An attribute value at `p` (quoted with `"` or `'`, or bare), entities
/// decoded, and the cursor after it.
pub open spec fn spec_attr_value(s: Seq<char>, p: int) -> (Seq<char>, int) {
    if at(s, p, '"') || at(s, p, '\'') {
        let q = s[p];
        let e = run_end(s, p + 1, Run::NotQuote(q));
        let p2 = if at(s, e, q) {
            e + 1
        } else {
            e
        };
        (decode(s.subrange(p + 1, e)), p2)
    } else {
        let e = run_end(s, p, Run::Unquoted);
        (decode(s.subrange(p, e)), e)
    }
}

/// The attributes from `p` up to `>`, `/` or the end: the classes of the last
/// `class` attribute (or `classes` when there is none), and the cursor there.
pub open spec fn spec_attributes(s: Seq<char>, p: int, classes: Seq<Seq<char>>) -> (
    Seq<Seq<char>>,
    int,
)
    decreases s.len() - p,
{
    let p1 = ws_end(s, p);
    if !(0 <= p1 < s.len()) || s[p1] == '>' || s[p1] == '/' {
        (classes, p1)
    } else {
        proof {
            lemma_run_moves(s, p, Run::Space);
        }
        let e = run_end(s, p1, Run::Name);
        if e == p1 {
            spec_attributes(s, p1 + 1, classes)
        } else {
            let name = lower_seq(s.subrange(p1, e));
            let p2 = ws_end(s, e);
            let (value, p3) = if at(s, p2, '=') {
                spec_attr_value(s, ws_end(s, p2 + 1))
            } else {
                (Seq::<char>::empty(), p2)
            };
            proof {
                lemma_attr_moves(s, p1);
            }
            let next = if name == class_word() {
                words(value, 0)
            } else {
                classes
            };
            spec_attributes(s, p3, next)
        }
    }
}

/// Whether some element of `children` is not a text element.
pub open spec fn has_element(children: Seq<NodeV>) -> bool {
    exists|i: int| 0 <= i < children.len() && children[i].tag != text_tag()
}

/// The texts of the elements that have one.
pub open spec fn texts(children: Seq<NodeV>) -> Seq<Seq<char>> {
    children.filter_map(|c: NodeV| c.text)
}

/// The element at `p` and the cursor after it, given `fuel` steps of reading.
pub open spec fn spec_element(s: Seq<char>, p: int, fuel: nat) -> (Option<NodeV>, int)
    decreases fuel, 0nat,
{
    if fuel == 0 || !at(s, p, '<') {
        (None, p)
    } else {
        let q = p + 1;
        let e = run_end(s, q, Run::Name);
        if e == q {
            (None, skip_past_end(s, q, seq!['>']))
        } else {
            let tag = lower_seq(s.subrange(q, e));
            let (classes, p2) = spec_attributes(s, e, Seq::empty());
            let p3 = ws_end(s, p2);
            let base = NodeV { tag, classes, children: Seq::empty(), text: None };
            if starts_at(s, p3, seq!['/', '>']) {
                (Some(base), p3 + 2)
            } else {
                let p4 = if at(s, p3, '>') {
                    p3 + 1
                } else {
                    p3
                };
                if is_void(tag) {
                    (Some(base), p4)
                } else {
                    let (children, p5) = spec_nodes(s, p4, (fuel - 1) as nat);
                    let p6 = if starts_at(s, p5, seq!['<', '/']) {
                        skip_past_end(s, p5, seq!['>'])
                    } else {
                        p5
                    };
                    if !has_element(children) {
                        let combined = join(texts(children), seq![' ']);
                        if combined.len() > 0 {
                            (Some(NodeV { text: Some(combined), ..base }), p6)
                        } else {
                            (Some(base), p6)
                        }
                    } else {
                        (Some(NodeV { children, ..base }), p6)
                    }
                }
            }
        }
    }
}

/// The sibling elements from `p` up to a closing tag or the end, and the
/// cursor there, given `fuel` steps of reading.
pub open spec fn spec_nodes(s: Seq<char>, p: int, fuel: nat) -> (Seq<NodeV>, int)
    decreases fuel, 1nat,
{
    if fuel == 0 || !(0 <= p < s.len()) || starts_at(s, p, seq!['<', '/']) {
        (Seq::empty(), p)
    } else if starts_at(s, p, seq!['<', '!', '-', '-']) {
        spec_nodes(s, skip_past_end(s, p, seq!['-', '-', '>']), (fuel - 1) as nat)
    } else if starts_at(s, p, seq!['<', '!']) {
        spec_nodes(s, skip_past_end(s, p, seq!['>']), (fuel - 1) as nat)
    } else if s[p] == '<' {
        let (n, q) = spec_element(s, p, (fuel - 1) as nat);
        let (rest, e) = spec_nodes(s, q, (fuel - 1) as nat);
        (opt_node(n) + rest, e)
    } else {
        let q = run_end(s, p, Run::NotLt);
        let t = decode(trim(s, p, q));
        let (rest, e) = spec_nodes(s, q, (fuel - 1) as nat);
        (text_seq(t) + rest, e)
    }
}

/// The element read, as a sequence of zero or one elements.
pub open spec fn opt_node(n: Option<NodeV>) -> Seq<NodeV> {
    match n {
        Some(x) => seq![x],
        None => Seq::empty(),
    }
}

/// The value of an optional element.
pub open spec fn node_opt_v(n: Option<Node>) -> Option<NodeV> {
    match n {
        Some(x) => Some(x@),
        None => None,
    }
}

/// A text element for `t`, unless `t` is empty.
pub open spec fn text_seq(t: Seq<char>) -> Seq<NodeV> {
    if t.len() > 0 {
        seq![text_node_v(t)]
    } else {
        Seq::empty()
    }
}

/// Steps of reading that suffice for the text from `p` on.
pub open spec fn fuel_for(s: Seq<char>, p: int) -> nat {
    (2 * (s.len() - p) + 2) as nat
}

/// The top-level elements of an HTML text.
pub open spec fn spec_parse_fragment(s: Seq<char>) -> Seq<NodeV> {
    spec_nodes(s, 0, fuel_for(s, 0)).0
}

/// The root element of an HTML text: its only top-level element, or else a
/// `div` that wraps all of them.
pub open spec fn spec_parse(s: Seq<char>) -> NodeV {
    let nodes = spec_parse_fragment(s);
    if nodes.len() == 1 {
        nodes[0]
    } else {
        NodeV { tag: div_tag(), classes: Seq::empty(), children: nodes, text: None }
    }
}

// ---------------------------------------------------------------------------
// The cursor moves forward.
// ---------------------------------------------------------------------------

/// Reading a named attribute at `p1` ends after its name.
pub proof fn lemma_attr_moves(s: Seq<char>, p1: int)
    ensures
        ({
            let e = run_end(s, p1, Run::Name);
            let p2 = ws_end(s, e);
            let p3 = if at(s, p2, '=') {
                spec_attr_value(s, ws_end(s, p2 + 1)).1
            } else {
                p2
            };
            &&& p1 <= e <= p3
            &&& (0 <= p1 <= s.len() ==> p3 <= s.len())
        }),
{
    let e = run_end(s, p1, Run::Name);
    lemma_run_moves(s, p1, Run::Name);
    let p2 = ws_end(s, e);
    lemma_run_moves(s, e, Run::Space);
    let p = ws_end(s, p2 + 1);
    lemma_run_moves(s, p2 + 1, Run::Space);
    lemma_run_moves(s, p + 1, Run::NotQuote(s[p]));
    lemma_run_moves(s, p, Run::Unquoted);
}

/// `skip_past_end` moves forward and stays within the text.
pub proof fn lemma_skip_past_end(s: Seq<char>, p: int, lit: Seq<char>)
    requires
        0 <= p <= s.len(),
    ensures
        p <= skip_past_end(s, p, lit) <= s.len(),
        p < s.len() && !starts_at(s, p, lit) ==> p < skip_past_end(s, p, lit),
    decreases s.len() - p,
{
    if p < s.len() && !starts_at(s, p, lit) {
        lemma_skip_past_end(s, p + 1, lit);
    }
}

// ---------------------------------------------------------------------------
// Character-level helpers.
// ---------------------------------------------------------------------------

/// `</`.
fn lit_close() -> (r: &'static [char])
    ensures
        r@ == seq!['<', '/'],
{
    let r: &'static [char] = &['<', '/'];
    assert(r@ =~= seq!['<', '/']);
    r
}

/// `<!--`.
fn lit_comment() -> (r: &'static [char])
    ensures
        r@ == seq!['<', '!', '-', '-'],
{
    let r: &'static [char] = &['<', '!', '-', '-'];
    assert(r@ =~= seq!['<', '!', '-', '-']);
    r
}

/// `-->`.
fn lit_comment_end() -> (r: &'static [char])
    ensures
        r@ == seq!['-', '-', '>'],
{
    let r: &'static [char] = &['-', '-', '>'];
    assert(r@ =~= seq!['-', '-', '>']);
    r
}

/// `<!`.
fn lit_bang() -> (r: &'static [char])
    ensures
        r@ == seq!['<', '!'],
{
    let r: &'static [char] = &['<', '!'];
    assert(r@ =~= seq!['<', '!']);
    r
}

/// `>`.
fn lit_gt() -> (r: &'static [char])
    ensures
        r@ == seq!['>'],
{
    let r: &'static [char] = &['>'];
    assert(r@ =~= seq!['>']);
    r
}

/// `/>`.
fn lit_self_close() -> (r: &'static [char])
    ensures
        r@ == seq!['/', '>'],
{
    let r: &'static [char] = &['/', '>'];
    assert(r@ =~= seq!['/', '>']);
    r
}

/// `v` with `pat` replaced by `rep` everywhere, from left to right.
fn replace_in(v: &Vec<char>, pat: &[char], rep: &[char]) -> (r: Vec<char>)
    requires
        pat@.len() > 0,
    ensures
        r@ == replace_all(v@, pat@, rep@),
{
    let mut r: Vec<char> = Vec::new();
    let mut i: usize = 0;
    assert(v@.skip(0) =~= v@);
    assert(r@ + replace_all(v@, pat@, rep@) =~= replace_all(v@, pat@, rep@));
    while i < v.len()
        invariant
            i <= v.len(),
            pat@.len() > 0,
            r@ + replace_all(v@.skip(i as int), pat@, rep@) == replace_all(v@, pat@, rep@),
        decreases v.len() - i,
    {
        let ghost rest = v@.skip(i as int);
        if starts_with_at(v, i, pat) {
            assert(starts_at(rest, 0, pat@)) by {
                assert(rest.subrange(0, pat@.len() as int) =~= v@.subrange(
                    i as int,
                    i + pat@.len(),
                ));
            }
            let mut k: usize = 0;
            let ghost r0 = r@;
            while k < rep.len()
                invariant
                    k <= rep@.len(),
                    r@ == r0 + rep@.subrange(0, k as int),
                decreases rep.len() - k,
            {
                r.push(rep[k]);
                assert(rep@.subrange(0, k + 1) =~= rep@.subrange(0, k as int).push(rep@[k as int]));
                k += 1;
            }
            assert(rep@.subrange(0, rep@.len() as int) =~= rep@);
            assert(rest.skip(pat@.len() as int) =~= v@.skip(i + pat@.len()));
            assert(r0 + replace_all(rest, pat@, rep@) == r0 + (rep@ + replace_all(
                rest.skip(pat@.len() as int),
                pat@,
                rep@,
            )));
            assert(r@ + replace_all(v@.skip(i + pat@.len()), pat@, rep@) =~= r0 + replace_all(
                rest,
                pat@,
                rep@,
            ));
            i = i + pat.len();
        } else {
            assert(!starts_at(rest, 0, pat@)) by {
                if i + pat@.len() <= v@.len() {
                    assert(rest.subrange(0, pat@.len() as int) =~= v@.subrange(
                        i as int,
                        i + pat@.len(),
                    ));
                }
            }
            let ghost r0 = r@;
            r.push(v[i]);
            assert(rest.skip(1) =~= v@.skip(i + 1));
            assert(r@ + replace_all(v@.skip(i + 1), pat@, rep@) =~= r0 + replace_all(
                rest,
                pat@,
                rep@,
            ));
            i = i + 1;
        }
    }
    assert(v@.skip(v@.len() as int) =~= Seq::<char>::empty());
    assert(r@ + Seq::<char>::empty() =~= r@);
    r
}

/// `v` with the common HTML entities decoded.
fn decode_entities(v: &Vec<char>) -> (r: Vec<char>)
    ensures
        r@ == decode(v@),
{
    let mut has_amp = false;
    let mut i: usize = 0;
    while i < v.len()
        invariant
            i <= v.len(),
            has_amp == v@.subrange(0, i as int).contains('&'),
        decreases v.len() - i,
    {
        if v[i] == '&' {
            has_amp = true;
        }
        proof {
            let a = v@.subrange(0, i as int);
            let b = v@.subrange(0, i + 1);
            assert(b =~= a.push(v@[i as int]));
            if b.contains('&') && !a.contains('&') {
                let j = choose|j: int| 0 <= j < b.len() && b[j] == '&';
                if j < i {
                    assert(a[j] == '&');
                }
            }
            if a.contains('&') {
                let j = choose|j: int| 0 <= j < a.len() && a[j] == '&';
                assert(b[j] == '&');
            }
            if v@[i as int] == '&' {
                assert(b[i as int] == '&');
            }
        }
        i += 1;
    }
    assert(v@.subrange(0, v@.len() as int) =~= v@);
    if !has_amp {
        let mut r: Vec<char> = Vec::new();
        let mut j: usize = 0;
        while j < v.len()
            invariant
                j <= v.len(),
                r@ == v@.subrange(0, j as int),
            decreases v.len() - j,
        {
            r.push(v[j]);
            assert(v@.subrange(0, j + 1) =~= v@.subrange(0, j as int).push(v@[j as int]));
            j += 1;
        }
        return r;
    }
    let (p1, r1): (&[char], &[char]) = (&['&', 'a', 'm', 'p', ';'], &['&']);
    let (p2, r2): (&[char], &[char]) = (&['&', 'l', 't', ';'], &['<']);
    let (p3, r3): (&[char], &[char]) = (&['&', 'g', 't', ';'], &['>']);
    let (p4, r4): (&[char], &[char]) = (&['&', 'q', 'u', 'o', 't', ';'], &['"']);
    let (p5, r5): (&[char], &[char]) = (&['&', '#', '3', '9', ';'], &['\'']);
    let (p6, r6): (&[char], &[char]) = (&['&', 'a', 'p', 'o', 's', ';'], &['\'']);
    let (p7, r7): (&[char], &[char]) = (&['&', 'n', 'b', 's', 'p', ';'], &[' ']);
    assert(p1@ =~= seq!['&', 'a', 'm', 'p', ';'] && r1@ =~= seq!['&']);
    assert(p2@ =~= seq!['&', 'l', 't', ';'] && r2@ =~= seq!['<']);
    assert(p3@ =~= seq!['&', 'g', 't', ';'] && r3@ =~= seq!['>']);
    assert(p4@ =~= seq!['&', 'q', 'u', 'o', 't', ';'] && r4@ =~= seq!['"']);
    assert(p5@ =~= seq!['&', '#', '3', '9', ';'] && r5@ =~= seq!['\'']);
    assert(p6@ =~= seq!['&', 'a', 'p', 'o', 's', ';'] && r6@ =~= seq!['\'']);
    assert(p7@ =~= seq!['&', 'n', 'b', 's', 'p', ';'] && r7@ =~= seq![' ']);
    let s1 = replace_in(v, p1, r1);
    let s2 = replace_in(&s1, p2, r2);
    let s3 = replace_in(&s2, p3, r3);
    let s4 = replace_in(&s3, p4, r4);
    let s5 = replace_in(&s4, p5, r5);
    let s6 = replace_in(&s5, p6, r6);
    replace_in(&s6, p7, r7)
}

/// The white-space separated words of `v`.
pub(crate) fn split_words(v: &Vec<char>) -> (r: Vec<String>)
    ensures
        strings_v(r@) == words(v@, 0),
{
    let mut r: Vec<String> = Vec::new();
    let mut i: usize = 0;
    loop
        invariant_except_break
            i <= v.len(),
            strings_v(r@) + words(v@, i as int) == words(v@, 0),
        ensures
            strings_v(r@) == words(v@, 0),
        decreases v.len() - i,
    {
        let a = scan(v, i, Run::Space);
        if a >= v.len() {
            assert(words(v@, i as int) == Seq::<Seq<char>>::empty());
            assert(strings_v(r@) + Seq::<Seq<char>>::empty() =~= strings_v(r@));
            break;
        }
        proof {
            lemma_run_end(v@, i as int, Run::Space);
            lemma_run_moves(v@, a + 1, Run::Word);
        }
        let e = scan(v, a, Run::Word);
        let w = collect(v, a, e);
        let ghost r0 = r@;
        r.push(w);
        assert(strings_v(r@) =~= strings_v(r0).push(v@.subrange(a as int, e as int)));
        assert(strings_v(r@) + words(v@, e as int) =~= strings_v(r0) + words(v@, i as int));
        i = e;
    }
    r
}

/// Whether `tag` is the tag of a void element.
fn is_void_tag(tag: &Vec<char>) -> (b: bool)
    ensures
        b == is_void(tag@),
{
    let n = tag.len();
    let t1: &[char] = &['b', 'r'];
    let t2: &[char] = &['i', 'm', 'g'];
    let t3: &[char] = &['h', 'r'];
    let t4: &[char] = &['i', 'n', 'p', 'u', 't'];
    let t5: &[char] = &['m', 'e', 't', 'a'];
    let t6: &[char] = &['l', 'i', 'n', 'k'];
    let t7: &[char] = &['a', 'r', 'e', 'a'];
    let t8: &[char] = &['b', 'a', 's', 'e'];
    assert(t1@ =~= seq!['b', 'r'] && t2@ =~= seq!['i', 'm', 'g'] && t3@ =~= seq!['h', 'r']);
    assert(t4@ =~= seq!['i', 'n', 'p', 'u', 't'] && t5@ =~= seq!['m', 'e', 't', 'a']);
    assert(t6@ =~= seq!['l', 'i', 'n', 'k'] && t7@ =~= seq!['a', 'r', 'e', 'a']);
    assert(t8@ =~= seq!['b', 'a', 's', 'e']);
    assert(tag@.subrange(0, n as int) =~= tag@);
    range_eq(tag, 0, n, t1) || range_eq(tag, 0, n, t2) || range_eq(tag, 0, n, t3) || range_eq(
        tag,
        0,
        n,
        t4,
    ) || range_eq(tag, 0, n, t5) || range_eq(tag, 0, n, t6) || range_eq(tag, 0, n, t7)
        || range_eq(tag, 0, n, t8)
}

/// The cursor after the first occurrence of `lit` at or after `p`, or the end.
fn find_past(s: &Vec<char>, p: usize, lit: &[char]) -> (e: usize)
    requires
        p <= s.len(),
    ensures
        e == skip_past_end(s@, p as int, lit@),
        p <= e <= s.len(),
{
    proof {
        lemma_skip_past_end(s@, p as int, lit@);
    }
    let mut i = p;
    while i < s.len()
        invariant
            p <= i <= s.len(),
            skip_past_end(s@, i as int, lit@) == skip_past_end(s@, p as int, lit@),
        decreases s.len() - i,
    {
        if starts_with_at(s, i, lit) {
            return i + lit.len();
        }
        i = i + 1;
    }
    i
}

/// The tag of text elements, as a string.
fn text_tag_string() -> (s: String)
    ensures
        s@ == text_tag(),
{
    let v: Vec<char> = vec!['#', 't', 'e', 'x', 't'];
    let s = collect_all(&v);
    assert(v@ =~= text_tag());
    s
}

/// A text element holding `text`.
fn text_node(text: &Vec<char>) -> (n: Node)
    ensures
        n@ == text_node_v(text@),
{
    let n = Node {
        tag: text_tag_string(),
        classes: Vec::new(),
        children: Vec::new(),
        text: Some(collect_all(text)),
    };
    proof {
        lemma_node_view(n);
        assert(strings_v(n.classes@) =~= Seq::empty());
        assert(nodes_v(n.children@) =~= Seq::empty());
    }
    n
}

// ---------------------------------------------------------------------------
// The parser.
// ---------------------------------------------------------------------------

/// Parses HTML into one root element. Several top-level elements (or none)
/// are wrapped in an anonymous `div`; a single one is the root itself.
pub fn parse(input: &str) -> (root: Node)
    ensures
        root@ == spec_parse(input@),
{
    let mut nodes = parse_fragment(input);
    if nodes.len() == 1 {
        let ghost v = nodes@;
        let n = nodes.pop().unwrap();
        proof {
            assert(nodes_v(v)[0] == v[0]@);
            assert(n == v[0]);
        }
        n
    } else {
        let mut root = Node::new("div");
        proof {
            reveal_strlit("div");
            lemma_node_view(root);
        }
        let ghost nv = nodes_v(nodes@);
        root.children = nodes;
        proof {
            lemma_node_view(root);
            assert(root@.tag == div_tag());
            assert(root@.children == nv);
            assert(root@.classes == Seq::<Seq<char>>::empty());
        }
        root
    }
}

/// Parses HTML into the list of its top-level elements.
pub fn parse_fragment(input: &str) -> (nodes: Vec<Node>)
    ensures
        nodes_v(nodes@) == spec_parse_fragment(input@),
{
    let mut parser = Parser { chars: to_chars(input), pos: 0 };
    parser.parse_nodes(Ghost(fuel_for(input@, 0)))
}

/// The parser's state: the text's characters and the cursor.
struct Parser {
    chars: Vec<char>,
    pos: usize,
}

impl Parser {
    /// Whether the cursor is at the end of the text.
    fn eof(&self) -> (b: bool)
        ensures
            b == (self.pos >= self.chars.len()),
    {
        self.pos >= self.chars.len()
    }

    /// Whether the character under the cursor is `c`.
    fn peek_is(&self, c: char) -> (b: bool)
        ensures
            b == at(self.chars@, self.pos as int, c),
    {
        self.pos < self.chars.len() && self.chars[self.pos] == c
    }

    /// Whether the text at the cursor starts with `lit`.
    fn starts_with(&self, lit: &[char]) -> (b: bool)
        requires
            self.pos <= self.chars.len(),
        ensures
            b == starts_at(self.chars@, self.pos as int, lit@),
    {
        starts_with_at(&self.chars, self.pos, lit)
    }

    /// Skips white space.
    fn skip_whitespace(&mut self)
        requires
            old(self).pos <= old(self).chars.len(),
        ensures
            final(self).chars@ == old(self).chars@,
            final(self).pos == ws_end(old(self).chars@, old(self).pos as int),
            old(self).pos <= final(self).pos <= final(self).chars.len(),
    {
        proof {
            lemma_run_moves(self.chars@, self.pos as int, Run::Space);
        }
        self.pos = scan(&self.chars, self.pos, Run::Space);
    }

    /// Moves the cursor past the next occurrence of `lit`, or to the end.
    fn skip_past(&mut self, lit: &[char])
        requires
            old(self).pos <= old(self).chars.len(),
        ensures
            final(self).chars@ == old(self).chars@,
            final(self).pos == skip_past_end(old(self).chars@, old(self).pos as int, lit@),
            old(self).pos <= final(self).pos <= final(self).chars.len(),
    {
        self.pos = find_past(&self.chars, self.pos, lit);
    }

    /// Parses sibling nodes up to a closing tag (`</`) or the end.
    fn parse_nodes(&mut self, Ghost(fuel): Ghost<nat>) -> (nodes: Vec<Node>)
        requires
            old(self).pos <= old(self).chars.len(),
            fuel >= fuel_for(old(self).chars@, old(self).pos as int),
        ensures
            final(self).chars@ == old(self).chars@,
            spec_nodes(old(self).chars@, old(self).pos as int, fuel) == (
                nodes_v(nodes@),
                final(self).pos as int,
            ),
            old(self).pos <= final(self).pos <= final(self).chars.len(),
        decreases fuel, 1nat,
    {
        let ghost s = self.chars@;
        let ghost p0 = self.pos as int;
        let ghost mut f: nat = fuel;
        let mut nodes: Vec<Node> = Vec::new();
        loop
            invariant_except_break
                self.chars@ == s,
                p0 <= self.pos <= s.len(),
                f >= fuel_for(s, self.pos as int),
                f <= fuel,
                nodes_v(nodes@) + spec_nodes(s, self.pos as int, f).0 == spec_nodes(s, p0, fuel).0,
                spec_nodes(s, self.pos as int, f).1 == spec_nodes(s, p0, fuel).1,
            ensures
                self.chars@ == s,
                p0 <= self.pos <= s.len(),
                nodes_v(nodes@) == spec_nodes(s, p0, fuel).0,
                self.pos == spec_nodes(s, p0, fuel).1,
            decreases f,
        {
            let ghost q = self.pos as int;
            let ghost before = nodes@;
            if self.eof() || self.starts_with(lit_close()) {
                assert(nodes_v(nodes@) + Seq::<NodeV>::empty() =~= nodes_v(nodes@));
                break;
            }
            if self.starts_with(lit_comment()) {
                proof {
                    lemma_skip_past_end(s, q, seq!['-', '-', '>']);
                    assert(!starts_at(s, q, seq!['-', '-', '>']));
                }
                self.skip_past(lit_comment_end());
                proof {
                    f = (f - 1) as nat;
                }
                continue;
            }
            if self.starts_with(lit_bang()) {
                proof {
                    lemma_skip_past_end(s, q, seq!['>']);
                    assert(!starts_at(s, q, seq!['>']));
                }
                self.skip_past(lit_gt());
                proof {
                    f = (f - 1) as nat;
                }
                continue;
            }
            if self.peek_is('<') {
                let n = self.parse_element(Ghost((f - 1) as nat));
                let ghost nv = node_opt_v(n);
                if let Some(node) = n {
                    nodes.push(node);
                }
                proof {
                    assert(nodes_v(nodes@) =~= nodes_v(before) + opt_node(nv));
                    f = (f - 1) as nat;
                }
            } else {
                let start = self.pos;
                self.pos = scan(&self.chars, self.pos, Run::NotLt);
                proof {
                    lemma_run_end(s, q, Run::NotLt);
                    lemma_run_end(s, q + 1, Run::NotLt);
                }
                let (a, b) = trim_bounds(&self.chars, start, self.pos);
                let raw = self.slice(a, b);
                let text = decode_entities(&raw);
                if text.len() > 0 {
                    nodes.push(text_node(&text));
                }
                proof {
                    assert(raw@ == trim(s, q, self.pos as int));
                    assert(nodes_v(nodes@) =~= nodes_v(before) + text_seq(text@));
                    f = (f - 1) as nat;
                }
            }
        }
        nodes
    }

    /// The characters `chars[a..b]`.
    fn slice(&self, a: usize, b: usize) -> (r: Vec<char>)
        requires
            a <= b <= self.chars.len(),
        ensures
            r@ == self.chars@.subrange(a as int, b as int),
    {
        let mut r: Vec<char> = Vec::new();
        let mut i = a;
        while i < b
            invariant
                a <= i <= b <= self.chars.len(),
                r@ == self.chars@.subrange(a as int, i as int),
            decreases b - i,
        {
            r.push(self.chars[i]);
            assert(self.chars@.subrange(a as int, i + 1) =~= self.chars@.subrange(
                a as int,
                i as int,
            ).push(self.chars@[i as int]));
            i += 1;
        }
        r
    }

    /// Parses one element (`<tag ...> ... </tag>` or `<tag .../>`).
    fn parse_element(&mut self, Ghost(fuel): Ghost<nat>) -> (r: Option<Node>)
        requires
            old(self).pos <= old(self).chars.len(),
            fuel + 1 >= fuel_for(old(self).chars@, old(self).pos as int),
            fuel >= 1,
        ensures
            final(self).chars@ == old(self).chars@,
            spec_element(old(self).chars@, old(self).pos as int, fuel) == (
                node_opt_v(r),
                final(self).pos as int,
            ),
            old(self).pos <= final(self).pos <= final(self).chars.len(),
            at(old(self).chars@, old(self).pos as int, '<') ==> old(self).pos < final(self).pos,
        decreases fuel, 0nat,
    {
        let ghost s = self.chars@;
        let ghost p = self.pos as int;
        if !self.peek_is('<') {
            return None;
        }
        self.pos = self.pos + 1;
        let start = self.pos;
        self.pos = scan(&self.chars, self.pos, Run::Name);
        proof {
            lemma_run_moves(s, start as int, Run::Name);
        }
        if self.pos == start {
            proof {
                lemma_skip_past_end(s, start as int, seq!['>']);
            }
            self.skip_past(lit_gt());
            return None;
        }
        let tag_chars = lower_range(&self.chars, start, self.pos);
        let ghost e = self.pos as int;
        let classes = self.parse_attributes();
        let mut element = Node {
            tag: collect_all(&tag_chars),
            classes,
            children: Vec::new(),
            text: None,
        };
        proof {
            lemma_node_view(element);
            assert(nodes_v(element.children@) =~= Seq::empty());
        }
        self.skip_whitespace();
        if self.starts_with(lit_self_close()) {
            self.pos = self.pos + 2;
            return Some(element);
        }
        if self.peek_is('>') {
            self.pos = self.pos + 1;
        }
        if is_void_tag(&tag_chars) {
            return Some(element);
        }
        let children = self.parse_nodes(Ghost((fuel - 1) as nat));
        let ghost p5 = self.pos as int;
        self.skip_close_tag();
        let ghost cv = nodes_v(children@);
        let text_tag_s = text_tag_string();
        let mut has_el = false;
        let mut i: usize = 0;
        while i < children.len()
            invariant
                i <= children@.len(),
                cv == nodes_v(children@),
                text_tag_s@ == text_tag(),
                has_el == (exists|j: int| 0 <= j < i && cv[j].tag != text_tag()),
            decreases children.len() - i,
        {
            proof {
                lemma_node_view(children@[i as int]);
                assert(cv[i as int] == children@[i as int]@);
            }
            let differs = !(children[i].tag == text_tag_s);
            proof {
                assert(differs == (cv[i as int].tag != text_tag()));
                if differs {
                    assert(0 <= i < i + 1 && cv[i as int].tag != text_tag());
                }
                if has_el {
                    let j = choose|j: int| 0 <= j < i && cv[j].tag != text_tag();
                    assert(0 <= j < i + 1 && cv[j].tag != text_tag());
                }
            }
            if differs {
                has_el = true;
            }
            i += 1;
        }
        if !has_el {
            let mut combined = String::new();
            let mut k: usize = 0;
            let mut first = true;
            while k < children.len()
                invariant
                    k <= children@.len(),
                    cv == nodes_v(children@),
                    combined@ == join(texts(cv.subrange(0, k as int)), seq![' ']),
                    first == (texts(cv.subrange(0, k as int)).len() == 0),
                decreases children.len() - k,
            {
                proof {
                    lemma_node_view(children@[k as int]);
                    assert(cv[k as int] == children@[k as int]@);
                    lemma_texts_push(cv, k as int);
                    match cv[k as int].text {
                        Some(t) => lemma_join_push(texts(cv.subrange(0, k as int)), t, seq![' ']),
                        None => {},
                    }
                }
                match &children[k].text {
                    Some(t) => {
                        if !first {
                            push_char(&mut combined, ' ');
                        }
                        combined.append(t.as_str());
                        first = false;
                    },
                    None => {},
                }
                k += 1;
            }
            assert(cv.subrange(0, cv.len() as int) =~= cv);
            if !combined.as_str().is_empty() {
                element.text = Some(combined);
            }
        } else {
            element.children = children;
        }
        proof {
            lemma_node_view(element);
        }
        Some(element)
    }

    /// Consumes a closing tag `</...>`, whatever its name.
    fn skip_close_tag(&mut self)
        requires
            old(self).pos <= old(self).chars.len(),
        ensures
            final(self).chars@ == old(self).chars@,
            final(self).pos == (if starts_at(old(self).chars@, old(self).pos as int, seq!['<', '/']) {
                skip_past_end(old(self).chars@, old(self).pos as int, seq!['>'])
            } else {
                old(self).pos as int
            }),
            old(self).pos <= final(self).pos <= final(self).chars.len(),
    {
        if self.starts_with(lit_close()) {
            self.skip_past(lit_gt());
        }
    }

    /// Parses attributes up to `>` or `/` and gives the classes of the last
    /// `class` attribute; other attributes are dropped.
    fn parse_attributes(&mut self) -> (classes: Vec<String>)
        requires
            old(self).pos <= old(self).chars.len(),
        ensures
            final(self).chars@ == old(self).chars@,
            spec_attributes(old(self).chars@, old(self).pos as int, Seq::empty()) == (
                strings_v(classes@),
                final(self).pos as int,
            ),
            old(self).pos <= final(self).pos <= final(self).chars.len(),
    {
        let ghost s = self.chars@;
        let ghost p0 = self.pos as int;
        let mut classes: Vec<String> = Vec::new();
        assert(strings_v(classes@) =~= Seq::<Seq<char>>::empty());
        loop
            invariant_except_break
                self.chars@ == s,
                p0 <= self.pos <= s.len(),
                spec_attributes(s, self.pos as int, strings_v(classes@)) == spec_attributes(
                    s,
                    p0,
                    Seq::empty(),
                ),
            ensures
                self.chars@ == s,
                p0 <= self.pos <= s.len(),
                spec_attributes(s, p0, Seq::empty()) == (strings_v(classes@), self.pos as int),
            decreases s.len() - self.pos,
        {
            let ghost q = self.pos as int;
            self.skip_whitespace();
            if self.eof() || self.peek_is('>') || self.peek_is('/') {
                break;
            }
            let start = self.pos;
            self.pos = scan(&self.chars, self.pos, Run::Name);
            if self.pos == start {
                self.pos = self.pos + 1;
                continue;
            }
            proof {
                lemma_attr_moves(s, start as int);
            }
            let name = lower_range(&self.chars, start, self.pos);
            self.skip_whitespace();
            let mut value: Vec<char> = Vec::new();
            if self.peek_is('=') {
                self.pos = self.pos + 1;
                self.skip_whitespace();
                value = self.parse_attr_value();
            }
            let cw: &[char] = &['c', 'l', 'a', 's', 's'];
            assert(cw@ =~= class_word());
            if range_eq(&name, 0, name.len(), cw) {
                classes = split_words(&value);
            }
            proof {
                assert(name@.subrange(0, name@.len() as int) =~= name@);
            }
        }
        classes
    }

    /// Parses an attribute value: `"..."`, `'...'` or a bare value; entities
    /// are decoded.
    fn parse_attr_value(&mut self) -> (v: Vec<char>)
        requires
            old(self).pos <= old(self).chars.len(),
        ensures
            final(self).chars@ == old(self).chars@,
            spec_attr_value(old(self).chars@, old(self).pos as int) == (v@, final(self).pos as int),
            old(self).pos <= final(self).pos <= final(self).chars.len(),
    {
        let ghost s = self.chars@;
        if self.peek_is('"') || self.peek_is('\'') {
            let q = self.chars[self.pos];
            self.pos = self.pos + 1;
            let start = self.pos;
            self.pos = scan(&self.chars, self.pos, Run::NotQuote(q));
            let raw = self.slice(start, self.pos);
            if self.peek_is(q) {
                self.pos = self.pos + 1;
            }
            decode_entities(&raw)
        } else {
            let start = self.pos;
            self.pos = scan(&self.chars, self.pos, Run::Unquoted);
            let raw = self.slice(start, self.pos);
            decode_entities(&raw)
        }
    }
}

/// Joining one more piece adds the separator and the piece, unless it is the first.
proof fn lemma_join_push(v: Seq<Seq<char>>, t: Seq<char>, sep: Seq<char>)
    ensures
        join(v.push(t), sep) == if v.len() == 0 {
            t
        } else {
            join(v, sep) + sep + t
        },
{
    assert(v.push(t).drop_last() =~= v);
}

/// The texts of a prefix grow by the next element's text, if it has one.
proof fn lemma_texts_push(cv: Seq<NodeV>, k: int)
    requires
        0 <= k < cv.len(),
    ensures
        texts(cv.subrange(0, k + 1)) == match cv[k].text {
            Some(t) => texts(cv.subrange(0, k)).push(t),
            None => texts(cv.subrange(0, k)),
        },
{
    let a = cv.subrange(0, k);
    let b = cv.subrange(0, k + 1);
    assert(b =~= a.push(cv[k]));
    assert(b.drop_last() =~= a);
    reveal_with_fuel(Seq::filter_map, 1);
}

/// Whether every class name is non-empty and free of white space.
pub open spec fn classes_clean(cs: Seq<Seq<char>>) -> bool {
    forall|k: int|
        0 <= k < cs.len() ==> (#[trigger] cs[k]).len() > 0 && forall|j: int| 0 <= j < cs[k].len() ==> !is_ws(#[trigger] cs[k][j])
}

/// The words of a text are non-empty and free of white space.
proof fn lemma_words_clean(s: Seq<char>, p: int)
    requires
        0 <= p <= s.len(),
    ensures
        classes_clean(words(s, p)),
    decreases s.len() - p,
{
    let a = ws_end(s, p);
    lemma_run_end(s, p, Run::Space);
    if 0 <= a < s.len() {
        let e = run_end(s, a, Run::Word);
        lemma_run_end(s, a, Run::Word);
        lemma_run_moves(s, a + 1, Run::Word);
        assert(e > a);
        lemma_words_clean(s, e);
        let w = words(s, p);
        let rest = words(s, e);
        assert(w == seq![s.subrange(a, e)] + rest);
        assert forall|k: int| 0 <= k < w.len() implies (#[trigger] w[k]).len() > 0 && forall|j: int|
            0 <= j < w[k].len() ==> !is_ws(#[trigger] w[k][j]) by {
            if k == 0 {
                assert(w[0] == s.subrange(a, e));
                assert forall|j: int| 0 <= j < w[k].len() implies !is_ws(#[trigger] w[k][j]) by {
                    assert(w[k][j] == s[a + j]);
                    assert(keeps(Run::Word, s[a + j]));
                }
            } else {
                assert(w[k] == rest[k - 1]);
            }
        }
    }
}

/// The classes read from attributes are clean when the ones before are.
proof fn lemma_attributes_clean(s: Seq<char>, p: int, classes: Seq<Seq<char>>)
    requires
        classes_clean(classes),
    ensures
        classes_clean(spec_attributes(s, p, classes).0),
    decreases s.len() - p,
{
    let p1 = ws_end(s, p);
    if !(0 <= p1 < s.len()) || s[p1] == '>' || s[p1] == '/' {
    } else {
        lemma_run_moves(s, p, Run::Space);
        let e = run_end(s, p1, Run::Name);
        if e == p1 {
            lemma_attributes_clean(s, p1 + 1, classes);
        } else {
            let name = lower_seq(s.subrange(p1, e));
            let p2 = ws_end(s, e);
            let (value, p3) = if at(s, p2, '=') {
                spec_attr_value(s, ws_end(s, p2 + 1))
            } else {
                (Seq::<char>::empty(), p2)
            };
            lemma_attr_moves(s, p1);
            lemma_words_clean(value, 0);
            let next = if name == class_word() {
                words(value, 0)
            } else {
                classes
            };
            lemma_attributes_clean(s, p3, next);
        }
    }
}

/// A character of a tag as read: a lower-case ASCII letter, a digit, `-` or `_`.
pub open spec fn tag_char(c: char) -> bool {
    ('a' <= c && c <= 'z') || ('0' <= c && c <= '9') || c == '-' || c == '_'
}

/// A name character, lower-cased, is a tag character.
proof fn lemma_lower_name(c: char)
    requires
        is_name(c),
    ensures
        tag_char(lower(c)),
{
    if 'A' <= c && c <= 'Z' {
        assert(('a' as u32) <= (c as u32) + 32 <= ('z' as u32));
    }
}

/// Whether an element read from HTML is well formed: either a text element
/// (`#text`, with no classes or children and some text) or an element whose
/// tag is lower-case ASCII letters, digits, `-` and `_`; a non-empty tag; class
/// names that are non-empty and free of white space; text
/// only when it is not empty and the element has no children; children only
/// when one of them is not text; nothing inside a void element; and so on
/// down the tree. Text elements (`#text`) are such elements with text.
pub open spec fn node_wf(n: NodeV) -> bool
    decreases n,
{
    &&& n.tag.len() > 0
    &&& ((n.tag == text_tag() && n.classes.len() == 0 && n.children.len() == 0 && n.text is Some)
        || forall|i: int| 0 <= i < n.tag.len() ==> tag_char(#[trigger] n.tag[i]))
    &&& classes_clean(n.classes)
    &&& (n.text matches Some(t) ==> t.len() > 0 && n.children.len() == 0)
    &&& (n.children.len() > 0 ==> has_element(n.children))
    &&& (is_void(n.tag) ==> n.children.len() == 0 && n.text is None)
    &&& forall|i: int| 0 <= i < n.children.len() ==> node_wf(#[trigger] n.children[i])
}

/// Every element read is well formed.
proof fn lemma_element_wf(s: Seq<char>, p: int, fuel: nat)
    ensures
        spec_element(s, p, fuel).0 matches Some(n) ==> node_wf(n),
    decreases fuel, 0nat,
{
    if fuel > 0 && at(s, p, '<') {
        let q = p + 1;
        let e = run_end(s, q, Run::Name);
        if e != q {
            let (classes, p2) = spec_attributes(s, e, Seq::empty());
            let p3 = ws_end(s, p2);
            let p4 = if at(s, p3, '>') {
                p3 + 1
            } else {
                p3
            };
            lemma_nodes_wf(s, p4, (fuel - 1) as nat);
            lemma_run_moves(s, q, Run::Name);
            lemma_attributes_clean(s, e, Seq::empty());
            let tag = lower_seq(s.subrange(q, e));
            assert(tag.len() == e - q);
            assert(tag.len() > 0);
            lemma_run_end(s, q, Run::Name);
            assert forall|i: int| 0 <= i < tag.len() implies tag_char(#[trigger] tag[i]) by {
                assert(keeps(Run::Name, s[q + i]));
                lemma_lower_name(s[q + i]);
            }
            let base = NodeV { tag, classes, children: Seq::empty(), text: None };
            assert(node_wf(base));
            let (children, p5) = spec_nodes(s, p4, (fuel - 1) as nat);
            let combined = join(texts(children), seq![' ']);
            assert(!is_void(tag) && combined.len() > 0 ==> node_wf(NodeV { text: Some(combined), ..base }));
            assert(!is_void(tag) && has_element(children) ==> node_wf(NodeV { children, ..base }));
        }
    }
}

/// Every element of a run of siblings is well formed.
proof fn lemma_nodes_wf(s: Seq<char>, p: int, fuel: nat)
    ensures
        forall|i: int| 0 <= i < spec_nodes(s, p, fuel).0.len() ==> node_wf(#[trigger] spec_nodes(s, p, fuel).0[i]),
    decreases fuel, 1nat,
{
    if fuel == 0 || !(0 <= p < s.len()) || starts_at(s, p, seq!['<', '/']) {
    } else if starts_at(s, p, seq!['<', '!', '-', '-']) {
        lemma_nodes_wf(s, skip_past_end(s, p, seq!['-', '-', '>']), (fuel - 1) as nat);
        assert(spec_nodes(s, p, fuel) == spec_nodes(s, skip_past_end(s, p, seq!['-', '-', '>']), (fuel - 1) as nat));
    } else if starts_at(s, p, seq!['<', '!']) {
        lemma_nodes_wf(s, skip_past_end(s, p, seq!['>']), (fuel - 1) as nat);
        assert(spec_nodes(s, p, fuel) == spec_nodes(s, skip_past_end(s, p, seq!['>']), (fuel - 1) as nat));
    } else if s[p] == '<' {
        let (n, q) = spec_element(s, p, (fuel - 1) as nat);
        lemma_element_wf(s, p, (fuel - 1) as nat);
        lemma_nodes_wf(s, q, (fuel - 1) as nat);
        let (rest, e) = spec_nodes(s, q, (fuel - 1) as nat);
        let all = opt_node(n) + rest;
        assert(spec_nodes(s, p, fuel).0 == all);
        assert forall|i: int| 0 <= i < all.len() implies node_wf(#[trigger] all[i]) by {
            if i >= opt_node(n).len() {
                assert(all[i] == rest[i - opt_node(n).len()]);
            } else {
                assert(all[i] == n->0);
            }
        }
    } else {
        let q = run_end(s, p, Run::NotLt);
        let t = decode(trim(s, p, q));
        lemma_nodes_wf(s, q, (fuel - 1) as nat);
        let (rest, e) = spec_nodes(s, q, (fuel - 1) as nat);
        let all = text_seq(t) + rest;
        assert(!is_void(text_tag()));
        assert(t.len() > 0 ==> node_wf(text_node_v(t)));
        assert(spec_nodes(s, p, fuel).0 == all);
        assert forall|i: int| 0 <= i < all.len() implies node_wf(#[trigger] all[i]) by {
            if i >= text_seq(t).len() {
                assert(all[i] == rest[i - text_seq(t).len()]);
            } else {
                assert(all[i] == text_node_v(t));
            }
        }
    }
}

/// Every element that reading HTML gives is well formed (see `node_wf`).
pub proof fn law_fragment_well_formed(s: Seq<char>)
    ensures
        forall|i: int| 0 <= i < spec_parse_fragment(s).len() ==> node_wf(#[trigger] spec_parse_fragment(s)[i]),
{
    lemma_nodes_wf(s, 0, fuel_for(s, 0));
}

/// The entity that `decode` reads as its `e`-th: `&amp;`, `&lt;`, `&gt;`,
/// `&quot;`, `&#39;`, `&apos;`, `&nbsp;`.
pub open spec fn entity(e: int) -> Seq<char> {
    if e == 0 {
        seq!['&', 'a', 'm', 'p', ';']
    } else if e == 1 {
        seq!['&', 'l', 't', ';']
    } else if e == 2 {
        seq!['&', 'g', 't', ';']
    } else if e == 3 {
        seq!['&', 'q', 'u', 'o', 't', ';']
    } else if e == 4 {
        seq!['&', '#', '3', '9', ';']
    } else if e == 5 {
        seq!['&', 'a', 'p', 'o', 's', ';']
    } else {
        seq!['&', 'n', 'b', 's', 'p', ';']
    }
}

/// The character that the `e`-th entity stands for.
pub open spec fn entity_char(e: int) -> char {
    if e == 0 {
        '&'
    } else if e == 1 {
        '<'
    } else if e == 2 {
        '>'
    } else if e == 3 {
        '"'
    } else if e == 4 || e == 5 {
        '\''
    } else {
        ' '
    }
}

/// Replacing a pattern that starts with `&` changes no text without `&`.
proof fn lemma_replace_no_amp(s: Seq<char>, q: Seq<char>, r: Seq<char>)
    requires
        !s.contains('&'),
        q.len() > 0,
        q[0] == '&',
    ensures
        replace_all(s, q, r) == s,
    decreases s.len(),
{
    if s.len() > 0 {
        assert(s[0] != '&');
        assert(!starts_at(s, 0, q)) by {
            if starts_at(s, 0, q) {
                assert(s.subrange(0, q.len() as int)[0] == q[0]);
            }
        }
        assert(!s.skip(1).contains('&')) by {
            if s.skip(1).contains('&') {
                let k = choose|k: int| 0 <= k < s.skip(1).len() && s.skip(1)[k] == '&';
                assert(s[k + 1] == '&');
            }
        }
        lemma_replace_no_amp(s.skip(1), q, r);
        assert(s =~= seq![s[0]] + s.skip(1));
    }
}

/// Replacing `x` in `a + x + b`, where only `x` starts with `&`.
proof fn lemma_replace_hit(a: Seq<char>, x: Seq<char>, b: Seq<char>, r: Seq<char>)
    requires
        !a.contains('&'),
        !b.contains('&'),
        x.len() > 0,
        x[0] == '&',
    ensures
        replace_all(a + x + b, x, r) == a + r + b,
    decreases a.len(),
{
    let s = a + x + b;
    if a.len() == 0 {
        assert(a + x + b =~= x + b);
        assert(s.subrange(0, x.len() as int) =~= x);
        assert(s.skip(x.len() as int) =~= b);
        lemma_replace_no_amp(b, x, r);
        assert(a + r + b =~= r + b);
    } else {
        assert(a[0] != '&') by {
            assert(a.contains(a[0]));
        }
        assert(!starts_at(s, 0, x)) by {
            if starts_at(s, 0, x) {
                assert(s.subrange(0, x.len() as int)[0] == x[0]);
            }
        }
        let a1 = a.skip(1);
        assert(!a1.contains('&')) by {
            if a1.contains('&') {
                let k = choose|k: int| 0 <= k < a1.len() && a1[k] == '&';
                assert(a[k + 1] == '&');
            }
        }
        assert(s.skip(1) =~= a1 + x + b);
        lemma_replace_hit(a1, x, b, r);
        assert(a + r + b =~= seq![a[0]] + (a1 + r + b));
    }
}

/// Replacing a pattern `q` that starts with `&` but does not start `x + b`
/// leaves `a + x + b` as it is, where only the first character of `x` is `&`.
proof fn lemma_replace_miss(a: Seq<char>, x: Seq<char>, b: Seq<char>, q: Seq<char>, r: Seq<char>)
    requires
        !a.contains('&'),
        !b.contains('&'),
        x.len() > 0,
        x[0] == '&',
        !x.skip(1).contains('&'),
        q.len() > 0,
        q[0] == '&',
        !starts_at(x + b, 0, q),
    ensures
        replace_all(a + x + b, q, r) == a + x + b,
    decreases a.len(),
{
    let s = a + x + b;
    if a.len() == 0 {
        assert(s =~= x + b);
        let t = x.skip(1) + b;
        assert(!t.contains('&')) by {
            if t.contains('&') {
                let k = choose|k: int| 0 <= k < t.len() && t[k] == '&';
                if k < x.len() - 1 {
                    assert(x.skip(1)[k] == '&');
                } else {
                    assert(b[k - (x.len() - 1)] == '&');
                }
            }
        }
        assert(s.skip(1) =~= t);
        lemma_replace_no_amp(t, q, r);
        assert(s =~= seq![s[0]] + t);
    } else {
        assert(a[0] != '&') by {
            assert(a.contains(a[0]));
        }
        assert(!starts_at(s, 0, q)) by {
            if starts_at(s, 0, q) {
                assert(s.subrange(0, q.len() as int)[0] == q[0]);
            }
        }
        let a1 = a.skip(1);
        assert(!a1.contains('&')) by {
            if a1.contains('&') {
                let k = choose|k: int| 0 <= k < a1.len() && a1[k] == '&';
                assert(a[k + 1] == '&');
            }
        }
        assert(s.skip(1) =~= a1 + x + b);
        lemma_replace_miss(a1, x, b, q, r);
        assert(s =~= seq![a[0]] + (a1 + x + b));
    }
}

/// One pass of `decode`, for the `q`-th entity, over `a + x + b` where `x`
/// is the `e`-th entity: `x` is replaced when `q` is `e`, else nothing moves.
proof fn lemma_pass(a: Seq<char>, b: Seq<char>, e: int, q: int)
    requires
        !a.contains('&'),
        !b.contains('&'),
        0 <= e < 7,
        0 <= q < 7,
    ensures
        replace_all(a + entity(e) + b, entity(q), seq![entity_char(q)]) == if q == e {
            a + seq![entity_char(e)] + b
        } else {
            a + entity(e) + b
        },
{
    let x = entity(e);
    assert(x.len() > 0 && x[0] == '&');
    assert(entity(q).len() > 0 && entity(q)[0] == '&');
    if q == e {
        lemma_replace_hit(a, x, b, seq![entity_char(q)]);
    } else {
        assert(!x.skip(1).contains('&')) by {
            if x.skip(1).contains('&') {
                let k = choose|k: int| 0 <= k < x.skip(1).len() && x.skip(1)[k] == '&';
                assert(x[k + 1] == '&');
            }
        }
        let y = entity(q);
        assert(!starts_at(x + b, 0, y)) by {
            if starts_at(x + b, 0, y) {
                let t = (x + b).subrange(0, y.len() as int);
                assert(t[1] == y[1] && t[2] == y[2]);
                assert(t[1] == x[1] && t[2] == x[2]);
            }
        }
        lemma_replace_miss(a, x, b, y, seq![entity_char(q)]);
    }
}

/// The `q`-th pass of `decode` over the text before or after its entity is
/// replaced: before the entity's own pass the text is kept, from it on the
/// entity stands replaced.
proof fn lemma_step(a: Seq<char>, b: Seq<char>, e: int, q: int, cur: Seq<char>)
    requires
        !a.contains('&'),
        !b.contains('&'),
        0 <= e < 7,
        0 <= q < 7,
        e == 0 ==> !b.contains(';'),
        cur == if q <= e {
            a + entity(e) + b
        } else {
            a + seq![entity_char(e)] + b
        },
    ensures
        replace_all(cur, entity(q), seq![entity_char(q)]) == if q < e {
            a + entity(e) + b
        } else {
            a + seq![entity_char(e)] + b
        },
{
    let r = a + seq![entity_char(e)] + b;
    if q <= e {
        lemma_pass(a, b, e, q);
    } else if e == 0 {
        let y = entity(q);
        assert(y.len() > 0 && y[0] == '&');
        assert(!starts_at(seq!['&'] + b, 0, y)) by {
            if starts_at(seq!['&'] + b, 0, y) {
                let t = (seq!['&'] + b).subrange(0, y.len() as int);
                assert(y[y.len() - 1] == ';');
                assert(t[y.len() - 1] == b[y.len() - 2]);
                assert(b.contains(';'));
            }
        }
        assert(!seq!['&'].skip(1).contains('&'));
        assert(seq![entity_char(e)] == seq!['&']);
        lemma_replace_miss(a, seq!['&'], b, y, seq![entity_char(q)]);
    } else {
        assert(!r.contains('&')) by {
            if r.contains('&') {
                let k = choose|k: int| 0 <= k < r.len() && r[k] == '&';
                if k < a.len() {
                    assert(a[k] == '&');
                } else if k > a.len() {
                    assert(b[k - a.len() - 1] == '&');
                }
            }
        }
        lemma_replace_no_amp(r, entity(q), seq![entity_char(q)]);
    }
}

/// `decode` runs one pass per entity, in order.
proof fn lemma_decode_passes(s: Seq<char>)
    requires
        s.contains('&'),
    ensures
        decode(s) == replace_all(
            replace_all(
                replace_all(
                    replace_all(
                        replace_all(
                            replace_all(
                                replace_all(s, entity(0), seq![entity_char(0)]),
                                entity(1),
                                seq![entity_char(1)],
                            ),
                            entity(2),
                            seq![entity_char(2)],
                        ),
                        entity(3),
                        seq![entity_char(3)],
                    ),
                    entity(4),
                    seq![entity_char(4)],
                ),
                entity(5),
                seq![entity_char(5)],
            ),
            entity(6),
            seq![entity_char(6)],
        ),
{
    assert(seq![entity_char(0)] =~= seq!['&']);
    assert(seq![entity_char(1)] =~= seq!['<']);
    assert(seq![entity_char(2)] =~= seq!['>']);
    assert(seq![entity_char(3)] =~= seq!['"']);
    assert(seq![entity_char(4)] =~= seq!['\'']);
    assert(seq![entity_char(5)] =~= seq!['\'']);
    assert(seq![entity_char(6)] =~= seq![' ']);
}

/// Decoding a text whose only `&` begins one entity replaces that entity by
/// the character it stands for, and changes nothing else: `&gt;` gives `>`,
/// `&lt;` gives `<`, and so on. (After `&amp;` the text is decoded on, so for
/// it the text after the entity is taken free of `;`.)
#[verifier::spinoff_prover]
#[verifier::rlimit(100)]
pub proof fn law_decode_entity(a: Seq<char>, b: Seq<char>, e: int)
    requires
        !a.contains('&'),
        !b.contains('&'),
        0 <= e < 7,
        e == 0 ==> !b.contains(';'),
    ensures
        decode(a + entity(e) + b) == a + seq![entity_char(e)] + b,
{
    let s = a + entity(e) + b;
    assert(s.contains('&')) by {
        assert(s[a.len() as int] == '&');
    }
    let r = a + seq![entity_char(e)] + b;
    lemma_decode_passes(s);
    let s1 = replace_all(s, entity(0), seq![entity_char(0)]);
    lemma_step(a, b, e, 0, s);
    let s2 = replace_all(s1, entity(1), seq![entity_char(1)]);
    lemma_step(a, b, e, 1, s1);
    let s3 = replace_all(s2, entity(2), seq![entity_char(2)]);
    lemma_step(a, b, e, 2, s2);
    let s4 = replace_all(s3, entity(3), seq![entity_char(3)]);
    lemma_step(a, b, e, 3, s3);
    let s5 = replace_all(s4, entity(4), seq![entity_char(4)]);
    lemma_step(a, b, e, 4, s4);
    let s6 = replace_all(s5, entity(5), seq![entity_char(5)]);
    lemma_step(a, b, e, 5, s5);
    let s7 = replace_all(s6, entity(6), seq![entity_char(6)]);
    lemma_step(a, b, e, 6, s6);
    assert(decode(s) == s7);
}

} // verus!
