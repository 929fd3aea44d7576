//! The CSS parser: CSS text becomes a stylesheet, a list of rules, each made
//! of selectors and declarations.
//!
//! ```text
//!     .card { background: #eee; padding: 10px; }
//!     div   { width: 200px; }
//! ```
//!
//! The parser reads the text from left to right with a cursor. It never
//! fails: an at-rule (`@media ...`) is skipped whole, a stray character is
//! skipped alone, and a broken declaration is skipped up to its `;`.

use vstd::prelude::*;

use crate::chars::{
    collect, is_name, is_name_char, is_ws, lemma_run_end, range_eq, run_end, scan, to_chars, trim,
    trim_bounds, trim_end, trim_start, ws_end, Run, keeps, lemma_run_moves,
};

verus! {

/// A whole stylesheet: its rules, in the order of the text.
#[derive(Debug, Clone)]
pub struct Stylesheet {
    pub rules: Vec<Rule>,
}

/// One rule: selectors and declarations, as in `h1, .title { color: red; }`.
#[derive(Debug, Clone)]
pub struct Rule {
    pub selectors: Vec<Selector>,
    pub declarations: Vec<Declaration>,
}

/// What kind of element a selector picks, without any state.
#[derive(Debug, Clone, PartialEq)]
pub enum SimpleSelector {
    /// `*`: every element.
    Universal,
    /// `div`: elements with that tag name.
    Type(String),
    /// `.card`: elements with that class.
    Class(String),
}

/// A simple selector, with an optional `:hover` state.
#[derive(Debug, Clone, PartialEq)]
pub struct Selector {
    pub simple: SimpleSelector,
    /// Whether the selector carries `:hover`: it then applies only under the pointer.
    pub hover: bool,
}

/// One `property: value` pair.
#[derive(Debug, Clone)]
pub struct Declaration {
    pub property: String,
    pub value: String,
}

/// The mathematical value of a `SimpleSelector`.
pub enum SimpleSelectorV {
    Universal,
    Type(Seq<char>),
    Class(Seq<char>),
}

/// The mathematical value of a `Selector`.
pub struct SelectorV {
    pub simple: SimpleSelectorV,
    pub hover: bool,
}

/// The mathematical value of a `Declaration`.
pub struct DeclarationV {
    pub property: Seq<char>,
    pub value: Seq<char>,
}

/// The mathematical value of a `Rule`.
pub struct RuleV {
    pub selectors: Seq<SelectorV>,
    pub declarations: Seq<DeclarationV>,
}

impl View for SimpleSelector {
    type V = SimpleSelectorV;

    open spec fn view(&self) -> SimpleSelectorV {
        match self {
            SimpleSelector::Universal => SimpleSelectorV::Universal,
            SimpleSelector::Type(n) => SimpleSelectorV::Type(n@),
            SimpleSelector::Class(n) => SimpleSelectorV::Class(n@),
        }
    }
}

impl View for Selector {
    type V = SelectorV;

    open spec fn view(&self) -> SelectorV {
        SelectorV { simple: self.simple@, hover: self.hover }
    }
}

impl View for Declaration {
    type V = DeclarationV;

    open spec fn view(&self) -> DeclarationV {
        DeclarationV { property: self.property@, value: self.value@ }
    }
}

/// The values of a sequence of selectors.
pub open spec fn selectors_v(v: Seq<Selector>) -> Seq<SelectorV> {
    v.map_values(|x: Selector| x@)
}

/// The value of an optional selector.
pub open spec fn selector_opt_v(o: Option<Selector>) -> Option<SelectorV> {
    match o {
        Some(x) => Some(x@),
        None => None,
    }
}

/// The value of an optional declaration.
pub open spec fn declaration_opt_v(o: Option<Declaration>) -> Option<DeclarationV> {
    match o {
        Some(x) => Some(x@),
        None => None,
    }
}

/// The values of a sequence of declarations.
pub open spec fn declarations_v(v: Seq<Declaration>) -> Seq<DeclarationV> {
    v.map_values(|x: Declaration| x@)
}

impl View for Rule {
    type V = RuleV;

    open spec fn view(&self) -> RuleV {
        RuleV {
            selectors: selectors_v(self.selectors@),
            declarations: declarations_v(self.declarations@),
        }
    }
}

/// The values of a sequence of rules.
pub open spec fn rules_v(v: Seq<Rule>) -> Seq<RuleV> {
    v.map_values(|x: Rule| x@)
}

impl View for Stylesheet {
    type V = Seq<RuleV>;

    open spec fn view(&self) -> Seq<RuleV> {
        rules_v(self.rules@)
    }
}

impl Selector {
    /// A selector without state.
    pub fn simple(simple: SimpleSelector) -> (s: Selector)
        ensures
            s.simple == simple,
            !s.hover,
    {
        Selector { simple, hover: false }
    }
}

// ---------------------------------------------------------------------------
// The grammar, over the text's characters and a cursor position. Each function
// gives what is read at `p` and where the cursor stands afterwards.
// ---------------------------------------------------------------------------

/// The characters of `hover`.
pub open spec fn hover_word() -> Seq<char> {
    seq!['h', 'o', 'v', 'e', 'r']
}

/// Whether position `p` holds the character `c`.
pub open spec fn at(s: Seq<char>, p: int, c: char) -> bool {
    0 <= p < s.len() && s[p] == c
}

/// The simple selector at `p`, if one starts there, and the cursor after it.
pub open spec fn spec_simple_selector(s: Seq<char>, p: int) -> (Option<SimpleSelectorV>, int) {
    if !(0 <= p < s.len()) {
        (None, p)
    } else if s[p] == '*' {
        (Some(SimpleSelectorV::Universal), p + 1)
    } else if s[p] == '.' {
        let e = run_end(s, p + 1, Run::Name);
        if e == p + 1 {
            (None, p + 1)
        } else {
            (Some(SimpleSelectorV::Class(s.subrange(p + 1, e))), e)
        }
    } else if is_name(s[p]) {
        let e = run_end(s, p, Run::Name);
        (Some(SimpleSelectorV::Type(s.subrange(p, e))), e)
    } else {
        (None, p)
    }
}

/// One selector at `p` (a simple selector and an optional `:hover`), and the
/// cursor after it. Any pseudo-class other than `hover` voids the selector.
pub open spec fn spec_one_selector(s: Seq<char>, p: int) -> (Option<SelectorV>, int) {
    let (simple, q) = spec_simple_selector(s, p);
    match simple {
        None => (None, q),
        Some(simple) => if at(s, q, ':') {
            let e = run_end(s, q + 1, Run::Name);
            if s.subrange(q + 1, e) == hover_word() {
                (Some(SelectorV { simple, hover: true }), e)
            } else {
                (None, e)
            }
        } else {
            (Some(SelectorV { simple, hover: false }), q)
        },
    }
}

/// The selector read at `p` as a sequence of zero or one selectors.
pub open spec fn opt_seq<A>(o: Option<A>) -> Seq<A> {
    match o {
        Some(x) => seq![x],
        None => Seq::empty(),
    }
}

/// The comma-separated selectors from `p` up to the first position, after
/// white space, that holds no `,`; and the cursor there.
pub open spec fn spec_selectors(s: Seq<char>, p: int) -> (Seq<SelectorV>, int)
    decreases s.len() - p,
{
    let p1 = ws_end(s, p);
    let (sel, p2) = spec_one_selector(s, p1);
    let p3 = ws_end(s, p2);
    if at(s, p3, ',') {
        proof {
            lemma_one_selector_moves(s, p);
        }
        let (rest, e) = spec_selectors(s, p3 + 1);
        (opt_seq(sel) + rest, e)
    } else {
        (opt_seq(sel), p3)
    }
}

/// One declaration `property: value;` at `p` (after white space), and the
/// cursor after it. The value runs up to `;` or `}` and is trimmed.
pub open spec fn spec_declaration(s: Seq<char>, p: int) -> (Option<DeclarationV>, int) {
    let p1 = ws_end(s, p);
    let e = run_end(s, p1, Run::Name);
    if e == p1 {
        (None, p1)
    } else {
        let p2 = ws_end(s, e);
        if !at(s, p2, ':') {
            (None, p2)
        } else {
            let p3 = ws_end(s, p2 + 1);
            let v = run_end(s, p3, Run::NotSemiOrBrace);
            let p4 = if at(s, v, ';') {
                v + 1
            } else {
                v
            };
            (Some(DeclarationV { property: s.subrange(p1, e), value: trim(s, p3, v) }), p4)
        }
    }
}

/// Skipping a broken declaration: up to `;` or `}`, and past a `;`.
pub open spec fn skip_broken(s: Seq<char>, p: int) -> int {
    let e = run_end(s, p, Run::NotSemiOrBrace);
    if at(s, e, ';') {
        e + 1
    } else {
        e
    }
}

/// The declarations from `p` up to the closing `}` (consumed) or the end of
/// the text, and the cursor after them.
pub open spec fn spec_declaration_list(s: Seq<char>, p: int) -> (Seq<DeclarationV>, int)
    decreases s.len() - p,
{
    let p1 = ws_end(s, p);
    if !(0 <= p1 < s.len()) {
        (Seq::empty(), p1)
    } else if s[p1] == '}' {
        (Seq::empty(), p1 + 1)
    } else {
        proof {
            lemma_declaration_moves(s, p);
        }
        let (d, p2) = spec_declaration(s, p1);
        match d {
            Some(d) => {
                let (rest, e) = spec_declaration_list(s, p2);
                (seq![d] + rest, e)
            },
            None => spec_declaration_list(s, skip_broken(s, p2)),
        }
    }
}

/// The `{ ... }` block at `p`: its declarations and the cursor after it. Without
/// an opening `{` the block is empty.
pub open spec fn spec_declarations(s: Seq<char>, p: int) -> (Seq<DeclarationV>, int) {
    let p1 = ws_end(s, p);
    if at(s, p1, '{') {
        spec_declaration_list(s, p1 + 1)
    } else {
        (Seq::empty(), p1)
    }
}

/// One rule at `p`, and the cursor after it. A rule needs at least one selector.
pub open spec fn spec_rule(s: Seq<char>, p: int) -> (Option<RuleV>, int) {
    let (sels, p1) = spec_selectors(s, p);
    if sels.len() == 0 {
        (None, p1)
    } else {
        let (decls, p2) = spec_declarations(s, p1);
        (Some(RuleV { selectors: sels, declarations: decls }), p2)
    }
}

/// Inside a `{ ... }` block of an at-rule at nesting `depth`: the cursor after
/// its matching `}`, or the end of the text.
pub open spec fn brace_end(s: Seq<char>, p: int, depth: nat) -> int
    decreases s.len() - p,
{
    if !(0 <= p < s.len()) {
        p
    } else if s[p] == '{' {
        brace_end(s, p + 1, depth + 1)
    } else if s[p] == '}' {
        if depth <= 1 {
            p + 1
        } else {
            brace_end(s, p + 1, (depth - 1) as nat)
        }
    } else {
        brace_end(s, p + 1, depth)
    }
}

/// Inside an at-rule: the cursor after its `;`, after its block, or the end.
pub open spec fn at_rule_end(s: Seq<char>, p: int) -> int
    decreases s.len() - p,
{
    if !(0 <= p < s.len()) {
        p
    } else if s[p] == ';' {
        p + 1
    } else if s[p] == '{' {
        brace_end(s, p + 1, 1)
    } else {
        at_rule_end(s, p + 1)
    }
}

/// Recovery where no rule could be read: an at-rule is skipped whole, any
/// other character alone.
pub open spec fn spec_recover(s: Seq<char>, p: int) -> int {
    if at(s, p, '@') {
        at_rule_end(s, p)
    } else if p < s.len() {
        p + 1
    } else {
        p
    }
}

/// The rules from `p` to the end of the text.
pub open spec fn spec_rules(s: Seq<char>, p: int) -> Seq<RuleV>
    decreases s.len() - p,
{
    let p1 = ws_end(s, p);
    if !(0 <= p1 < s.len()) {
        Seq::empty()
    } else {
        proof {
            lemma_rule_moves(s, p);
        }
        let (r, p2) = spec_rule(s, p1);
        let p3 = match r {
            Some(_) => p2,
            None => spec_recover(s, p2),
        };
        let p4 = if p3 == p1 {
            p1 + 1
        } else {
            p3
        };
        opt_seq(r) + spec_rules(s, p4)
    }
}

/// The stylesheet that a text describes.
pub open spec fn spec_parse(s: Seq<char>) -> Seq<RuleV> {
    spec_rules(s, 0)
}

/// Where the parser stands after one pass from `p`: past the rule read
/// there, else past what recovery skipped, and at least one character on.
pub open spec fn next_pass(s: Seq<char>, p: int) -> int {
    let p1 = ws_end(s, p);
    let (r, p2) = spec_rule(s, p1);
    let p3 = match r {
        Some(_) => p2,
        None => spec_recover(s, p2),
    };
    if p3 == p1 {
        p1 + 1
    } else {
        p3
    }
}

// ---------------------------------------------------------------------------
// The cursor only moves forward, and stays within the text.
// ---------------------------------------------------------------------------

/// Reading one selector moves the cursor forward, within the text.
pub proof fn lemma_one_selector_moves(s: Seq<char>, p: int)
    ensures
        ws_end(s, p) <= spec_one_selector(s, ws_end(s, p)).1,
        p <= ws_end(s, p),
        p <= s.len() ==> ws_end(s, spec_one_selector(s, ws_end(s, p)).1) <= s.len(),
        p <= ws_end(s, spec_one_selector(s, ws_end(s, p)).1),
{
    let p1 = ws_end(s, p);
    lemma_run_moves(s, p, Run::Space);
    lemma_one_selector_bounds(s, p1);
    let p2 = spec_one_selector(s, p1).1;
    lemma_run_moves(s, p2, Run::Space);
}

/// One selector read at `p` ends at or after `p`, within the text when `p` is.
pub proof fn lemma_one_selector_bounds(s: Seq<char>, p: int)
    ensures
        p <= spec_one_selector(s, p).1,
        p <= s.len() ==> spec_one_selector(s, p).1 <= s.len(),
{
    lemma_run_moves(s, p + 1, Run::Name);
    lemma_run_moves(s, p, Run::Name);
    let q = spec_simple_selector(s, p).1;
    lemma_run_moves(s, q + 1, Run::Name);
}

/// The selector list read at `p` ends at or after `p`, within the text when `p` is.
pub proof fn lemma_selectors_bounds(s: Seq<char>, p: int)
    ensures
        p <= spec_selectors(s, p).1,
        p <= s.len() ==> spec_selectors(s, p).1 <= s.len(),
    decreases s.len() - p,
{
    lemma_one_selector_moves(s, p);
    let p1 = ws_end(s, p);
    let p2 = spec_one_selector(s, p1).1;
    let p3 = ws_end(s, p2);
    if at(s, p3, ',') {
        lemma_selectors_bounds(s, p3 + 1);
    }
}

/// A declaration read at `p` ends at or after `p`, within the text when `p` is;
/// and after a non-blank character that is not `}`, the next attempt starts
/// strictly after it.
pub proof fn lemma_declaration_moves(s: Seq<char>, p: int)
    ensures
        p <= ws_end(s, p),
        ws_end(s, p) <= spec_declaration(s, ws_end(s, p)).1,
        p <= s.len() ==> spec_declaration(s, ws_end(s, p)).1 <= s.len(),
        0 <= ws_end(s, p) < s.len() && s[ws_end(s, p)] != '}' ==> ({
            let (d, p2) = spec_declaration(s, ws_end(s, p));
            &&& (d is Some ==> p2 > ws_end(s, p))
            &&& (d is None ==> skip_broken(s, p2) > ws_end(s, p))
            &&& skip_broken(s, p2) <= s.len()
        }),
{
    let p1 = ws_end(s, p);
    lemma_run_moves(s, p, Run::Space);
    lemma_declaration_bounds(s, p1);
    if 0 <= p1 < s.len() && s[p1] != '}' {
        lemma_run_end(s, p, Run::Space);
        assert(ws_end(s, p1) == p1);
        let e = run_end(s, p1, Run::Name);
        lemma_run_end(s, p1, Run::Name);
        let (d, p2) = spec_declaration(s, p1);
        lemma_run_end(s, p2, Run::NotSemiOrBrace);
        if e == p1 {
            assert(p2 == p1);
            let f = run_end(s, p1, Run::NotSemiOrBrace);
            if s[p1] != ';' {
                assert(keeps(Run::NotSemiOrBrace, s[p1]));
                lemma_run_end(s, p1 + 1, Run::NotSemiOrBrace);
                assert(f >= p1 + 1);
            }
        } else {
            lemma_run_end(s, e, Run::Space);
            let q2 = ws_end(s, e);
            if at(s, q2, ':') {
                lemma_run_moves(s, q2 + 1, Run::Space);
                let q3 = ws_end(s, q2 + 1);
                lemma_run_moves(s, q3, Run::NotSemiOrBrace);
            }
            assert(p2 >= e);
        }
    }
}

/// A declaration read at `p` ends at or after `p`, within the text when `p` is.
pub proof fn lemma_declaration_bounds(s: Seq<char>, p: int)
    ensures
        p <= spec_declaration(s, p).1,
        p <= s.len() ==> spec_declaration(s, p).1 <= s.len(),
{
    let p1 = ws_end(s, p);
    lemma_run_moves(s, p, Run::Space);
    let e = run_end(s, p1, Run::Name);
    lemma_run_moves(s, p1, Run::Name);
    let p2 = ws_end(s, e);
    lemma_run_moves(s, e, Run::Space);
    let p3 = ws_end(s, p2 + 1);
    lemma_run_moves(s, p2 + 1, Run::Space);
    lemma_run_moves(s, p3, Run::NotSemiOrBrace);
}

/// The declaration list read at `p` ends at or after `p`, within the text when
/// `p` is, or one past a closing `}`.
pub proof fn lemma_declaration_list_bounds(s: Seq<char>, p: int)
    ensures
        p <= spec_declaration_list(s, p).1,
        p <= s.len() ==> spec_declaration_list(s, p).1 <= s.len(),
    decreases s.len() - p,
{
    let p1 = ws_end(s, p);
    lemma_declaration_moves(s, p);
    if 0 <= p1 < s.len() && s[p1] != '}' {
        let (d, p2) = spec_declaration(s, p1);
        match d {
            Some(_) => lemma_declaration_list_bounds(s, p2),
            None => lemma_declaration_list_bounds(s, skip_broken(s, p2)),
        }
    }
}

/// A rule read at `p` ends at or after `p`, within the text when `p` is.
pub proof fn lemma_rule_bounds(s: Seq<char>, p: int)
    ensures
        p <= spec_rule(s, p).1,
        p <= s.len() ==> spec_rule(s, p).1 <= s.len(),
{
    lemma_selectors_bounds(s, p);
    let p1 = spec_selectors(s, p).1;
    let q = ws_end(s, p1);
    lemma_run_moves(s, p1, Run::Space);
    lemma_declaration_list_bounds(s, q + 1);
}

/// The end of an at-rule's block lies after `p`, within the text.
pub proof fn lemma_brace_end(s: Seq<char>, p: int, depth: nat)
    requires
        0 <= p <= s.len(),
    ensures
        p <= brace_end(s, p, depth) <= s.len(),
    decreases s.len() - p,
{
    if p < s.len() {
        if s[p] == '{' {
            lemma_brace_end(s, p + 1, depth + 1);
        } else if s[p] == '}' {
            if depth > 1 {
                lemma_brace_end(s, p + 1, (depth - 1) as nat);
            }
        } else {
            lemma_brace_end(s, p + 1, depth);
        }
    }
}

/// The end of an at-rule lies after `p`, within the text.
pub proof fn lemma_at_rule_end(s: Seq<char>, p: int)
    requires
        0 <= p <= s.len(),
    ensures
        p <= at_rule_end(s, p) <= s.len(),
        p < s.len() ==> p < at_rule_end(s, p),
    decreases s.len() - p,
{
    if p < s.len() {
        if s[p] == '{' {
            lemma_brace_end(s, p + 1, 1);
        } else if s[p] != ';' {
            lemma_at_rule_end(s, p + 1);
        }
    }
}

/// Reading a rule, or recovering, moves the cursor forward within the text.
pub proof fn lemma_rule_moves(s: Seq<char>, p: int)
    ensures
        p <= ws_end(s, p),
        0 <= p <= s.len() ==> ws_end(s, p) <= s.len(),
        0 <= ws_end(s, p) < s.len() ==> ({
            let p1 = ws_end(s, p);
            let (r, p2) = spec_rule(s, p1);
            let p3 = match r {
                Some(_) => p2,
                None => spec_recover(s, p2),
            };
            p1 <= p3 <= s.len()
        }),
{
    lemma_run_moves(s, p, Run::Space);
    let p1 = ws_end(s, p);
    if 0 <= p1 < s.len() {
        lemma_rule_bounds(s, p1);
        let p2 = spec_rule(s, p1).1;
        if at(s, p2, '@') {
            lemma_at_rule_end(s, p2);
        }
    }
}

// ---------------------------------------------------------------------------
// Laws of the parser's output.
// ---------------------------------------------------------------------------

/// Whether a sequence is a non-empty name.
pub open spec fn is_name_seq(n: Seq<char>) -> bool {
    n.len() > 0 && forall|i: int| 0 <= i < n.len() ==> is_name(#[trigger] n[i])
}

/// Whether a selector value is well formed: its tag or class is a non-empty name.
pub open spec fn selector_ok(sel: SelectorV) -> bool {
    match sel.simple {
        SimpleSelectorV::Universal => true,
        SimpleSelectorV::Type(n) => is_name_seq(n),
        SimpleSelectorV::Class(n) => is_name_seq(n),
    }
}

/// Whether a declaration value is well formed: its property is a non-empty
/// name, and its value holds neither `;` nor `}` and neither begins nor ends
/// with white space.
pub open spec fn declaration_ok(d: DeclarationV) -> bool {
    &&& is_name_seq(d.property)
    &&& forall|i: int| 0 <= i < d.value.len() ==> #[trigger] d.value[i] != ';' && d.value[i] != '}'
    &&& d.value.len() > 0 ==> !is_ws(d.value[0]) && !is_ws(d.value.last())
}

/// Whether a rule value is well formed: it has at least one selector, and
/// every selector and declaration is well formed.
pub open spec fn rule_ok(r: RuleV) -> bool {
    &&& r.selectors.len() > 0
    &&& forall|i: int| 0 <= i < r.selectors.len() ==> selector_ok(#[trigger] r.selectors[i])
    &&& forall|i: int| 0 <= i < r.declarations.len() ==> declaration_ok(#[trigger] r.declarations[i])
}

/// A name run that starts on a name character is a non-empty name.
proof fn lemma_name_run(s: Seq<char>, a: int)
    requires
        0 <= a <= s.len(),
        run_end(s, a, Run::Name) > a,
    ensures
        is_name_seq(s.subrange(a, run_end(s, a, Run::Name))),
{
    lemma_run_end(s, a, Run::Name);
    let e = run_end(s, a, Run::Name);
    assert forall|i: int| 0 <= i < e - a implies is_name(#[trigger] s.subrange(a, e)[i]) by {
        assert(keeps(Run::Name, s[a + i]));
    }
}

/// Every selector read is well formed.
proof fn lemma_one_selector_ok(s: Seq<char>, p: int)
    requires
        0 <= p <= s.len(),
    ensures
        spec_one_selector(s, p).0 matches Some(sel) ==> selector_ok(sel),
{
    if 0 <= p < s.len() {
        let (simple, q) = spec_simple_selector(s, p);
        if s[p] == '.' {
            let e = run_end(s, p + 1, Run::Name);
            if e > p + 1 {
                lemma_name_run(s, p + 1);
            }
            lemma_run_end(s, p + 1, Run::Name);
        } else if s[p] != '*' && is_name(s[p]) {
            lemma_run_end(s, p + 1, Run::Name);
            lemma_name_run(s, p);
        }
        match simple {
            Some(sv) => {
                assert(spec_one_selector(s, p).0 matches Some(sel) ==> sel.simple == sv);
            },
            None => {},
        }
    }
}

/// Every selector of a selector list is well formed.
proof fn lemma_selectors_ok(s: Seq<char>, p: int)
    requires
        0 <= p <= s.len(),
    ensures
        forall|i: int|
            0 <= i < spec_selectors(s, p).0.len() ==> selector_ok(
                #[trigger] spec_selectors(s, p).0[i],
            ),
    decreases s.len() - p,
{
    lemma_one_selector_moves(s, p);
    let p1 = ws_end(s, p);
    lemma_run_moves(s, p, Run::Space);
    lemma_one_selector_ok(s, p1);
    let (sel, p2) = spec_one_selector(s, p1);
    let p3 = ws_end(s, p2);
    if at(s, p3, ',') {
        lemma_selectors_ok(s, p3 + 1);
        let (rest, e) = spec_selectors(s, p3 + 1);
        assert forall|i: int| 0 <= i < (opt_seq(sel) + rest).len() implies selector_ok(
            #[trigger] (opt_seq(sel) + rest)[i],
        ) by {
            if i >= opt_seq(sel).len() {
                assert((opt_seq(sel) + rest)[i] == rest[i - opt_seq(sel).len()]);
            }
        }
    }
}

/// Trimming leaves neither leading nor trailing white space, and keeps within bounds.
proof fn lemma_trim(s: Seq<char>, a: int, b: int)
    requires
        0 <= a <= b <= s.len(),
    ensures
        a <= trim_start(s, a, b) <= trim_end(s, trim_start(s, a, b), b) <= b,
        trim(s, a, b).len() > 0 ==> !is_ws(trim(s, a, b)[0]) && !is_ws(trim(s, a, b).last()),
    decreases b - a,
{
    lemma_trim_start(s, a, b);
    lemma_trim_end(s, trim_start(s, a, b), b);
}

proof fn lemma_trim_start(s: Seq<char>, a: int, b: int)
    requires
        0 <= a <= b <= s.len(),
    ensures
        a <= trim_start(s, a, b) <= b,
        trim_start(s, a, b) < b ==> !is_ws(s[trim_start(s, a, b)]),
    decreases b - a,
{
    if a < b && is_ws(s[a]) {
        lemma_trim_start(s, a + 1, b);
    }
}

proof fn lemma_trim_end(s: Seq<char>, a: int, b: int)
    requires
        0 <= a <= b <= s.len(),
        a < b ==> !is_ws(s[a]),
    ensures
        a <= trim_end(s, a, b) <= b,
        a < trim_end(s, a, b) ==> !is_ws(s[trim_end(s, a, b) - 1]),
        a < b ==> a < trim_end(s, a, b),
    decreases b - a,
{
    if a < b && is_ws(s[b - 1]) {
        lemma_trim_end(s, a, b - 1);
    }
}

/// Every declaration read is well formed.
proof fn lemma_declaration_ok(s: Seq<char>, p: int)
    requires
        0 <= p <= s.len(),
    ensures
        spec_declaration(s, p).0 matches Some(d) ==> declaration_ok(d),
{
    let p1 = ws_end(s, p);
    lemma_run_moves(s, p, Run::Space);
    let e = run_end(s, p1, Run::Name);
    lemma_run_end(s, p1, Run::Name);
    if e > p1 {
        lemma_name_run(s, p1);
        let p2 = ws_end(s, e);
        lemma_run_end(s, p1, Run::Name);
        lemma_run_moves(s, e, Run::Space);
        if at(s, p2, ':') {
            let p3 = ws_end(s, p2 + 1);
            lemma_run_moves(s, p2 + 1, Run::Space);
            let v = run_end(s, p3, Run::NotSemiOrBrace);
            lemma_run_end(s, p3, Run::NotSemiOrBrace);
            lemma_trim(s, p3, v);
            let t = trim_start(s, p3, v);
            let u = trim_end(s, t, v);
            let val = trim(s, p3, v);
            assert forall|i: int| 0 <= i < val.len() implies #[trigger] val[i] != ';' && val[i]
                != '}' by {
                assert(val[i] == s[t + i]);
                assert(keeps(Run::NotSemiOrBrace, s[t + i]));
            }
        }
    }
}

/// Every declaration of a declaration list is well formed.
proof fn lemma_declaration_list_ok(s: Seq<char>, p: int)
    requires
        0 <= p <= s.len(),
    ensures
        forall|i: int|
            0 <= i < spec_declaration_list(s, p).0.len() ==> declaration_ok(
                #[trigger] spec_declaration_list(s, p).0[i],
            ),
    decreases s.len() - p,
{
    let p1 = ws_end(s, p);
    lemma_declaration_moves(s, p);
    lemma_run_moves(s, p, Run::Space);
    if 0 <= p1 < s.len() && s[p1] != '}' {
        lemma_declaration_ok(s, p1);
        lemma_declaration_bounds(s, p1);
        let (d, p2) = spec_declaration(s, p1);
        match d {
            Some(d) => {
                lemma_declaration_list_ok(s, p2);
                let (rest, e) = spec_declaration_list(s, p2);
                assert(spec_declaration_list(s, p).0 == seq![d] + rest);
                assert forall|i: int| 0 <= i < (seq![d] + rest).len() implies declaration_ok(
                    #[trigger] (seq![d] + rest)[i],
                ) by {
                    if i >= 1 {
                        assert((seq![d] + rest)[i] == rest[i - 1]);
                    }
                }
            },
            None => {
                lemma_declaration_list_ok(s, skip_broken(s, p2));
                assert(spec_declaration_list(s, p) == spec_declaration_list(s, skip_broken(s, p2)));
            },
        }
    }
}

/// Every rule read is well formed.
proof fn lemma_rule_ok(s: Seq<char>, p: int)
    requires
        0 <= p <= s.len(),
    ensures
        spec_rule(s, p).0 matches Some(r) ==> rule_ok(r),
{
    lemma_selectors_ok(s, p);
    lemma_selectors_bounds(s, p);
    let p1 = spec_selectors(s, p).1;
    let q = ws_end(s, p1);
    lemma_run_moves(s, p1, Run::Space);
    if at(s, q, '{') {
        lemma_declaration_list_ok(s, q + 1);
    }
}

/// Every rule from `p` on is well formed.
proof fn lemma_rules_ok(s: Seq<char>, p: int)
    requires
        0 <= p <= s.len(),
    ensures
        forall|i: int| 0 <= i < spec_rules(s, p).len() ==> rule_ok(#[trigger] spec_rules(s, p)[i]),
    decreases s.len() - p,
{
    lemma_rule_moves(s, p);
    let p1 = ws_end(s, p);
    if 0 <= p1 < s.len() {
        lemma_rule_ok(s, p1);
        let (r, p2) = spec_rule(s, p1);
        let p3 = match r {
            Some(_) => p2,
            None => spec_recover(s, p2),
        };
        let p4 = if p3 == p1 {
            p1 + 1
        } else {
            p3
        };
        lemma_rules_ok(s, p4);
        let rest = spec_rules(s, p4);
        assert forall|i: int| 0 <= i < (opt_seq(r) + rest).len() implies rule_ok(
            #[trigger] (opt_seq(r) + rest)[i],
        ) by {
            if i >= opt_seq(r).len() {
                assert((opt_seq(r) + rest)[i] == rest[i - opt_seq(r).len()]);
            }
        }
    }
}

/// Every rule that the parser gives has at least one selector; every type or
/// class selector names a non-empty name of ASCII letters, digits, `-` and
/// `_` (see `is_name`); every declaration has such a name for its property
/// and a trimmed value free of `;` and `}`.
pub proof fn law_rules_well_formed(s: Seq<char>)
    ensures
        forall|i: int| 0 <= i < spec_parse(s).len() ==> rule_ok(#[trigger] spec_parse(s)[i]),
{
    lemma_rules_ok(s, 0);
}

// ---------------------------------------------------------------------------
// The parser.
// ---------------------------------------------------------------------------

/// Parses CSS text into a stylesheet. Never fails: what cannot be read is skipped.
pub fn parse(input: &str) -> (sheet: Stylesheet)
    ensures
        sheet@ == spec_parse(input@),
        forall|i: int| 0 <= i < sheet@.len() ==> rule_ok(#[trigger] sheet@[i]),
{
    let mut parser = Parser { chars: to_chars(input), pos: 0 };
    let ghost s = parser.chars@;
    let mut rules: Vec<Rule> = Vec::new();
    loop
        invariant_except_break
            parser.chars@ == s,
            parser.pos <= s.len(),
            rules_v(rules@) + spec_rules(s, parser.pos as int) == spec_parse(s),
        ensures
            parser.chars@ == s,
            parser.pos <= s.len(),
            rules_v(rules@) == spec_parse(s),
        decreases s.len() - parser.pos,
    {
        let ghost p0 = parser.pos as int;
        parser.skip_whitespace();
        if parser.eof() {
            assert(spec_rules(s, p0) == Seq::<RuleV>::empty());
            assert(rules_v(rules@) + Seq::<RuleV>::empty() =~= rules_v(rules@));
            break;
        }
        proof {
            lemma_rule_moves(s, p0);
        }
        let before = parser.pos;
        let r = parser.parse_rule();
        match r {
            Some(rule) => {
                let ghost rv = rule@;
                let ghost before_rules = rules@;
                rules.push(rule);
                assert(rules_v(rules@) =~= rules_v(before_rules).push(rv));
            },
            None => {
                parser.recover_to_next_block();
            },
        }
        if parser.pos == before {
            parser.pos = parser.pos + 1;
        }
        proof {
            let p1 = before as int;
            let (rr, p2) = spec_rule(s, p1);
            let p3 = match rr {
                Some(_) => p2,
                None => spec_recover(s, p2),
            };
            let p4 = if p3 == p1 {
                p1 + 1
            } else {
                p3
            };
            assert(parser.pos == p4);
            assert(spec_rules(s, p0) == opt_seq(rr) + spec_rules(s, p4));
            assert(rules_v(rules@) + spec_rules(s, parser.pos as int) =~= spec_parse(s));
        }
    }
    proof {
        law_rules_well_formed(s);
    }
    Stylesheet { rules }
}

/// The end of the at-rule that starts at `p`: after its `;`, after its block,
/// or the end of the text.
fn skip_at_rule(s: &Vec<char>, p: usize) -> (e: usize)
    requires
        p <= s.len(),
    ensures
        e == at_rule_end(s@, p as int),
        e <= s.len(),
{
    proof {
        lemma_at_rule_end(s@, p as int);
    }
    let mut i = p;
    while i < s.len()
        invariant
            p <= i <= s.len(),
            at_rule_end(s@, i as int) == at_rule_end(s@, p as int),
        decreases s.len() - i,
    {
        let c = s[i];
        if c == ';' {
            return i + 1;
        }
        if c == '{' {
            proof {
                lemma_brace_end(s@, i + 1, 1);
            }
            return skip_block(s, i + 1);
        }
        i = i + 1;
    }
    i
}

/// The end of the block whose `{` lies just before `p`: after its matching
/// `}`, or the end of the text. Nested blocks are skipped whole.
fn skip_block(s: &Vec<char>, p: usize) -> (e: usize)
    requires
        1 <= p <= s.len(),
    ensures
        e == brace_end(s@, p as int, 1),
        e <= s.len(),
{
    proof {
        lemma_brace_end(s@, p as int, 1);
    }
    let mut i = p;
    let mut depth: usize = 1;
    while i < s.len()
        invariant
            1 <= p <= i <= s.len(),
            1 <= depth <= i - p + 1,
            brace_end(s@, i as int, depth as nat) == brace_end(s@, p as int, 1),
        decreases s.len() - i,
    {
        let c = s[i];
        if c == '{' {
            depth = depth + 1;
        } else if c == '}' {
            if depth == 1 {
                return i + 1;
            }
            depth = depth - 1;
        }
        i = i + 1;
    }
    i
}

/// The parser's state: the text's characters and the cursor.
struct Parser {
    chars: Vec<char>,
    pos: usize,
}

impl Parser {
    /// Whether the cursor is at the end of the text.
    fn eof(&self) -> (b: bool)
        ensures
            b == (self.pos >= self.chars.len()),
    {
        self.pos >= self.chars.len()
    }

    /// The character under the cursor, without consuming it.
    fn peek(&self) -> (c: Option<char>)
        ensures
            c == (if self.pos < self.chars.len() {
                Some(self.chars@[self.pos as int])
            } else {
                None
            }),
    {
        if self.pos < self.chars.len() {
            Some(self.chars[self.pos])
        } else {
            None
        }
    }

    /// Whether the character under the cursor is `c`.
    fn peek_is(&self, c: char) -> (b: bool)
        ensures
            b == at(self.chars@, self.pos as int, c),
    {
        self.pos < self.chars.len() && self.chars[self.pos] == c
    }

    /// Consumes the character under the cursor.
    fn next(&mut self) -> (c: Option<char>)
        requires
            old(self).pos <= old(self).chars.len(),
        ensures
            final(self).chars@ == old(self).chars@,
            c == (if old(self).pos < old(self).chars.len() {
                Some(old(self).chars@[old(self).pos as int])
            } else {
                None
            }),
            final(self).pos == (if old(self).pos < old(self).chars.len() {
                old(self).pos + 1
            } else {
                old(self).pos as int
            }),
    {
        let c = self.peek();
        if c.is_some() {
            self.pos = self.pos + 1;
        }
        c
    }

    /// Skips white space.
    fn skip_whitespace(&mut self)
        requires
            old(self).pos <= old(self).chars.len(),
        ensures
            final(self).chars@ == old(self).chars@,
            final(self).pos == ws_end(old(self).chars@, old(self).pos as int),
            final(self).pos <= final(self).chars.len(),
    {
        self.pos = scan(&self.chars, self.pos, Run::Space);
    }

    /// Consumes a run of kind `k` and gives its characters.
    fn consume_while(&mut self, k: Run) -> (r: String)
        requires
            old(self).pos <= old(self).chars.len(),
        ensures
            final(self).chars@ == old(self).chars@,
            final(self).pos == run_end(old(self).chars@, old(self).pos as int, k),
            old(self).pos <= final(self).pos <= final(self).chars.len(),
            r@ == old(self).chars@.subrange(old(self).pos as int, final(self).pos as int),
    {
        let start = self.pos;
        self.pos = scan(&self.chars, self.pos, k);
        collect(&self.chars, start, self.pos)
    }

    /// Recovers from text that holds no rule: an at-rule (`@media ...`) is
    /// skipped up to its `;` or past its block, any other character alone.
    fn recover_to_next_block(&mut self)
        requires
            old(self).pos <= old(self).chars.len(),
        ensures
            final(self).chars@ == old(self).chars@,
            final(self).pos == spec_recover(old(self).chars@, old(self).pos as int),
            final(self).pos <= final(self).chars.len(),
    {
        if self.peek_is('@') {
            self.pos = skip_at_rule(&self.chars, self.pos);
            return;
        }
        if self.pos < self.chars.len() {
            self.pos = self.pos + 1;
        }
    }

    /// Parses one rule (`selectors { declarations }`).
    fn parse_rule(&mut self) -> (r: Option<Rule>)
        requires
            old(self).pos <= old(self).chars.len(),
        ensures
            final(self).chars@ == old(self).chars@,
            match r {
                Some(rule) => spec_rule(old(self).chars@, old(self).pos as int) == (
                    Some(rule@),
                    final(self).pos as int,
                ),
                None => spec_rule(old(self).chars@, old(self).pos as int) == (
                    None::<RuleV>,
                    final(self).pos as int,
                ),
            },
            final(self).pos <= final(self).chars.len(),
    {
        let selectors = self.parse_selectors();
        if selectors.len() == 0 {
            return None;
        }
        let declarations = self.parse_declarations();
        Some(Rule { selectors, declarations })
    }

    /// Parses the comma-separated selectors before a `{`.
    fn parse_selectors(&mut self) -> (v: Vec<Selector>)
        requires
            old(self).pos <= old(self).chars.len(),
        ensures
            final(self).chars@ == old(self).chars@,
            spec_selectors(old(self).chars@, old(self).pos as int) == (
                selectors_v(v@),
                final(self).pos as int,
            ),
            final(self).pos <= final(self).chars.len(),
    {
        let ghost s = self.chars@;
        let ghost p0 = self.pos as int;
        let mut selectors: Vec<Selector> = Vec::new();
        loop
            invariant_except_break
                self.chars@ == s,
                self.pos <= s.len(),
                selectors_v(selectors@) + spec_selectors(s, self.pos as int).0 == spec_selectors(
                    s,
                    p0,
                ).0,
                spec_selectors(s, self.pos as int).1 == spec_selectors(s, p0).1,
            ensures
                self.chars@ == s,
                self.pos <= s.len(),
                selectors_v(selectors@) == spec_selectors(s, p0).0,
                self.pos == spec_selectors(s, p0).1,
            decreases s.len() - self.pos,
        {
            let ghost q = self.pos as int;
            proof {
                lemma_one_selector_moves(s, q);
            }
            self.skip_whitespace();
            let sel = self.parse_one_selector();
            let ghost sv = opt_seq(selector_opt_v(sel));
            let ghost before = selectors@;
            if let Some(sel) = sel {
                selectors.push(sel);
                assert(selectors_v(selectors@) =~= selectors_v(before) + sv);
            } else {
                assert(selectors_v(selectors@) =~= selectors_v(before) + sv);
            }
            self.skip_whitespace();
            match self.peek() {
                Some(',') => {
                    self.next();
                    assert(selectors_v(selectors@) + spec_selectors(s, self.pos as int).0
                        =~= spec_selectors(s, p0).0);
                },
                _ => {
                    assert(selectors_v(selectors@) =~= spec_selectors(s, p0).0);
                    break;
                },
            }
        }
        selectors
    }

    /// Parses one selector: `*`, `div`, `.card`, each with an optional `:hover`.
    fn parse_one_selector(&mut self) -> (r: Option<Selector>)
        requires
            old(self).pos <= old(self).chars.len(),
        ensures
            final(self).chars@ == old(self).chars@,
            spec_one_selector(old(self).chars@, old(self).pos as int) == (
                selector_opt_v(r),
                final(self).pos as int,
            ),
            final(self).pos <= final(self).chars.len(),
    {
        let ghost s = self.chars@;
        let c = match self.peek() {
            Some(c) => c,
            None => {
                return None;
            },
        };
        let simple = if c == '*' {
            self.next();
            SimpleSelector::Universal
        } else if c == '.' {
            self.next();
            let start = self.pos;
            let name = self.consume_while(Run::Name);
            if self.pos == start {
                return None;
            }
            SimpleSelector::Class(name)
        } else if is_name_char(c) {
            let name = self.consume_while(Run::Name);
            SimpleSelector::Type(name)
        } else {
            return None;
        };
        let mut hover = false;
        if self.peek_is(':') {
            self.next();
            let start = self.pos;
            let pseudo = self.consume_while(Run::Name);
            if range_eq(&self.chars, start, self.pos, &['h', 'o', 'v', 'e', 'r']) {
                hover = true;
            } else {
                return None;
            }
        }
        Some(Selector { simple, hover })
    }

    /// Parses the declarations of a `{ ... }` block.
    fn parse_declarations(&mut self) -> (v: Vec<Declaration>)
        requires
            old(self).pos <= old(self).chars.len(),
        ensures
            final(self).chars@ == old(self).chars@,
            spec_declarations(old(self).chars@, old(self).pos as int) == (
                declarations_v(v@),
                final(self).pos as int,
            ),
            final(self).pos <= final(self).chars.len(),
    {
        let ghost s = self.chars@;
        let mut declarations: Vec<Declaration> = Vec::new();
        self.skip_whitespace();
        if self.peek_is('{') {
            self.next();
        } else {
            assert(declarations_v(declarations@) =~= Seq::<DeclarationV>::empty());
            return declarations;
        }
        let ghost p0 = self.pos as int;
        loop
            invariant_except_break
                self.chars@ == s,
                self.pos <= s.len(),
                declarations_v(declarations@) + spec_declaration_list(s, self.pos as int).0
                    == spec_declaration_list(s, p0).0,
                spec_declaration_list(s, self.pos as int).1 == spec_declaration_list(s, p0).1,
            ensures
                self.chars@ == s,
                self.pos <= s.len(),
                declarations_v(declarations@) == spec_declaration_list(s, p0).0,
                self.pos == spec_declaration_list(s, p0).1,
            decreases s.len() - self.pos,
        {
            let ghost q = self.pos as int;
            proof {
                lemma_declaration_moves(s, q);
            }
            self.skip_whitespace();
            match self.peek() {
                Some('}') => {
                    self.next();
                    assert(declarations_v(declarations@) =~= spec_declaration_list(s, p0).0);
                    break;
                },
                None => {
                    assert(declarations_v(declarations@) =~= spec_declaration_list(s, p0).0);
                    break;
                },
                _ => {
                    let ghost before = declarations@;
                    if let Some(decl) = self.parse_declaration() {
                        declarations.push(decl);
                        assert(declarations_v(declarations@) =~= declarations_v(before).push(
                            decl@,
                        ));
                        assert(declarations_v(declarations@) + spec_declaration_list(
                            s,
                            self.pos as int,
                        ).0 =~= spec_declaration_list(s, p0).0);
                    } else {
                        self.consume_while(Run::NotSemiOrBrace);
                        if self.peek_is(';') {
                            self.next();
                        }
                    }
                },
            }
        }
        declarations
    }

    /// Parses one declaration (`property: value;`).
    fn parse_declaration(&mut self) -> (r: Option<Declaration>)
        requires
            old(self).pos <= old(self).chars.len(),
        ensures
            final(self).chars@ == old(self).chars@,
            spec_declaration(old(self).chars@, old(self).pos as int) == (
                declaration_opt_v(r),
                final(self).pos as int,
            ),
            final(self).pos <= final(self).chars.len(),
    {
        self.skip_whitespace();
        let start = self.pos;
        let property = self.consume_while(Run::Name);
        if self.pos == start {
            return None;
        }
        self.skip_whitespace();
        if !self.peek_is(':') {
            return None;
        }
        self.next();
        self.skip_whitespace();
        let start = self.pos;
        self.pos = scan(&self.chars, self.pos, Run::NotSemiOrBrace);
        let (a, b) = trim_bounds(&self.chars, start, self.pos);
        let value = collect(&self.chars, a, b);
        if self.peek_is(';') {
            self.next();
        }
        Some(Declaration { property, value })
    }
}

/// Each pass of the parser reads at most one rule and moves at least one
/// character on, staying within the text; so a text of `n` characters is
/// read in at most `n` passes.
pub proof fn law_each_pass_advances(s: Seq<char>, p: int)
    requires
        0 <= p <= s.len(),
    ensures
        ws_end(s, p) >= s.len() ==> spec_rules(s, p) == Seq::<RuleV>::empty(),
        ws_end(s, p) < s.len() ==> {
            &&& p < next_pass(s, p) <= s.len()
            &&& spec_rules(s, p) == opt_seq(spec_rule(s, ws_end(s, p)).0) + spec_rules(s, next_pass(s, p))
        },
{
    lemma_rule_moves(s, p);
}

/// How a character changes the nesting of braces.
pub open spec fn brace_delta(c: char) -> int {
    if c == '{' {
        1
    } else if c == '}' {
        -1
    } else {
        0
    }
}

/// The nesting of braces that `s[a..b]` adds: its `{` less its `}`.
pub open spec fn nesting(s: Seq<char>, a: int, b: int) -> int
    decreases b - a,
{
    if b <= a {
        0
    } else {
        nesting(s, a, b - 1) + brace_delta(s[b - 1])
    }
}

/// The nesting read from the front.
proof fn lemma_nesting_front(s: Seq<char>, a: int, b: int)
    requires
        a < b,
    ensures
        nesting(s, a, b) == brace_delta(s[a]) + nesting(s, a + 1, b),
    decreases b - a,
{
    if b > a + 1 {
        lemma_nesting_front(s, a, b - 1);
        assert(nesting(s, a, b) == nesting(s, a, b - 1) + brace_delta(s[b - 1]));
        assert(nesting(s, a + 1, b) == nesting(s, a + 1, b - 1) + brace_delta(s[b - 1]));
    } else {
        assert(nesting(s, a, a) == 0);
        assert(nesting(s, a + 1, a + 1) == 0);
        assert(nesting(s, a, b) == nesting(s, a, a) + brace_delta(s[a]));
    }
}

/// Inside a block at nesting `d`, the block ends just past the `}` that
/// brings the nesting back to zero for the first time, or at the end of the
/// text when none does.
proof fn lemma_brace_end_balances(s: Seq<char>, p: int, d: nat)
    requires
        0 <= p <= s.len(),
        d >= 1,
    ensures
        ({
            let r = brace_end(s, p, d);
            ||| (r == s.len() && forall|t: int| p <= t <= r ==> d + #[trigger] nesting(s, p, t) > 0)
            ||| (p < r <= s.len() && s[r - 1] == '}' && d + nesting(s, p, r) == 0
                && forall|t: int| p <= t < r ==> d + #[trigger] nesting(s, p, t) > 0)
        }),
    decreases s.len() - p,
{
    if p < s.len() {
        let c = s[p];
        let d2: nat = if c == '{' {
            d + 1
        } else if c == '}' && d > 1 {
            (d - 1) as nat
        } else {
            d
        };
        if c == '}' && d <= 1 {
            lemma_nesting_front(s, p, p + 1);
            assert forall|t: int| p <= t < p + 1 implies d + #[trigger] nesting(s, p, t) > 0 by {}
        } else {
            lemma_brace_end_balances(s, p + 1, d2);
            let r = brace_end(s, p, d);
            assert(r == brace_end(s, p + 1, d2));
            assert forall|t: int| p < t <= s.len() implies d + #[trigger] nesting(s, p, t) == d2 + nesting(s, p + 1, t) by {
                lemma_nesting_front(s, p, t);
            }
        }
    }
}

/// The end of an at-rule: past its first `;` when no `{` comes before it;
/// else, from its first `{`, the end of that block; or the end of the text.
proof fn lemma_at_rule_end_shape(s: Seq<char>, p: int)
    requires
        0 <= p <= s.len(),
    ensures
        ({
            let r = at_rule_end(s, p);
            ||| (r == s.len() && forall|i: int| p <= i < r ==> #[trigger] s[i] != ';' && s[i] != '{')
            ||| (p < r <= s.len() && s[r - 1] == ';' && forall|i: int| p <= i < r - 1 ==> #[trigger] s[i] != ';' && s[i] != '{')
            ||| exists|j: int|
                p <= j < s.len() && s[j] == '{' && r == brace_end(s, j + 1, 1) && forall|i: int|
                    p <= i < j ==> #[trigger] s[i] != ';' && s[i] != '{'
        }),
    decreases s.len() - p,
{
    if p < s.len() {
        if s[p] == '{' {
            assert(at_rule_end(s, p) == brace_end(s, p + 1, 1));
        } else if s[p] != ';' {
            lemma_at_rule_end_shape(s, p + 1);
            let r = at_rule_end(s, p + 1);
            if exists|j: int|
                p + 1 <= j < s.len() && s[j] == '{' && r == brace_end(s, j + 1, 1) && forall|i: int|
                    p + 1 <= i < j ==> #[trigger] s[i] != ';' && s[i] != '{' {
                let j = choose|j: int|
                    p + 1 <= j < s.len() && s[j] == '{' && r == brace_end(s, j + 1, 1) && forall|i: int|
                        p + 1 <= i < j ==> #[trigger] s[i] != ';' && s[i] != '{';
                assert forall|i: int| p <= i < j implies #[trigger] s[i] != ';' && s[i] != '{' by {}
            }
        }
    }
}

/// Where no rule could be read, recovery moves one character on, except at
/// an at-rule (`@`), which it skips whole: up to and including its first `;`
/// when no `{` comes before it; else from its first `{` up to and including
/// the `}` that balances it (nested braces counted), or to the end of the
/// text when there is none.
pub proof fn law_recover(s: Seq<char>, p: int)
    requires
        0 <= p < s.len(),
    ensures
        s[p] != '@' ==> spec_recover(s, p) == p + 1,
        s[p] == '@' ==> ({
            let r = spec_recover(s, p);
            ||| (r == s.len() && forall|i: int| p <= i < r ==> #[trigger] s[i] != ';' && s[i] != '{')
            ||| (p < r <= s.len() && s[r - 1] == ';' && forall|i: int| p <= i < r - 1 ==> #[trigger] s[i] != ';' && s[i] != '{')
            ||| exists|j: int|
                p <= j < s.len() && #[trigger] s[j] == '{' && (forall|i: int| p <= i < j ==> #[trigger] s[i] != ';' && s[i] != '{')
                && ({
                    ||| (r == s.len() && forall|t: int| j + 1 <= t <= r ==> 1 + #[trigger] nesting(s, j + 1, t) > 0)
                    ||| (j + 1 < r <= s.len() && s[r - 1] == '}' && 1 + nesting(s, j + 1, r) == 0
                        && forall|t: int| j + 1 <= t < r ==> 1 + #[trigger] nesting(s, j + 1, t) > 0)
                })
        }),
{
    lemma_at_rule_end_shape(s, p);
    if s[p] == '@' {
        let r = at_rule_end(s, p);
        if exists|j: int|
            p <= j < s.len() && s[j] == '{' && r == brace_end(s, j + 1, 1) && forall|i: int|
                p <= i < j ==> #[trigger] s[i] != ';' && s[i] != '{' {
            let j = choose|j: int|
                p <= j < s.len() && s[j] == '{' && r == brace_end(s, j + 1, 1) && forall|i: int|
                    p <= i < j ==> #[trigger] s[i] != ';' && s[i] != '{';
            lemma_brace_end_balances(s, j + 1, 1);
        }
    }
}

} // verus!
