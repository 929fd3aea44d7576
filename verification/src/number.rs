//! Decimal numbers in text: the digits of `u8` values as `str::parse::<u8>`
//! reads them, and the opacity that a CSS `rgba()` alpha such as `0.5` stands
//! for, computed exactly from its decimal digits.

use vstd::prelude::*;
use vstd::arithmetic::div_mod::{lemma_div_denominator, lemma_hoist_over_denominator};

use crate::chars::{lemma_run_end, lower_range, lower_seq, range_eq, run_end, scan, Run};

verus! {

/// An ASCII digit.
pub open spec fn is_digit(c: char) -> bool {
    '0' <= c && c <= '9'
}

/// The value of an ASCII digit.
pub open spec fn digit_value(c: char) -> nat {
    (c as u32 - '0' as u32) as nat
}

/// Whether every character of `d` is an ASCII digit.
pub open spec fn all_digits(d: Seq<char>) -> bool {
    forall|i: int| 0 <= i < d.len() ==> is_digit(#[trigger] d[i])
}

/// The value of a sequence of decimal digits; empty is zero.
pub open spec fn dec_value(d: Seq<char>) -> nat
    decreases d.len(),
{
    if d.len() == 0 {
        0
    } else {
        dec_value(d.drop_last()) * 10 + digit_value(d.last())
    }
}

/// Ten to the power `k`.
pub open spec fn pow10(k: nat) -> nat
    decreases k,
{
    if k == 0 {
        1
    } else {
        10 * pow10((k - 1) as nat)
    }
}

/// A `u8` in decimal, as `str::parse::<u8>` reads it: an optional `+`, then
/// one or more digits, with a value of at most 255.
pub open spec fn spec_parse_u8(t: Seq<char>) -> Option<u8> {
    let d = if t.len() > 0 && t[0] == '+' {
        t.skip(1)
    } else {
        t
    };
    if d.len() > 0 && all_digits(d) && dec_value(d) <= 255 {
        Some(dec_value(d) as u8)
    } else {
        None
    }
}

/// What a decimal floating-point text stands for.
pub enum FloatV {
    /// Not a number.
    Nan,
    /// Infinity.
    Inf,
    /// The finite value `m * 10^x`.
    Fin(nat, int),
}

/// The characters of `inf`.
pub open spec fn inf_word() -> Seq<char> {
    seq!['i', 'n', 'f']
}

/// The characters of `infinity`.
pub open spec fn infinity_word() -> Seq<char> {
    seq!['i', 'n', 'f', 'i', 'n', 'i', 't', 'y']
}

/// The characters of `nan`.
pub open spec fn nan_word() -> Seq<char> {
    seq!['n', 'a', 'n']
}

/// Whether position `p` holds the character `c`.
pub open spec fn at(s: Seq<char>, p: int, c: char) -> bool {
    0 <= p < s.len() && s[p] == c
}

/// A number without sign, in the grammar of `f32::from_str`: digits with an
/// optional `.`, at least one digit in all, then an optional exponent `e` or
/// `E` with an optional sign and one or more digits. Gives the digits' value
/// and the power of ten that scales it.
pub open spec fn spec_number(b: Seq<char>) -> Option<(nat, int)> {
    let a = run_end(b, 0, Run::Digit);
    let has_point = at(b, a, '.');
    let c = if has_point {
        run_end(b, a + 1, Run::Digit)
    } else {
        a
    };
    let frac = if has_point {
        b.subrange(a + 1, c)
    } else {
        Seq::<char>::empty()
    };
    let digits = b.subrange(0, a) + frac;
    if digits.len() == 0 {
        None
    } else if c == b.len() {
        Some((dec_value(digits), -(frac.len() as int)))
    } else if b[c] == 'e' || b[c] == 'E' {
        let s = c + 1;
        let eneg = at(b, s, '-');
        let s2 = if at(b, s, '+') || at(b, s, '-') {
            s + 1
        } else {
            s
        };
        let ee = run_end(b, s2, Run::Digit);
        if ee == s2 || ee != b.len() {
            None
        } else {
            let ev = dec_value(b.subrange(s2, ee)) as int;
            Some((dec_value(digits), (if eneg {
                -ev
            } else {
                ev
            }) - frac.len()))
        }
    } else {
        None
    }
}

/// A floating-point text, in the grammar of `f32::from_str`: an optional sign,
/// then `inf`, `infinity`, `nan` (in any case) or a number. Gives whether it
/// is negative and what it stands for.
pub open spec fn spec_float(t: Seq<char>) -> Option<(bool, FloatV)> {
    let neg = t.len() > 0 && t[0] == '-';
    let body = if t.len() > 0 && (t[0] == '+' || t[0] == '-') {
        t.skip(1)
    } else {
        t
    };
    let low = lower_seq(body);
    if low == inf_word() || low == infinity_word() {
        Some((neg, FloatV::Inf))
    } else if low == nan_word() {
        Some((neg, FloatV::Nan))
    } else {
        match spec_number(body) {
            Some((m, x)) => Some((neg, FloatV::Fin(m, x))),
            None => None,
        }
    }
}

/// The opacity byte of a value: the value clamped to `0..=1`, times 255,
/// rounded half up; not-a-number gives 0.
pub open spec fn alpha_of(neg: bool, v: FloatV) -> nat {
    match v {
        FloatV::Nan => 0,
        FloatV::Inf => if neg {
            0
        } else {
            255
        },
        FloatV::Fin(m, x) => if neg || m == 0 {
            0
        } else if x >= 0 {
            255
        } else {
            let d = pow10((-x) as nat);
            if m >= d {
                255
            } else {
                ((510 * m) / d + 1) / 2
            }
        },
    }
}

/// The opacity byte that an alpha text stands for, if it is a number.
pub open spec fn spec_alpha(t: Seq<char>) -> Option<u8> {
    match spec_float(t) {
        Some((neg, v)) => Some(alpha_of(neg, v) as u8),
        None => None,
    }
}

/// Carrying a multiplication by `f` through digits, from the last one to the
/// first, starting with carry `c`: the carry that leaves the first digit.
pub open spec fn mul_carry(d: Seq<char>, c: nat, f: nat) -> nat
    decreases d.len(),
{
    if d.len() == 0 {
        c
    } else {
        mul_carry(d.drop_last(), (f * digit_value(d.last()) + c) / 10, f)
    }
}

// ---------------------------------------------------------------------------
// Lemmas on decimal values.
// ---------------------------------------------------------------------------

/// Powers of ten are positive.
pub proof fn lemma_pow10_pos(a: nat)
    ensures
        1 <= pow10(a),
    decreases a,
{
    if a > 0 {
        lemma_pow10_pos((a - 1) as nat);
    }
}

/// Powers of ten grow with the exponent.
pub proof fn lemma_pow10_mono(a: nat, b: nat)
    requires
        a <= b,
    ensures
        1 <= pow10(a) <= pow10(b),
    decreases b,
{
    lemma_pow10_pos(a);
    if b > a {
        lemma_pow10_mono(a, (b - 1) as nat);
    }
}

/// Ten to the power `a + b` is the product of the two powers.
pub proof fn lemma_pow10_add(a: nat, b: nat)
    ensures
        pow10(a + b) == pow10(a) * pow10(b),
    decreases b,
{
    if b > 0 {
        lemma_pow10_add(a, (b - 1) as nat);
        assert((a + b - 1) as nat == a + (b - 1) as nat);
        assert(pow10(a + b) == 10 * pow10((a + b - 1) as nat));
        assert(pow10(b) == 10 * pow10((b - 1) as nat));
        let p = pow10(a);
        let q = pow10((b - 1) as nat);
        assert(pow10(a + (b - 1) as nat) == p * q);
        assert(pow10(a + b) == 10 * (p * q));
        assert(10 * (p * q) == p * (10 * q)) by (nonlinear_arith);
        assert(p * pow10(b) == p * (10 * q));
        assert(pow10(a + b) == pow10(a) * pow10(b));
    } else {
        assert(a + b == a);
        assert(pow10(b) == 1);
        assert(pow10(a) * 1 == pow10(a));
    }
}

/// A sequence of `n` digits is worth less than ten to the `n`.
pub proof fn lemma_dec_value_bound(d: Seq<char>)
    requires
        all_digits(d),
    ensures
        dec_value(d) < pow10(d.len()),
    decreases d.len(),
{
    if d.len() > 0 {
        let d2 = d.drop_last();
        assert(all_digits(d2)) by {
            assert forall|i: int| 0 <= i < d2.len() implies is_digit(#[trigger] d2[i]) by {
                assert(d2[i] == d[i]);
            }
        }
        lemma_dec_value_bound(d2);
        assert(is_digit(d[d.len() - 1]));
        let a = dec_value(d2);
        let p = pow10(d2.len());
        let x = digit_value(d.last());
        assert(x <= 9);
        assert(a * 10 + x < 10 * p) by (nonlinear_arith)
            requires
                a < p,
                x <= 9,
        ;
    }
}

/// A sequence of `n` digits that starts with a non-zero digit is worth at
/// least ten to the `n - 1`.
pub proof fn lemma_dec_value_lower(d: Seq<char>)
    requires
        all_digits(d),
        d.len() >= 1,
        d[0] != '0',
    ensures
        dec_value(d) >= pow10((d.len() - 1) as nat),
    decreases d.len(),
{
    if d.len() == 1 {
        assert(d.drop_last().len() == 0);
        assert(is_digit(d[0]));
    } else {
        let d2 = d.drop_last();
        assert(all_digits(d2)) by {
            assert forall|i: int| 0 <= i < d2.len() implies is_digit(#[trigger] d2[i]) by {
                assert(d2[i] == d[i]);
            }
        }
        assert(d2[0] == d[0]);
        lemma_dec_value_lower(d2);
        assert(pow10((d.len() - 1) as nat) == 10 * pow10((d2.len() - 1) as nat));
    }
}

/// Leading zeros do not change a value.
pub proof fn lemma_dec_value_zeros(d: Seq<char>, z: int)
    requires
        0 <= z <= d.len(),
        forall|i: int| 0 <= i < z ==> #[trigger] d[i] == '0',
    ensures
        dec_value(d) == dec_value(d.skip(z)),
    decreases d.len(),
{
    if z == 0 {
        assert(d.skip(0) =~= d);
    } else {
        if d.len() == z {
            lemma_all_zero(d);
            assert(d.skip(z).len() == 0);
            assert(dec_value(d.skip(z)) == 0);
        } else {
            let d2 = d.drop_last();
            assert forall|i: int| 0 <= i < z implies #[trigger] d2[i] == '0' by {
                assert(d2[i] == d[i]);
            }
            lemma_dec_value_zeros(d2, z);
            let e = d.skip(z);
            assert(e.drop_last() =~= d2.skip(z));
            assert(e.last() == d.last());
            assert(e.len() > 0);
            assert(dec_value(e) == dec_value(e.drop_last()) * 10 + digit_value(e.last()));
            assert(dec_value(d) == dec_value(d2) * 10 + digit_value(d.last()));
        }
    }
}

/// A sequence of zeros is worth zero.
proof fn lemma_all_zero(d: Seq<char>)
    requires
        forall|i: int| 0 <= i < d.len() ==> #[trigger] d[i] == '0',
    ensures
        dec_value(d) == 0,
    decreases d.len(),
{
    if d.len() > 0 {
        let d2 = d.drop_last();
        assert forall|i: int| 0 <= i < d2.len() implies #[trigger] d2[i] == '0' by {
            assert(d2[i] == d[i]);
        }
        lemma_all_zero(d2);
        assert(d[d.len() - 1] == '0');
    }
}

/// A value is zero when every digit is zero.
proof fn lemma_dec_value_zero_iff(d: Seq<char>)
    requires
        all_digits(d),
    ensures
        dec_value(d) == 0 <==> forall|i: int| 0 <= i < d.len() ==> #[trigger] d[i] == '0',
    decreases d.len(),
{
    if d.len() > 0 {
        let d2 = d.drop_last();
        assert(all_digits(d2)) by {
            assert forall|i: int| 0 <= i < d2.len() implies is_digit(#[trigger] d2[i]) by {
                assert(d2[i] == d[i]);
            }
        }
        lemma_dec_value_zero_iff(d2);
        assert(is_digit(d[d.len() - 1]));
        if dec_value(d) == 0 {
            assert forall|i: int| 0 <= i < d.len() implies #[trigger] d[i] == '0' by {
                if i < d.len() - 1 {
                    assert(d2[i] == d[i]);
                }
            }
        }
        if forall|i: int| 0 <= i < d.len() ==> #[trigger] d[i] == '0' {
            lemma_all_zero(d);
        }
    }
}

/// One more digit at the end: ten times the value plus the digit.
pub proof fn lemma_dec_value_push(d: Seq<char>, c: char)
    ensures
        dec_value(d.push(c)) == dec_value(d) * 10 + digit_value(c),
{
    assert(d.push(c).drop_last() =~= d);
}

/// Carrying the multiplication by `f` through the digits gives the integer
/// part of `f` times their value (plus the incoming carry), shifted right by
/// their count.
pub proof fn lemma_mul_carry(d: Seq<char>, c: nat, f: nat)
    requires
        all_digits(d),
    ensures
        mul_carry(d, c, f) == (f * dec_value(d) + c) / pow10(d.len()),
    decreases d.len(),
{
    if d.len() == 0 {
        assert(pow10(0) == 1);
        assert(dec_value(d) == 0);
        assert(f * 0 == 0) by (nonlinear_arith);
        assert(c as int / 1 == c);
    } else {
        let d2 = d.drop_last();
        assert(all_digits(d2)) by {
            assert forall|i: int| 0 <= i < d2.len() implies is_digit(#[trigger] d2[i]) by {
                assert(d2[i] == d[i]);
            }
        }
        let x = digit_value(d.last());
        let c2 = (f * x + c) / 10;
        lemma_mul_carry(d2, c2, f);
        let n2 = dec_value(d2);
        let p2 = pow10(d2.len()) as int;
        lemma_pow10_pos(d2.len());
        lemma_hoist_over_denominator((f * x + c) as int, (f * n2) as int, 10);
        assert(f * (n2 * 10 + x) + c == (f * x + c) + (f * n2) * 10) by (nonlinear_arith);
        lemma_div_denominator((f * (n2 * 10 + x) + c) as int, 10, p2);
        assert(pow10(d.len()) == 10 * pow10(d2.len()));
        assert(dec_value(d) == n2 * 10 + x);
        assert(mul_carry(d, c, f) == mul_carry(d2, c2, f));
        assert(mul_carry(d2, c2, f) == ((f * n2 + c2) as int) / p2);
        assert(((f * (n2 * 10 + x) + c) / 10) == c2 + f * n2);
        assert(((f * dec_value(d) + c) as int) / (pow10(d.len()) as int) == (((f * (n2 * 10 + x)
            + c) as int) / 10) / p2);
    }
}

// ---------------------------------------------------------------------------
// Executable parts.
// ---------------------------------------------------------------------------

/// Reads a `u8` in decimal from `t`, as `str::parse::<u8>` does.
pub fn parse_u8(t: &Vec<char>) -> (r: Option<u8>)
    ensures
        r == spec_parse_u8(t@),
{
    let start: usize = if t.len() > 0 && t[0] == '+' {
        1
    } else {
        0
    };
    let ghost d = if t@.len() > 0 && t@[0] == '+' {
        t@.skip(1)
    } else {
        t@
    };
    assert(d =~= t@.subrange(start as int, t@.len() as int));
    if start >= t.len() {
        return None;
    }
    let mut v: u32 = 0;
    let mut i = start;
    while i < t.len()
        invariant
            start <= i <= t.len(),
            d =~= t@.subrange(start as int, t@.len() as int),
            d == (if t@.len() > 0 && t@[0] == '+' {
                t@.skip(1)
            } else {
                t@
            }),
            all_digits(t@.subrange(start as int, i as int)),
            v == dec_value(t@.subrange(start as int, i as int)),
            v <= 255,
        decreases t.len() - i,
    {
        let c = t[i];
        proof {
            let p = t@.subrange(start as int, i as int);
            assert(t@.subrange(start as int, i + 1) =~= p.push(c));
            lemma_dec_value_push(p, c);
        }
        if !('0' <= c && c <= '9') {
            proof {
                assert(d[i - start] == c);
                assert(!all_digits(d));
            }
            return None;
        }
        let dv = c as u32 - '0' as u32;
        if v > 25 || v * 10 + dv > 255 {
            proof {
                let p = t@.subrange(start as int, i + 1);
                assert(all_digits(p)) by {
                    assert forall|j: int| 0 <= j < p.len() implies is_digit(#[trigger] p[j]) by {
                        if j < p.len() - 1 {
                            assert(p[j] == t@.subrange(start as int, i as int)[j]);
                        }
                    }
                }
                lemma_prefix_value_le(d, i + 1 - start);
                assert(d.subrange(0, i + 1 - start) =~= p);
                assert(dec_value(p) > 255);
                assert(all_digits(d) ==> dec_value(d) > 255);
            }
            return None;
        }
        v = v * 10 + dv;
        proof {
            let p = t@.subrange(start as int, i + 1);
            assert forall|j: int| 0 <= j < p.len() implies is_digit(#[trigger] p[j]) by {
                if j < p.len() - 1 {
                    assert(p[j] == t@.subrange(start as int, i as int)[j]);
                }
            }
        }
        i += 1;
    }
    assert(t@.subrange(start as int, t@.len() as int) =~= d);
    Some(v as u8)
}

/// The value of a prefix of digits is at most the value of the whole.
proof fn lemma_prefix_value_le(d: Seq<char>, k: int)
    requires
        0 <= k <= d.len(),
        all_digits(d.subrange(0, k)) ==> true,
    ensures
        all_digits(d) ==> dec_value(d.subrange(0, k)) <= dec_value(d),
    decreases d.len() - k,
{
    if k < d.len() && all_digits(d) {
        lemma_prefix_value_le(d, k + 1);
        let p = d.subrange(0, k);
        assert(d.subrange(0, k + 1) =~= p.push(d[k]));
        lemma_dec_value_push(p, d[k]);
    }
    if k == d.len() {
        assert(d.subrange(0, k) =~= d);
    }
}

/// The digits `v[a..b]` as a value, saturated: exact when it is at most `cap`,
/// and above `cap` otherwise.
fn saturated_value(v: &Vec<char>, a: usize, b: usize, cap: u128) -> (r: u128)
    requires
        a <= b <= v.len(),
        all_digits(v@.subrange(a as int, b as int)),
        cap <= u64::MAX as int + 16,
    ensures
        dec_value(v@.subrange(a as int, b as int)) <= cap ==> r == dec_value(
            v@.subrange(a as int, b as int),
        ),
        dec_value(v@.subrange(a as int, b as int)) > cap ==> cap < r,
        r <= 10 * cap + 9,
{
    let mut r: u128 = 0;
    let mut i = a;
    while i < b
        invariant
            a <= i <= b <= v.len(),
            all_digits(v@.subrange(a as int, b as int)),
            cap <= u64::MAX as int + 16,
            dec_value(v@.subrange(a as int, i as int)) <= cap ==> r == dec_value(
                v@.subrange(a as int, i as int),
            ),
            dec_value(v@.subrange(a as int, i as int)) > cap ==> cap < r,
            r <= 10 * cap + 9,
        decreases b - i,
    {
        let c = v[i];
        proof {
            let p = v@.subrange(a as int, i as int);
            assert(v@.subrange(a as int, i + 1) =~= p.push(c));
            lemma_dec_value_push(p, c);
            assert(v@.subrange(a as int, b as int)[i - a] == c);
        }
        if r <= cap {
            r = r * 10 + (c as u32 - '0' as u32) as u128;
        }
        i += 1;
    }
    r
}

/// Reads the opacity byte of an `rgba()` alpha text, if it is a number in the
/// grammar of `f32::from_str`. The byte is 255 times the value clamped to
/// `0..=1`, rounded half up, computed exactly from the decimal digits.
pub fn parse_alpha(w: &Vec<char>) -> (r: Option<u8>)
    ensures
        r == spec_alpha(w@),
{
    let n = w.len();
    let neg = n > 0 && w[0] == '-';
    let s0: usize = if n > 0 && (w[0] == '+' || w[0] == '-') {
        1
    } else {
        0
    };
    let ghost t = w@;
    let ghost body = if t.len() > 0 && (t[0] == '+' || t[0] == '-') {
        t.skip(1)
    } else {
        t
    };
    assert(body =~= t.subrange(s0 as int, n as int));
    let low = lower_range(w, s0, n);
    let ln = low.len();
    let inf_l: &[char] = &['i', 'n', 'f'];
    let infinity_l: &[char] = &['i', 'n', 'f', 'i', 'n', 'i', 't', 'y'];
    let nan_l: &[char] = &['n', 'a', 'n'];
    assert(inf_l@ =~= inf_word() && infinity_l@ =~= infinity_word() && nan_l@ =~= nan_word());
    assert(low@.subrange(0, ln as int) =~= low@);
    if range_eq(&low, 0, ln, inf_l) || range_eq(&low, 0, ln, infinity_l) {
        return Some(
            if neg {
                0
            } else {
                255
            },
        );
    }
    if range_eq(&low, 0, ln, nan_l) {
        return Some(0);
    }
    match number_parts(w, s0) {
        None => None,
        Some((dv, frac_len, eneg, e_sat, ghost_e)) => {
            let Ghost(e_exact) = ghost_e;
            Some(alpha_from_digits(&dv, neg, eneg, e_sat, n as u128 + 16, frac_len, Ghost(e_exact)))
        },
    }
}

/// The characters `w[s0..a]` followed by `w[f0..c]`.
fn join_digits(w: &Vec<char>, s0: usize, a: usize, f0: usize, c: usize) -> (dv: Vec<char>)
    requires
        s0 <= a <= f0 <= c <= w.len(),
    ensures
        dv@ == w@.subrange(s0 as int, a as int) + w@.subrange(f0 as int, c as int),
{
    let ghost t = w@;
    let mut dv: Vec<char> = Vec::new();
    let mut i = s0;
    while i < a
        invariant
            t == w@,
            s0 <= i <= a <= w@.len(),
            dv@ == t.subrange(s0 as int, i as int),
        decreases a - i,
    {
        dv.push(w[i]);
        assert(t.subrange(s0 as int, i + 1) =~= t.subrange(s0 as int, i as int).push(t[i as int]));
        i += 1;
    }
    let mut j = f0;
    while j < c
        invariant
            t == w@,
            f0 <= j <= c <= w@.len(),
            dv@ == t.subrange(s0 as int, a as int) + t.subrange(f0 as int, j as int),
        decreases c - j,
    {
        dv.push(w[j]);
        assert(t.subrange(f0 as int, j + 1) =~= t.subrange(f0 as int, j as int).push(t[j as int]));
        j += 1;
    }
    dv
}

#[verifier::rlimit(100)]
#[verifier::spinoff_prover]
/// Reads a number in the grammar of `f32::from_str` from `w[s0..]`: gives its
/// digits, the count of digits after the point, whether the exponent is
/// negative, and the exponent's value saturated above `w.len() + 16` (with its
/// exact value as a ghost).
pub(crate) fn number_parts(w: &Vec<char>, s0: usize) -> (r: Option<(Vec<char>, usize, bool, u128, Ghost<nat>)>)
    requires
        s0 <= w.len(),
    ensures
        match r {
            None => spec_number(w@.subrange(s0 as int, w@.len() as int)) is None,
            Some((dv, frac_len, eneg, e_sat, e_exact)) => {
                let cap = w@.len() + 16;
                &&& all_digits(dv@)
                &&& frac_len <= dv@.len() <= w@.len()
                &&& (e_exact@ <= cap ==> e_sat == e_exact@)
                &&& (e_exact@ > cap ==> cap < e_sat)
                &&& e_sat <= 10 * cap + 9
                &&& spec_number(w@.subrange(s0 as int, w@.len() as int)) == Some(
                    (
                        dec_value(dv@),
                        (if eneg {
                            -(e_exact@ as int)
                        } else {
                            e_exact@ as int
                        }) - frac_len,
                    ),
                )
            },
        },
{
    let n = w.len();
    let ghost t = w@;
    let ghost body = t.subrange(s0 as int, n as int);
    proof {
        lemma_run_end(t, s0 as int, Run::Digit);
    }
    let a = scan(w, s0, Run::Digit);
    let has_point = a < n && w[a] == '.';
    let (f0, c) = if has_point {
        proof {
            lemma_run_end(t, a + 1, Run::Digit);
        }
        (a + 1, scan(w, a + 1, Run::Digit))
    } else {
        (a, a)
    };
    proof {
        lemma_run_shift(t, s0 as int, s0 as int, Run::Digit);
        if has_point {
            lemma_run_shift(t, s0 as int, a + 1, Run::Digit);
        }
    }
    let ghost frac = if has_point {
        t.subrange(f0 as int, c as int)
    } else {
        Seq::<char>::empty()
    };
    let ghost digits = t.subrange(s0 as int, a as int) + frac;
    assert(body.subrange(0, a - s0) =~= t.subrange(s0 as int, a as int));
    assert(has_point ==> body.subrange(a - s0 + 1, c - s0) =~= t.subrange(f0 as int, c as int));
    let int_len = a - s0;
    let frac_len = c - f0;
    if int_len == 0 && frac_len == 0 {
        return None;
    }
    let cap: u128 = n as u128 + 16;
    let mut eneg = false;
    let mut e_sat: u128 = 0;
    let ghost mut e_exact: nat = 0;
    if c < n {
        if !(w[c] == 'e' || w[c] == 'E') {
            return None;
        }
        let mut s2 = c + 1;
        if s2 < n && (w[s2] == '+' || w[s2] == '-') {
            eneg = w[s2] == '-';
            s2 = s2 + 1;
        }
        proof {
            lemma_run_end(t, s2 as int, Run::Digit);
            lemma_run_shift(t, s0 as int, s2 as int, Run::Digit);
        }
        let ee = scan(w, s2, Run::Digit);
        if ee == s2 || ee != n {
            return None;
        }
        proof {
            assert forall|j: int| 0 <= j < ee - s2 implies is_digit(
                #[trigger] t.subrange(s2 as int, ee as int)[j],
            ) by {
                assert(t.subrange(s2 as int, ee as int)[j] == t[s2 + j]);
            }
            assert(body.subrange(s2 - s0, ee - s0) =~= t.subrange(s2 as int, ee as int));
            e_exact = dec_value(t.subrange(s2 as int, ee as int));
        }
        e_sat = saturated_value(w, s2, ee, cap);
    }
    let dv = join_digits(w, s0, a, f0, c);
    assert(dv@ =~= digits) by {
        if !has_point {
            assert(t.subrange(f0 as int, c as int) =~= Seq::<char>::empty());
        }
    }
    proof {
        assert forall|k: int| 0 <= k < digits.len() implies is_digit(#[trigger] digits[k]) by {
            if k < a - s0 {
                assert(digits[k] == t[s0 + k]);
            } else {
                assert(digits[k] == t[f0 + k - (a - s0)]);
            }
        }
    }
    Some((dv, frac_len, eneg, e_sat, Ghost(e_exact)))
}

/// The opacity byte of the positive or negative value `m * 10^x`, where `m`
/// is the value of the digits `dv` and `x` is the exponent less the count of
/// digits after the point; the exponent is given saturated above `cap`.
fn alpha_from_digits(
    dv: &Vec<char>,
    neg: bool,
    eneg: bool,
    e_sat: u128,
    cap: u128,
    frac_len: usize,
    Ghost(e_exact): Ghost<nat>,
) -> (r: u8)
    requires
        all_digits(dv@),
        frac_len <= dv@.len(),
        dv@.len() + 4 <= cap <= u64::MAX as int + 16,
        e_exact <= cap ==> e_sat == e_exact,
        e_exact > cap ==> cap < e_sat,
        e_sat <= 10 * cap + 9,
    ensures
        r == alpha_of(
            neg,
            FloatV::Fin(
                dec_value(dv@),
                (if eneg {
                    -(e_exact as int)
                } else {
                    e_exact as int
                }) - frac_len,
            ),
        ),
{
    let ghost digits = dv@;
    let ghost x_exact: int = (if eneg {
        -(e_exact as int)
    } else {
        e_exact as int
    }) - frac_len;
    let dn = dv.len();
    let mut z: usize = 0;
    while z < dn && dv[z] == '0'
        invariant
            z <= dn == dv@.len(),
            forall|k: int| 0 <= k < z ==> #[trigger] dv@[k] == '0',
        decreases dn - z,
    {
        z += 1;
    }
    proof {
        lemma_dec_value_zero_iff(digits);
        lemma_dec_value_zeros(digits, z as int);
    }
    let ghost sig = digits.skip(z as int);
    let ghost m = dec_value(digits);
    if neg || z == dn {
        return 0;
    }
    proof {
        assert(all_digits(sig)) by {
            assert forall|k: int| 0 <= k < sig.len() implies is_digit(#[trigger] sig[k]) by {
                assert(sig[k] == digits[z + k]);
            }
        }
        lemma_dec_value_lower(sig);
        lemma_dec_value_bound(sig);
    }
    let msig = dn - z;
    let xs: i128 = (if eneg {
        -(e_sat as i128)
    } else {
        e_sat as i128
    }) - frac_len as i128;
    if xs >= 0 {
        return 255;
    }
    let k: i128 = -xs;
    if (msig as i128) > k {
        proof {
            assert(x_exact == xs);
            lemma_pow10_mono((-x_exact) as nat, (msig - 1) as nat);
        }
        return 255;
    }
    if k - (msig as i128) >= 3 {
        proof {
            let kk = (-x_exact) as nat;
            assert(kk >= msig + 3);
            lemma_pow10_mono((msig + 3) as nat, kk);
            lemma_pow10_add(msig as nat, 3);
            assert(pow10(3) == 1000) by {
                reveal_with_fuel(pow10, 4);
            }
            let d = pow10(kk);
            assert(510 * m < d) by (nonlinear_arith)
                requires
                    m < pow10(msig as nat),
                    pow10((msig + 3) as nat) == pow10(msig as nat) * pow10(3),
                    pow10(3) == 1000,
                    pow10((msig + 3) as nat) <= d,
            ;
            assert((510 * m) / d == 0) by (nonlinear_arith)
                requires
                    510 * m < d,
                    d >= 1,
            ;
            lemma_pow10_mono(msig as nat, kk);
        }
        return 0;
    }
    let pad = (k - msig as i128) as usize;
    proof {
        assert(x_exact == xs);
    }
    let ghost padded = Seq::new(pad as nat, |q: int| '0') + sig;
    proof {
        assert forall|q: int| 0 <= q < padded.len() implies is_digit(#[trigger] padded[q]) by {
            if q >= pad {
                assert(padded[q] == sig[q - pad]);
            }
        }
        assert(padded.skip(pad as int) =~= sig);
        lemma_dec_value_zeros(padded, pad as int);
        lemma_mul_carry(padded, 0, 510);
        assert(padded.take(padded.len() as int) =~= padded);
    }
    let mut carry: u32 = 0;
    let mut p = dn;
    while p > z
        invariant
            z <= p <= dn == dv@.len(),
            dv@ == digits,
            all_digits(digits),
            sig == digits.skip(z as int),
            padded == Seq::new(pad as nat, |q: int| '0') + sig,
            mul_carry(padded, 0, 510) == mul_carry(padded.take(pad + (p - z)), carry as nat, 510),
            carry <= 509,
        decreases p - z,
    {
        let dch = dv[p - 1];
        proof {
            let pre = padded.take(pad + (p - z));
            assert(pre.last() == dch) by {
                assert(pre.last() == padded[pad + (p - z) - 1]);
                assert(padded[pad + (p - z) - 1] == sig[p - 1 - z]);
            }
            assert(pre.drop_last() =~= padded.take(pad + (p - 1 - z)));
            assert(is_digit(digits[p - 1]));
        }
        carry = (510 * (dch as u32 - '0' as u32) + carry) / 10;
        p = p - 1;
    }
    let mut q: usize = 0;
    while q < pad
        invariant
            q <= pad,
            padded == Seq::new(pad as nat, |r: int| '0') + sig,
            mul_carry(padded, 0, 510) == mul_carry(padded.take(pad - q), carry as nat, 510),
            carry <= 509,
        decreases pad - q,
    {
        proof {
            let pre = padded.take(pad - q);
            assert(pre.last() == '0');
            assert(pre.drop_last() =~= padded.take(pad - q - 1));
        }
        carry = carry / 10;
        q += 1;
    }
    proof {
        assert(padded.take(0) =~= Seq::<char>::empty());
        assert(padded.len() == k);
        assert(dec_value(padded) == m);
        lemma_pow10_mono(msig as nat, (-x_exact) as nat);
    }
    ((carry + 1) / 2) as u8
}

/// A run read inside `t` from `q` is the same run, shifted, inside `t[s..]`.
proof fn lemma_run_shift(t: Seq<char>, s: int, q: int, k: Run)
    requires
        0 <= s <= q <= t.len(),
    ensures
        run_end(t.subrange(s, t.len() as int), q - s, k) == run_end(t, q, k) - s,
    decreases t.len() - q,
{
    let b = t.subrange(s, t.len() as int);
    if q < t.len() {
        assert(b[q - s] == t[q]);
        if crate::chars::keeps(k, t[q]) {
            lemma_run_shift(t, s, q + 1, k);
        }
    }
}


// ---------------------------------------------------------------------------
// Lengths in fixed point.
// ---------------------------------------------------------------------------

/// The largest length magnitude, in units of 1/64 pixel.
pub open spec fn len_max() -> int {
    1099511627776
}

/// The value `m * 10^x` in units of 1/64, rounded toward zero.
pub open spec fn scaled(m: nat, x: int) -> nat {
    if x >= 0 {
        64 * m * pow10(x as nat)
    } else {
        (64 * m) / pow10((-x) as nat)
    }
}

/// A magnitude in units, capped at `len_max()`.
pub open spec fn capped(u: nat) -> int {
    if u > len_max() {
        len_max()
    } else {
        u as int
    }
}

/// A number read as a length in units of 1/64: rounded toward zero and capped
/// at `len_max()` in magnitude; infinity gives the cap, not-a-number nothing.
pub open spec fn units_of(neg: bool, v: FloatV) -> Option<i64> {
    match v {
        FloatV::Nan => None,
        FloatV::Inf => Some(
            (if neg {
                -len_max()
            } else {
                len_max()
            }) as i64,
        ),
        FloatV::Fin(m, x) => Some(
            (if neg {
                -capped(scaled(m, x))
            } else {
                capped(scaled(m, x))
            }) as i64,
        ),
    }
}

/// The length in units that a number text stands for, in the grammar of
/// `f32::from_str`.
pub open spec fn spec_units(t: Seq<char>) -> Option<i64> {
    match spec_float(t) {
        Some((neg, v)) => units_of(neg, v),
        None => None,
    }
}

/// Digits written one after the other: the value of the first part shifted
/// by the length of the second, plus the second.
pub proof fn lemma_dec_value_concat(a: Seq<char>, b: Seq<char>)
    ensures
        dec_value(a + b) == dec_value(a) * pow10(b.len()) + dec_value(b),
    decreases b.len(),
{
    if b.len() == 0 {
        assert(a + b =~= a);
        assert(pow10(0) == 1);
    } else {
        let b2 = b.drop_last();
        lemma_dec_value_concat(a, b2);
        assert((a + b).drop_last() =~= a + b2);
        assert((a + b).last() == b.last());
        let x = digit_value(b.last());
        let va = dec_value(a);
        let p2 = pow10(b2.len());
        let v2 = dec_value(b2);
        assert(pow10(b.len()) == 10 * p2);
        assert((va * p2 + v2) * 10 + x == va * (10 * p2) + (v2 * 10 + x)) by (nonlinear_arith);
    }
}

/// Ten to the `k`, for small `k`.
fn pow10_exec(k: u32) -> (r: u128)
    requires
        k <= 12,
    ensures
        r == pow10(k as nat),
        r <= 1_000_000_000_000,
{
    proof {
        assert(pow10(12) == 1_000_000_000_000) by {
            reveal_with_fuel(pow10, 13);
        }
        lemma_pow10_mono(k as nat, 12);
    }
    let mut r: u128 = 1;
    let mut i: u32 = 0;
    while i < k
        invariant
            i <= k <= 12,
            r == pow10(i as nat),
            pow10(12) == 1_000_000_000_000,
        decreases k - i,
    {
        proof {
            lemma_pow10_mono((i + 1) as nat, 12);
        }
        r = r * 10;
        i += 1;
    }
    r
}

/// The length in units of `m * 10^x` for `0 <= x < 12`, where `m` is the
/// value of the digits `dv`, capped.
fn units_above_point(dv: &Vec<char>, x: u32) -> (r: u64)
    requires
        all_digits(dv@),
        x < 12,
    ensures
        r == capped(scaled(dec_value(dv@), x as int)),
{
    let lmax: u128 = 1099511627776;
    let dn = dv.len();
    let hv = saturated_value(dv, 0, dn, lmax);
    let ghost m = dec_value(dv@);
    assert(dv@.subrange(0, dn as int) =~= dv@);
    if hv > lmax {
        proof {
            lemma_pow10_pos(x as nat);
            assert(64 * m * pow10(x as nat) >= m) by (nonlinear_arith)
                requires
                    pow10(x as nat) >= 1,
            ;
        }
        return lmax as u64;
    }
    let p = pow10_exec(x);
    assert(hv * p <= 1099511627776 * 1_000_000_000_000) by (nonlinear_arith)
        requires
            hv <= 1099511627776,
            p <= 1_000_000_000_000,
    ;
    let v = 64 * (hv * p);
    assert(v == 64 * m * pow10(x as nat)) by (nonlinear_arith)
        requires
            v == 64 * (hv * p),
            hv == m,
            p == pow10(x as nat),
    ;
    if v > lmax {
        return lmax as u64;
    }
    v as u64
}

/// The length in units of `m / 10^k` for `k <= len + 1`, where `m` is the
/// value of the digits `dv` and `len` their count, capped.
fn units_below_point(dv: &Vec<char>, k: u128) -> (r: u64)
    requires
        all_digits(dv@),
        1 <= k <= dv@.len() + 1,
    ensures
        r == capped((64 * dec_value(dv@)) / pow10(k as nat)),
{
    let ghost digits = dv@;
    let ghost m = dec_value(digits);
    let lmax: u128 = 1099511627776;
    let dn = dv.len();
    let h: usize = if k <= dn as u128 {
        dn - k as usize
    } else {
        0
    };
    let ghost tail = digits.subrange(h as int, dn as int);
    let ghost head = digits.subrange(0, h as int);
    proof {
        assert(all_digits(tail)) by {
            assert forall|q: int| 0 <= q < tail.len() implies is_digit(#[trigger] tail[q]) by {
                assert(tail[q] == digits[h + q]);
            }
        }
        assert(all_digits(head)) by {
            assert forall|q: int| 0 <= q < head.len() implies is_digit(#[trigger] head[q]) by {
                assert(head[q] == digits[q]);
            }
        }
        assert(tail.take(tail.len() as int) =~= tail);
    }
    let mut carry: u32 = 0;
    let mut p = dn;
    while p > h
        invariant
            h <= p <= dn == dv@.len(),
            dv@ == digits,
            all_digits(digits),
            tail == digits.subrange(h as int, dn as int),
            mul_carry(tail, 0, 64) == mul_carry(tail.take(p - h), carry as nat, 64),
            carry <= 63,
        decreases p - h,
    {
        let dch = dv[p - 1];
        proof {
            let pre = tail.take(p - h);
            assert(pre.last() == dch);
            assert(pre.drop_last() =~= tail.take(p - 1 - h));
            assert(is_digit(digits[p - 1]));
        }
        carry = (64 * (dch as u32 - '0' as u32) + carry) / 10;
        p = p - 1;
    }
    proof {
        assert(tail.take(0) =~= Seq::<char>::empty());
        lemma_mul_carry(tail, 0, 64);
        lemma_dec_value_concat(head, tail);
        assert(head + tail =~= digits);
        lemma_pow10_pos(tail.len());
        assert(mul_carry(tail, 0, 64) == (64 * dec_value(tail)) / pow10(tail.len()));
    }
    if k > dn as u128 {
        proof {
            assert(h == 0);
            assert(tail =~= digits);
            assert(pow10(k as nat) == pow10(dn as nat) * 10);
            lemma_div_denominator((64 * m) as int, pow10(dn as nat) as int, 10);
        }
        return (carry / 10) as u64;
    }
    let hv = saturated_value(dv, 0, h, lmax);
    let ghost ph = pow10(tail.len());
    let ghost vh = dec_value(head);
    let ghost vt = dec_value(tail);
    proof {
        assert(k as int == tail.len());
        lemma_hoist_over_denominator((64 * vt) as int, (64 * vh) as int, ph);
        assert(64 * m == 64 * vt + (64 * vh) * ph) by (nonlinear_arith)
            requires
                m == vh * ph + vt,
        ;
        assert((64 * m) / pow10(k as nat) == 64 * vh + (64 * vt) / ph);
        assert(dv@.subrange(0, h as int) =~= head);
    }
    if hv > lmax {
        return lmax as u64;
    }
    let v: u128 = 64 * hv + carry as u128;
    if v > lmax {
        return lmax as u64;
    }
    v as u64
}

/// The length in units of the positive value `m * 10^x`, capped: `m` is the
/// value of the digits `dv`, and `x` is the exponent less the count of digits
/// after the point; the exponent is given saturated above `cap`.
fn units_from_digits(
    dv: &Vec<char>,
    eneg: bool,
    e_sat: u128,
    cap: u128,
    frac_len: usize,
    Ghost(e_exact): Ghost<nat>,
) -> (r: u64)
    requires
        all_digits(dv@),
        frac_len <= dv@.len(),
        dv@.len() + 16 <= cap <= u64::MAX as int + 16,
        e_exact <= cap ==> e_sat == e_exact,
        e_exact > cap ==> cap < e_sat,
        e_sat <= 10 * cap + 9,
    ensures
        r == capped(
            scaled(
                dec_value(dv@),
                (if eneg {
                    -(e_exact as int)
                } else {
                    e_exact as int
                }) - frac_len,
            ),
        ),
{
    let ghost digits = dv@;
    let ghost m = dec_value(digits);
    let ghost x_exact: int = (if eneg {
        -(e_exact as int)
    } else {
        e_exact as int
    }) - frac_len;
    let lmax: u128 = 1099511627776;
    let dn = dv.len();
    let mut z: usize = 0;
    while z < dn && dv[z] == '0'
        invariant
            z <= dn == dv@.len(),
            forall|k: int| 0 <= k < z ==> #[trigger] dv@[k] == '0',
        decreases dn - z,
    {
        z += 1;
    }
    proof {
        lemma_dec_value_zero_iff(digits);
        lemma_dec_value_bound(digits);
    }
    if z == dn {
        proof {
            assert(m == 0);
            if x_exact >= 0 {
                assert(64 * 0 * pow10(x_exact as nat) == 0) by (nonlinear_arith);
            } else {
                lemma_pow10_pos((-x_exact) as nat);
            }
        }
        return 0;
    }
    let big = !eneg && (e_sat > cap || (e_sat >= frac_len as u128 && e_sat - frac_len as u128
        >= 12));
    if big {
        proof {
            assert(x_exact >= 12);
            lemma_pow10_mono(12, x_exact as nat);
            assert(pow10(12) == 1_000_000_000_000) by {
                reveal_with_fuel(pow10, 13);
            }
            let p = pow10(x_exact as nat);
            assert(64 * m * p >= 64 * p) by (nonlinear_arith)
                requires
                    m >= 1,
                    p >= 0,
            ;
        }
        return lmax as u64;
    }
    if !eneg && e_sat >= frac_len as u128 {
        assert(e_exact == e_sat);
        return units_above_point(dv, (e_sat - frac_len as u128) as u32);
    }
    // Here `x` is at most zero.
    let k: u128 = if e_sat > cap {
        dn as u128 + 2
    } else if eneg {
        e_sat + frac_len as u128
    } else {
        frac_len as u128 - e_sat
    };
    assert(e_sat <= cap ==> k == -x_exact);
    assert(e_sat > cap ==> -x_exact >= k);
    if k == 0 {
        return units_above_point(dv, 0);
    }
    if k >= dn as u128 + 2 {
        proof {
            let kk = (-x_exact) as nat;
            assert(kk >= dn + 2);
            lemma_pow10_mono((dn + 2) as nat, kk);
            lemma_pow10_add(dn as nat, 2);
            assert(pow10(2) == 100) by {
                reveal_with_fuel(pow10, 3);
            }
            assert(64 * m < pow10(kk)) by (nonlinear_arith)
                requires
                    m < pow10(dn as nat),
                    pow10((dn + 2) as nat) == pow10(dn as nat) * pow10(2),
                    pow10(2) == 100,
                    pow10((dn + 2) as nat) <= pow10(kk),
            ;
            lemma_pow10_pos(kk);
            assert((64 * m) / pow10(kk) == 0) by (nonlinear_arith)
                requires
                    64 * m < pow10(kk),
                    pow10(kk) >= 1,
            ;
        }
        return 0;
    }
    units_below_point(dv, k)
}

/// Reads a number in the grammar of `f32::from_str` as a length in units of
/// 1/64: the value times 64, rounded toward zero and capped at `len_max()` in
/// magnitude, computed exactly from the decimal digits. Infinity gives the
/// cap; not-a-number, and text that is no number, give `None`.
pub fn parse_units(w: &Vec<char>) -> (r: Option<i64>)
    ensures
        r == spec_units(w@),
{
    let n = w.len();
    let neg = n > 0 && w[0] == '-';
    let s0: usize = if n > 0 && (w[0] == '+' || w[0] == '-') {
        1
    } else {
        0
    };
    let ghost t = w@;
    let ghost body = if t.len() > 0 && (t[0] == '+' || t[0] == '-') {
        t.skip(1)
    } else {
        t
    };
    assert(body =~= t.subrange(s0 as int, n as int));
    let low = lower_range(w, s0, n);
    let ln = low.len();
    let inf_l: &[char] = &['i', 'n', 'f'];
    let infinity_l: &[char] = &['i', 'n', 'f', 'i', 'n', 'i', 't', 'y'];
    let nan_l: &[char] = &['n', 'a', 'n'];
    assert(inf_l@ =~= inf_word() && infinity_l@ =~= infinity_word() && nan_l@ =~= nan_word());
    assert(low@.subrange(0, ln as int) =~= low@);
    if range_eq(&low, 0, ln, inf_l) || range_eq(&low, 0, ln, infinity_l) {
        return Some(
            if neg {
                -1099511627776
            } else {
                1099511627776
            },
        );
    }
    if range_eq(&low, 0, ln, nan_l) {
        return None;
    }
    match number_parts(w, s0) {
        None => None,
        Some((dv, frac_len, eneg, e_sat, ghost_e)) => {
            let Ghost(e_exact) = ghost_e;
            let u = units_from_digits(&dv, eneg, e_sat, n as u128 + 16, frac_len, Ghost(e_exact));
            Some(
                if neg {
                    -(u as i64)
                } else {
                    u as i64
                },
            )
        },
    }
}

} // verus!
