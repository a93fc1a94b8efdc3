//! Numbers as `f64::from_str` reads them (digits with an optional point, an
//! optional exponent, or `inf`, `infinity`, `nan`), evaluated exactly: times a
//! whole multiplier, truncated, and saturated at `u64::MAX`.
use vstd::prelude::*;
use vstd::arithmetic::div_mod::{lemma_div_denominator, lemma_hoist_over_denominator};
use crate::text::{
    all_digits, digit_value, digits_value, is_digit, lemma_digits_value_front,
    lemma_pow10_positive, pow10, sub_chars,
};

verus! {

/// Digits with at most one decimal point, and at least one digit.
pub open spec fn is_decimal(u: Seq<char>) -> bool {
    &&& forall|i: int| 0 <= i < u.len() ==> is_digit(#[trigger] u[i]) || u[i] == '.'
    &&& forall|i: int, j: int|
        0 <= i < u.len() && 0 <= j < u.len() && #[trigger] u[i] == '.' && #[trigger] u[j] == '.'
            ==> i == j
    &&& exists|i: int| 0 <= i < u.len() && is_digit(#[trigger] u[i])
}

/// Where the decimal point of `u` stands (its length when it has none).
pub open spec fn point_index(u: Seq<char>) -> int {
    if exists|i: int| 0 <= i < u.len() && #[trigger] u[i] == '.' {
        choose|i: int| 0 <= i < u.len() && #[trigger] u[i] == '.'
    } else {
        u.len() as int
    }
}

/// The digits before the decimal point.
pub open spec fn whole_digits(u: Seq<char>) -> Seq<char> {
    u.subrange(0, point_index(u))
}

/// The digits after the decimal point.
pub open spec fn fraction_digits(u: Seq<char>) -> Seq<char> {
    if point_index(u) < u.len() {
        u.subrange(point_index(u) + 1, u.len() as int)
    } else {
        Seq::empty()
    }
}

/// The fraction `0.f` times `m`, truncated.
pub open spec fn scaled_fraction(f: Seq<char>, m: nat) -> nat {
    (digits_value(f) * m) / pow10(f.len())
}

/// `v`, or `u64::MAX` where `v` is beyond it.
pub open spec fn saturate(v: nat) -> u64 {
    if v > u64::MAX {
        u64::MAX
    } else {
        v as u64
    }
}

/// Checks that `u` is a decimal and returns where its point stands.
fn decimal_point(u: &[char]) -> (r: Option<usize>)
    ensures
        r is Some <==> is_decimal(u@),
        r is Some ==> r->0 as int == point_index(u@) && r->0 <= u@.len(),
{
    let mut point: Option<usize> = None;
    let mut seen_digit = false;
    let mut i: usize = 0;
    while i < u.len()
        invariant
            i <= u@.len(),
            forall|j: int| 0 <= j < i ==> is_digit(#[trigger] u@[j]) || u@[j] == '.',
            point is None ==> forall|j: int| 0 <= j < i ==> #[trigger] u@[j] != '.',
            point is Some ==> point->0 < i && u@[point->0 as int] == '.' && forall|j: int|
                0 <= j < i && #[trigger] u@[j] == '.' ==> j == point->0,
            seen_digit <==> exists|j: int| 0 <= j < i && is_digit(#[trigger] u@[j]),
        decreases u@.len() - i,
    {
        let c = u[i];
        if c == '.' {
            if point.is_some() {
                assert(!is_decimal(u@)) by {
                    let p = point->0 as int;
                    assert(u@[p] == '.' && u@[i as int] == '.');
                }
                return None;
            }
            point = Some(i);
        } else if '0' <= c && c <= '9' {
            seen_digit = true;
        } else {
            assert(!is_decimal(u@)) by {
                assert(!is_digit(u@[i as int]) && u@[i as int] != '.');
            }
            return None;
        }
        i = i + 1;
    }
    if !seen_digit {
        return None;
    }
    match point {
        Some(p) => {
            assert(u@[p as int] == '.');
            Some(p)
        },
        None => Some(u.len()),
    }
}

/// The value of the digits `s[a..b]`, or `cap` where it is larger.
fn capped_value(s: &[char], a: usize, b: usize, cap: u128) -> (r: u128)
    requires
        a <= b <= s@.len(),
        all_digits(s@.subrange(a as int, b as int)),
        cap <= 0x1_0000_0000_0000_0000_0000_0000_0000,
    ensures
        r <= cap,
        digits_value(s@.subrange(a as int, b as int)) < cap ==> r as nat == digits_value(
            s@.subrange(a as int, b as int),
        ),
        digits_value(s@.subrange(a as int, b as int)) >= cap ==> r == cap,
{
    let mut acc: u128 = 0;
    let mut i: usize = a;
    while i < b
        invariant
            a <= i <= b <= s@.len(),
            all_digits(s@.subrange(a as int, b as int)),
            cap <= 0x1_0000_0000_0000_0000_0000_0000_0000,
            acc <= cap,
            digits_value(s@.subrange(a as int, i as int)) < cap ==> acc as nat == digits_value(
                s@.subrange(a as int, i as int),
            ),
            digits_value(s@.subrange(a as int, i as int)) >= cap ==> acc == cap,
        decreases b - i,
    {
        let ghost prev = s@.subrange(a as int, i as int);
        let ghost next = s@.subrange(a as int, i + 1);
        assert(next.drop_last() =~= prev);
        assert(s@[i as int] == s@.subrange(a as int, b as int)[i - a]);
        assert(is_digit(s@.subrange(a as int, b as int)[i - a]));
        let d = (s[i] as u32 - '0' as u32) as u128;
        assert(d as nat == digit_value(next.last()));
        assert(acc * 10 + d <= 0x10_0000_0000_0000_0000_0000_0000_0000) by (nonlinear_arith)
            requires
                acc <= 0x1_0000_0000_0000_0000_0000_0000_0000,
                d <= 9,
        ;
        let v = acc * 10 + d;
        acc = if v > cap {
            cap
        } else {
            v
        };
        i = i + 1;
    }
    acc
}

/// The fraction `0.s[a..]` times `m`, truncated.
fn fraction_times(s: &[char], a: usize, m: u64) -> (r: u64)
    requires
        a <= s@.len(),
        all_digits(s@.subrange(a as int, s@.len() as int)),
        1 <= m <= 0x100_0000_0000,
    ensures
        r as nat == scaled_fraction(s@.subrange(a as int, s@.len() as int), m as nat),
        r < m,
{
    let n = s.len();
    let mut x: u64 = 0;
    let mut i: usize = n;
    proof {
        let e = s@.subrange(n as int, n as int);
        assert(digits_value(e) == 0);
        assert(pow10(0) == 1);
    }
    while i > a
        invariant
            a <= i <= n == s@.len(),
            all_digits(s@.subrange(a as int, n as int)),
            1 <= m <= 0x100_0000_0000,
            x < m,
            x as nat == scaled_fraction(s@.subrange(i as int, n as int), m as nat),
        decreases i - a,
    {
        assert(s@[i - 1] == s@.subrange(a as int, n as int)[i - 1 - a]);
        let d = (s[i - 1] as u32 - '0' as u32) as u64;
        let ghost c = s@[i - 1];
        let ghost g = s@.subrange(i as int, n as int);
        let ghost f = s@.subrange(i - 1, n as int);
        proof {
            assert(f =~= seq![c] + g);
            lemma_digits_value_front(c, g);
            let q = pow10(g.len());
            lemma_pow10_positive(g.len());
            assert(pow10(f.len()) == 10 * q);
            let vg = digits_value(g) as int;
            let dm = (digit_value(c) * m) as int;
            assert(digits_value(f) * m == vg * m + dm * q) by (nonlinear_arith)
                requires
                    digits_value(f) == digit_value(c) * q + vg,
                    dm == digit_value(c) * m,
            ;
            lemma_hoist_over_denominator(vg * m, dm, q);
            lemma_div_denominator(digits_value(f) * m, q as int, 10);
            assert(q * 10 == 10 * q);
            assert(d as nat == digit_value(c));
            assert(d * m + x < 10 * m) by (nonlinear_arith)
                requires
                    d <= 9,
                    x < m,
            ;
        }
        x = (d * m + x) / 10;
        i = i - 1;
    }
    x
}

/// An exponent marker.
pub open spec fn is_exp_char(c: char) -> bool {
    c == 'e' || c == 'E'
}

/// The number has an exponent marker.
pub open spec fn has_exponent(u: Seq<char>) -> bool {
    exists|i: int| 0 <= i < u.len() && is_exp_char(#[trigger] u[i])
}

/// Where the exponent marker stands (the length when there is none).
pub open spec fn exponent_index(u: Seq<char>) -> int {
    if has_exponent(u) {
        choose|i: int| 0 <= i < u.len() && is_exp_char(#[trigger] u[i])
    } else {
        u.len() as int
    }
}

/// The digits and point before the exponent.
pub open spec fn mantissa(u: Seq<char>) -> Seq<char> {
    u.subrange(0, exponent_index(u))
}

/// What follows the exponent marker.
pub open spec fn exponent_text(u: Seq<char>) -> Seq<char> {
    if has_exponent(u) {
        u.subrange(exponent_index(u) + 1, u.len() as int)
    } else {
        Seq::empty()
    }
}

/// An exponent without its sign.
pub open spec fn exponent_digits(x: Seq<char>) -> Seq<char> {
    if x.len() > 0 && (x[0] == '+' || x[0] == '-') {
        x.drop_first()
    } else {
        x
    }
}

/// An exponent: an optional sign, then digits.
pub open spec fn is_exponent(x: Seq<char>) -> bool {
    exponent_digits(x).len() > 0 && all_digits(exponent_digits(x))
}

/// The value of an exponent.
pub open spec fn exponent_value(x: Seq<char>) -> int {
    if x.len() > 0 && x[0] == '-' {
        -(digits_value(exponent_digits(x)) as int)
    } else {
        digits_value(exponent_digits(x)) as int
    }
}

/// A finite number: a decimal, then an optional exponent.
pub open spec fn is_finite(u: Seq<char>) -> bool {
    is_decimal(mantissa(u)) && (has_exponent(u) ==> is_exponent(exponent_text(u)))
}

/// All the digits of the mantissa, the point left out.
pub open spec fn significand(u: Seq<char>) -> Seq<char> {
    whole_digits(mantissa(u)) + fraction_digits(mantissa(u))
}

/// The power of ten that the significand's value is scaled by.
pub open spec fn decimal_shift(u: Seq<char>) -> int {
    (if has_exponent(u) {
        exponent_value(exponent_text(u))
    } else {
        0
    }) - fraction_digits(mantissa(u)).len()
}

/// `n` times `m` times ten to the power `t`, truncated.
pub open spec fn shifted(n: nat, m: nat, t: int) -> nat {
    if t >= 0 {
        n * m * pow10(t as nat)
    } else {
        (n * m) / pow10((-t) as nat)
    }
}

/// `u` is, in either case, the word whose capitals are `up` and small
/// letters `low`.
pub open spec fn word_is(u: Seq<char>, up: Seq<char>, low: Seq<char>) -> bool {
    u.len() == up.len() && up.len() == low.len() && forall|i: int|
        0 <= i < u.len() ==> u[i] == up[i] || u[i] == low[i]
}

/// The number is infinite: `inf` or `infinity`, in any case.
pub open spec fn is_infinity(u: Seq<char>) -> bool {
    word_is(u, seq!['I', 'N', 'F'], seq!['i', 'n', 'f']) || word_is(
        u,
        seq!['I', 'N', 'F', 'I', 'N', 'I', 'T', 'Y'],
        seq!['i', 'n', 'f', 'i', 'n', 'i', 't', 'y'],
    )
}

/// The number is not a number: `nan`, in any case.
pub open spec fn is_nan(u: Seq<char>) -> bool {
    word_is(u, seq!['N', 'A', 'N'], seq!['n', 'a', 'n'])
}

/// `u` is an unsigned number.
pub open spec fn is_number(u: Seq<char>) -> bool {
    is_finite(u) || is_infinity(u) || is_nan(u)
}

/// The number is not zero (a zero that is not a number is no such number).
pub open spec fn is_nonzero(u: Seq<char>) -> bool {
    !is_nan(u) && (is_infinity(u) || digits_value(significand(u)) != 0)
}

/// The number times `m`, truncated and saturated: infinity saturates, not a
/// number gives zero.
pub open spec fn number_times(u: Seq<char>, m: nat) -> u64 {
    if is_nan(u) {
        0
    } else if is_infinity(u) {
        u64::MAX
    } else {
        saturate(shifted(digits_value(significand(u)), m, decimal_shift(u)))
    }
}

/// A number's value times a multiplier, and whether it is nonzero.
pub struct Magnitude {
    pub bytes: u64,
    pub nonzero: bool,
}

pub proof fn lemma_pow10_add(a: nat, b: nat)
    ensures
        pow10(a + b) == pow10(a) * pow10(b),
    decreases a,
{
    if a > 0 {
        lemma_pow10_add((a - 1) as nat, b);
        assert((a - 1) as nat + b == (a + b - 1) as nat);
        assert(pow10(a + b) == 10 * pow10((a + b - 1) as nat));
        assert(pow10(a) == 10 * pow10((a - 1) as nat));
        assert(10 * (pow10((a - 1) as nat) * pow10(b)) == (10 * pow10((a - 1) as nat)) * pow10(b))
            by (nonlinear_arith);
    } else {
        assert(pow10(0) == 1);
        assert(a + b == b);
    }
}

pub proof fn lemma_pow10_mono(a: nat, b: nat)
    requires
        a <= b,
    ensures
        pow10(a) <= pow10(b),
{
    lemma_pow10_add(a, (b - a) as nat);
    lemma_pow10_positive((b - a) as nat);
    lemma_pow10_positive(a);
    assert(pow10(a) * pow10((b - a) as nat) >= pow10(a)) by (nonlinear_arith)
        requires
            pow10((b - a) as nat) >= 1,
            pow10(a) >= 1,
    ;
    assert(a + (b - a) as nat == b);
}

proof fn lemma_pow10_20()
    ensures
        pow10(20) > u64::MAX,
{
    reveal_with_fuel(pow10, 21);
}

/// A digit string is worth less than ten to the power of its length.
pub proof fn lemma_digits_value_bound(s: Seq<char>)
    requires
        all_digits(s),
    ensures
        digits_value(s) < pow10(s.len()),
    decreases s.len(),
{
    if s.len() > 0 {
        let t = s.drop_last();
        assert(all_digits(t)) by {
            assert forall|i: int| 0 <= i < t.len() implies is_digit(#[trigger] t[i]) by {
                assert(t[i] == s[i]);
            }
        }
        lemma_digits_value_bound(t);
        assert(is_digit(s[s.len() - 1]));
        assert(digit_value(s.last()) <= 9);
        assert(pow10(s.len()) == 10 * pow10(t.len()));
        assert(digits_value(t) * 10 + digit_value(s.last()) < 10 * pow10(t.len()))
            by (nonlinear_arith)
            requires
                digits_value(t) < pow10(t.len()),
                digit_value(s.last()) <= 9,
        ;
    }
}

/// The value of two digit strings one after the other.
pub proof fn lemma_digits_value_concat(p: Seq<char>, q: Seq<char>)
    ensures
        digits_value(p + q) == digits_value(p) * pow10(q.len()) + digits_value(q),
    decreases q.len(),
{
    if q.len() == 0 {
        assert(p + q =~= p);
        assert(pow10(0) == 1);
        assert(digits_value(q) == 0);
    } else {
        let r = q.drop_last();
        lemma_digits_value_concat(p, r);
        assert((p + q).drop_last() =~= p + r);
        assert((p + q).last() == q.last());
        assert(pow10(q.len()) == 10 * pow10(r.len()));
        let vp = digits_value(p);
        let vr = digits_value(r);
        let e = digit_value(q.last());
        assert((vp * pow10(r.len()) + vr) * 10 + e == vp * (10 * pow10(r.len())) + (vr * 10 + e))
            by (nonlinear_arith);
    }
}

/// A digit string is worth zero exactly when every digit is `0`.
proof fn lemma_digits_zero(s: Seq<char>)
    requires
        all_digits(s),
    ensures
        (digits_value(s) == 0) <==> (forall|i: int| 0 <= i < s.len() ==> #[trigger] s[i] == '0'),
    decreases s.len(),
{
    if s.len() > 0 {
        let t = s.drop_last();
        assert(all_digits(t)) by {
            assert forall|i: int| 0 <= i < t.len() implies is_digit(#[trigger] t[i]) by {
                assert(t[i] == s[i]);
            }
        }
        lemma_digits_zero(t);
        assert(is_digit(s[s.len() - 1]));
        if digits_value(s) == 0 {
            assert(digits_value(t) == 0 && digit_value(s.last()) == 0);
            assert forall|i: int| 0 <= i < s.len() implies #[trigger] s[i] == '0' by {
                if i < t.len() {
                    assert(t[i] == s[i]);
                }
            }
        }
        if forall|i: int| 0 <= i < s.len() ==> #[trigger] s[i] == '0' {
            assert forall|i: int| 0 <= i < t.len() implies #[trigger] t[i] == '0' by {
                assert(t[i] == s[i]);
            }
            assert(s[s.len() - 1] == '0');
        }
    }
}

/// Whether `u` is the word of capitals `up` and small letters `low`.
fn word_matches(u: &[char], up: &[char], low: &[char]) -> (r: bool)
    ensures
        r == word_is(u@, up@, low@),
{
    if u.len() != up.len() || up.len() != low.len() {
        return false;
    }
    let mut i: usize = 0;
    while i < u.len()
        invariant
            i <= u@.len() == up@.len() == low@.len(),
            forall|j: int| 0 <= j < i ==> u@[j] == up@[j] || u@[j] == low@[j],
        decreases u@.len() - i,
    {
        if u[i] != up[i] && u[i] != low[i] {
            return false;
        }
        i = i + 1;
    }
    true
}

/// `Some(true)` for an infinity, `Some(false)` for not a number.
fn special_number(u: &[char]) -> (r: Option<bool>)
    ensures
        r == Some(true) <==> is_infinity(u@),
        r == Some(false) <==> is_nan(u@),
{
    let inf_up = vec!['I', 'N', 'F'];
    let inf_low = vec!['i', 'n', 'f'];
    let long_up = vec!['I', 'N', 'F', 'I', 'N', 'I', 'T', 'Y'];
    let long_low = vec!['i', 'n', 'f', 'i', 'n', 'i', 't', 'y'];
    let nan_up = vec!['N', 'A', 'N'];
    let nan_low = vec!['n', 'a', 'n'];
    assert(inf_up@ =~= seq!['I', 'N', 'F'] && inf_low@ =~= seq!['i', 'n', 'f']);
    assert(long_up@ =~= seq!['I', 'N', 'F', 'I', 'N', 'I', 'T', 'Y']);
    assert(long_low@ =~= seq!['i', 'n', 'f', 'i', 'n', 'i', 't', 'y']);
    assert(nan_up@ =~= seq!['N', 'A', 'N'] && nan_low@ =~= seq!['n', 'a', 'n']);
    let inf = word_matches(u, inf_up.as_slice(), inf_low.as_slice()) || word_matches(
        u,
        long_up.as_slice(),
        long_low.as_slice(),
    );
    if inf {
        assert(!is_nan(u@)) by {
            if u@.len() == 3 {
                assert(u@[0] == 'I' || u@[0] == 'i');
            }
        }
        return Some(true);
    }
    if word_matches(u, nan_up.as_slice(), nan_low.as_slice()) {
        return Some(false);
    }
    None
}

/// Where the first exponent marker stands (the length when there is none).
fn first_exponent_marker(u: &[char]) -> (r: usize)
    ensures
        r <= u@.len(),
        forall|j: int| 0 <= j < r ==> !is_exp_char(#[trigger] u@[j]),
        r < u@.len() ==> is_exp_char(u@[r as int]),
{
    let mut i: usize = 0;
    while i < u.len() && u[i] != 'e' && u[i] != 'E'
        invariant
            i <= u@.len(),
            forall|j: int| 0 <= j < i ==> !is_exp_char(#[trigger] u@[j]),
        decreases u@.len() - i,
    {
        i = i + 1;
    }
    i
}

/// An exponent's sign and its magnitude, capped at 2^100.
fn parse_exponent(x: &[char]) -> (r: Option<(bool, u128)>)
    ensures
        r is Some <==> is_exponent(x@),
        r is Some ==> match r {
            Some(p) => {
                &&& p.0 == (x@[0] == '-')
                &&& (digits_value(exponent_digits(x@)) < 0x10_0000_0000_0000_0000_0000_0000 ==> p.1
                    as nat == digits_value(exponent_digits(x@)))
                &&& (digits_value(exponent_digits(x@)) >= 0x10_0000_0000_0000_0000_0000_0000 ==> p.1
                    == 0x10_0000_0000_0000_0000_0000_0000)
            },
            None => true,
        },
{
    let signed = x.len() > 0 && (x[0] == '+' || x[0] == '-');
    let start: usize = if signed {
        1
    } else {
        0
    };
    let d = sub_chars(x, start, x.len());
    assert(d@ == exponent_digits(x@)) by {
        if signed {
            assert(x@.drop_first() =~= x@.subrange(1, x@.len() as int));
        } else {
            assert(x@ =~= x@.subrange(0, x@.len() as int));
        }
    }
    if d.len() == 0 {
        return None;
    }
    let mut i: usize = 0;
    while i < d.len()
        invariant
            i <= d@.len(),
            d@ == exponent_digits(x@),
            forall|j: int| 0 <= j < i ==> is_digit(#[trigger] d@[j]),
        decreases d@.len() - i,
    {
        if !('0' <= d[i] && d[i] <= '9') {
            assert(!all_digits(d@)) by {
                assert(!is_digit(d@[i as int]));
            }
            return None;
        }
        i = i + 1;
    }
    assert(d@.subrange(0, d@.len() as int) =~= d@);
    let mag = capped_value(d.as_slice(), 0, d.len(), 0x10_0000_0000_0000_0000_0000_0000);
    Some((signed && x[0] == '-', mag))
}

/// When the first exponent marker of `u` stands at `p`, `u` is a finite
/// number exactly when the text before `p` is a decimal and the text after
/// it an exponent; then the exponent marker is the one at `p`.
proof fn lemma_first_marker(u: Seq<char>, p: int)
    requires
        0 <= p <= u.len(),
        forall|j: int| 0 <= j < p ==> !is_exp_char(#[trigger] u[j]),
        p < u.len() ==> is_exp_char(u[p]),
    ensures
        is_finite(u) <==> (is_decimal(u.subrange(0, p)) && (p < u.len() ==> is_exponent(
            u.subrange(p + 1, u.len() as int),
        ))),
        is_finite(u) ==> exponent_index(u) == p,
        p == u.len() ==> !has_exponent(u),
        p < u.len() ==> has_exponent(u),
{
    if p == u.len() {
        if has_exponent(u) {
            let i = choose|i: int| 0 <= i < u.len() && is_exp_char(#[trigger] u[i]);
            assert(!is_exp_char(u[i]));
        }
        assert(!has_exponent(u));
        assert(exponent_index(u) == p);
    } else {
        assert(has_exponent(u)) by {
            assert(is_exp_char(u[p]));
        }
        let i = exponent_index(u);
        assert(0 <= i < u.len() && is_exp_char(u[i]));
        if i != p {
            // the mantissa or the exponent then holds a second marker
            assert(i > p);
            let m = u.subrange(0, i);
            assert(m[p] == u[p]);
            assert(!is_decimal(m)) by {
                assert(!is_digit(m[p]) && m[p] != '.');
            }
            assert(!is_finite(u));
            let x = u.subrange(p + 1, u.len() as int);
            assert(x[i - p - 1] == u[i]);
            if is_exponent(x) {
                let d = exponent_digits(x);
                if x.len() > 0 && (x[0] == '+' || x[0] == '-') {
                    assert(i - p - 1 >= 1) by {
                        assert(!is_exp_char(x[0]));
                    }
                    assert(d[i - p - 2] == x[i - p - 1]);
                    assert(!is_digit(d[i - p - 2]));
                } else {
                    assert(!is_digit(d[i - p - 1]));
                }
            }
        }
    }
}

/// `n * m / 10^b`, truncated and saturated, for the digit string `n`.
fn scale_down(n: &[char], m: u64, b: u128) -> (r: u64)
    requires
        all_digits(n@),
        1 <= m <= 0x100_0000_0000,
        b >= 1,
    ensures
        r == saturate(shifted(digits_value(n@), m as nat, -(b as int))),
{
    let len = n.len();
    let ghost v = digits_value(n@);
    proof {
        assert(n@.subrange(0, len as int) =~= n@);
        assert(shifted(v, m as nat, -(b as int)) == (v * (m as nat)) / pow10(b as nat));
    }
    if b <= len as u128 {
        let cut: usize = len - b as usize;
        let ghost w = n@.subrange(0, cut as int);
        let ghost f = n@.subrange(cut as int, len as int);
        assert(all_digits(w)) by {
            assert forall|i: int| 0 <= i < w.len() implies is_digit(#[trigger] w[i]) by {
                assert(w[i] == n@[i]);
            }
        }
        assert(all_digits(f)) by {
            assert forall|i: int| 0 <= i < f.len() implies is_digit(#[trigger] f[i]) by {
                assert(f[i] == n@[i + cut]);
            }
        }
        let whole = capped_value(n, 0, cut, 0x1_0000_0000_0000_0000);
        let frac = fraction_times(n, cut, m);
        proof {
            assert(n@ =~= w + f);
            lemma_digits_value_concat(w, f);
            let q = pow10(b as nat);
            lemma_pow10_positive(b as nat);
            assert(f.len() == b);
            let vw = digits_value(w) as int;
            let vf = digits_value(f) as int;
            assert(v * m == vf * m + (vw * m) * q) by (nonlinear_arith)
                requires
                    v == vw * q + vf,
            ;
            lemma_hoist_over_denominator(vf * m, vw * m, q);
            assert((v * m) / q as int == vw * m + scaled_fraction(f, m as nat));
            if vw >= 0x1_0000_0000_0000_0000 {
                assert(vw * m >= 0x1_0000_0000_0000_0000) by (nonlinear_arith)
                    requires
                        vw >= 0x1_0000_0000_0000_0000,
                        m >= 1,
                ;
            } else {
                assert(whole == vw);
            }
            assert(whole * (m as u128) <= 0x1_0000_0000_0000_0000 * 0x100_0000_0000)
                by (nonlinear_arith)
                requires
                    whole <= 0x1_0000_0000_0000_0000,
                    m <= 0x100_0000_0000,
            ;
        }
        let total: u128 = whole * (m as u128) + (frac as u128);
        if total > u64::MAX as u128 {
            u64::MAX
        } else {
            total as u64
        }
    } else {
        let x0 = fraction_times(n, 0, m);
        let mut x: u64 = x0;
        let ghost z0 = (b - len as u128) as nat;
        let mut z: u128 = b - len as u128;
        proof {
            lemma_pow10_add(len as nat, z0);
            lemma_pow10_positive(len as nat);
            lemma_pow10_positive(z0);
            assert(len as nat + z0 == b as nat);
            lemma_div_denominator((v * m) as int, pow10(len as nat) as int, pow10(z0) as int);
            assert(x0 as nat == (v * (m as nat)) / pow10(len as nat));
            assert(pow10(0) == 1);
            assert(x0 as nat / 1 == x0 as nat);
        }
        while z > 0 && x > 0
            invariant
                z <= z0,
                x as nat == x0 as nat / pow10((z0 - z) as nat),
            decreases z,
        {
            proof {
                lemma_pow10_positive((z0 - z) as nat);
                lemma_div_denominator(x0 as int, pow10((z0 - z) as nat) as int, 10);
                assert(pow10((z0 - z + 1) as nat) == 10 * pow10((z0 - z) as nat));
                assert(pow10((z0 - z) as nat) * 10 == 10 * pow10((z0 - z) as nat));
            }
            x = x / 10;
            z = z - 1;
        }
        proof {
            let j = (z0 - z) as nat;
            lemma_pow10_positive(j);
            lemma_pow10_positive(z as nat);
            lemma_pow10_add(j, z as nat);
            assert(j + z as nat == z0);
            lemma_div_denominator(x0 as int, pow10(j) as int, pow10(z as nat) as int);
            if z > 0 {
                assert(x == 0);
                assert(0nat / pow10(z as nat) == 0);
            }
        }
        x
    }
}

/// `n * m * 10^t`, saturated, for the digit string `n` of nonzero value.
fn scale_up(n: &[char], m: u64, t: u128) -> (r: u64)
    requires
        all_digits(n@),
        digits_value(n@) >= 1,
        1 <= m <= 0x100_0000_0000,
    ensures
        r == saturate(shifted(digits_value(n@), m as nat, t as int)),
{
    let ghost v = digits_value(n@);
    assert(n@.subrange(0, n@.len() as int) =~= n@);
    let x = capped_value(n, 0, n.len(), 0x1_0000_0000_0000_0000);
    if x >= 0x1_0000_0000_0000_0000 {
        proof {
            assert(v >= 0x1_0000_0000_0000_0000);
            assert(shifted(v, m as nat, t as int) == v * (m as nat) * pow10(t as nat));
            lemma_pow10_positive(t as nat);
            assert(v * m * pow10(t as nat) >= v) by (nonlinear_arith)
                requires
                    m >= 1,
                    pow10(t as nat) >= 1,
            ;
        }
        return u64::MAX;
    }
    assert(x * (m as u128) <= 0x1_0000_0000_0000_0000 * 0x100_0000_0000) by (nonlinear_arith)
        requires
            x <= 0x1_0000_0000_0000_0000,
            m <= 0x100_0000_0000,
    ;
    let mut y: u128 = x * (m as u128);
    let mut i: u128 = 0;
    assert(pow10(0) == 1);
    while i < t
        invariant
            i <= t,
            v == digits_value(n@),
            1 <= m,
            y as nat == v * m * pow10(i as nat),
            y <= 0x1_0000_0000_0000_0000 * 0x100_0000_0000,
        decreases t - i,
    {
        if y > u64::MAX as u128 {
            proof {
                assert(shifted(v, m as nat, t as int) == v * (m as nat) * pow10(t as nat));
                lemma_pow10_mono(i as nat, t as nat);
                assert(v * m * pow10(t as nat) >= v * m * pow10(i as nat)) by (nonlinear_arith)
                    requires
                        pow10(t as nat) >= pow10(i as nat),
                        v >= 0,
                        m >= 0,
                ;
                assert(v * (m as nat) * pow10(t as nat) > u64::MAX);
            }
            return u64::MAX;
        }
        proof {
            assert(pow10((i + 1) as nat) == 10 * pow10(i as nat));
            assert(v * m * (10 * pow10(i as nat)) == (v * m * pow10(i as nat)) * 10)
                by (nonlinear_arith);
        }
        y = y * 10;
        i = i + 1;
    }
    if y > u64::MAX as u128 {
        u64::MAX
    } else {
        y as u64
    }
}

/// Shifted by at least twenty places, a nonzero value saturates.
proof fn lemma_shift_saturates(v: nat, m: nat, t1: int, t2: int)
    requires
        v >= 1,
        m >= 1,
        t1 >= 20,
        t2 >= 20,
    ensures
        saturate(shifted(v, m, t1)) == u64::MAX,
        saturate(shifted(v, m, t2)) == u64::MAX,
{
    lemma_pow10_mono(20, t1 as nat);
    lemma_pow10_mono(20, t2 as nat);
    lemma_pow10_20();
    assert(v * m * pow10(t1 as nat) >= pow10(t1 as nat)) by (nonlinear_arith)
        requires
            v >= 1,
            m >= 1,
    ;
    assert(v * m * pow10(t2 as nat) >= pow10(t2 as nat)) by (nonlinear_arith)
        requires
            v >= 1,
            m >= 1,
    ;
}

/// Shifted down by thirteen places more than it has digits, a value times a
/// multiplier below 2^40 vanishes.
proof fn lemma_shift_vanishes(v: nat, m: nat, n: nat, t: int)
    requires
        v < pow10(n),
        m <= 0x100_0000_0000,
        t <= -(n + 13),
    ensures
        shifted(v, m, t) == 0,
{
    reveal_with_fuel(pow10, 14);
    assert(0x100_0000_0000 < pow10(13));
    lemma_pow10_add(n, 13);
    lemma_pow10_positive(n);
    assert(v * m < pow10(n) * pow10(13)) by (nonlinear_arith)
        requires
            v < pow10(n),
            m < pow10(13),
            pow10(n) >= 1,
    ;
    lemma_pow10_mono(n + 13, (-t) as nat);
    vstd::arithmetic::div_mod::lemma_basic_div((v * m) as int, pow10((-t) as nat) as int);
}

/// The value of an unsigned number times `m`, and whether it is nonzero;
/// `None` when `u` is no number.
#[verifier::rlimit(40)]
pub fn number_value(u: &[char], m: u64) -> (r: Option<Magnitude>)
    requires
        1 <= m <= 0x100_0000_0000,
    ensures
        r is Some <==> is_number(u@),
        r is Some ==> match r {
            Some(g) => g.bytes == number_times(u@, m as nat) && g.nonzero == is_nonzero(u@),
            None => true,
        },
{
    match special_number(u) {
        Some(inf) => {
            return Some(Magnitude {
                bytes: if inf {
                    u64::MAX
                } else {
                    0
                },
                nonzero: inf,
            });
        },
        None => {},
    }
    let p = first_exponent_marker(u);
    proof {
        lemma_first_marker(u@, p as int);
    }
    let mant = sub_chars(u, 0, p);
    let point = match decimal_point(mant.as_slice()) {
        Some(q) => q,
        None => {
            return None;
        },
    };
    let (negative, e) = if p < u.len() {
        let x = sub_chars(u, p + 1, u.len());
        match parse_exponent(x.as_slice()) {
            Some(pe) => pe,
            None => {
                return None;
            },
        }
    } else {
        (false, 0)
    };
    proof {
        assert(is_finite(u@));
        assert(exponent_index(u@) == p);
        assert(mantissa(u@) == mant@);
    }
    let whole = sub_chars(mant.as_slice(), 0, point);
    let mut digits = whole;
    let mut k: usize = 0;
    if point < mant.len() {
        let frac = sub_chars(mant.as_slice(), point + 1, mant.len());
        assert(frac@ == fraction_digits(mant@));
        let ghost before = digits@;
        let mut i: usize = 0;
        while i < frac.len()
            invariant
                i <= frac@.len(),
                digits@ == before + frac@.subrange(0, i as int),
            decreases frac@.len() - i,
        {
            digits.push(frac[i]);
            i = i + 1;
            assert(digits@ =~= before + frac@.subrange(0, i as int));
        }
        assert(frac@.subrange(0, frac@.len() as int) =~= frac@);
        k = frac.len();
    } else {
        assert(digits@ =~= whole_digits(mant@) + fraction_digits(mant@));
    }
    assert(digits@ == significand(u@));
    assert(k as nat == fraction_digits(mant@).len());
    proof {
        let mm = mant@;
        assert(all_digits(digits@)) by {
            let q = point_index(mm);
            assert forall|i: int| 0 <= i < digits@.len() implies is_digit(#[trigger] digits@[i]) by {
                if i < q {
                    assert(digits@[i] == mm[i]);
                    assert(mm[i] != '.');
                } else {
                    assert(digits@[i] == mm[i + 1]);
                    assert(mm[i + 1] != '.');
                }
            }
        }
        lemma_digits_zero(digits@);
    }
    let mut all_zero = true;
    let mut j: usize = 0;
    while j < digits.len()
        invariant
            j <= digits@.len(),
            all_zero <==> forall|i: int| 0 <= i < j ==> #[trigger] digits@[i] == '0',
        decreases digits@.len() - j,
    {
        if digits[j] != '0' {
            all_zero = false;
        }
        j = j + 1;
    }
    if all_zero {
        proof {
            assert(digits_value(significand(u@)) == 0);
            let t = decimal_shift(u@);
            if t >= 0 {
                assert(0 * (m as nat) * pow10(t as nat) == 0) by (nonlinear_arith);
            } else {
                lemma_pow10_positive((-t) as nat);
                assert(0 * (m as nat) == 0) by (nonlinear_arith);
                assert(0nat / pow10((-t) as nat) == 0);
            }
        }
        return Some(Magnitude { bytes: 0, nonzero: false });
    }
    let ghost ev = if p < u@.len() {
        exponent_value(exponent_text(u@))
    } else {
        0
    };
    let ghost big: int = 0x10_0000_0000_0000_0000_0000_0000;
    let t: i128 = (if negative {
        -(e as i128)
    } else {
        e as i128
    }) - k as i128;
    let bytes = if t >= 0 {
        scale_up(digits.as_slice(), m, t as u128)
    } else {
        scale_down(digits.as_slice(), m, (-t) as u128)
    };
    proof {
        let v = digits_value(digits@);
        let true_t = decimal_shift(u@);
        assert(true_t == ev - k);
        if p < u@.len() {
            let x = exponent_text(u@);
            if ev >= big || ev <= -big {
                // the exponent was capped: both values saturate, or both vanish
                if t >= 0 {
                    lemma_shift_saturates(v, m as nat, t as int, true_t);
                } else {
                    lemma_digits_value_bound(digits@);
                    lemma_shift_vanishes(v, m as nat, digits@.len(), t as int);
                    lemma_shift_vanishes(v, m as nat, digits@.len(), true_t);
                }
            }
        }
    }
    Some(Magnitude { bytes, nonzero: true })
}

} // verus!
