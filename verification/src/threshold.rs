//! Validation of the unit-interval thresholds that LQL `WHERE` clauses
//! carry (`strength>=0.7`, `salience>=0.25`).
//!
//! A threshold is kept as the literal the query wrote. The literal is read
//! as `str::parse::<f32>` reads it: an optional sign, then decimal digits
//! with an optional point and an optional exponent, or one of the words
//! `inf`, `infinity`, `nan` in any ASCII case. A threshold is in range when
//! the `f32` nearest to its value lies in `0.0..=1.0`: for a non-negative
//! literal that is the case up to `1 + 2^-24` (which still rounds to
//! `1.0`), for a negative one down to `-2^-150` (which still rounds to
//! `-0.0`). The comparison is exact, on the literal's digits.
use vstd::prelude::*;
use vstd::string::*;

use vstd::arithmetic::power::{lemma_pow_increases, lemma_pow_positive, pow};

use crate::text::{all_digits, chars_eq_ignore_ascii_case, chars_of, digit_value, digits_value, eq_ignore_ascii_case, is_digit};

verus! {

/// How a threshold literal reads.
#[derive(Clone, Copy, Debug, PartialEq, Eq)]
pub enum ThresholdClass {
    /// Not a number at all.
    Malformed,
    /// A number outside `0.0..=1.0` (or not a number: `nan`).
    OutOfRange,
    /// A number inside `0.0..=1.0`.
    InRange,
}

/// Number of leading ASCII digits.
pub open spec fn digit_run(s: Seq<char>) -> nat
    decreases s.len(),
{
    if s.len() == 0 || !is_digit(s[0]) {
        0
    } else {
        1 + digit_run(s.drop_first())
    }
}

/// Number of leading `'0'`s.
pub open spec fn zero_run(s: Seq<char>) -> nat
    decreases s.len(),
{
    if s.len() == 0 || s[0] != '0' {
        0
    } else {
        1 + zero_run(s.drop_first())
    }
}


pub open spec fn sign_len(s: Seq<char>) -> int {
    if s.len() > 0 && (s[0] == '+' || s[0] == '-') {
        1
    } else {
        0
    }
}

pub open spec fn is_negative(s: Seq<char>) -> bool {
    s.len() > 0 && s[0] == '-'
}

pub open spec fn is_special_word(b: Seq<char>) -> bool {
    ||| eq_ignore_ascii_case(b, "inf"@)
    ||| eq_ignore_ascii_case(b, "infinity"@)
    ||| eq_ignore_ascii_case(b, "nan"@)
}

fn skip_chars(s: &[char], k: usize) -> (r: Vec<char>)
    requires
        k <= s@.len(),
    ensures
        r@ == s@.skip(k as int),
{
    let mut r: Vec<char> = Vec::new();
    let mut j: usize = k;
    while j < s.len()
        invariant
            k <= j <= s@.len(),
            r@ == s@.subrange(k as int, j as int),
        decreases s.len() - j,
    {
        r.push(s[j]);
        assert(s@.subrange(k as int, j + 1) =~= s@.subrange(k as int, j as int).push(s@[j as int]));
        j += 1;
    }
    assert(s@.subrange(k as int, s@.len() as int) =~= s@.skip(k as int));
    r
}

fn take_chars(s: &[char], k: usize) -> (r: Vec<char>)
    requires
        k <= s@.len(),
    ensures
        r@ == s@.take(k as int),
{
    let mut r: Vec<char> = Vec::new();
    let mut j: usize = 0;
    while j < k
        invariant
            j <= k <= s@.len(),
            r@ == s@.take(j as int),
        decreases k - j,
    {
        r.push(s[j]);
        assert(s@.take(j + 1) =~= s@.take(j as int).push(s@[j as int]));
        j += 1;
    }
    r
}

proof fn lemma_digit_run(s: Seq<char>, k: int)
    requires
        0 <= k <= s.len(),
        forall|j: int| 0 <= j < k ==> is_digit(#[trigger] s[j]),
        k == s.len() || !is_digit(s[k]),
    ensures
        digit_run(s) == k,
    decreases k,
{
    if k > 0 {
        assert forall|j: int| 0 <= j < k - 1 implies is_digit(#[trigger] s.drop_first()[j]) by {
            assert(s.drop_first()[j] == s[j + 1]);
        }
        lemma_digit_run(s.drop_first(), k - 1);
    }
}

proof fn lemma_zero_run(s: Seq<char>, k: int)
    requires
        0 <= k <= s.len(),
        forall|j: int| 0 <= j < k ==> #[trigger] s[j] == '0',
        k == s.len() || s[k] != '0',
    ensures
        zero_run(s) == k,
    decreases k,
{
    if k > 0 {
        assert forall|j: int| 0 <= j < k - 1 implies #[trigger] s.drop_first()[j] == '0' by {
            assert(s.drop_first()[j] == s[j + 1]);
        }
        lemma_zero_run(s.drop_first(), k - 1);
    }
}

fn count_digits(s: &[char]) -> (n: usize)
    ensures
        n == digit_run(s@),
        n <= s@.len(),
        forall|j: int| 0 <= j < n ==> is_digit(#[trigger] s@[j]),
        n < s@.len() ==> !is_digit(s@[n as int]),
{
    let mut k: usize = 0;
    while k < s.len() && '0' <= s[k] && s[k] <= '9'
        invariant
            k <= s@.len(),
            forall|j: int| 0 <= j < k ==> is_digit(#[trigger] s@[j]),
        decreases s.len() - k,
    {
        k += 1;
    }
    proof {
        lemma_digit_run(s@, k as int);
    }
    k
}

fn count_zeros(s: &[char]) -> (n: usize)
    ensures
        n == zero_run(s@),
        n <= s@.len(),
        forall|j: int| 0 <= j < n ==> #[trigger] s@[j] == '0',
        n < s@.len() ==> s@[n as int] != '0',
{
    let mut k: usize = 0;
    while k < s.len() && s[k] == '0'
        invariant
            k <= s@.len(),
            forall|j: int| 0 <= j < k ==> #[trigger] s@[j] == '0',
        decreases s.len() - k,
    {
        k += 1;
    }
    proof {
        lemma_zero_run(s@, k as int);
    }
    k
}

fn chars_all_digits(s: &[char]) -> (r: bool)
    ensures
        r == all_digits(s@),
{
    let mut k: usize = 0;
    while k < s.len()
        invariant
            k <= s@.len(),
            forall|j: int| 0 <= j < k ==> is_digit(#[trigger] s@[j]),
        decreases s.len() - k,
    {
        if !('0' <= s[k] && s[k] <= '9') {
            assert(!is_digit(s@[k as int]));
            return false;
        }
        k += 1;
    }
    true
}

// ---------------------------------------------------------------------------
// Float literal syntax
// ---------------------------------------------------------------------------

/// The part after an exponent mark: an optional sign, then digits.
pub open spec fn exponent_ok(e: Seq<char>) -> bool {
    let d = if e.len() > 0 && (e[0] == '+' || e[0] == '-') {
        e.drop_first()
    } else {
        e
    };
    d.len() > 0 && all_digits(d)
}

/// Digits with an optional point (at least one digit in all), then an
/// optional exponent.
pub open spec fn decimal_with_exponent(b: Seq<char>) -> bool {
    let n = digit_run(b);
    let r = b.skip(n as int);
    let f = if r.len() > 0 && r[0] == '.' {
        digit_run(r.drop_first())
    } else {
        0
    };
    let r2 = if r.len() > 0 && r[0] == '.' {
        r.drop_first().skip(f as int)
    } else {
        r
    };
    n + f > 0 && (r2.len() == 0 || ((r2[0] == 'e' || r2[0] == 'E') && exponent_ok(r2.drop_first())))
}

/// `s` is text that `str::parse::<f32>` accepts: an optional sign, then a
/// decimal number with optional exponent, or `inf`, `infinity`, `nan` in
/// any ASCII case.
#[verifier::opaque]
pub open spec fn is_float_literal(s: Seq<char>) -> bool {
    let b = s.skip(sign_len(s));
    is_special_word(b) || decimal_with_exponent(b)
}

/// Whether `s` reads as an `f32`.
pub fn float_literal_ok(s: &[char]) -> (r: bool)
    ensures
        r == is_float_literal(s@),
{
    proof {
        reveal(is_float_literal);
    }
    let sl: usize = if s.len() > 0 && (s[0] == '+' || s[0] == '-') { 1 } else { 0 };
    let b = skip_chars(s, sl);
    if chars_eq_ignore_ascii_case(b.as_slice(), "inf") || chars_eq_ignore_ascii_case(
        b.as_slice(),
        "infinity",
    ) || chars_eq_ignore_ascii_case(b.as_slice(), "nan") {
        return true;
    }
    let n = count_digits(b.as_slice());
    let r = skip_chars(b.as_slice(), n);
    let f: usize;
    let r2: Vec<char>;
    if r.len() > 0 && r[0] == '.' {
        let after = skip_chars(r.as_slice(), 1);
        assert(after@ =~= r@.drop_first());
        f = count_digits(after.as_slice());
        r2 = skip_chars(after.as_slice(), f);
    } else {
        f = 0;
        r2 = r;
    }
    if n == 0 && f == 0 {
        return false;
    }
    if r2.len() == 0 {
        return true;
    }
    if !(r2[0] == 'e' || r2[0] == 'E') {
        return false;
    }
    let e = skip_chars(r2.as_slice(), 1);
    assert(e@ =~= r2@.drop_first());
    let esl: usize = if e.len() > 0 && (e[0] == '+' || e[0] == '-') { 1 } else { 0 };
    let d = skip_chars(e.as_slice(), esl);
    assert(d@ =~= (if e@.len() > 0 && (e@[0] == '+' || e@[0] == '-') { e@.drop_first() } else { e@ }));
    d.len() > 0 && chars_all_digits(d.as_slice())
}

// ---------------------------------------------------------------------------
// Decimal digit strings as numbers
// ---------------------------------------------------------------------------

/// `a` is at most `b`, read left to right (for strings of equal length).
pub open spec fn lex_le(a: Seq<char>, b: Seq<char>) -> bool
    decreases a.len(),
{
    if a.len() == 0 || b.len() == 0 {
        true
    } else if a[0] < b[0] {
        true
    } else if a[0] > b[0] {
        false
    } else {
        lex_le(a.drop_first(), b.drop_first())
    }
}

pub open spec fn zeros(k: nat) -> Seq<char> {
    Seq::new(k, |i: int| '0')
}

proof fn lemma_digits_single(c: char)
    ensures
        digits_value(seq![c]) == digit_value(c),
{
    assert(seq![c].drop_last() =~= Seq::<char>::empty());
    assert(digits_value(Seq::<char>::empty()) == 0);
    assert(seq![c].last() == c);
}

/// The value of a concatenation of digit strings.
proof fn lemma_digits_concat(a: Seq<char>, b: Seq<char>)
    ensures
        digits_value(a + b) == digits_value(a) * pow(10, b.len()) + digits_value(b),
    decreases b.len(),
{
    reveal(pow);
    if b.len() == 0 {
        assert(a + b =~= a);
        assert(digits_value(b) == 0);
        assert(pow(10, 0) == 1);
        assert(digits_value(a) * 1 == digits_value(a));
    } else {
        assert((a + b).drop_last() =~= a + b.drop_last());
        assert((a + b).last() == b.last());
        lemma_digits_concat(a, b.drop_last());
        let x = digits_value(a) as int;
        let p = pow(10, (b.len() - 1) as nat);
        let y = digits_value(b.drop_last()) as int;
        let d = digit_value(b.last()) as int;
        assert(pow(10, b.len()) == 10 * p);
        assert(digits_value(a + b) == digits_value((a + b).drop_last()) * 10 + digit_value((a + b).last()));
        assert(digits_value(b) == digits_value(b.drop_last()) * 10 + digit_value(b.last()));
        assert(digits_value(a + b.drop_last()) == x * p + y);
        assert((x * p + y) * 10 + d == x * (10 * p) + (y * 10 + d)) by (nonlinear_arith);
    }
}

proof fn lemma_digits_zeros(k: nat)
    ensures
        digits_value(zeros(k)) == 0,
        all_digits(zeros(k)),
    decreases k,
{
    if k > 0 {
        assert(zeros(k).drop_last() =~= zeros((k - 1) as nat));
        lemma_digits_zeros((k - 1) as nat);
    }
}

proof fn lemma_digits_upper(s: Seq<char>)
    requires
        all_digits(s),
    ensures
        0 <= digits_value(s) < pow(10, s.len()),
    decreases s.len(),
{
    reveal(pow);
    if s.len() > 0 {
        assert(all_digits(s.drop_last())) by {
            assert forall|i: int| 0 <= i < s.drop_last().len() implies is_digit(#[trigger] s.drop_last()[i]) by {
                assert(s.drop_last()[i] == s[i]);
            }
        }
        lemma_digits_upper(s.drop_last());
        assert(is_digit(s[s.len() - 1]));
        let x = digits_value(s.drop_last());
        let p = pow(10, (s.len() - 1) as nat);
        let d = digit_value(s.last());
        assert(d <= 9);
        assert(x * 10 + d < 10 * p) by (nonlinear_arith)
            requires
                x < p,
                d <= 9,
        ;
    }
}

proof fn lemma_digits_lower(s: Seq<char>)
    requires
        all_digits(s),
        s.len() > 0,
        s[0] != '0',
    ensures
        digits_value(s) >= pow(10, (s.len() - 1) as nat),
{
    let h = seq![s[0]];
    let t = s.drop_first();
    assert(h + t =~= s);
    lemma_digits_concat(h, t);
    lemma_digits_single(s[0]);
    assert(is_digit(s[0]));
    assert(digit_value(s[0]) >= 1);
    lemma_pow_positive(10, t.len());
    assert(all_digits(t)) by {
        assert forall|i: int| 0 <= i < t.len() implies is_digit(#[trigger] t[i]) by {
            assert(t[i] == s[i + 1]);
        }
    }
    lemma_digits_upper(t);
    let d = digit_value(s[0]) as int;
    let p = pow(10, t.len());
    assert(d * p >= p) by (nonlinear_arith)
        requires
            d >= 1,
            p > 0,
    ;
}

proof fn lemma_all_digits_drop_first(s: Seq<char>)
    requires
        all_digits(s),
        s.len() > 0,
    ensures
        all_digits(s.drop_first()),
{
    assert forall|i: int| 0 <= i < s.drop_first().len() implies is_digit(#[trigger] s.drop_first()[i]) by {
        assert(s.drop_first()[i] == s[i + 1]);
    }
}

/// For digit strings of one length, reading left to right orders them as
/// numbers.
proof fn lemma_lex_le_is_numeric(a: Seq<char>, b: Seq<char>)
    requires
        all_digits(a),
        all_digits(b),
        a.len() == b.len(),
    ensures
        lex_le(a, b) <==> digits_value(a) <= digits_value(b),
    decreases a.len(),
{
    if a.len() > 0 {
        let k = (a.len() - 1) as nat;
        let ha = seq![a[0]];
        let hb = seq![b[0]];
        let ta = a.drop_first();
        let tb = b.drop_first();
        assert(ha + ta =~= a);
        assert(hb + tb =~= b);
        lemma_digits_concat(ha, ta);
        lemma_digits_concat(hb, tb);
        lemma_digits_single(a[0]);
        lemma_digits_single(b[0]);
        lemma_all_digits_drop_first(a);
        lemma_all_digits_drop_first(b);
        lemma_digits_upper(ta);
        lemma_digits_upper(tb);
        lemma_lex_le_is_numeric(ta, tb);
        assert(is_digit(a[0]) && is_digit(b[0]));
        let da = digit_value(a[0]) as int;
        let db = digit_value(b[0]) as int;
        let p = pow(10, k);
        let xa = digits_value(ta) as int;
        let xb = digits_value(tb) as int;
        lemma_pow_positive(10, k);
        if a[0] < b[0] {
            assert(da < db);
            assert(da * p + xa <= db * p + xb) by (nonlinear_arith)
                requires
                    da + 1 <= db,
                    0 <= xa < p,
                    0 <= xb,
                    p > 0,
            ;
        } else if a[0] > b[0] {
            assert(da > db);
            assert(da * p + xa > db * p + xb) by (nonlinear_arith)
                requires
                    db + 1 <= da,
                    0 <= xb < p,
                    0 <= xa,
                    p > 0,
            ;
        } else {
            assert(da == db);
        }
    }
}

/// Digit strings without leading zeros compare by length first, then left
/// to right.
proof fn lemma_digits_compare(x: Seq<char>, y: Seq<char>)
    requires
        all_digits(x),
        all_digits(y),
        x.len() > 0,
        y.len() > 0,
        x[0] != '0',
        y[0] != '0',
    ensures
        digits_value(x) <= digits_value(y) <==> (x.len() < y.len() || (x.len() == y.len() && lex_le(x, y))),
{
    lemma_digits_upper(x);
    lemma_digits_upper(y);
    lemma_digits_lower(x);
    lemma_digits_lower(y);
    if x.len() < y.len() {
        lemma_pow_increases(10, x.len(), (y.len() - 1) as nat);
    } else if x.len() > y.len() {
        lemma_pow_increases(10, y.len(), (x.len() - 1) as nat);
    } else {
        lemma_lex_le_is_numeric(x, y);
    }
}

// ---------------------------------------------------------------------------
// Reading a literal as a number
// ---------------------------------------------------------------------------

/// The digits of an exponent, after its optional sign.
pub open spec fn exponent_digits(e: Seq<char>) -> Seq<char> {
    if e.len() > 0 && (e[0] == '+' || e[0] == '-') {
        e.drop_first()
    } else {
        e
    }
}

/// The value of an exponent: its digits, negated after a `-`.
pub open spec fn exponent_value(e: Seq<char>) -> int {
    if e.len() > 0 && e[0] == '-' {
        -digits_value(exponent_digits(e))
    } else {
        digits_value(exponent_digits(e)) as int
    }
}

/// A decimal literal with optional exponent, split into the mantissa's
/// digits (integer digits, then fraction digits), the number of fraction
/// digits, and the exponent: the literal stands for
/// `digits × 10^(exponent - fraction digits)`.
pub open spec fn literal_parts(b: Seq<char>) -> Option<(Seq<char>, nat, int)> {
    let n = digit_run(b);
    let r = b.skip(n as int);
    let point = r.len() > 0 && r[0] == '.';
    let f = if point { digit_run(r.drop_first()) } else { 0 };
    let r2 = if point { r.drop_first().skip(f as int) } else { r };
    let digits = if point { b.take(n as int) + r.drop_first().take(f as int) } else { b.take(n as int) };
    if n + f == 0 {
        None
    } else if r2.len() == 0 {
        Some((digits, f, 0))
    } else if (r2[0] == 'e' || r2[0] == 'E') && exponent_ok(r2.drop_first()) {
        Some((digits, f, exponent_value(r2.drop_first())))
    } else {
        None
    }
}

/// `n × 10^e` is at most `bound × 10^-p`.
pub open spec fn scaled_le(n: nat, e: int, bound: nat, p: nat) -> bool {
    let t = e + p;
    if t >= 0 {
        n * pow(10, t as nat) <= bound
    } else {
        n <= bound * pow(10, (-t) as nat)
    }
}

/// `1 + 2^-24` times `10^24`: a non-negative literal reads as an `f32` of at
/// most `1.0` exactly when it is at most `1 + 2^-24` (the tie rounds to
/// even, to `1.0`).
pub open spec fn unit_bound_digits() -> Seq<char> {
    "1000000059604644775390625"@
}

/// `2^-150` times `10^150`: a negative literal reads as `-0.0` exactly when
/// its magnitude is at most `2^-150`, half the least positive `f32` (the
/// tie rounds to even, to zero).
pub open spec fn zero_bound_digits() -> Seq<char> {
    "700649232162408535461864791644958065640130970938257885878534141944895541342930300743319094181060791015625"@
}

/// How the threshold literal `s` reads: not a number, a number whose
/// nearest `f32` lies outside `0.0..=1.0` (`nan` and the infinities
/// included), or one whose nearest `f32` lies inside.
pub open spec fn classify_threshold(s: Seq<char>) -> ThresholdClass {
    let b = s.skip(sign_len(s));
    if is_special_word(b) {
        ThresholdClass::OutOfRange
    } else {
        match literal_parts(b) {
            None => ThresholdClass::Malformed,
            Some((d, f, x)) => {
                let within = if is_negative(s) {
                    scaled_le(digits_value(d), x - f, digits_value(zero_bound_digits()), 150)
                } else {
                    scaled_le(digits_value(d), x - f, digits_value(unit_bound_digits()), 24)
                };
                if within {
                    ThresholdClass::InRange
                } else {
                    ThresholdClass::OutOfRange
                }
            },
        }
    }
}

fn pad_zeros(v: &[char], k: usize) -> (r: Vec<char>)
    ensures
        r@ == v@ + zeros(k as nat),
{
    let mut r: Vec<char> = Vec::new();
    let mut i: usize = 0;
    while i < v.len()
        invariant
            i <= v@.len(),
            r@ == v@.take(i as int),
        decreases v.len() - i,
    {
        r.push(v[i]);
        assert(v@.take(i + 1) =~= v@.take(i as int).push(v@[i as int]));
        i += 1;
    }
    assert(v@.take(v@.len() as int) =~= v@);
    let mut j: usize = 0;
    while j < k
        invariant
            j <= k,
            r@ == v@ + zeros(j as nat),
        decreases k - j,
    {
        r.push('0');
        assert(v@ + zeros((j + 1) as nat) =~= (v@ + zeros(j as nat)).push('0'));
        j += 1;
    }
    r
}

fn chars_lex_le(a: &[char], b: &[char]) -> (r: bool)
    requires
        a@.len() == b@.len(),
    ensures
        r == lex_le(a@, b@),
{
    let mut i: usize = 0;
    assert(a@.skip(0) =~= a@);
    assert(b@.skip(0) =~= b@);
    while i < a.len()
        invariant
            a@.len() == b@.len(),
            i <= a@.len(),
            lex_le(a@, b@) == lex_le(a@.skip(i as int), b@.skip(i as int)),
        decreases a.len() - i,
    {
        assert(a@.skip(i as int)[0] == a@[i as int]);
        assert(b@.skip(i as int)[0] == b@[i as int]);
        assert(a@.skip(i as int).drop_first() =~= a@.skip(i + 1));
        assert(b@.skip(i as int).drop_first() =~= b@.skip(i + 1));
        if a[i] < b[i] {
            return true;
        }
        if a[i] > b[i] {
            return false;
        }
        i += 1;
    }
    assert(a@.skip(i as int).len() == 0);
    true
}

proof fn lemma_all_digits_skip(s: Seq<char>, k: int)
    requires
        all_digits(s),
        0 <= k <= s.len(),
    ensures
        all_digits(s.skip(k)),
        all_digits(s.take(k)),
{
    assert forall|i: int| 0 <= i < s.skip(k).len() implies is_digit(#[trigger] s.skip(k)[i]) by {
        assert(s.skip(k)[i] == s[i + k]);
    }
    assert forall|i: int| 0 <= i < s.take(k).len() implies is_digit(#[trigger] s.take(k)[i]) by {
        assert(s.take(k)[i] == s[i]);
    }
}

proof fn lemma_all_digits_concat(a: Seq<char>, b: Seq<char>)
    requires
        all_digits(a),
        all_digits(b),
    ensures
        all_digits(a + b),
{
    assert forall|i: int| 0 <= i < (a + b).len() implies is_digit(#[trigger] (a + b)[i]) by {
        if i < a.len() {
            assert((a + b)[i] == a[i]);
        } else {
            assert((a + b)[i] == b[i - a.len()]);
        }
    }
}

/// Leading zeros do not change a value.
proof fn lemma_strip_zeros(d: Seq<char>, z: int)
    requires
        0 <= z <= d.len(),
        forall|j: int| 0 <= j < z ==> #[trigger] d[j] == '0',
    ensures
        digits_value(d) == digits_value(d.skip(z)),
{
    assert(zeros(z as nat) + d.skip(z) =~= d);
    lemma_digits_concat(zeros(z as nat), d.skip(z));
    lemma_digits_zeros(z as nat);
}

fn parse_exponent(ep: &[char]) -> (v: u128)
    requires
        all_digits(ep@),
        ep@.len() <= 24,
    ensures
        v == digits_value(ep@),
        v < 1_000_000_000_000_000_000_000_000,
{
    proof {
        assert(pow(10, 24) == 1_000_000_000_000_000_000_000_000) by {
            reveal_with_fuel(pow, 25);
        }
    }
    let mut v: u128 = 0;
    let mut i: usize = 0;
    while i < ep.len()
        invariant
            all_digits(ep@),
            ep@.len() <= 24,
            pow(10, 24) == 1_000_000_000_000_000_000_000_000,
            i <= ep@.len(),
            v == digits_value(ep@.take(i as int)),
        decreases ep.len() - i,
    {
        proof {
            lemma_all_digits_skip(ep@, i as int);
            lemma_digits_upper(ep@.take(i as int));
            lemma_pow_increases(10, i as nat, 23);
            assert(pow(10, 23) * 10 == pow(10, 24)) by {
                reveal(pow);
            }
            assert(is_digit(ep@[i as int]));
            assert(ep@.take(i + 1).drop_last() =~= ep@.take(i as int));
            assert(ep@.take(i + 1).last() == ep@[i as int]);
        }
        let d = (ep[i] as u32 - '0' as u32) as u128;
        assert(d == digit_value(ep@[i as int]));
        v = v * 10 + d;
        i += 1;
    }
    proof {
        assert(ep@.take(ep@.len() as int) =~= ep@);
        lemma_digits_upper(ep@);
        lemma_pow_increases(10, ep@.len(), 24);
    }
    v
}

fn append_chars(a: &[char], b: &[char]) -> (r: Vec<char>)
    ensures
        r@ == a@ + b@,
{
    let mut r = pad_zeros(a, 0);
    assert(a@ + zeros(0) =~= a@);
    let mut i: usize = 0;
    while i < b.len()
        invariant
            i <= b@.len(),
            r@ == a@ + b@.take(i as int),
        decreases b.len() - i,
    {
        r.push(b[i]);
        assert(a@ + b@.take(i + 1) =~= (a@ + b@.take(i as int)).push(b@[i as int]));
        i += 1;
    }
    assert(b@.take(b@.len() as int) =~= b@);
    r
}

/// Whether `d × 10^(x - frac)` is at most `bound × 10^-p`, where `x` is the
/// exponent: the value of `exp_digits`, negated when `exp_negative`.
fn scaled_at_most(d: &[char], frac: usize, exp_negative: bool, exp_digits: &[char], bound: &[char], p: u64) -> (r: bool)
    requires
        all_digits(d@),
        all_digits(exp_digits@),
        all_digits(bound@),
        0 < bound@.len() <= 105,
        bound@[0] != '0',
        p <= 150,
    ensures
        r == scaled_le(
            digits_value(d@),
            (if exp_negative { -digits_value(exp_digits@) } else { digits_value(exp_digits@) as int }) - frac,
            digits_value(bound@),
            p as nat,
        ),
{
    let z = count_zeros(d);
    let dp = skip_chars(d, z);
    let ghost n = digits_value(d@);
    let ghost b = digits_value(bound@);
    let ghost x = if exp_negative { -digits_value(exp_digits@) } else { digits_value(exp_digits@) as int };
    let ghost tt = x - frac + p;
    proof {
        lemma_strip_zeros(d@, z as int);
        lemma_all_digits_skip(d@, z as int);
        lemma_digits_upper(bound@);
        lemma_digits_lower(bound@);
        lemma_pow_positive(10, (bound@.len() - 1) as nat);
    }
    if dp.len() == 0 {
        proof {
            assert(n == 0);
            if tt >= 0 {
                assert(0 * pow(10, tt as nat) == 0);
            } else {
                lemma_pow_positive(10, (-tt) as nat);
                assert(b * pow(10, (-tt) as nat) >= 0) by (nonlinear_arith)
                    requires
                        b >= 0,
                        pow(10, (-tt) as nat) > 0,
                ;
            }
        }
        return true;
    }
    proof {
        assert(dp@[0] == d@[z as int]);
        lemma_digits_lower(dp@);
        lemma_pow_positive(10, (dp@.len() - 1) as nat);
        lemma_digits_upper(dp@);
    }
    let ez = count_zeros(exp_digits);
    let ep = skip_chars(exp_digits, ez);
    proof {
        lemma_strip_zeros(exp_digits@, ez as int);
        lemma_all_digits_skip(exp_digits@, ez as int);
    }
    if ep.len() > 24 {
        proof {
            assert(ep@[0] == exp_digits@[ez as int]);
            lemma_digits_lower(ep@);
            lemma_pow_increases(10, 24, (ep@.len() - 1) as nat);
            assert(pow(10, 24) == 1_000_000_000_000_000_000_000_000) by {
                reveal_with_fuel(pow, 25);
            }
            let big = digits_value(ep@) as int;
            assert(big >= 1_000_000_000_000_000_000_000_000);
            if exp_negative {
                assert(tt < 0);
                let k = (-tt) as nat;
                assert(dp@.len() <= k);
                lemma_pow_increases(10, dp@.len(), k);
                lemma_pow_positive(10, k);
                assert(n <= b * pow(10, k)) by (nonlinear_arith)
                    requires
                        n < pow(10, dp@.len()),
                        pow(10, dp@.len()) <= pow(10, k),
                        b >= 1,
                ;
            } else {
                assert(tt >= 106);
                let k = tt as nat;
                lemma_pow_increases(10, bound@.len(), k);
                assert(n * pow(10, k) > b) by (nonlinear_arith)
                    requires
                        n >= 1,
                        b < pow(10, bound@.len()),
                        pow(10, bound@.len()) <= pow(10, k),
                ;
            }
        }
        return exp_negative;
    }
    let v = parse_exponent(ep.as_slice());
    let x_exec: i128 = if exp_negative { -(v as i128) } else { v as i128 };
    let t: i128 = x_exec - frac as i128 + p as i128;
    assert(t == tt);
    let l: i128 = dp.len() as i128;
    let m: i128 = bound.len() as i128;
    let a: i128 = if t > 0 { t } else { 0 };
    let c: i128 = if t < 0 { -t } else { 0 };
    let left: i128 = l + a;
    let right: i128 = m + c;
    let ghost xs = dp@ + zeros(a as nat);
    let ghost ys = bound@ + zeros(c as nat);
    proof {
        lemma_digits_concat(dp@, zeros(a as nat));
        lemma_digits_zeros(a as nat);
        lemma_digits_concat(bound@, zeros(c as nat));
        lemma_digits_zeros(c as nat);
        lemma_all_digits_concat(dp@, zeros(a as nat));
        lemma_all_digits_concat(bound@, zeros(c as nat));
        assert(xs[0] == dp@[0]);
        assert(ys[0] == bound@[0]);
        lemma_digits_compare(xs, ys);
        assert(pow(10, 0) == 1) by {
            reveal(pow);
        }
        if t >= 0 {
            assert(digits_value(ys) == b * 1);
        } else {
            assert(digits_value(xs) == digits_value(dp@) * 1);
        }
    }
    if left < right {
        return true;
    }
    if left > right {
        return false;
    }
    let xv = pad_zeros(dp.as_slice(), a as usize);
    let yv = pad_zeros(bound, c as usize);
    chars_lex_le(xv.as_slice(), yv.as_slice())
}

proof fn lemma_prefix_digits(s: Seq<char>, n: int)
    requires
        0 <= n <= s.len(),
        forall|j: int| 0 <= j < n ==> is_digit(#[trigger] s[j]),
    ensures
        all_digits(s.take(n)),
{
    assert forall|i: int| 0 <= i < s.take(n).len() implies is_digit(#[trigger] s.take(n)[i]) by {
        assert(s.take(n)[i] == s[i]);
    }
}

/// The parts of a decimal literal with optional exponent: the mantissa's
/// digits, the number of fraction digits, whether the exponent is negative,
/// and the exponent's digits (none when there is no exponent).
fn read_literal(b: &[char]) -> (r: Option<(Vec<char>, usize, bool, Vec<char>)>)
    ensures
        match (r, literal_parts(b@)) {
            (Some((d, f, neg, e)), Some((sd, sf, sx))) => {
                &&& d@ == sd
                &&& f == sf
                &&& all_digits(d@)
                &&& all_digits(e@)
                &&& sx == (if neg { -digits_value(e@) } else { digits_value(e@) as int })
            },
            (None, None) => true,
            _ => false,
        },
{
    let n = count_digits(b);
    let r = skip_chars(b, n);
    let int_digits = take_chars(b, n);
    proof {
        lemma_prefix_digits(b@, n as int);
    }
    let f: usize;
    let r2: Vec<char>;
    let digits: Vec<char>;
    if r.len() > 0 && r[0] == '.' {
        let after = skip_chars(r.as_slice(), 1);
        assert(after@ =~= r@.drop_first());
        f = count_digits(after.as_slice());
        r2 = skip_chars(after.as_slice(), f);
        let frac_digits = take_chars(after.as_slice(), f);
        proof {
            lemma_prefix_digits(after@, f as int);
            lemma_all_digits_concat(int_digits@, frac_digits@);
        }
        digits = append_chars(int_digits.as_slice(), frac_digits.as_slice());
    } else {
        f = 0;
        r2 = r;
        digits = int_digits;
    }
    if n == 0 && f == 0 {
        return None;
    }
    if r2.len() == 0 {
        proof {
            assert(digits_value(Seq::<char>::empty()) == 0);
        }
        return Some((digits, f, false, Vec::new()));
    }
    if !(r2[0] == 'e' || r2[0] == 'E') {
        return None;
    }
    let e = skip_chars(r2.as_slice(), 1);
    assert(e@ =~= r2@.drop_first());
    let neg = e.len() > 0 && e[0] == '-';
    let esl: usize = if e.len() > 0 && (e[0] == '+' || e[0] == '-') { 1 } else { 0 };
    let ed = skip_chars(e.as_slice(), esl);
    assert(ed@ =~= exponent_digits(e@));
    if ed.len() > 0 && chars_all_digits(ed.as_slice()) {
        Some((digits, f, neg, ed))
    } else {
        None
    }
}

/// Reads a threshold literal. The result is [`classify_threshold`] of it.
pub fn classify(s: &[char]) -> (r: ThresholdClass)
    ensures
        r == classify_threshold(s@),
{
    let sl: usize = if s.len() > 0 && (s[0] == '+' || s[0] == '-') { 1 } else { 0 };
    let negative = s.len() > 0 && s[0] == '-';
    let b = skip_chars(s, sl);
    if chars_eq_ignore_ascii_case(b.as_slice(), "inf") || chars_eq_ignore_ascii_case(
        b.as_slice(),
        "infinity",
    ) || chars_eq_ignore_ascii_case(b.as_slice(), "nan") {
        return ThresholdClass::OutOfRange;
    }
    match read_literal(b.as_slice()) {
        None => ThresholdClass::Malformed,
        Some((d, f, neg, e)) => {
            let within = if negative {
                let bound = chars_of("700649232162408535461864791644958065640130970938257885878534141944895541342930300743319094181060791015625");
                proof {
                    reveal_strlit("700649232162408535461864791644958065640130970938257885878534141944895541342930300743319094181060791015625");
                    assert(all_digits(bound@));
                }
                scaled_at_most(d.as_slice(), f, neg, e.as_slice(), bound.as_slice(), 150)
            } else {
                let bound = chars_of("1000000059604644775390625");
                proof {
                    reveal_strlit("1000000059604644775390625");
                    assert(all_digits(bound@));
                }
                scaled_at_most(d.as_slice(), f, neg, e.as_slice(), bound.as_slice(), 24)
            };
            if within {
                ThresholdClass::InRange
            } else {
                ThresholdClass::OutOfRange
            }
        },
    }
}

/// A threshold is malformed exactly when `str::parse::<f32>` refuses its
/// text.
pub proof fn lemma_malformed_iff_not_float(s: Seq<char>)
    ensures
        (classify_threshold(s) == ThresholdClass::Malformed) <==> !is_float_literal(s),
{
    reveal(is_float_literal);
    let b = s.skip(sign_len(s));
    let n = digit_run(b);
    let r = b.skip(n as int);
    let point = r.len() > 0 && r[0] == '.';
    let f = if point { digit_run(r.drop_first()) } else { 0 };
    let r2 = if point { r.drop_first().skip(f as int) } else { r };
    if r2.len() > 0 && (r2[0] == 'e' || r2[0] == 'E') {
        assert(exponent_ok(r2.drop_first()) == (exponent_digits(r2.drop_first()).len() > 0 && all_digits(
            exponent_digits(r2.drop_first()),
        )));
    }
}

} // verus!
