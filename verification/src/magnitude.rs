//! The numbers that number literals and decimals denote, and the proof that
//! a decimal is a faithful and canonical form of such a number.
//!
//! A sequence of digits with `k` of them after the point denotes the number
//! `m / 10^k`, where `m` is what all its digits denote as a natural number.
//! Two such pairs denote the same number when cross-multiplying them gives
//! the same product.

use crate::chars::{digits, is_digit, lemma_prefix_len, prefix_len};
use crate::decimal::{
    decimal_of, is_numeral, lemma_decimal_of_wf, trim_leading_zeros, trim_trailing_zeros,
    DecimalView,
};
use vstd::prelude::*;

verus! {

/// Ten to the power of `k`.
pub open spec fn pow10(k: nat) -> nat
    decreases k,
{
    if k == 0 {
        1
    } else {
        10 * pow10((k - 1) as nat)
    }
}

/// The number that the digit `c` denotes.
pub open spec fn digit_value(c: char) -> nat
    recommends
        is_digit(c),
{
    (c as int - '0' as int) as nat
}

/// The natural number that the digits `ds` denote in base ten.
pub open spec fn digits_value(ds: Seq<char>) -> nat
    decreases ds.len(),
{
    if ds.len() == 0 {
        0
    } else {
        digits_value(ds.drop_last()) * 10 + digit_value(ds.last())
    }
}

/// Whether `m1 / 10^k1` and `m2 / 10^k2` are the same number.
pub open spec fn same_number(m1: nat, k1: nat, m2: nat, k2: nat) -> bool {
    m1 * pow10(k2) == m2 * pow10(k1)
}

/// Whether every character of `ds` is a digit.
pub open spec fn all_digits(ds: Seq<char>) -> bool {
    forall|i: int| 0 <= i < ds.len() ==> is_digit(#[trigger] ds[i])
}

impl DecimalView {
    /// How many digits stand after the point.
    pub open spec fn scale(self) -> nat {
        self.frac.len()
    }

    /// What all the digits denote together; the value is this number
    /// divided by ten to the power of `scale`.
    pub open spec fn mantissa(self) -> nat {
        digits_value(self.whole + self.frac)
    }
}

/// All the digits of the number literal `s`, without its point.
pub open spec fn numeral_digits(s: Seq<char>) -> Seq<char> {
    let n = prefix_len(s, digits()) as int;
    if n < s.len() {
        s.take(n) + s.skip(n + 1)
    } else {
        s
    }
}

/// How many digits of the number literal `s` stand after its point.
pub open spec fn numeral_scale(s: Seq<char>) -> nat {
    let n = prefix_len(s, digits());
    if n < s.len() {
        (s.len() - n - 1) as nat
    } else {
        0
    }
}

/// Powers of ten are positive.
pub proof fn lemma_pow10_positive(k: nat)
    ensures
        pow10(k) > 0,
    decreases k,
{
    if k > 0 {
        lemma_pow10_positive((k - 1) as nat);
    }
}

/// Ten to a sum is the product of the powers.
pub proof fn lemma_pow10_adds(a: nat, b: nat)
    ensures
        pow10(a + b) == pow10(a) * pow10(b),
    decreases a,
{
    if a > 0 {
        lemma_pow10_adds((a - 1) as nat, b);
        assert(pow10(a + b) == 10 * pow10((a + b - 1) as nat));
        assert(10 * (pow10((a - 1) as nat) * pow10(b)) == (10 * pow10((a - 1) as nat)) * pow10(b))
            by (nonlinear_arith);
    } else {
        assert(1 * pow10(b) == pow10(b));
    }
}

/// A greater power of ten is a greater number.
pub proof fn lemma_pow10_increases(a: nat, b: nat)
    requires
        a <= b,
    ensures
        pow10(a) <= pow10(b),
    decreases b,
{
    if a < b {
        lemma_pow10_increases(a, (b - 1) as nat);
        lemma_pow10_positive((b - 1) as nat);
    }
}

/// What digits followed by other digits denote.
pub proof fn lemma_value_concat(a: Seq<char>, b: Seq<char>)
    ensures
        digits_value(a + b) == digits_value(a) * pow10(b.len()) + digits_value(b),
    decreases b.len(),
{
    if b.len() == 0 {
        assert(a + b =~= a);
        assert(digits_value(a) * 1 == digits_value(a));
    } else {
        let b0 = b.drop_last();
        lemma_value_concat(a, b0);
        assert((a + b).drop_last() =~= a + b0);
        assert((a + b).last() == b.last());
        let x = digits_value(a) as int;
        let p = pow10(b0.len()) as int;
        let y = digits_value(b0) as int;
        assert((x * p + y) * 10 == x * (10 * p) + y * 10) by (nonlinear_arith);
    }
}

/// Digits denote less than ten to the power of their number.
pub proof fn lemma_value_below(ds: Seq<char>)
    requires
        all_digits(ds),
    ensures
        digits_value(ds) < pow10(ds.len()),
    decreases ds.len(),
{
    if ds.len() > 0 {
        let init = ds.drop_last();
        assert forall|i: int| 0 <= i < init.len() implies is_digit(#[trigger] init[i]) by {
            assert(init[i] == ds[i]);
        }
        lemma_value_below(init);
        assert(is_digit(ds.last()));
    }
}

/// Digits that do not start with a zero denote at least ten to the power
/// of their number less one.
pub proof fn lemma_value_at_least(ds: Seq<char>)
    requires
        all_digits(ds),
        ds.len() > 0,
        ds[0] != '0',
    ensures
        digits_value(ds) >= pow10((ds.len() - 1) as nat),
    decreases ds.len(),
{
    if ds.len() == 1 {
        assert(ds.drop_last().len() == 0);
        assert(is_digit(ds[0]));
    } else {
        let init = ds.drop_last();
        assert forall|i: int| 0 <= i < init.len() implies is_digit(#[trigger] init[i]) by {
            assert(init[i] == ds[i]);
        }
        assert(init[0] == ds[0]);
        lemma_value_at_least(init);
    }
}

/// Zeros in front do not change what digits denote.
pub proof fn lemma_value_trim_leading(w: Seq<char>)
    ensures
        digits_value(trim_leading_zeros(w)) == digits_value(w),
    decreases w.len(),
{
    if w.len() > 1 && w[0] == '0' {
        let t = w.drop_first();
        lemma_value_trim_leading(t);
        let z = seq!['0'];
        assert(w =~= z + t);
        lemma_value_concat(z, t);
        assert(digits_value(z.drop_last()) == 0);
        assert(digit_value(z.last()) == 0);
        assert(digits_value(z) == 0);
        assert(0 * pow10(t.len()) == 0);
    }
}

/// Each zero at the end multiplies what digits denote by ten.
pub proof fn lemma_value_trim_trailing(w: Seq<char>, f: Seq<char>)
    ensures
        trim_trailing_zeros(f).len() <= f.len(),
        digits_value(w + f) == digits_value(w + trim_trailing_zeros(f)) * pow10(
            (f.len() - trim_trailing_zeros(f).len()) as nat,
        ),
    decreases f.len(),
{
    if f.len() > 0 && f.last() == '0' {
        let t = f.drop_last();
        lemma_value_trim_trailing(w, t);
        assert((w + f).drop_last() =~= w + t);
        assert((w + f).last() == '0');
        let k = (t.len() - trim_trailing_zeros(t).len()) as nat;
        let m = digits_value(w + trim_trailing_zeros(t)) as int;
        let p = pow10(k) as int;
        assert(pow10(k + 1) == 10 * pow10(k));
        assert((m * p) * 10 == m * (10 * p)) by (nonlinear_arith);
    } else {
        let m = digits_value(w + f) as int;
        assert(m * 1 == m);
    }
}

/// A number literal and its value denote the same number: nothing is
/// rounded or lost.
pub proof fn lemma_decimal_is_faithful(s: Seq<char>)
    requires
        is_numeral(s),
    ensures
        same_number(
            digits_value(numeral_digits(s)),
            numeral_scale(s),
            decimal_of(s).mantissa(),
            decimal_of(s).scale(),
        ),
{
    let n = prefix_len(s, digits()) as int;
    lemma_prefix_len(s, digits());
    let w = s.take(n);
    let tw = trim_leading_zeros(w);
    let d = decimal_of(s);
    lemma_value_trim_leading(w);
    if n < s.len() {
        let f = s.skip(n + 1);
        let tf = trim_trailing_zeros(f);
        lemma_value_trim_trailing(w, f);
        lemma_value_concat(w, tf);
        lemma_value_concat(tw, tf);
        let k = (f.len() - tf.len()) as nat;
        // all digits == mantissa * 10^k, and scale(s) == scale(d) + k
        lemma_pow10_adds(tf.len(), k);
        let m = d.mantissa() as int;
        let pk = pow10(k) as int;
        let pt = pow10(tf.len()) as int;
        assert((m * pk) * pt == m * (pt * pk)) by (nonlinear_arith);
    } else {
        assert(w =~= s);
        assert(tw + Seq::<char>::empty() =~= tw);
    }
}

/// Digits of the same number that denote the same are the same.
pub proof fn lemma_value_injective(a: Seq<char>, b: Seq<char>)
    requires
        all_digits(a),
        all_digits(b),
        a.len() == b.len(),
        digits_value(a) == digits_value(b),
    ensures
        a == b,
    decreases a.len(),
{
    if a.len() > 0 {
        let a0 = a.drop_last();
        let b0 = b.drop_last();
        assert forall|i: int| 0 <= i < a0.len() implies is_digit(#[trigger] a0[i]) by {
            assert(a0[i] == a[i]);
        }
        assert forall|i: int| 0 <= i < b0.len() implies is_digit(#[trigger] b0[i]) by {
            assert(b0[i] == b[i]);
        }
        assert(is_digit(a.last()) && is_digit(b.last()));
        lemma_value_injective(a0, b0);
        assert(a =~= a0.push(a.last()));
        assert(b =~= b0.push(b.last()));
    } else {
        assert(a =~= b);
    }
}

/// Whole parts in shortest form that denote the same are the same.
pub proof fn lemma_whole_injective(a: Seq<char>, b: Seq<char>)
    requires
        all_digits(a),
        all_digits(b),
        a.len() >= 1,
        b.len() >= 1,
        a.len() > 1 ==> a[0] != '0',
        b.len() > 1 ==> b[0] != '0',
        digits_value(a) == digits_value(b),
    ensures
        a == b,
{
    if a.len() < b.len() {
        lemma_value_below(a);
        lemma_value_at_least(b);
        lemma_pow10_increases(a.len(), (b.len() - 1) as nat);
    } else if b.len() < a.len() {
        lemma_value_below(b);
        lemma_value_at_least(a);
        lemma_pow10_increases(b.len(), (a.len() - 1) as nat);
    } else {
        lemma_value_injective(a, b);
    }
}

/// A decimal with more digits after the point than another, the last of
/// them no zero, does not denote the same number.
proof fn lemma_longer_fraction_differs(d1: DecimalView, d2: DecimalView)
    requires
        d1.wf(),
        d2.wf(),
        d1.scale() < d2.scale(),
    ensures
        !same_number(d1.mantissa(), d1.scale(), d2.mantissa(), d2.scale()),
{
    let k = (d2.scale() - d1.scale()) as nat;
    let all = d2.whole + d2.frac;
    assert(all.last() == d2.frac.last());
    assert(is_digit(d2.frac.last()));
    let m1 = d1.mantissa() as int;
    let m2 = d2.mantissa() as int;
    let init = digits_value(all.drop_last()) as int;
    let last = digit_value(all.last()) as int;
    assert(m2 == init * 10 + last);
    assert(1 <= last <= 9);
    lemma_pow10_adds(d1.scale(), k);
    lemma_pow10_positive(d1.scale());
    let r1 = pow10(d1.scale()) as int;
    let pk = pow10(k) as int;
    let q = pow10((k - 1) as nat) as int;
    assert(pk == 10 * q);
    if same_number(d1.mantissa(), d1.scale(), d2.mantissa(), d2.scale()) {
        assert(m1 * (r1 * pk) == m2 * r1);
        assert(m1 * pk == m2) by (nonlinear_arith)
            requires
                m1 * (r1 * pk) == m2 * r1,
                r1 > 0,
        ;
        let x = m1 * q;
        assert(m1 * (10 * q) == 10 * x) by (nonlinear_arith)
            requires
                x == m1 * q,
        ;
        assert(10 * (x - init) == last);
    }
}

/// A decimal is the canonical form of its number: two well-formed decimals
/// that denote the same number are the same decimal.
pub proof fn lemma_decimal_is_canonical(d1: DecimalView, d2: DecimalView)
    requires
        d1.wf(),
        d2.wf(),
        same_number(d1.mantissa(), d1.scale(), d2.mantissa(), d2.scale()),
    ensures
        d1 == d2,
{
    if d1.scale() < d2.scale() {
        lemma_longer_fraction_differs(d1, d2);
    } else if d2.scale() < d1.scale() {
        lemma_longer_fraction_differs(d2, d1);
    } else {
        let p = pow10(d1.scale()) as int;
        lemma_pow10_positive(d1.scale());
        let m1 = d1.mantissa() as int;
        let m2 = d2.mantissa() as int;
        assert(m1 == m2) by (nonlinear_arith)
            requires
                m1 * p == m2 * p,
                p > 0,
        ;
        lemma_value_concat(d1.whole, d1.frac);
        lemma_value_concat(d2.whole, d2.frac);
        lemma_value_below(d1.frac);
        lemma_value_below(d2.frac);
        let w1 = digits_value(d1.whole) as int;
        let w2 = digits_value(d2.whole) as int;
        let f1 = digits_value(d1.frac) as int;
        let f2 = digits_value(d2.frac) as int;
        assert(w1 == w2 && f1 == f2) by (nonlinear_arith)
            requires
                w1 * p + f1 == w2 * p + f2,
                0 <= f1 < p,
                0 <= f2 < p,
        ;
        lemma_whole_injective(d1.whole, d2.whole);
        lemma_value_injective(d1.frac, d2.frac);
    }
}

/// Two number literals have the same value exactly when they denote the
/// same number.
pub proof fn lemma_same_value_same_number(s1: Seq<char>, s2: Seq<char>)
    requires
        is_numeral(s1),
        is_numeral(s2),
    ensures
        decimal_of(s1) == decimal_of(s2) <==> same_number(
            digits_value(numeral_digits(s1)),
            numeral_scale(s1),
            digits_value(numeral_digits(s2)),
            numeral_scale(s2),
        ),
{
    let d1 = decimal_of(s1);
    let d2 = decimal_of(s2);
    lemma_decimal_is_faithful(s1);
    lemma_decimal_is_faithful(s2);
    lemma_decimal_of_wf(s1);
    lemma_decimal_of_wf(s2);
    let a1 = digits_value(numeral_digits(s1)) as int;
    let a2 = digits_value(numeral_digits(s2)) as int;
    let m1 = d1.mantissa() as int;
    let m2 = d2.mantissa() as int;
    let r1 = pow10(numeral_scale(s1)) as int;
    let r2 = pow10(numeral_scale(s2)) as int;
    let q1 = pow10(d1.scale()) as int;
    let q2 = pow10(d2.scale()) as int;
    lemma_pow10_positive(numeral_scale(s1));
    lemma_pow10_positive(numeral_scale(s2));
    lemma_pow10_positive(d1.scale());
    lemma_pow10_positive(d2.scale());
    // a1 * q1 == m1 * r1 and a2 * q2 == m2 * r2
    if a1 * r2 == a2 * r1 {
        assert(m1 * q2 == m2 * q1) by (nonlinear_arith)
            requires
                a1 * q1 == m1 * r1,
                a2 * q2 == m2 * r2,
                a1 * r2 == a2 * r1,
                r1 > 0,
                r2 > 0,
                q1 > 0,
                q2 > 0,
                a1 >= 0,
                a2 >= 0,
                m1 >= 0,
                m2 >= 0,
        ;
        lemma_decimal_is_canonical(d1, d2);
    }
    if d1 == d2 {
        assert(a1 * r2 == a2 * r1) by (nonlinear_arith)
            requires
                a1 * q1 == m1 * r1,
                a2 * q1 == m1 * r2,
                q1 > 0,
        ;
    }
}

} // verus!
