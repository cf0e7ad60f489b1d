//! Exact decimal values of number literals.
//!
//! A number literal is a run of digits, optionally followed by a point and
//! another run of digits. Its value is kept exactly, as the digits before and
//! after the point in shortest form; nothing is rounded.

use crate::chars::{
    chars_of, digit, digits, is_digit, lemma_prefix_len, lemma_prefix_len_is, prefix_len,
    string_of,
};
use vstd::prelude::*;
use vstd::string::StringExecFns;

verus! {

/// A non-negative decimal value with finitely many digits, always held in
/// shortest form.
#[derive(Debug, PartialEq, Eq)]
pub struct Decimal {
    whole: String,
    frac: String,
}

/// The digits of a `Decimal`: those before the point and those after it.
pub struct DecimalView {
    pub whole: Seq<char>,
    pub frac: Seq<char>,
}

/// `w` without its leading zeros, keeping its last character.
pub open spec fn trim_leading_zeros(w: Seq<char>) -> Seq<char>
    decreases w.len(),
{
    if w.len() > 1 && w[0] == '0' {
        trim_leading_zeros(w.drop_first())
    } else {
        w
    }
}

/// `f` without its trailing zeros.
pub open spec fn trim_trailing_zeros(f: Seq<char>) -> Seq<char>
    decreases f.len(),
{
    if f.len() > 0 && f.last() == '0' {
        trim_trailing_zeros(f.drop_last())
    } else {
        f
    }
}

/// Length of the number literal at the start of `s`: its leading digits and,
/// when a point and a digit follow them, the point and the digits after it.
pub open spec fn numeral_len(s: Seq<char>) -> nat {
    let n = prefix_len(s, digits());
    if n + 1 < s.len() && s[n as int] == '.' && is_digit(s[n as int + 1]) {
        n + 1 + prefix_len(s.skip(n as int + 1), digits())
    } else {
        n
    }
}

/// Whether the whole of `s` is one number literal.
pub open spec fn is_numeral(s: Seq<char>) -> bool {
    s.len() > 0 && is_digit(s[0]) && numeral_len(s) == s.len()
}

/// The value that the number literal `s` denotes.
pub open spec fn decimal_of(s: Seq<char>) -> DecimalView
    recommends
        is_numeral(s),
{
    let n = prefix_len(s, digits());
    DecimalView {
        whole: trim_leading_zeros(s.take(n as int)),
        frac: if n < s.len() {
            trim_trailing_zeros(s.skip(n as int + 1))
        } else {
            Seq::empty()
        },
    }
}

impl DecimalView {
    /// The digits are digits, the whole part is not empty and has no needless
    /// leading zero, and the fraction has no trailing zero.
    pub open spec fn wf(self) -> bool {
        &&& self.whole.len() >= 1
        &&& forall|i: int| 0 <= i < self.whole.len() ==> is_digit(#[trigger] self.whole[i])
        &&& self.whole.len() > 1 ==> self.whole[0] != '0'
        &&& forall|i: int| 0 <= i < self.frac.len() ==> is_digit(#[trigger] self.frac[i])
        &&& self.frac.len() > 0 ==> self.frac.last() != '0'
    }

    /// The value in natural decimal form: the whole part, then a point and the
    /// fraction where there is one.
    pub open spec fn text(self) -> Seq<char> {
        if self.frac.len() > 0 {
            self.whole + seq!['.'] + self.frac
        } else {
            self.whole
        }
    }
}

impl View for Decimal {
    type V = DecimalView;

    closed spec fn view(&self) -> DecimalView {
        DecimalView { whole: self.whole@, frac: self.frac@ }
    }
}

/// Trimming leading zeros drops exactly the zeros before position `k`.
pub proof fn lemma_trim_leading_zeros(w: Seq<char>, k: int)
    requires
        0 <= k < w.len(),
        forall|i: int| 0 <= i < k ==> w[i] == '0',
        k == w.len() - 1 || w[k] != '0',
    ensures
        trim_leading_zeros(w) == w.skip(k),
    decreases w.len(),
{
    if k > 0 {
        let t = w.drop_first();
        assert(w[0] == '0');
        assert forall|i: int| 0 <= i < k - 1 implies t[i] == '0' by {
            assert(t[i] == w[i + 1]);
        }
        lemma_trim_leading_zeros(t, k - 1);
        assert(t.skip(k - 1) == w.skip(k));
    } else {
        assert(w.skip(0) == w);
    }
}

/// Trimming trailing zeros keeps exactly the first `k` characters.
pub proof fn lemma_trim_trailing_zeros(f: Seq<char>, k: int)
    requires
        0 <= k <= f.len(),
        forall|i: int| k <= i < f.len() ==> f[i] == '0',
        k == 0 || f[k - 1] != '0',
    ensures
        trim_trailing_zeros(f) == f.take(k),
    decreases f.len(),
{
    if k < f.len() {
        let t = f.drop_last();
        assert(f.last() == '0');
        assert forall|i: int| k <= i < t.len() implies t[i] == '0' by {
            assert(t[i] == f[i]);
        }
        lemma_trim_trailing_zeros(t, k);
        assert(t.take(k) == f.take(k));
    } else {
        assert(f.take(k) == f);
    }
}

/// Trimming the leading zeros of digits leaves digits, at least one, with
/// no zero in front of another digit.
pub proof fn lemma_trimmed_whole(w: Seq<char>)
    requires
        w.len() > 0,
        forall|i: int| 0 <= i < w.len() ==> is_digit(#[trigger] w[i]),
    ensures
        trim_leading_zeros(w).len() >= 1,
        forall|i: int|
            0 <= i < trim_leading_zeros(w).len() ==> is_digit(#[trigger] trim_leading_zeros(w)[i]),
        trim_leading_zeros(w).len() > 1 ==> trim_leading_zeros(w)[0] != '0',
    decreases w.len(),
{
    if w.len() > 1 && w[0] == '0' {
        let t = w.drop_first();
        assert forall|i: int| 0 <= i < t.len() implies is_digit(#[trigger] t[i]) by {
            assert(t[i] == w[i + 1]);
        }
        lemma_trimmed_whole(t);
    }
}

/// Trimming the trailing zeros of digits leaves digits that do not end in
/// a zero.
pub proof fn lemma_trimmed_frac(f: Seq<char>)
    requires
        forall|i: int| 0 <= i < f.len() ==> is_digit(#[trigger] f[i]),
    ensures
        forall|i: int|
            0 <= i < trim_trailing_zeros(f).len() ==> is_digit(
                #[trigger] trim_trailing_zeros(f)[i],
            ),
        trim_trailing_zeros(f).len() > 0 ==> trim_trailing_zeros(f).last() != '0',
    decreases f.len(),
{
    if f.len() > 0 && f.last() == '0' {
        let t = f.drop_last();
        assert forall|i: int| 0 <= i < t.len() implies is_digit(#[trigger] t[i]) by {
            assert(t[i] == f[i]);
        }
        lemma_trimmed_frac(t);
    }
}

/// In a number literal the digits before the point are digits, and so is
/// all that follows the point.
pub proof fn lemma_numeral_parts(s: Seq<char>)
    requires
        is_numeral(s),
    ensures
        ({
            let n = prefix_len(s, digits()) as int;
            &&& 0 < n <= s.len()
            &&& forall|i: int| 0 <= i < n ==> is_digit(#[trigger] s[i])
            &&& n < s.len() ==> s[n] == '.' && n + 1 < s.len()
            &&& forall|i: int| n < i < s.len() ==> is_digit(#[trigger] s[i])
        }),
{
    let n = prefix_len(s, digits()) as int;
    lemma_prefix_len(s, digits());
    if n == 0 {
        assert(!digits()(s[0]));
    }
    assert forall|i: int| 0 <= i < n implies is_digit(#[trigger] s[i]) by {
        assert(digits()(s[i]));
    }
    if n < s.len() {
        let f = s.skip(n + 1);
        lemma_prefix_len(f, digits());
        assert forall|i: int| n < i < s.len() implies is_digit(#[trigger] s[i]) by {
            assert(digits()(f[i - n - 1]));
        }
    }
}

/// The number literal at the start of a text that starts with a digit is a
/// number literal.
pub proof fn lemma_numeral_prefix(s: Seq<char>)
    requires
        s.len() > 0,
        is_digit(s[0]),
    ensures
        numeral_len(s) <= s.len(),
        is_numeral(s.take(numeral_len(s) as int)),
{
    let n = prefix_len(s, digits()) as int;
    let m = numeral_len(s) as int;
    lemma_prefix_len(s, digits());
    lemma_prefix_len(s.skip(n + 1), digits());
    let t = s.take(m);
    assert forall|i: int| 0 <= i < n implies digits()(#[trigger] t[i]) by {
        assert(t[i] == s[i]);
    }
    lemma_prefix_len_is(t, digits(), n);
    if n == 0 {
        assert(!digits()(s[0]));
    }
    if n < m {
        let f = s.skip(n + 1);
        let g = t.skip(n + 1);
        assert forall|i: int| 0 <= i < g.len() implies digits()(#[trigger] g[i]) by {
            assert(g[i] == f[i]);
        }
        lemma_prefix_len_is(g, digits(), g.len() as int);
        assert(t[n + 1] == s[n + 1]);
    }
}

/// The value of a number literal is a well-formed decimal.
pub proof fn lemma_decimal_of_wf(s: Seq<char>)
    requires
        is_numeral(s),
    ensures
        decimal_of(s).wf(),
{
    lemma_numeral_parts(s);
    let n = prefix_len(s, digits()) as int;
    let w = s.take(n);
    assert forall|i: int| 0 <= i < w.len() implies is_digit(#[trigger] w[i]) by {
        assert(w[i] == s[i]);
    }
    lemma_trimmed_whole(w);
    if n < s.len() {
        let f = s.skip(n + 1);
        assert forall|i: int| 0 <= i < f.len() implies is_digit(#[trigger] f[i]) by {
            assert(f[i] == s[n + 1 + i]);
        }
        lemma_trimmed_frac(f);
    }
}

/// A well-formed decimal is the value of its own text: writing a value in
/// natural decimal form and reading it back changes nothing.
pub proof fn lemma_text_round_trip(d: DecimalView)
    requires
        d.wf(),
    ensures
        is_numeral(d.text()),
        decimal_of(d.text()) == d,
{
    let s = d.text();
    let n = d.whole.len() as int;
    assert forall|i: int| 0 <= i < n implies digits()(#[trigger] s[i]) by {
        assert(s[i] == d.whole[i]);
    }
    lemma_prefix_len_is(s, digits(), n);
    assert(s.take(n) =~= d.whole);
    if d.frac.len() > 0 {
        let f = s.skip(n + 1);
        assert(f =~= d.frac);
        assert(s[n + 1] == d.frac[0]);
        assert forall|i: int| 0 <= i < f.len() implies digits()(#[trigger] f[i]) by {}
        lemma_prefix_len_is(f, digits(), f.len() as int);
    } else {
        assert(d.frac =~= Seq::empty());
    }
}

/// End of the run of digits that starts at `from`.
fn digits_end(chars: &Vec<char>, from: usize) -> (end: usize)
    requires
        from <= chars.len(),
    ensures
        from <= end <= chars.len(),
        end - from == prefix_len(chars@.skip(from as int), digits()),
{
    let mut i: usize = from;
    while i < chars.len() && digit(chars[i])
        invariant
            from <= i <= chars.len(),
            forall|j: int| from <= j < i ==> is_digit(#[trigger] chars@[j]),
        decreases chars.len() - i,
    {
        i += 1;
    }
    proof {
        let s = chars@.skip(from as int);
        assert forall|j: int| 0 <= j < i - from implies digits()(#[trigger] s[j]) by {
            assert(s[j] == chars@[from + j]);
        }
        lemma_prefix_len_is(s, digits(), i - from);
    }
    i
}

impl Decimal {
    /// Every decimal is well formed.
    #[verifier::type_invariant]
    spec fn in_shortest_form(&self) -> bool {
        self@.wf()
    }

    /// The value of the number literal `chars[from..to]`: digits up to `dot`
    /// and, unless `dot` is `to`, a point at `dot` and digits after it.
    pub(crate) fn of_numeral(chars: &Vec<char>, from: usize, dot: usize, to: usize) -> (d: Decimal)
        requires
            from < dot <= to <= chars.len(),
            forall|i: int| from <= i < dot ==> is_digit(#[trigger] chars@[i]),
            dot < to ==> chars@[dot as int] == '.' && dot + 1 < to,
            forall|i: int| dot < i < to ==> is_digit(#[trigger] chars@[i]),
        ensures
            is_numeral(chars@.subrange(from as int, to as int)),
            d@ == decimal_of(chars@.subrange(from as int, to as int)),
            d@.wf(),
    {
        let ghost s = chars@.subrange(from as int, to as int);
        let ghost w = s.take(dot - from);
        proof {
            assert forall|i: int| 0 <= i < dot - from implies digits()(#[trigger] s[i]) by {
                assert(s[i] == chars@[from + i]);
            }
            lemma_prefix_len_is(s, digits(), dot - from);
        }
        let mut k: usize = from;
        while k + 1 < dot && chars[k] == '0'
            invariant
                from <= k < dot <= chars.len(),
                forall|i: int| from <= i < k ==> chars@[i] == '0',
            decreases dot - k,
        {
            k += 1;
        }
        let whole = string_of(chars, k, dot);
        proof {
            assert forall|i: int| 0 <= i < k - from implies w[i] == '0' by {
                assert(w[i] == chars@[from + i]);
            }
            lemma_trim_leading_zeros(w, k - from);
            assert(w.skip(k - from) == chars@.subrange(k as int, dot as int));
            assert forall|i: int| 0 <= i < whole@.len() implies is_digit(#[trigger] whole@[i]) by {
                assert(whole@[i] == chars@[k + i]);
            }
        }
        if dot < to {
            let ghost f = s.skip(dot - from + 1);
            proof {
                assert forall|i: int| 0 <= i < f.len() implies digits()(#[trigger] f[i]) by {
                    assert(f[i] == chars@[dot + 1 + i]);
                }
                lemma_prefix_len_is(f, digits(), f.len() as int);
                assert(s[dot - from + 1] == chars@[dot + 1]);
            }
            let mut z: usize = to;
            while z > dot + 1 && chars[z - 1] == '0'
                invariant
                    dot + 1 <= z <= to <= chars.len(),
                    forall|i: int| z <= i < to ==> chars@[i] == '0',
                decreases z,
            {
                z -= 1;
            }
            let frac = string_of(chars, dot + 1, z);
            proof {
                assert forall|i: int| z - dot - 1 <= i < f.len() implies f[i] == '0' by {
                    assert(f[i] == chars@[dot + 1 + i]);
                }
                lemma_trim_trailing_zeros(f, z - dot - 1);
                assert(f.take(z - dot - 1) == chars@.subrange(dot + 1, z as int));
                assert forall|i: int| 0 <= i < frac@.len() implies is_digit(#[trigger] frac@[i]) by {
                    assert(frac@[i] == chars@[dot + 1 + i]);
                }
            }
            Decimal { whole, frac }
        } else {
            Decimal { whole, frac: String::new() }
        }
    }

    /// Reads `text` as a number literal: digits, then optionally a point and
    /// more digits. Anything else is not a number literal.
    pub fn parse(text: &str) -> (r: Option<Decimal>)
        ensures
            r is Some <==> is_numeral(text@),
            r matches Some(d) ==> d@ == decimal_of(text@) && d@.wf(),
    {
        let chars = chars_of(text);
        let n = chars.len();
        let dot = digits_end(&chars, 0);
        proof {
            assert(chars@.skip(0) == chars@);
            assert(chars@.subrange(0, n as int) == chars@);
            lemma_prefix_len(chars@, digits());
        }
        if dot == 0 {
            return None;
        }
        if dot == n {
            return Some(Decimal::of_numeral(&chars, 0, dot, n));
        }
        if chars[dot] != '.' || dot + 1 >= n || !digit(chars[dot + 1]) {
            return None;
        }
        let end = digits_end(&chars, dot + 1);
        proof {
            let f = chars@.skip(dot + 1);
            lemma_prefix_len(f, digits());
            assert forall|i: int| dot < i < end implies is_digit(#[trigger] chars@[i]) by {
                assert(digits()(f[i - dot - 1]));
            }
        }
        if end != n {
            return None;
        }
        Some(Decimal::of_numeral(&chars, 0, dot, n))
    }

    /// Whether the value has no fraction.
    pub fn is_whole(&self) -> (r: bool)
        ensures
            r == (self@.frac.len() == 0),
    {
        self.frac.as_str().is_empty()
    }

    /// The value in natural decimal form, which is a number literal with
    /// this value.
    pub fn to_string(&self) -> (s: String)
        ensures
            self@.wf(),
            s@ == self@.text(),
            is_numeral(s@),
            decimal_of(s@) == self@,
    {
        proof {
            use_type_invariant(self);
            lemma_text_round_trip(self@);
        }
        let mut s = self.whole.clone();
        if !self.frac.as_str().is_empty() {
            s.push('.');
            s.append(self.frac.as_str());
            assert(s@ == self@.whole + seq!['.'] + self@.frac);
        }
        s
    }
}

impl Clone for Decimal {
    fn clone(&self) -> (d: Decimal)
        ensures
            d@ == self@,
    {
        proof {
            use_type_invariant(self);
        }
        Decimal { whole: self.whole.clone(), frac: self.frac.clone() }
    }
}

} // verus!
