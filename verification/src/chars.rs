//! Character classes and small text helpers shared by the scanner and the
//! number literals.

use vstd::prelude::*;

verus! {

/// The standard library's `String::push`, taken on trust: after the call
/// the string holds the characters it held before, followed by `ch`.
pub assume_specification[ std::string::String::push ](s: &mut std::string::String, ch: char)
    ensures
        final(s)@ == old(s)@.push(ch),
;

/// A decimal digit, `0` to `9`.
pub open spec fn is_digit(c: char) -> bool {
    '0' <= c && c <= '9'
}

/// A letter of the basic Latin alphabet or an underscore.
pub open spec fn is_alpha(c: char) -> bool {
    ('a' <= c && c <= 'z') || ('A' <= c && c <= 'Z') || c == '_'
}

/// A character that may continue an identifier.
pub open spec fn is_alpha_numeric(c: char) -> bool {
    is_alpha(c) || is_digit(c)
}

/// The class of decimal digits, as a predicate.
pub open spec fn digits() -> spec_fn(char) -> bool {
    |c: char| is_digit(c)
}

/// The class of characters that may continue an identifier, as a predicate.
pub open spec fn word_chars() -> spec_fn(char) -> bool {
    |c: char| is_alpha_numeric(c)
}

/// Every character but the line feed, as a predicate.
pub open spec fn not_newline() -> spec_fn(char) -> bool {
    |c: char| c != '\n'
}

/// Every character but the double quote, as a predicate.
pub open spec fn not_quote() -> spec_fn(char) -> bool {
    |c: char| c != '"'
}

/// Length of the longest prefix of `s` whose characters all satisfy `p`.
pub open spec fn prefix_len(s: Seq<char>, p: spec_fn(char) -> bool) -> nat
    decreases s.len(),
{
    if s.len() > 0 && p(s[0]) {
        1 + prefix_len(s.drop_first(), p)
    } else {
        0
    }
}

/// Number of line feeds in `s`.
pub open spec fn count_newlines(s: Seq<char>) -> nat
    decreases s.len(),
{
    if s.len() == 0 {
        0
    } else {
        count_newlines(s.drop_last()) + if s.last() == '\n' { 1nat } else { 0nat }
    }
}

/// `prefix_len` is the first position at which `p` fails, or the length of
/// `s` when it never fails.
pub proof fn lemma_prefix_len(s: Seq<char>, p: spec_fn(char) -> bool)
    ensures
        prefix_len(s, p) <= s.len(),
        forall|i: int| 0 <= i < prefix_len(s, p) ==> p(#[trigger] s[i]),
        prefix_len(s, p) < s.len() ==> !p(s[prefix_len(s, p) as int]),
    decreases s.len(),
{
    if s.len() > 0 && p(s[0]) {
        let t = s.drop_first();
        lemma_prefix_len(t, p);
        assert forall|i: int| 0 <= i < prefix_len(s, p) implies p(#[trigger] s[i]) by {
            if i > 0 {
                assert(s[i] == t[i - 1]);
            }
        }
        if prefix_len(s, p) < s.len() {
            assert(s[prefix_len(s, p) as int] == t[prefix_len(t, p) as int]);
        }
    }
}

/// The position before which `p` holds everywhere and at which it fails, or
/// the text ends, is `prefix_len`.
pub proof fn lemma_prefix_len_is(s: Seq<char>, p: spec_fn(char) -> bool, n: int)
    requires
        0 <= n <= s.len(),
        forall|i: int| 0 <= i < n ==> p(#[trigger] s[i]),
        n < s.len() ==> !p(s[n]),
    ensures
        prefix_len(s, p) == n,
    decreases s.len(),
{
    if n > 0 {
        let t = s.drop_first();
        assert(p(s[0]));
        assert forall|i: int| 0 <= i < n - 1 implies p(#[trigger] t[i]) by {
            assert(t[i] == s[i + 1]);
        }
        lemma_prefix_len_is(t, p, n - 1);
    }
}

/// The line feeds of a text are those of its first character and those of
/// the rest.
pub proof fn lemma_count_newlines_first(s: Seq<char>)
    requires
        s.len() > 0,
    ensures
        count_newlines(s) == count_newlines(s.drop_first()) + if s[0] == '\n' {
            1nat
        } else {
            0nat
        },
    decreases s.len(),
{
    if s.len() == 1 {
        assert(s.drop_last() =~= s.drop_first());
        assert(count_newlines(s.drop_first()) == 0);
    } else {
        lemma_count_newlines_first(s.drop_last());
        assert(s.drop_last().drop_first() =~= s.drop_first().drop_last());
    }
}

/// Whether `c` is a decimal digit.
pub fn digit(c: char) -> (r: bool)
    ensures
        r == is_digit(c),
{
    c >= '0' && c <= '9'
}

/// The characters of `s`, in order.
pub fn chars_of(s: &str) -> (v: Vec<char>)
    ensures
        v@ == s@,
{
    let mut v: Vec<char> = Vec::new();
    for c in it: s.chars()
        invariant
            v@ == it.seq().take(it.index()),
    {
        v.push(c);
    }
    v
}

/// The string made of the characters `chars[from..to]`.
pub fn string_of(chars: &Vec<char>, from: usize, to: usize) -> (s: String)
    requires
        from <= to <= chars.len(),
    ensures
        s@ == chars@.subrange(from as int, to as int),
{
    let mut s = String::new();
    let mut i: usize = from;
    while i < to
        invariant
            from <= i <= to <= chars.len(),
            s@ == chars@.subrange(from as int, i as int),
        decreases to - i,
    {
        s.push(chars[i]);
        i += 1;
        assert(chars@.subrange(from as int, i as int) == chars@.subrange(from as int, i - 1).push(
            chars@[i - 1],
        ));
    }
    s
}

} // verus!
