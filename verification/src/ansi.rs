//! Removal of the escape sequences that set colours and styles.
//!
//! Such a sequence is the escape character, `[`, one or more numbers
//! separated by `;`, and `m`. The text is read once from the left; where a
//! sequence starts it is left out whole, and reading goes on behind it.
use vstd::prelude::*;
use crate::text::{digits_end, is_digit, lemma_digits_end, skip_digits, to_chars, to_string};

verus! {

/// The character that starts an escape sequence.
pub open spec fn esc() -> char {
    '\u{1b}'
}

/// Reads `digits (';' digits)* 'm'` from index `from` and gives the index
/// behind the `m`, or `None` where the text does not go on like that.
pub open spec fn params_end(s: Seq<char>, from: int) -> Option<int>
    decreases s.len() - from,
{
    let e = digits_end(s, from);
    if e <= from || e >= s.len() {
        None
    } else if s[e] == 'm' {
        Some(e + 1)
    } else if s[e] == ';' {
        params_end(s, e + 1)
    } else {
        None
    }
}

/// Where an escape sequence starts at index `at`, the index behind it.
pub open spec fn escape_end(s: Seq<char>, at: int) -> Option<int> {
    if 0 <= at && at + 1 < s.len() && s[at] == esc() && s[at + 1] == '[' {
        params_end(s, at + 2)
    } else {
        None
    }
}

/// What is read behind `[` ends inside the text.
pub proof fn lemma_params_end(s: Seq<char>, from: int)
    requires
        0 <= from <= s.len(),
    ensures
        params_end(s, from) matches Some(e) ==> from + 2 <= e <= s.len(),
    decreases s.len() - from,
{
    lemma_digits_end(s, from);
    let e = digits_end(s, from);
    if from < e && e < s.len() && s[e] == ';' {
        lemma_params_end(s, e + 1);
    }
}

/// An escape sequence holds at least four characters and ends inside the
/// text.
pub proof fn lemma_escape_end(s: Seq<char>, at: int)
    ensures
        escape_end(s, at) matches Some(e) ==> 0 <= at && at + 4 <= e <= s.len(),
{
    if 0 <= at && at + 1 < s.len() {
        lemma_params_end(s, at + 2);
    }
}

/// The text from index `from` on, without its escape sequences.
pub open spec fn strip_from(s: Seq<char>, from: int) -> Seq<char>
    decreases s.len() - from,
{
    if from < 0 || from >= s.len() {
        Seq::empty()
    } else {
        match escape_end(s, from) {
            Some(e) => {
                proof {
                    lemma_escape_end(s, from);
                }
                strip_from(s, e)
            },
            None => seq![s[from]] + strip_from(s, from + 1),
        }
    }
}

/// The text without its escape sequences.
pub open spec fn stripped(s: Seq<char>) -> Seq<char> {
    strip_from(s, 0)
}

/// An escape sequence starts somewhere in the text.
pub open spec fn has_escape(s: Seq<char>) -> bool {
    exists|i: int| 0 <= i < s.len() && (#[trigger] escape_end(s, i)) is Some
}

proof fn lemma_strip_from_plain(s: Seq<char>, from: int)
    requires
        0 <= from <= s.len(),
        forall|i: int| from <= i < s.len() ==> (#[trigger] escape_end(s, i)) is None,
    ensures
        strip_from(s, from) == s.subrange(from, s.len() as int),
    decreases s.len() - from,
{
    if from < s.len() {
        lemma_strip_from_plain(s, from + 1);
        assert(seq![s[from]] + s.subrange(from + 1, s.len() as int) =~= s.subrange(
            from,
            s.len() as int,
        ));
    } else {
        assert(s.subrange(from, s.len() as int) =~= Seq::<char>::empty());
    }
}

proof fn lemma_strip_from_len(s: Seq<char>, from: int)
    requires
        0 <= from <= s.len(),
    ensures
        strip_from(s, from).len() <= s.len() - from,
        (exists|i: int| from <= i < s.len() && (#[trigger] escape_end(s, i)) is Some)
            ==> strip_from(s, from).len() < s.len() - from,
    decreases s.len() - from,
{
    if from < s.len() {
        lemma_escape_end(s, from);
        match escape_end(s, from) {
            Some(e) => {
                lemma_strip_from_len(s, e);
            },
            None => {
                lemma_strip_from_len(s, from + 1);
                if exists|i: int| from <= i < s.len() && (#[trigger] escape_end(s, i)) is Some {
                    let i = choose|i: int|
                        from <= i < s.len() && (#[trigger] escape_end(s, i)) is Some;
                    assert(from + 1 <= i < s.len() && escape_end(s, i) is Some);
                }
            },
        }
    }
}

proof fn lemma_strip_from_keeps(s: Seq<char>, from: int, p: spec_fn(char) -> bool)
    requires
        0 <= from <= s.len(),
        forall|i: int| 0 <= i < s.len() ==> p(#[trigger] s[i]),
    ensures
        forall|j: int| 0 <= j < strip_from(s, from).len() ==> p(#[trigger] strip_from(s, from)[j]),
    decreases s.len() - from,
{
    let t = strip_from(s, from);
    if from < s.len() {
        lemma_escape_end(s, from);
        match escape_end(s, from) {
            Some(e) => {
                lemma_strip_from_keeps(s, e, p);
                assert(t == strip_from(s, e));
            },
            None => {
                lemma_strip_from_keeps(s, from + 1, p);
                let rest = strip_from(s, from + 1);
                assert(t == seq![s[from]] + rest);
                assert forall|j: int| 0 <= j < t.len() implies p(#[trigger] t[j]) by {
                    if j > 0 {
                        assert(t[j] == rest[j - 1]);
                    } else {
                        assert(t[j] == s[from]);
                    }
                }
            },
        }
    } else {
        assert(t.len() == 0);
    }
}

/// Stripping only takes characters away: what holds of every character of
/// a text holds of every character that is left.
pub proof fn lemma_stripped_keeps(s: Seq<char>, p: spec_fn(char) -> bool)
    requires
        forall|i: int| 0 <= i < s.len() ==> p(#[trigger] s[i]),
    ensures
        forall|j: int| 0 <= j < stripped(s).len() ==> p(#[trigger] stripped(s)[j]),
{
    lemma_strip_from_keeps(s, 0, p);
}

proof fn lemma_digits_end_within(t: Seq<char>, a: int, b: int, i: int)
    requires
        0 <= a <= b <= t.len(),
        0 <= i <= b - a,
    ensures
        digits_end(t.subrange(a, b), i) < b - a ==> digits_end(t, a + i) == a + digits_end(
            t.subrange(a, b),
            i,
        ),
    decreases b - a - i,
{
    let sub = t.subrange(a, b);
    if i < sub.len() {
        assert(sub[i] == t[a + i]);
        if is_digit(sub[i]) {
            lemma_digits_end_within(t, a, b, i + 1);
        }
    }
}

proof fn lemma_params_end_within(t: Seq<char>, a: int, b: int, i: int)
    requires
        0 <= a <= b <= t.len(),
        0 <= i <= b - a,
    ensures
        params_end(t.subrange(a, b), i) matches Some(e) ==> params_end(t, a + i) == Some(a + e),
    decreases b - a - i,
{
    let sub = t.subrange(a, b);
    lemma_digits_end(sub, i);
    lemma_digits_end_within(t, a, b, i);
    let d = digits_end(sub, i);
    if i < d && d < sub.len() {
        assert(sub[d] == t[a + d]);
        if sub[d] == ';' {
            lemma_params_end_within(t, a, b, d + 1);
        }
    }
}

/// A part of a text in which no escape sequence starts holds none either.
pub proof fn lemma_escape_within(t: Seq<char>, a: int, b: int)
    requires
        0 <= a <= b <= t.len(),
        !has_escape(t),
    ensures
        !has_escape(t.subrange(a, b)),
{
    let sub = t.subrange(a, b);
    assert forall|i: int| 0 <= i < sub.len() implies (#[trigger] escape_end(sub, i)) is None by {
        if escape_end(sub, i) is Some {
            assert(sub[i] == t[a + i]);
            assert(sub[i + 1] == t[a + i + 1]);
            lemma_params_end_within(t, a, b, i + 2);
            assert(escape_end(t, a + i) is Some);
        }
    }
}

/// Stripping leaves a text as it is exactly when no escape sequence starts
/// anywhere in it.
pub proof fn lemma_strip_unchanged(s: Seq<char>)
    ensures
        stripped(s) == s <==> !has_escape(s),
{
    lemma_strip_from_len(s, 0);
    if !has_escape(s) {
        lemma_strip_from_plain(s, 0);
        assert(s.subrange(0, s.len() as int) =~= s);
    }
}

/// Stripping a second time changes nothing, provided that the first pass left
/// no escape sequence behind. (It can leave one: the characters on both sides
/// of a removed sequence may form a new one.)
pub proof fn lemma_strip_idempotent(s: Seq<char>)
    requires
        !has_escape(stripped(s)),
    ensures
        stripped(stripped(s)) == stripped(s),
{
    lemma_strip_unchanged(stripped(s));
}

fn scan_params(s: &[char], from: usize) -> (r: Option<usize>)
    requires
        from <= s@.len(),
    ensures
        match r {
            Some(e) => params_end(s@, from as int) == Some(e as int),
            None => params_end(s@, from as int) is None,
        },
{
    let mut start: usize = from;
    loop
        invariant
            from <= start <= s.len(),
            params_end(s@, from as int) == params_end(s@, start as int),
        decreases s.len() - start,
    {
        let e = skip_digits(s, start);
        if e == start || e >= s.len() {
            return None;
        }
        if s[e] == 'm' {
            return Some(e + 1);
        }
        if s[e] != ';' {
            return None;
        }
        start = e + 1;
    }
}

/// Where an escape sequence starts at index `at`, the index behind it.
pub fn escape_at(s: &[char], at: usize) -> (r: Option<usize>)
    requires
        at < s@.len(),
    ensures
        match r {
            Some(e) => escape_end(s@, at as int) == Some(e as int) && at + 4 <= e <= s@.len(),
            None => escape_end(s@, at as int) is None,
        },
{
    proof {
        lemma_escape_end(s@, at as int);
    }
    if s.len() - at >= 2 && s[at] == '\u{1b}' && s[at + 1] == '[' {
        scan_params(s, at + 2)
    } else {
        None
    }
}

/// Removes the escape sequences from a sequence of characters.
pub fn strip_chars(s: &[char]) -> (out: Vec<char>)
    ensures
        out@ == stripped(s@),
{
    let mut out: Vec<char> = Vec::new();
    let mut i: usize = 0;
    while i < s.len()
        invariant
            i <= s.len(),
            stripped(s@) == out@ + strip_from(s@, i as int),
        decreases s.len() - i,
    {
        match escape_at(s, i) {
            Some(e) => {
                i = e;
            },
            None => {
                proof {
                    assert(out@.push(s@[i as int]) + strip_from(s@, i + 1) =~= out@ + (seq![
                        s@[i as int],
                    ] + strip_from(s@, i + 1)));
                }
                out.push(s[i]);
                i += 1;
            },
        }
    }
    proof {
        assert(out@ + Seq::<char>::empty() =~= out@);
    }
    out
}

/// Removes every escape sequence of the form escape, `[`, numbers separated
/// by `;`, `m` from the text and leaves every other character as it is.
pub fn strip_ansi_escape(input: &str) -> (out: String)
    ensures
        out@ == stripped(input@),
{
    let chars = to_chars(input);
    let kept = strip_chars(chars.as_slice());
    to_string(kept.as_slice())
}

} // verus!
