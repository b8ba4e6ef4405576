//! Character sequences: conversion from and to strings, character classes,
//! literal matching, decimal numbers and line splitting.
use vstd::prelude::*;

verus! {

/// `String::push` appends the character to the end of the string.
pub assume_specification[ String::push ](s: &mut String, c: char)
    ensures
        final(s)@ == old(s)@.push(c),
;

/// The characters of a string, in order.
pub fn to_chars(s: &str) -> (v: Vec<char>)
    ensures
        v@ == s@,
{
    let mut v: Vec<char> = Vec::new();
    for c in it: s.chars()
        invariant
            it.seq() == s@,
            v@ == it.seq().take(it.index() as int),
    {
        v.push(c);
    }
    v
}

/// The string made of the given characters, in order.
pub fn to_string(chars: &[char]) -> (s: String)
    ensures
        s@ == chars@,
{
    let mut s = String::new();
    let mut i: usize = 0;
    while i < chars.len()
        invariant
            i <= chars.len(),
            s@ == chars@.take(i as int),
        decreases chars.len() - i,
    {
        s.push(chars[i]);
        i += 1;
    }
    s
}

/// An ASCII decimal digit.
pub open spec fn is_digit(c: char) -> bool {
    '0' <= c && c <= '9'
}

/// A character with the Unicode property `White_Space`.
pub open spec fn is_space(c: char) -> bool {
    ||| ('\u{9}' <= c && c <= '\u{d}')
    ||| c == ' '
    ||| c == '\u{85}'
    ||| c == '\u{a0}'
    ||| c == '\u{1680}'
    ||| ('\u{2000}' <= c && c <= '\u{200a}')
    ||| c == '\u{2028}'
    ||| c == '\u{2029}'
    ||| c == '\u{202f}'
    ||| c == '\u{205f}'
    ||| c == '\u{3000}'
}

/// Tells whether a character is an ASCII decimal digit.
pub fn digit(c: char) -> (r: bool)
    ensures
        r == is_digit(c),
{
    '0' <= c && c <= '9'
}

/// Tells whether a character is a whitespace character.
pub fn space(c: char) -> (r: bool)
    ensures
        r == is_space(c),
{
    ('\u{9}' <= c && c <= '\u{d}') || c == ' ' || c == '\u{85}' || c == '\u{a0}' || c == '\u{1680}'
        || ('\u{2000}' <= c && c <= '\u{200a}') || c == '\u{2028}' || c == '\u{2029}' || c
        == '\u{202f}' || c == '\u{205f}' || c == '\u{3000}'
}

/// The index at which the run of digits that starts at `from` ends: `from`
/// itself where no digit stands there.
pub open spec fn digits_end(s: Seq<char>, from: int) -> int
    decreases s.len() - from,
{
    if 0 <= from < s.len() && is_digit(s[from]) {
        digits_end(s, from + 1)
    } else {
        from
    }
}

/// The run of digits ends inside the text, holds digits only and cannot be
/// made longer.
pub proof fn lemma_digits_end(s: Seq<char>, from: int)
    requires
        0 <= from <= s.len(),
    ensures
        from <= digits_end(s, from) <= s.len(),
        forall|k: int| from <= k < digits_end(s, from) ==> is_digit(#[trigger] s[k]),
        digits_end(s, from) < s.len() ==> !is_digit(s[digits_end(s, from)]),
    decreases s.len() - from,
{
    if from < s.len() && is_digit(s[from]) {
        lemma_digits_end(s, from + 1);
    }
}

/// Finds the end of the run of digits that starts at `from`.
pub fn skip_digits(s: &[char], from: usize) -> (end: usize)
    requires
        from <= s@.len(),
    ensures
        end == digits_end(s@, from as int),
        from <= end <= s@.len(),
{
    let mut i: usize = from;
    while i < s.len() && digit(s[i])
        invariant
            from <= i <= s.len(),
            digits_end(s@, from as int) == digits_end(s@, i as int),
        decreases s.len() - i,
    {
        i += 1;
    }
    i
}

/// Every character of `s` is a whitespace character; the empty sequence is
/// blank.
pub open spec fn is_blank(s: Seq<char>) -> bool {
    forall|i: int| 0 <= i < s.len() ==> is_space(#[trigger] s[i])
}

/// Tells whether a line is blank.
pub fn blank(s: &[char]) -> (r: bool)
    ensures
        r == is_blank(s@),
{
    let mut i: usize = 0;
    while i < s.len()
        invariant
            i <= s.len(),
            forall|k: int| 0 <= k < i ==> is_space(#[trigger] s@[k]),
        decreases s.len() - i,
    {
        if !space(s[i]) {
            return false;
        }
        i += 1;
    }
    true
}

/// `lit` stands in `s` at index `at`.
pub open spec fn has_at(s: Seq<char>, at: int, lit: Seq<char>) -> bool {
    &&& 0 <= at
    &&& at + lit.len() <= s.len()
    &&& s.subrange(at, at + lit.len()) == lit
}

/// Tells whether `lit` stands in `s` at index `at`.
pub fn match_at(s: &[char], at: usize, lit: &str) -> (r: bool)
    requires
        at <= s@.len(),
    ensures
        r == has_at(s@, at as int, lit@),
{
    let n = lit.unicode_len();
    if n > s.len() - at {
        return false;
    }
    let mut k: usize = 0;
    while k < n
        invariant
            k <= n,
            n == lit@.len(),
            at + n <= s.len(),
            forall|j: int| 0 <= j < k ==> s@[at + j] == lit@[j],
        decreases n - k,
    {
        if s[at + k] != lit.get_char(k) {
            proof {
                assert(s@.subrange(at as int, at + n)[k as int] == s@[at + k]);
            }
            return false;
        }
        k += 1;
    }
    proof {
        assert(s@.subrange(at as int, at + n) =~= lit@);
    }
    true
}

/// Tells whether `lit` is all that stands in `s` from index `at` on.
pub fn rest_is(s: &[char], at: usize, lit: &str) -> (r: bool)
    requires
        at <= s@.len(),
    ensures
        r == (s@.skip(at as int) == lit@),
{
    let found = match_at(s, at, lit);
    let n = lit.unicode_len();
    proof {
        if at + n == s@.len() {
            assert(s@.subrange(at as int, at + n) =~= s@.skip(at as int));
        }
    }
    found && s.len() - at == n
}

/// The value of a sequence of digits read as a decimal number.
pub open spec fn decimal_value(d: Seq<char>) -> nat
    decreases d.len(),
{
    if d.len() == 0 {
        0
    } else {
        decimal_value(d.drop_last()) * 10 + (d.last() as u32 - '0' as u32) as nat
    }
}

/// Every character of `d` is a digit.
pub open spec fn all_digits(d: Seq<char>) -> bool {
    forall|i: int| 0 <= i < d.len() ==> is_digit(#[trigger] d[i])
}

/// The number that `d` writes: `d` is one or more digits, and their decimal
/// value fits the machine word. Anything else writes no number.
pub open spec fn number(d: Seq<char>) -> Option<usize> {
    if d.len() > 0 && all_digits(d) && decimal_value(d) <= usize::MAX {
        Some(decimal_value(d) as usize)
    } else {
        None
    }
}

proof fn lemma_decimal_value_grows(d: Seq<char>, k: int)
    requires
        0 <= k <= d.len(),
        all_digits(d),
    ensures
        decimal_value(d.take(k)) <= decimal_value(d),
    decreases d.len() - k,
{
    if k < d.len() {
        lemma_decimal_value_grows(d, k + 1);
        assert(d.take(k + 1).drop_last() =~= d.take(k));
        assert(is_digit(d[k]));
    } else {
        assert(d.take(k) =~= d);
    }
}

/// Reads `s[from..to]` as a decimal number.
pub fn parse_number(s: &[char], from: usize, to: usize) -> (r: Option<usize>)
    requires
        from <= to <= s@.len(),
    ensures
        r == number(s@.subrange(from as int, to as int)),
{
    let ghost d = s@.subrange(from as int, to as int);
    if from == to {
        return None;
    }
    let mut value: usize = 0;
    let mut i: usize = from;
    while i < to
        invariant
            from <= i <= to <= s.len(),
            d == s@.subrange(from as int, to as int),
            all_digits(d.take(i - from)),
            value == decimal_value(d.take(i - from)),
        decreases to - i,
    {
        let c = s[i];
        proof {
            assert(d[i - from] == c);
            assert(d.take(i - from + 1).drop_last() =~= d.take(i - from));
        }
        if !digit(c) {
            return None;
        }
        proof {
            assert forall|k: int| 0 <= k < i - from + 1 implies is_digit(
                #[trigger] d.take(i - from + 1)[k],
            ) by {
                if k < i - from {
                    assert(d.take(i - from)[k] == d[k]);
                }
            }
        }
        let ghost next = decimal_value(d.take(i - from + 1));
        assert(next == value * 10 + (c as u32 - '0' as u32));
        let digit_value: usize = (c as u32 - '0' as u32) as usize;
        let grown = match value.checked_mul(10) {
            Some(v) => v.checked_add(digit_value),
            None => None,
        };
        match grown {
            Some(v) => {
                value = v;
            },
            None => {
                proof {
                    if all_digits(d) {
                        lemma_decimal_value_grows(d, i - from + 1);
                    }
                }
                return None;
            },
        }
        i += 1;
    }
    proof {
        assert(d.take(to - from) =~= d);
    }
    Some(value)
}

/// The index of the first line feed at or behind `from`, or the length of the
/// text where none follows.
pub open spec fn line_end(s: Seq<char>, from: int) -> int
    decreases s.len() - from,
{
    if 0 <= from < s.len() && s[from] != '\n' {
        line_end(s, from + 1)
    } else {
        from
    }
}

/// The line ends inside the text, holds no line feed and ends at a line
/// feed or at the end of the text.
pub proof fn lemma_line_end(s: Seq<char>, from: int)
    requires
        0 <= from <= s.len(),
    ensures
        from <= line_end(s, from) <= s.len(),
        forall|k: int| from <= k < line_end(s, from) ==> #[trigger] s[k] != '\n',
        line_end(s, from) < s.len() ==> s[line_end(s, from)] == '\n',
    decreases s.len() - from,
{
    if from < s.len() && s[from] != '\n' {
        lemma_line_end(s, from + 1);
    }
}

/// The line that starts at `from`: the text up to the next line feed, without
/// the carriage return that may stand before that line feed.
pub open spec fn line_at(s: Seq<char>, from: int) -> Seq<char> {
    let e = line_end(s, from);
    if e < s.len() && from < e && s[e - 1] == '\r' {
        s.subrange(from, e - 1)
    } else {
        s.subrange(from, e)
    }
}

/// The lines of the text from index `from` on.
pub open spec fn lines_from(s: Seq<char>, from: int) -> Seq<Seq<char>>
    decreases s.len() + 1 - from,
{
    if from < 0 || from >= s.len() {
        Seq::empty()
    } else {
        proof {
            lemma_line_end(s, from);
        }
        seq![line_at(s, from)] + lines_from(s, line_end(s, from) + 1)
    }
}

/// The lines of a text. A line ends with a line feed, or with a carriage
/// return and a line feed; neither belongs to the line. The last line may end
/// with the text, and a text that ends with a line feed has no empty line
/// behind it.
pub open spec fn lines(s: Seq<char>) -> Seq<Seq<char>> {
    lines_from(s, 0)
}

/// No line feed stands in `s`.
pub open spec fn single_line(s: Seq<char>) -> bool {
    forall|i: int| 0 <= i < s.len() ==> #[trigger] s[i] != '\n'
}

proof fn lemma_lines_from(s: Seq<char>, from: int)
    requires
        0 <= from,
    ensures
        forall|k: int|
            0 <= k < lines_from(s, from).len() ==> single_line(#[trigger] lines_from(s, from)[k]),
    decreases s.len() + 1 - from,
{
    if from < s.len() {
        lemma_line_end(s, from);
        let next = line_end(s, from) + 1;
        lemma_lines_from(s, next);
        let rest = lines_from(s, next);
        assert forall|k: int| 0 <= k < lines_from(s, from).len() implies single_line(
            #[trigger] lines_from(s, from)[k],
        ) by {
            if k > 0 {
                assert(lines_from(s, from)[k] == rest[k - 1]);
            }
        }
    }
}

/// No line of a text holds a line feed.
pub proof fn lemma_lines(s: Seq<char>)
    ensures
        forall|k: int| 0 <= k < lines(s).len() ==> single_line(#[trigger] lines(s)[k]),
{
    lemma_lines_from(s, 0);
}

proof fn lemma_lines_from_within(s: Seq<char>, from: int, p: spec_fn(Seq<char>) -> bool)
    requires
        0 <= from,
        forall|a: int, b: int| 0 <= a <= b <= s.len() ==> p(#[trigger] s.subrange(a, b)),
    ensures
        forall|k: int| 0 <= k < lines_from(s, from).len() ==> p(#[trigger] lines_from(s, from)[k]),
    decreases s.len() + 1 - from,
{
    if from < s.len() {
        lemma_line_end(s, from);
        let next = line_end(s, from) + 1;
        lemma_lines_from_within(s, next, p);
        let rest = lines_from(s, next);
        assert forall|k: int| 0 <= k < lines_from(s, from).len() implies p(
            #[trigger] lines_from(s, from)[k],
        ) by {
            if k > 0 {
                assert(lines_from(s, from)[k] == rest[k - 1]);
            }
        }
    }
}

/// Every line of a text is a part of the text: what holds of every part
/// holds of every line.
pub proof fn lemma_lines_within(s: Seq<char>, p: spec_fn(Seq<char>) -> bool)
    requires
        forall|a: int, b: int| 0 <= a <= b <= s.len() ==> p(#[trigger] s.subrange(a, b)),
    ensures
        forall|k: int| 0 <= k < lines(s).len() ==> p(#[trigger] lines(s)[k]),
{
    lemma_lines_from_within(s, 0, p);
}

/// The contents of a list of lines.
pub open spec fn line_views(v: Seq<Vec<char>>) -> Seq<Seq<char>> {
    v.map_values(|l: Vec<char>| l@)
}

/// A copy of `s[from..to]`.
pub fn copy_range(s: &[char], from: usize, to: usize) -> (v: Vec<char>)
    requires
        from <= to <= s@.len(),
    ensures
        v@ == s@.subrange(from as int, to as int),
{
    let mut v: Vec<char> = Vec::new();
    let mut i: usize = from;
    while i < to
        invariant
            from <= i <= to <= s.len(),
            v@ == s@.subrange(from as int, i as int),
        decreases to - i,
    {
        v.push(s[i]);
        i += 1;
    }
    v
}

/// Cuts a text into its lines.
pub fn split_lines(s: &[char]) -> (out: Vec<Vec<char>>)
    ensures
        line_views(out@) == lines(s@),
{
    let mut out: Vec<Vec<char>> = Vec::new();
    let mut start: usize = 0;
    while start < s.len()
        invariant
            start <= s.len(),
            lines(s@) == line_views(out@) + lines_from(s@, start as int),
        decreases s.len() - start,
    {
        let mut end: usize = start;
        while end < s.len() && s[end] != '\n'
            invariant
                start <= end <= s.len(),
                line_end(s@, start as int) == line_end(s@, end as int),
            decreases s.len() - end,
        {
            end += 1;
        }
        proof {
            lemma_line_end(s@, start as int);
        }
        let stop = if end < s.len() && start < end && s[end - 1] == '\r' {
            end - 1
        } else {
            end
        };
        let line = copy_range(s, start, stop);
        proof {
            assert(line@ == line_at(s@, start as int));
            assert(line_views(out@.push(line)) =~= line_views(out@).push(line@));
            assert(line_views(out@).push(line@) + lines_from(s@, end + 1) =~= line_views(out@)
                + (seq![line@] + lines_from(s@, end + 1)));
        }
        out.push(line);
        if end < s.len() {
            start = end + 1;
        } else {
            start = end;
        }
    }
    proof {
        assert(line_views(out@) + Seq::<Seq<char>>::empty() =~= line_views(out@));
    }
    out
}

/// The lines joined by line feeds: one between each two lines, none at the
/// ends.
pub open spec fn joined(lines: Seq<Seq<char>>) -> Seq<char>
    decreases lines.len(),
{
    if lines.len() == 0 {
        Seq::empty()
    } else if lines.len() == 1 {
        lines[0]
    } else {
        joined(lines.drop_last()) + seq!['\n'] + lines.last()
    }
}

/// Joins lines by line feeds.
pub fn join_lines(lines: &[Vec<char>]) -> (out: Vec<char>)
    ensures
        out@ == joined(line_views(lines@)),
{
    let ghost all = line_views(lines@);
    let mut out: Vec<char> = Vec::new();
    let mut i: usize = 0;
    proof {
        assert(all.take(0) =~= Seq::<Seq<char>>::empty());
    }
    while i < lines.len()
        invariant
            i <= lines.len(),
            all == line_views(lines@),
            out@ == joined(all.take(i as int)),
        decreases lines.len() - i,
    {
        let ghost before = out@;
        if i > 0 {
            out.push('\n');
        }
        let line = &lines[i];
        let mut k: usize = 0;
        while k < line.len()
            invariant
                k <= line.len(),
                out@ == (if i > 0 {
                    before + seq!['\n']
                } else {
                    before
                }) + line@.take(k as int),
            decreases line.len() - k,
        {
            proof {
                assert(line@.take(k + 1) =~= line@.take(k as int).push(line@[k as int]));
            }
            out.push(line[k]);
            k += 1;
        }
        proof {
            assert(line@.take(k as int) =~= line@);
            assert(all.take(i + 1).drop_last() =~= all.take(i as int));
            assert(all.take(i + 1).last() == line@);
            if i == 0 {
                assert(before + line@ =~= line@);
            }
        }
        i += 1;
    }
    proof {
        assert(all.take(i as int) =~= all);
    }
    out
}

} // verus!
