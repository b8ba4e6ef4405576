//! Rendering the records.
//!
//! A record is rendered as a header line, `path:line:column: kind: subject`,
//! where the line and the column stand only if the record has them, and, in
//! the full layout, the body behind it. The text comes in spans, each with
//! the style in which a terminal should show it.
use vstd::prelude::*;
use vstd::string::StringExecFns;
use crate::collate::{collate, collated};
use crate::item::{item_views, Item, ItemType, ItemView};
use crate::text::{all_digits, decimal_value, is_digit, number, rest_is, to_chars};

verus! {

/// The layout of the output.
#[derive(Clone, Copy, Debug, PartialEq, Eq, Structural)]
pub enum OutputFormat {
    /// The header line, and the body where there is one.
    Full,
    /// The header line only.
    Cfile,
}

/// If and when to use colour.
#[derive(Clone, Copy, Debug, PartialEq, Eq, Structural)]
pub enum ColorChoice {
    Auto,
    Always,
    Never,
}

/// How a terminal should show a span of text.
#[derive(Clone, Copy, Debug, PartialEq, Eq, Structural)]
pub enum Style {
    /// The location: bold.
    Location,
    /// The label of an error: in the colour of errors.
    Error,
    /// The label of a warning: in the colour of warnings.
    Warning,
    /// Anything else: as the terminal shows text by default.
    Plain,
}

/// A run of text in one style.
#[derive(Clone, Debug, PartialEq, Eq)]
pub struct Span {
    pub style: Style,
    pub text: String,
}

/// What a span holds.
pub struct SpanView {
    pub style: Style,
    pub text: Seq<char>,
}

impl View for Span {
    type V = SpanView;

    open spec fn view(&self) -> SpanView {
        SpanView { style: self.style, text: self.text@ }
    }
}

/// What a list of spans holds.
pub open spec fn span_views(spans: Seq<Span>) -> Seq<SpanView> {
    spans.map_values(|s: Span| s@)
}

/// The layout that a word names: `full` or `cfile`.
pub open spec fn output_format_of(s: Seq<char>) -> Option<OutputFormat> {
    if s == "full"@ {
        Some(OutputFormat::Full)
    } else if s == "cfile"@ {
        Some(OutputFormat::Cfile)
    } else {
        None
    }
}

/// The choice that a word names: `auto`, `always` or `never`.
pub open spec fn color_choice_of(s: Seq<char>) -> Option<ColorChoice> {
    if s == "auto"@ {
        Some(ColorChoice::Auto)
    } else if s == "always"@ {
        Some(ColorChoice::Always)
    } else if s == "never"@ {
        Some(ColorChoice::Never)
    } else {
        None
    }
}

/// Reads the name of a layout. Any word but `full` and `cfile` is refused
/// with the text `unknown value`.
pub fn try_parse_output_format(s: &str) -> (r: Result<OutputFormat, &str>)
    ensures
        match r {
            Ok(format) => output_format_of(s@) == Some(format),
            Err(e) => output_format_of(s@) is None && e@ == "unknown value"@,
        },
{
    let chars = to_chars(s);
    proof {
        assert(chars@.skip(0) =~= s@);
    }
    if rest_is(chars.as_slice(), 0, "full") {
        Ok(OutputFormat::Full)
    } else if rest_is(chars.as_slice(), 0, "cfile") {
        Ok(OutputFormat::Cfile)
    } else {
        Err("unknown value")
    }
}

/// Reads the name of a colour choice. Any word but `auto`, `always` and
/// `never` is refused with the text `unknown value`.
pub fn try_parse_color_choice(s: &str) -> (r: Result<ColorChoice, &str>)
    ensures
        match r {
            Ok(choice) => color_choice_of(s@) == Some(choice),
            Err(e) => color_choice_of(s@) is None && e@ == "unknown value"@,
        },
{
    let chars = to_chars(s);
    proof {
        assert(chars@.skip(0) =~= s@);
    }
    if rest_is(chars.as_slice(), 0, "auto") {
        Ok(ColorChoice::Auto)
    } else if rest_is(chars.as_slice(), 0, "always") {
        Ok(ColorChoice::Always)
    } else if rest_is(chars.as_slice(), 0, "never") {
        Ok(ColorChoice::Never)
    } else {
        Err("unknown value")
    }
}

/// The digit that writes a number below ten.
pub open spec fn digit_of(d: nat) -> char {
    if d == 0 {
        '0'
    } else if d == 1 {
        '1'
    } else if d == 2 {
        '2'
    } else if d == 3 {
        '3'
    } else if d == 4 {
        '4'
    } else if d == 5 {
        '5'
    } else if d == 6 {
        '6'
    } else if d == 7 {
        '7'
    } else if d == 8 {
        '8'
    } else {
        '9'
    }
}

/// A number in decimal digits, without leading zeros.
pub open spec fn decimal(n: nat) -> Seq<char>
    decreases n,
{
    if n < 10 {
        seq![digit_of(n)]
    } else {
        decimal(n / 10).push(digit_of(n % 10))
    }
}

/// A number that is written in decimal digits and read again is the same
/// number.
pub proof fn lemma_decimal_number(n: usize)
    ensures
        number(decimal(n as nat)) == Some(n),
{
    lemma_decimal(n as nat);
}

proof fn lemma_digit_of(d: nat)
    requires
        d < 10,
    ensures
        is_digit(digit_of(d)),
        digit_of(d) as u32 - '0' as u32 == d,
{
}

proof fn lemma_decimal(n: nat)
    ensures
        decimal(n).len() > 0,
        all_digits(decimal(n)),
        decimal_value(decimal(n)) == n,
    decreases n,
{
    if n < 10 {
        lemma_digit_of(n);
        assert(decimal(n).drop_last() =~= Seq::<char>::empty());
        assert(decimal_value(decimal(n).drop_last()) == 0);
    } else {
        lemma_decimal(n / 10);
        lemma_digit_of(n % 10);
        let d = decimal(n / 10);
        assert(decimal(n).drop_last() =~= d);
        assert forall|i: int| 0 <= i < decimal(n).len() implies is_digit(
            #[trigger] decimal(n)[i],
        ) by {
            if i < d.len() {
                assert(decimal(n)[i] == d[i]);
            }
        }
    }
}

/// The location of a record with the colon behind each of its parts:
/// `path:`, then `line:` and `column:` where the record has them.
pub open spec fn location(item: ItemView) -> Seq<char> {
    item.path + seq![':'] + (match item.line {
        Some(l) => decimal(l as nat) + seq![':'],
        None => Seq::empty(),
    }) + (match item.column {
        Some(c) => decimal(c as nat) + seq![':'],
        None => Seq::empty(),
    })
}

/// The label of a kind, with the space before it and the space behind it.
pub open spec fn label(kind: ItemType) -> Seq<char> {
    match kind {
        ItemType::Error => " error: "@,
        ItemType::Warning => " warning: "@,
    }
}

/// The style of the label of a kind.
pub open spec fn label_style(kind: ItemType) -> Style {
    match kind {
        ItemType::Error => Style::Error,
        ItemType::Warning => Style::Warning,
    }
}

/// The header line of a record, without the line feed that ends it.
pub open spec fn header(item: ItemView) -> Seq<char> {
    location(item) + label(item.type_) + item.subject
}

/// What follows the label: the subject and a line feed, and in the full
/// layout the body and a line feed, where the record has a body.
pub open spec fn closing(item: ItemView, format: OutputFormat) -> Seq<char> {
    item.subject + seq!['\n'] + (match (format, item.body) {
        (OutputFormat::Full, Some(body)) => body + seq!['\n'],
        _ => Seq::empty(),
    })
}

/// The spans of one record: the location, the label, and the rest.
pub open spec fn rendered(item: ItemView, format: OutputFormat) -> Seq<SpanView> {
    seq![
        SpanView { style: Style::Location, text: location(item) },
        SpanView { style: label_style(item.type_), text: label(item.type_) },
        SpanView { style: Style::Plain, text: closing(item, format) },
    ]
}

/// The spans of a list of records, one record after the other.
pub open spec fn rendered_all(items: Seq<ItemView>, format: OutputFormat) -> Seq<SpanView>
    decreases items.len(),
{
    if items.len() == 0 {
        Seq::empty()
    } else {
        rendered_all(items.drop_last(), format) + rendered(items.last(), format)
    }
}

/// The text of a list of spans, without their styles.
pub open spec fn plain(spans: Seq<SpanView>) -> Seq<char>
    decreases spans.len(),
{
    if spans.len() == 0 {
        Seq::empty()
    } else {
        plain(spans.drop_last()) + spans.last().text
    }
}

/// The header line is the path, the line and the column, each with a colon
/// behind it, a space, the kind, a colon, a space and the subject. A part
/// that the record lacks leaves no trace.
pub proof fn lemma_header(item: ItemView)
    ensures
        item.line is Some && item.column is Some ==> header(item) == item.path + seq![':']
            + decimal(item.line.unwrap() as nat) + seq![':'] + decimal(
            item.column.unwrap() as nat,
        ) + seq![':'] + label(item.type_) + item.subject,
        item.line is Some && item.column is None ==> header(item) == item.path + seq![':']
            + decimal(item.line.unwrap() as nat) + seq![':'] + label(item.type_) + item.subject,
        item.line is None && item.column is None ==> header(item) == item.path + seq![':']
            + label(item.type_) + item.subject,
{
    let e = Seq::<char>::empty();
    let p = item.path + seq![':'];
    match (item.line, item.column) {
        (Some(l), Some(c)) => {
            let a = decimal(l as nat);
            let b = decimal(c as nat);
            assert(p + (a + seq![':']) + (b + seq![':']) =~= p + a + seq![':'] + b + seq![':']);
        },
        (Some(l), None) => {
            let a = decimal(l as nat);
            assert(p + (a + seq![':']) + e =~= p + a + seq![':']);
        },
        (None, None) => {
            assert(p + e + e =~= p);
        },
        _ => {},
    }
}

/// The text of a record: its header line, a line feed, and in the full
/// layout the body and a line feed, where the record has a body.
pub open spec fn text_of(item: ItemView, format: OutputFormat) -> Seq<char> {
    header(item) + seq!['\n'] + (match (format, item.body) {
        (OutputFormat::Full, Some(body)) => body + seq!['\n'],
        _ => Seq::empty(),
    })
}

/// The text of a list of records, one record after the other.
pub open spec fn text_of_all(items: Seq<ItemView>, format: OutputFormat) -> Seq<char>
    decreases items.len(),
{
    if items.len() == 0 {
        Seq::empty()
    } else {
        text_of_all(items.drop_last(), format) + text_of(items.last(), format)
    }
}

/// The text of two lists of spans, one after the other, is the text of the
/// first and then the text of the second.
pub proof fn lemma_plain_add(a: Seq<SpanView>, b: Seq<SpanView>)
    ensures
        plain(a + b) == plain(a) + plain(b),
    decreases b.len(),
{
    if b.len() == 0 {
        assert(a + b =~= a);
        assert(plain(a) + Seq::<char>::empty() =~= plain(a));
    } else {
        lemma_plain_add(a, b.drop_last());
        assert((a + b).drop_last() =~= a + b.drop_last());
        assert((plain(a) + plain(b.drop_last())) + b.last().text =~= plain(a) + (plain(
            b.drop_last(),
        ) + b.last().text));
    }
}

/// The text of the spans of a record is the text of the record.
pub proof fn lemma_rendered_plain(item: ItemView, format: OutputFormat)
    ensures
        plain(rendered(item, format)) == text_of(item, format),
{
    let r = rendered(item, format);
    let tail = match (format, item.body) {
        (OutputFormat::Full, Some(body)) => body + seq!['\n'],
        _ => Seq::<char>::empty(),
    };
    reveal_with_fuel(plain, 4);
    assert(r.drop_last().drop_last().drop_last() =~= Seq::<SpanView>::empty());
    assert(r.drop_last().drop_last().last() == r[0]);
    assert(r.drop_last().last() == r[1]);
    assert(plain(r) == Seq::<char>::empty() + r[0].text + r[1].text + r[2].text);
    assert(Seq::<char>::empty() + location(item) + label(item.type_) + (item.subject + seq!['\n']
        + tail) =~= location(item) + label(item.type_) + item.subject + seq!['\n'] + tail);
}

/// The text of the spans of a list of records is the text of the records.
pub proof fn lemma_rendered_all_plain(items: Seq<ItemView>, format: OutputFormat)
    ensures
        plain(rendered_all(items, format)) == text_of_all(items, format),
    decreases items.len(),
{
    if items.len() > 0 {
        lemma_rendered_all_plain(items.drop_last(), format);
        lemma_rendered_plain(items.last(), format);
        lemma_plain_add(rendered_all(items.drop_last(), format), rendered(items.last(), format));
    }
}

fn digit_char(d: usize) -> (c: char)
    requires
        d < 10,
    ensures
        c == digit_of(d as nat),
{
    if d == 0 {
        '0'
    } else if d == 1 {
        '1'
    } else if d == 2 {
        '2'
    } else if d == 3 {
        '3'
    } else if d == 4 {
        '4'
    } else if d == 5 {
        '5'
    } else if d == 6 {
        '6'
    } else if d == 7 {
        '7'
    } else if d == 8 {
        '8'
    } else {
        '9'
    }
}

fn push_decimal(text: &mut String, n: usize)
    ensures
        final(text)@ == old(text)@ + decimal(n as nat),
    decreases n,
{
    if n >= 10 {
        push_decimal(text, n / 10);
    }
    let ghost before = text@;
    text.push(digit_char(n % 10));
    proof {
        if n >= 10 {
            assert(before.push(digit_of((n % 10) as nat)) =~= old(text)@ + decimal(
                (n / 10) as nat,
            ).push(digit_of((n % 10) as nat)));
        } else {
            assert(before.push(digit_of(n as nat)) =~= old(text)@ + seq![digit_of(n as nat)]);
        }
    }
}

fn location_text(item: &Item) -> (text: String)
    ensures
        text@ == location(item@),
{
    let mut text = String::from_str(item.path.as_str());
    text.push(':');
    let ghost first = text@;
    proof {
        assert(first =~= item@.path + seq![':']);
    }
    match item.line {
        Some(l) => {
            push_decimal(&mut text, l);
            text.push(':');
            proof {
                assert(text@ =~= first + (decimal(l as nat) + seq![':']));
            }
        },
        None => {
            proof {
                assert(text@ =~= first + Seq::<char>::empty());
            }
        },
    }
    let ghost second = text@;
    match item.column {
        Some(c) => {
            push_decimal(&mut text, c);
            text.push(':');
            proof {
                assert(text@ =~= second + (decimal(c as nat) + seq![':']));
            }
        },
        None => {
            proof {
                assert(text@ =~= second + Seq::<char>::empty());
            }
        },
    }
    text
}

fn fill(buffer: &mut Vec<Span>, item: &Item, format: OutputFormat)
    ensures
        span_views(final(buffer)@) == span_views(old(buffer)@) + rendered(item@, format),
{
    let ghost before = span_views(buffer@);
    let head = Span { style: Style::Location, text: location_text(item) };
    let mark = match item.type_ {
        ItemType::Error => Span { style: Style::Error, text: String::from_str(" error: ") },
        ItemType::Warning => Span { style: Style::Warning, text: String::from_str(" warning: ") },
    };
    let mut text = String::from_str(item.subject.as_str());
    text.push('\n');
    let ghost first = text@;
    proof {
        assert(first =~= item@.subject + seq!['\n']);
    }
    match (format, &item.body) {
        (OutputFormat::Full, Some(body)) => {
            text.append(body.as_str());
            text.push('\n');
            proof {
                assert(text@ =~= first + (body@ + seq!['\n']));
            }
        },
        _ => {
            proof {
                assert(text@ =~= first + Seq::<char>::empty());
            }
        },
    }
    let rest = Span { style: Style::Plain, text };
    proof {
        assert(span_views(buffer@.push(head).push(mark).push(rest)) =~= before + seq![
            head@,
            mark@,
            rest@,
        ]);
    }
    buffer.push(head);
    buffer.push(mark);
    buffer.push(rest);
}

/// Adds the spans of a record in the full layout: the header line, and the
/// body where there is one.
pub fn fill_buffer_full(buffer: &mut Vec<Span>, item: &Item)
    ensures
        span_views(final(buffer)@) == span_views(old(buffer)@) + rendered(
            item@,
            OutputFormat::Full,
        ),
{
    fill(buffer, item, OutputFormat::Full)
}

/// Adds the spans of a record in the short layout: the header line only.
pub fn fill_buffer_cfile(buffer: &mut Vec<Span>, item: &Item)
    ensures
        span_views(final(buffer)@) == span_views(old(buffer)@) + rendered(
            item@,
            OutputFormat::Cfile,
        ),
{
    fill(buffer, item, OutputFormat::Cfile)
}

/// Sorts the records, drops the duplicates and adds the spans of what is
/// left, record by record, in the given layout. Gives the number of records
/// that were rendered.
pub fn fill_buffer(format: OutputFormat, buffer: &mut Vec<Span>, items: Vec<Item>) -> (total: usize)
    ensures
        total == collated(item_views(items@)).len(),
        span_views(final(buffer)@) == span_views(old(buffer)@) + rendered_all(
            collated(item_views(items@)),
            format,
        ),
{
    let v = collate(items);
    let ghost all = item_views(v@);
    let ghost before = span_views(buffer@);
    let mut i: usize = 0;
    proof {
        assert(all.take(0) =~= Seq::<ItemView>::empty());
        assert(before + Seq::<SpanView>::empty() =~= before);
    }
    while i < v.len()
        invariant
            i <= v.len(),
            all == item_views(v@),
            span_views(buffer@) == before + rendered_all(all.take(i as int), format),
        decreases v.len() - i,
    {
        let ghost now = span_views(buffer@);
        match format {
            OutputFormat::Full => fill_buffer_full(buffer, &v[i]),
            OutputFormat::Cfile => fill_buffer_cfile(buffer, &v[i]),
        }
        proof {
            assert(all.take(i + 1).drop_last() =~= all.take(i as int));
            assert(all.take(i + 1).last() == v@[i as int]@);
            assert(now + rendered(v@[i as int]@, format) =~= before + (rendered_all(
                all.take(i as int),
                format,
            ) + rendered(v@[i as int]@, format)));
        }
        i += 1;
    }
    proof {
        assert(all.take(i as int) =~= all);
    }
    v.len()
}

/// The text of the spans, without their styles.
pub fn plain_text(buffer: &Vec<Span>) -> (text: String)
    ensures
        text@ == plain(span_views(buffer@)),
{
    let ghost all = span_views(buffer@);
    let mut text = String::new();
    let mut i: usize = 0;
    proof {
        assert(all.take(0) =~= Seq::<SpanView>::empty());
    }
    while i < buffer.len()
        invariant
            i <= buffer.len(),
            all == span_views(buffer@),
            text@ == plain(all.take(i as int)),
        decreases buffer.len() - i,
    {
        proof {
            assert(all.take(i + 1).drop_last() =~= all.take(i as int));
            assert(all.take(i + 1).last() == buffer@[i as int]@);
        }
        text.append(buffer[i].text.as_str());
        i += 1;
    }
    proof {
        assert(all.take(i as int) =~= all);
    }
    text
}

/// The exit code for a number of records: the number itself, but never more
/// than 255.
pub fn exit_code(total: usize) -> (code: i32)
    ensures
        code == if total < 255 {
            total as int
        } else {
            255
        },
{
    if total < 255 {
        total as i32
    } else {
        255
    }
}

} // verus!
