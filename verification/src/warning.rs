//! The parser of warning streams.
//!
//! A warning stream is the whole output of a build. A line of the form
//! `path:line:column: warning: subject` starts a warning, and the lines that
//! follow it are its body, up to the next warning or to the next line with
//! which the build reports its progress, such as `[3/10] compiling`.
use vstd::prelude::*;
use crate::ansi::{
    has_escape, lemma_escape_within, lemma_strip_unchanged, lemma_stripped_keeps, strip_chars,
    stripped,
};
use crate::header::{header_with, lemma_header_with, read_header, Header, HeaderView, Shape};
use crate::item::{item_views, Item, ItemType, ItemView};
use crate::scan::{
    block_views, collect, collect_blocks, event_views, lemma_collect_heads, Block, BlockView,
    Event, EventView, ScanView,
};
use crate::text::{
    blank, digits_end, is_blank, is_space, join_lines, joined, lemma_lines, lemma_lines_within, line_views,
    lines,
    single_line, skip_digits, split_lines, to_chars, to_string,
};

verus! {

/// A header line of the stream with the lines that followed it.
#[derive(Debug, Clone, PartialEq, Eq)]
pub struct Captures {
    /// The header line.
    pub head: String,
    /// The body lines, in the order in which they came.
    pub body: Vec<String>,
}

/// What a list of strings holds.
pub open spec fn string_views(v: Seq<String>) -> Seq<Seq<char>> {
    v.map_values(|s: String| s@)
}

impl View for Captures {
    type V = BlockView;

    open spec fn view(&self) -> BlockView {
        BlockView { head: self.head@, body: string_views(self.body@) }
    }
}

/// What a list of captures holds.
pub open spec fn captures_views(v: Seq<Captures>) -> Seq<BlockView> {
    v.map_values(|c: Captures| c@)
}

/// The one shape of the location of a warning: `path:line:column`.
pub open spec fn warning_shapes() -> Seq<Shape> {
    seq![Shape::LineColumn]
}

/// Reads a line as the header of a warning: `path:line:column`, a colon, a
/// space, `warning: ` and the subject.
pub open spec fn warning_header(l: Seq<char>) -> Option<HeaderView> {
    header_with(l, warning_shapes(), "warning: "@)
}

/// The line reports the progress of the build: it starts with `[`, a number,
/// `/`, a number and `]`.
pub open spec fn is_noise(l: Seq<char>) -> bool {
    let d1 = digits_end(l, 1);
    let d2 = digits_end(l, d1 + 1);
    &&& l.len() > 0
    &&& l[0] == '['
    &&& 1 < d1 < l.len()
    &&& l[d1] == '/'
    &&& d1 + 1 < d2 < l.len()
    &&& l[d2] == ']'
}

/// What a line of the stream means to the accumulator. A line that is a
/// header and reports progress as well is a header.
pub open spec fn warning_event(l: Seq<char>) -> EventView {
    if warning_header(l) is Some {
        EventView::Header(l)
    } else if is_noise(l) {
        EventView::Noise
    } else {
        EventView::Body(l)
    }
}

/// The events of the lines, in order.
pub open spec fn warning_events(all: Seq<Seq<char>>) -> Seq<EventView> {
    all.map_values(|l: Seq<char>| warning_event(l))
}

/// The blocks of a stream: each header line with its body lines.
pub open spec fn captured(haystack: Seq<char>) -> Seq<BlockView> {
    collect(ScanView::Idle, warning_events(lines(haystack)))
}

/// The lines without the blank lines at their end.
pub open spec fn trim_end(all: Seq<Seq<char>>) -> Seq<Seq<char>>
    decreases all.len(),
{
    if all.len() > 0 && is_blank(all.last()) {
        trim_end(all.drop_last())
    } else {
        all
    }
}

/// The lines without the blank lines at their start.
pub open spec fn trim_start(all: Seq<Seq<char>>) -> Seq<Seq<char>>
    decreases all.len(),
{
    if all.len() > 0 && is_blank(all[0]) {
        trim_start(all.drop_first())
    } else {
        all
    }
}

/// The lines without the blank lines at their start and at their end. A
/// line is blank when it holds nothing but whitespace.
pub open spec fn trimmed(all: Seq<Seq<char>>) -> Seq<Seq<char>> {
    trim_start(trim_end(all))
}

/// The record of a block, where its first line is the header of a warning.
/// The body is what is left of the body lines when the blank lines at both
/// ends are taken away, joined by line feeds; it is absent where nothing is
/// left. Escape sequences that are left in the path, the subject or the
/// body are removed.
pub open spec fn warning_item(b: BlockView) -> Option<ItemView> {
    match warning_header(b.head) {
        Some(h) => Some(
            ItemView {
                path: stripped(h.path),
                line: h.line,
                column: h.column,
                subject: stripped(h.subject),
                body: if trimmed(b.body).len() == 0 {
                    None
                } else {
                    Some(stripped(joined(trimmed(b.body))))
                },
                type_: ItemType::Warning,
            },
        ),
        None => None,
    }
}

/// The records of a stream: one for each block of the stream without its
/// escape sequences, in the order of the stream.
pub open spec fn parsed(haystack: Seq<char>) -> Seq<ItemView> {
    captured(stripped(haystack)).map_values(|b: BlockView| warning_item(b).unwrap())
}

/// A record is that of a warning as the parser makes it: it is a warning,
/// has a line and a column, its path holds no whitespace, and its subject is
/// one line.
pub open spec fn is_warning_record(item: ItemView) -> bool {
    &&& item.type_ == ItemType::Warning
    &&& item.line is Some
    &&& item.column is Some
    &&& forall|k: int| 0 <= k < item.path.len() ==> !is_space(#[trigger] item.path[k])
    &&& single_line(item.subject)
}

/// The record of a block whose first line is a header and holds no line
/// feed is the record of a warning.
pub proof fn lemma_warning_item(b: BlockView)
    requires
        warning_header(b.head) is Some,
        single_line(b.head),
    ensures
        warning_item(b) matches Some(item) && is_warning_record(item),
{
    lemma_header_with(b.head, warning_shapes(), "warning: "@);
    let h = warning_header(b.head).unwrap();
    lemma_stripped_keeps(h.path, |c: char| !is_space(c));
    assert forall|i: int| 0 <= i < h.subject.len() implies #[trigger] h.subject[i] != '\n' by {
        assert(h.subject[i] == b.head[b.head.len() - h.subject.len() + i]);
    }
    lemma_stripped_keeps(h.subject, |c: char| c != '\n');
}

/// The record of a block whose first line is a header without escape
/// sequences has the path and the subject of the header; its path is not
/// empty.
pub proof fn lemma_warning_item_plain(b: BlockView)
    requires
        warning_header(b.head) is Some,
        !has_escape(b.head),
    ensures
        warning_item(b).unwrap().path == warning_header(b.head).unwrap().path,
        warning_item(b).unwrap().subject == warning_header(b.head).unwrap().subject,
        warning_item(b).unwrap().path.len() > 0,
{
    lemma_header_with(b.head, warning_shapes(), "warning: "@);
    let h = warning_header(b.head).unwrap();
    let l = b.head;
    assert(l.take(h.path.len() as int) =~= l.subrange(0, h.path.len() as int));
    assert(l.skip(l.len() - h.subject.len()) =~= l.subrange(
        l.len() - h.subject.len(),
        l.len() as int,
    ));
    lemma_escape_within(l, 0, h.path.len() as int);
    lemma_escape_within(l, l.len() - h.subject.len(), l.len() as int);
    lemma_strip_unchanged(h.path);
    lemma_strip_unchanged(h.subject);
}

/// The first line of every block of a text is a header, holds no line feed,
/// and holds no escape sequence unless one starts in the text.
pub proof fn lemma_captured(text: Seq<char>)
    ensures
        forall|i: int|
            0 <= i < captured(text).len() ==> {
                let head = (#[trigger] captured(text)[i]).head;
                &&& warning_header(head) is Some
                &&& single_line(head)
                &&& !has_escape(text) ==> !has_escape(head)
            },
{
    let all = lines(text);
    let events = warning_events(all);
    let plain = |l: Seq<char>| single_line(l) && (!has_escape(text) ==> !has_escape(l));
    lemma_lines(text);
    assert forall|a: int, b: int| 0 <= a <= b <= text.len() implies (!has_escape(text)
        ==> !has_escape(#[trigger] text.subrange(a, b))) by {
        if !has_escape(text) {
            lemma_escape_within(text, a, b);
        }
    }
    lemma_lines_within(text, |l: Seq<char>| !has_escape(text) ==> !has_escape(l));
    assert forall|i: int| 0 <= i < events.len() implies (#[trigger] events[i]
        matches EventView::Header(l) ==> warning_header(l) is Some && plain(l)) by {
        assert(events[i] == warning_event(all[i]));
    }
    lemma_collect_heads(
        ScanView::Idle,
        events,
        |l: Seq<char>| warning_header(l) is Some && plain(l),
    );
}

/// Every record of a stream is the record of a warning.
pub proof fn lemma_parsed(haystack: Seq<char>)
    ensures
        forall|i: int|
            0 <= i < parsed(haystack).len() ==> is_warning_record(#[trigger] parsed(haystack)[i]),
{
    lemma_captured(stripped(haystack));
    assert forall|i: int| 0 <= i < parsed(haystack).len() implies is_warning_record(
        #[trigger] parsed(haystack)[i],
    ) by {
        lemma_warning_item(captured(stripped(haystack))[i]);
    }
}

/// Unless an escape sequence is left in the stream once it is stripped,
/// every record of the stream has a path.
pub proof fn lemma_parsed_paths(haystack: Seq<char>)
    requires
        !has_escape(stripped(haystack)),
    ensures
        forall|i: int|
            0 <= i < parsed(haystack).len() ==> (#[trigger] parsed(haystack)[i]).path.len() > 0,
{
    lemma_captured(stripped(haystack));
    assert forall|i: int| 0 <= i < parsed(haystack).len() implies (#[trigger] parsed(
        haystack,
    )[i]).path.len() > 0 by {
        lemma_warning_item_plain(captured(stripped(haystack))[i]);
    }
}

/// Tells whether a line reports the progress of the build.
pub fn noise(l: &[char]) -> (r: bool)
    ensures
        r == is_noise(l@),
{
    if l.len() == 0 || l[0] != '[' {
        return false;
    }
    let d1 = skip_digits(l, 1);
    if d1 <= 1 || d1 >= l.len() || l[d1] != '/' {
        return false;
    }
    let d2 = skip_digits(l, d1 + 1);
    d2 > d1 + 1 && d2 < l.len() && l[d2] == ']'
}

/// Reads a line as the header of a warning.
pub fn read_warning_header(l: &[char]) -> (r: Option<Header>)
    ensures
        match r {
            Some(h) => warning_header(l@) == Some(h@),
            None => warning_header(l@) is None,
        },
{
    let mut shapes: Vec<Shape> = Vec::new();
    shapes.push(Shape::LineColumn);
    proof {
        assert(shapes@ =~= warning_shapes());
    }
    read_header(l, shapes.as_slice(), "warning: ")
}

fn classify(all: Vec<Vec<char>>) -> (events: Vec<Event>)
    ensures
        event_views(events@) == warning_events(line_views(all@)),
{
    let ghost views = line_views(all@);
    let mut events: Vec<Event> = Vec::new();
    let mut all = all;
    let n = all.len();
    let mut i: usize = 0;
    while i < n
        invariant
            i <= n,
            n == all.len(),
            n == views.len(),
            forall|k: int| i <= k < n ==> (#[trigger] all@[k])@ == views[k],
            event_views(events@) == warning_events(views).take(i as int),
        decreases n - i,
    {
        let mut line: Vec<char> = Vec::new();
        std::mem::swap(&mut line, &mut all[i]);
        let event = if read_warning_header(line.as_slice()).is_some() {
            Event::Header(line)
        } else if noise(line.as_slice()) {
            Event::Noise
        } else {
            Event::Body(line)
        };
        proof {
            assert(event_views(events@.push(event)) =~= event_views(events@).push(event@));
            assert(warning_events(views).take(i + 1) =~= warning_events(views).take(i as int).push(
                event@,
            ));
        }
        events.push(event);
        i += 1;
    }
    proof {
        assert(warning_events(views).take(n as int) =~= warning_events(views));
    }
    events
}

fn scan_blocks(haystack: &[char]) -> (blocks: Vec<Block>)
    ensures
        block_views(blocks@) == captured(haystack@),
        forall|j: int|
            0 <= j < blocks.len() ==> warning_header((#[trigger] block_views(blocks@)[j]).head)
                is Some,
{
    let events = classify(split_lines(haystack));
    proof {
        lemma_captured(haystack@);
    }
    collect_blocks(events)
}

fn to_strings(all: &[Vec<char>]) -> (out: Vec<String>)
    ensures
        string_views(out@) == line_views(all@),
{
    let mut out: Vec<String> = Vec::new();
    let mut i: usize = 0;
    while i < all.len()
        invariant
            i <= all.len(),
            string_views(out@) == line_views(all@).take(i as int),
        decreases all.len() - i,
    {
        let s = to_string(all[i].as_slice());
        proof {
            assert(string_views(out@.push(s)) =~= string_views(out@).push(s@));
            assert(line_views(all@).take(i + 1) =~= line_views(all@).take(i as int).push(s@));
        }
        out.push(s);
        i += 1;
    }
    proof {
        assert(line_views(all@).take(i as int) =~= line_views(all@));
    }
    out
}

fn to_lines(all: &[String]) -> (out: Vec<Vec<char>>)
    ensures
        line_views(out@) == string_views(all@),
{
    let mut out: Vec<Vec<char>> = Vec::new();
    let mut i: usize = 0;
    while i < all.len()
        invariant
            i <= all.len(),
            line_views(out@) == string_views(all@).take(i as int),
        decreases all.len() - i,
    {
        let l = to_chars(all[i].as_str());
        proof {
            assert(line_views(out@.push(l)) =~= line_views(out@).push(l@));
            assert(string_views(all@).take(i + 1) =~= string_views(all@).take(i as int).push(l@));
        }
        out.push(l);
        i += 1;
    }
    proof {
        assert(string_views(all@).take(i as int) =~= string_views(all@));
    }
    out
}

/// Cuts a stream into its blocks: each header line with its body lines.
///
/// The stream is read as it is: escape sequences are not removed.
pub fn find_captures(haystack: &str) -> (captures: Vec<Captures>)
    ensures
        captures_views(captures@) == captured(haystack@),
{
    let chars = to_chars(haystack);
    let blocks = scan_blocks(chars.as_slice());
    let mut captures: Vec<Captures> = Vec::new();
    let mut i: usize = 0;
    while i < blocks.len()
        invariant
            i <= blocks.len(),
            captures_views(captures@) == block_views(blocks@).take(i as int),
        decreases blocks.len() - i,
    {
        let c = Captures {
            head: to_string(blocks[i].head.as_slice()),
            body: to_strings(blocks[i].body.as_slice()),
        };
        proof {
            assert(c@ == blocks@[i as int]@);
            assert(captures_views(captures@.push(c)) =~= captures_views(captures@).push(c@));
            assert(block_views(blocks@).take(i + 1) =~= block_views(blocks@).take(i as int).push(
                c@,
            ));
        }
        captures.push(c);
        i += 1;
    }
    proof {
        assert(block_views(blocks@).take(i as int) =~= block_views(blocks@));
    }
    captures
}

fn trim(all: &[Vec<char>]) -> (r: (usize, usize))
    ensures
        r.0 <= r.1 <= all@.len(),
        line_views(all@).subrange(r.0 as int, r.1 as int) == trimmed(line_views(all@)),
{
    let ghost views = line_views(all@);
    let mut end: usize = all.len();
    proof {
        assert(views.take(end as int) =~= views);
    }
    while end > 0 && blank(all[end - 1].as_slice())
        invariant
            end <= all.len(),
            views == line_views(all@),
            trim_end(views) == trim_end(views.take(end as int)),
        decreases end,
    {
        proof {
            assert(views.take(end as int).last() == all@[end - 1]@);
            assert(views.take(end as int).drop_last() =~= views.take(end - 1));
        }
        end -= 1;
    }
    proof {
        if end > 0 {
            assert(views.take(end as int).last() == all@[end - 1]@);
        }
        assert(trim_end(views) == views.take(end as int));
        assert(views.subrange(0, end as int) =~= views.take(end as int));
    }
    let mut start: usize = 0;
    while start < end && blank(all[start].as_slice())
        invariant
            start <= end <= all.len(),
            views == line_views(all@),
            trimmed(views) == trim_start(views.subrange(start as int, end as int)),
        decreases end - start,
    {
        proof {
            assert(views.subrange(start as int, end as int)[0] == all@[start as int]@);
            assert(views.subrange(start as int, end as int).drop_first() =~= views.subrange(
                start + 1,
                end as int,
            ));
        }
        start += 1;
    }
    proof {
        if start < end {
            assert(views.subrange(start as int, end as int)[0] == all@[start as int]@);
        }
    }
    (start, end)
}

fn make_item(head: &[char], body: &[Vec<char>]) -> (r: Option<Item>)
    ensures
        match r {
            Some(item) => warning_item(BlockView { head: head@, body: line_views(body@) }) == Some(
                item@,
            ),
            None => warning_item(BlockView { head: head@, body: line_views(body@) }) is None,
        },
{
    let h = match read_warning_header(head) {
        Some(h) => h,
        None => {
            return None;
        },
    };
    let (start, end) = trim(body);
    let body = if start == end {
        None
    } else {
        let kept = vstd::slice::slice_subrange(body, start, end);
        proof {
            assert(line_views(kept@) =~= line_views(body@).subrange(start as int, end as int));
        }
        let text = join_lines(kept);
        Some(to_string(strip_chars(text.as_slice()).as_slice()))
    };
    Some(
        Item {
            path: to_string(strip_chars(h.path.as_slice()).as_slice()),
            line: h.line,
            column: h.column,
            subject: to_string(strip_chars(h.subject.as_slice()).as_slice()),
            body,
            type_: ItemType::Warning,
        },
    )
}

impl Item {
    /// Makes the record of a block of a warning stream. There is none where
    /// the first line of the block is no header of a warning.
    pub fn from_captures(captures: &Captures) -> (r: Option<Item>)
        ensures
            match r {
                Some(item) => warning_item(captures@) == Some(item@),
                None => warning_item(captures@) is None,
            },
    {
        let head = to_chars(captures.head.as_str());
        let body = to_lines(captures.body.as_slice());
        make_item(head.as_slice(), body.as_slice())
    }
}

/// Reads a warning stream.
///
/// Escape sequences are removed first. Every line of the form
/// `path:line:column: warning: subject` then starts a record, and the lines
/// that follow it, up to the next such line or to the next line that reports
/// progress, are its body. The records come in the order of the stream. A
/// stream without warnings, the empty one too, gives no record.
pub fn parse(haystack: &str) -> (items: Vec<Item>)
    ensures
        item_views(items@) == parsed(haystack@),
        forall|i: int| 0 <= i < items.len() ==> is_warning_record(#[trigger] items@[i]@),
{
    let chars = to_chars(haystack);
    let plain = strip_chars(chars.as_slice());
    let blocks = scan_blocks(plain.as_slice());
    let mut items: Vec<Item> = Vec::new();
    let mut i: usize = 0;
    while i < blocks.len()
        invariant
            i <= blocks.len(),
            block_views(blocks@) == captured(stripped(haystack@)),
            forall|j: int|
                0 <= j < blocks.len() ==> warning_header((#[trigger] block_views(blocks@)[j]).head)
                    is Some,
            item_views(items@) == parsed(haystack@).take(i as int),
        decreases blocks.len() - i,
    {
        proof {
            assert(block_views(blocks@)[i as int] == blocks@[i as int]@);
        }
        let item = make_item(blocks[i].head.as_slice(), blocks[i].body.as_slice()).unwrap();
        proof {
            assert(item_views(items@.push(item)) =~= item_views(items@).push(item@));
            assert(parsed(haystack@).take(i + 1) =~= parsed(haystack@).take(i as int).push(item@));
        }
        items.push(item);
        i += 1;
    }
    proof {
        assert(parsed(haystack@).take(i as int) =~= parsed(haystack@));
        lemma_parsed(haystack@);
        assert forall|i: int| 0 <= i < items.len() implies is_warning_record(
            #[trigger] items@[i]@,
        ) by {
            assert(item_views(items@)[i] == items@[i]@);
        }
    }
    items
}

} // verus!
