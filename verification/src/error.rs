//! The parser of failure logs.
//!
//! A failure log holds one block for each command that failed: four header
//! lines, the line `Output:`, what the command printed, and an empty line.
//! What the command printed is read line by line: a line of the form
//! `path:line:column: error: subject`, with or without the column or the
//! line, and with `fatal error` in place of `error`, starts a diagnostic, and
//! the lines that follow it are its body.
use vstd::prelude::*;
use vstd::string::StringExecFns;
use crate::ansi::{
    has_escape, lemma_escape_within, lemma_strip_unchanged, lemma_stripped_keeps, strip_chars,
    stripped,
};
use crate::header::{
    all_shapes, header_with, lemma_header_with, read_header, Header, HeaderView, Shape,
};
use crate::item::{item_views, well_formed, Item, ItemType, ItemView};
use crate::scan::{
    block_views, collect, collect_blocks, event_views, lemma_collect_heads, Block, BlockView,
    Event, EventView, ScanView,
};
use crate::text::{
    copy_range, digits_end, has_at, is_space, join_lines, joined, lemma_line_end, lemma_lines, lemma_lines_within,
    line_end, line_views, lines, match_at, rest_is, single_line, skip_digits, split_lines,
    to_chars, to_string,
};

verus! {

/// Why a failure log could not be read.
#[derive(Debug, Clone, PartialEq, Eq)]
pub enum ParseError {
    /// The input holds no failure block at all.
    InputStructureError,
    /// A failure block holds no diagnostic; the text is what its command
    /// printed.
    BlockParseError(String),
}

/// What an error holds.
pub enum ParseErrorView {
    InputStructureError,
    BlockParseError(Seq<char>),
}

impl View for ParseError {
    type V = ParseErrorView;

    open spec fn view(&self) -> ParseErrorView {
        match self {
            ParseError::InputStructureError => ParseErrorView::InputStructureError,
            ParseError::BlockParseError(output) => ParseErrorView::BlockParseError(output@),
        }
    }
}

/// The text that describes an error.
pub open spec fn message_of(e: ParseErrorView) -> Seq<char> {
    match e {
        ParseErrorView::InputStructureError => "failed to split input into blocks"@,
        ParseErrorView::BlockParseError(output) => "failed to parse block '"@ + output + "'"@,
    }
}

impl ParseError {
    /// The text that describes the error.
    pub fn message(&self) -> (text: String)
        ensures
            text@ == message_of(self@),
    {
        match self {
            ParseError::InputStructureError => String::from_str(
                "failed to split input into blocks",
            ),
            ParseError::BlockParseError(output) => {
                let mut text = String::from_str("failed to parse block '");
                text.append(output.as_str());
                text.append("'");
                text
            },
        }
    }
}

/// The line is the count of errors with which a compiler ends its output:
/// a number, ` error` or ` errors`, and nothing more or ` generated.`
pub open spec fn is_summary(l: Seq<char>) -> bool {
    let d = digits_end(l, 0);
    let rest = l.skip(d);
    d > 0 && (rest == " error"@ || rest == " errors"@ || rest == " error generated."@ || rest
        == " errors generated."@)
}

/// Tells whether a line is the count of errors that ends a compiler's
/// output.
pub fn summary(l: &[char]) -> (r: bool)
    ensures
        r == is_summary(l@),
{
    let d = skip_digits(l, 0);
    d > 0 && (rest_is(l, d, " error") || rest_is(l, d, " errors") || rest_is(
        l,
        d,
        " error generated.",
    ) || rest_is(l, d, " errors generated."))
}

/// Reads a line as the header of an error. The location is tried as
/// `path:line:column`, then as `path:line`, then as `path`; the label is
/// `fatal error: ` or `error: `.
pub open spec fn error_header(l: Seq<char>) -> Option<HeaderView> {
    match header_with(l, all_shapes(), "fatal error: "@) {
        Some(h) => Some(h),
        None => header_with(l, all_shapes(), "error: "@),
    }
}

/// Reads a line as the header of an error.
pub fn read_error_header(l: &[char]) -> (r: Option<Header>)
    ensures
        match r {
            Some(h) => error_header(l@) == Some(h@),
            None => error_header(l@) is None,
        },
{
    let mut shapes: Vec<Shape> = Vec::new();
    shapes.push(Shape::LineColumn);
    shapes.push(Shape::Line);
    shapes.push(Shape::Bare);
    proof {
        assert(shapes@ =~= all_shapes());
    }
    match read_header(l, shapes.as_slice(), "fatal error: ") {
        Some(h) => Some(h),
        None => read_header(l, shapes.as_slice(), "error: "),
    }
}

/// A line of a command's output that is read at all: it is not empty and is
/// no count of errors.
pub open spec fn is_kept(l: Seq<char>) -> bool {
    l.len() > 0 && !is_summary(l)
}

/// What a line of a command's output means to the accumulator: the header
/// of an error, or a body line.
pub open spec fn error_event(l: Seq<char>) -> EventView {
    if error_header(l) is Some {
        EventView::Header(l)
    } else {
        EventView::Body(l)
    }
}

/// The events of the lines that are read, in order.
pub open spec fn error_events(all: Seq<Seq<char>>) -> Seq<EventView>
    decreases all.len(),
{
    if all.len() == 0 {
        Seq::empty()
    } else if is_kept(all.last()) {
        error_events(all.drop_last()).push(error_event(all.last()))
    } else {
        error_events(all.drop_last())
    }
}

/// The record of a block whose first line is the header of an error. Escape
/// sequences that are left in the path, the subject or the body are removed.
pub open spec fn error_item(b: BlockView) -> ItemView {
    let h = error_header(b.head).unwrap();
    ItemView {
        path: stripped(h.path),
        line: h.line,
        column: h.column,
        subject: stripped(h.subject),
        body: if b.body.len() == 0 {
            None
        } else {
            Some(stripped(joined(b.body)))
        },
        type_: ItemType::Error,
    }
}

/// The blocks of diagnostics in what one command printed.
pub open spec fn output_blocks(output: Seq<char>) -> Seq<BlockView> {
    collect(ScanView::Idle, error_events(lines(stripped(output))))
}

/// The records of what one command printed.
pub open spec fn output_items(output: Seq<char>) -> Seq<ItemView> {
    output_blocks(output).map_values(|b: BlockView| error_item(b))
}

/// Where the text goes on at index `at` with `label` and the line that
/// `label` starts ends with a line feed: the index behind that line feed.
pub open spec fn labelled_line(s: Seq<char>, at: int, label: Seq<char>) -> Option<int> {
    let e = line_end(s, at + label.len());
    if has_at(s, at, label) && e < s.len() {
        Some(e + 1)
    } else {
        None
    }
}

/// The index of the first line feed at or behind `from` that another line
/// feed follows, or the length of the text where there is none.
pub open spec fn blank_line(s: Seq<char>, from: int) -> int
    decreases s.len() - from,
{
    if from < 0 || from + 1 >= s.len() {
        s.len() as int
    } else if s[from] == '\n' && s[from + 1] == '\n' {
        from
    } else {
        blank_line(s, from + 1)
    }
}

/// The empty line stands inside the text, with both of its line feeds.
pub proof fn lemma_blank_line(s: Seq<char>, from: int)
    requires
        0 <= from <= s.len(),
    ensures
        from <= blank_line(s, from) <= s.len(),
        blank_line(s, from) < s.len() ==> blank_line(s, from) + 2 <= s.len(),
    decreases s.len() - from,
{
    if from + 1 < s.len() && !(s[from] == '\n' && s[from + 1] == '\n') {
        lemma_blank_line(s, from + 1);
    }
}

/// Where a failure block starts at index `at`: the range of what its command
/// printed, as the index of its first character and the index behind its
/// last.
///
/// The block is a line that starts with `FAILED: `, one with `Outputs: `,
/// one with `Error: `, one with `Command: `, the line `Output:`, and then
/// everything up to the first empty line. The two line feeds that make the
/// empty line end the block.
pub open spec fn block_at(s: Seq<char>, at: int) -> Option<(int, int)> {
    match labelled_line(s, at, "FAILED: "@) {
        Some(outputs_at) => match labelled_line(s, outputs_at, "Outputs: "@) {
            Some(error_at) => match labelled_line(s, error_at, "Error: "@) {
                Some(command_at) => match labelled_line(s, command_at, "Command: "@) {
                    Some(output_at) => {
                        let q = output_at + "Output:\n"@.len();
                        let r = blank_line(s, q);
                        if has_at(s, output_at, "Output:\n"@) && r < s.len() {
                            Some((q, r))
                        } else {
                            None
                        }
                    },
                    None => None,
                },
                None => None,
            },
            None => None,
        },
        None => None,
    }
}

/// The index starts a line: it is the start of the text or stands behind a
/// line feed.
pub open spec fn at_line_start(s: Seq<char>, at: int) -> bool {
    at == 0 || (0 < at <= s.len() && s[at - 1] == '\n')
}

/// A labelled line ends behind its label and inside the text.
pub proof fn lemma_labelled_line(s: Seq<char>, at: int, label: Seq<char>)
    ensures
        labelled_line(s, at, label) matches Some(next) ==> 0 <= at && at + label.len() < next
            <= s.len(),
{
    if has_at(s, at, label) {
        lemma_line_end(s, at + label.len());
    }
}

/// What a command printed stands behind the start of its block, and the
/// empty line that ends the block stands inside the text.
pub proof fn lemma_block_at(s: Seq<char>, at: int)
    ensures
        block_at(s, at) matches Some((q, r)) ==> 0 <= at < q <= r && r + 2 <= s.len(),
{
    lemma_labelled_line(s, at, "FAILED: "@);
    if let Some(outputs_at) = labelled_line(s, at, "FAILED: "@) {
        lemma_labelled_line(s, outputs_at, "Outputs: "@);
        if let Some(error_at) = labelled_line(s, outputs_at, "Outputs: "@) {
            lemma_labelled_line(s, error_at, "Error: "@);
            if let Some(command_at) = labelled_line(s, error_at, "Error: "@) {
                lemma_labelled_line(s, command_at, "Command: "@);
                if let Some(output_at) = labelled_line(s, command_at, "Command: "@) {
                    if has_at(s, output_at, "Output:\n"@) {
                        lemma_blank_line(s, output_at + "Output:\n"@.len());
                    }
                }
            }
        }
    }
}

/// What the commands of the failure blocks printed, one text for each block
/// that starts at or behind index `from`. The text is read from the left;
/// behind a block the search goes on with what follows it.
pub open spec fn outputs_from(s: Seq<char>, from: int) -> Seq<Seq<char>>
    decreases s.len() - from,
{
    if from < 0 || from >= s.len() {
        Seq::empty()
    } else if at_line_start(s, from) && block_at(s, from) is Some {
        let (q, r) = block_at(s, from).unwrap();
        proof {
            lemma_block_at(s, from);
        }
        seq![s.subrange(q, r)] + outputs_from(s, r + 2)
    } else {
        outputs_from(s, from + 1)
    }
}

/// What reading the outputs of the failure blocks gives: their records, one
/// block after the other, or the error of the first block that holds no
/// diagnostic.
pub open spec fn parsed_outputs(outputs: Seq<Seq<char>>) -> Result<Seq<ItemView>, ParseErrorView>
    decreases outputs.len(),
{
    if outputs.len() == 0 {
        Ok(Seq::empty())
    } else if output_items(outputs[0]).len() == 0 {
        Err(ParseErrorView::BlockParseError(outputs[0]))
    } else {
        match parsed_outputs(outputs.drop_first()) {
            Ok(rest) => Ok(output_items(outputs[0]) + rest),
            Err(e) => Err(e),
        }
    }
}

/// What reading a failure log gives. The empty log holds no record. Any
/// other log must hold a failure block.
pub open spec fn parsed(haystack: Seq<char>) -> Result<Seq<ItemView>, ParseErrorView> {
    if haystack.len() == 0 {
        Ok(Seq::empty())
    } else if outputs_from(haystack, 0).len() == 0 {
        Err(ParseErrorView::InputStructureError)
    } else {
        parsed_outputs(outputs_from(haystack, 0))
    }
}

/// A record is that of an error as the parser makes it: it is an error, has
/// no column unless it has a line, its path holds no whitespace, and its
/// subject is one line.
pub open spec fn is_error_record(item: ItemView) -> bool {
    &&& item.type_ == ItemType::Error
    &&& well_formed(item)
    &&& forall|k: int| 0 <= k < item.path.len() ==> !is_space(#[trigger] item.path[k])
    &&& single_line(item.subject)
}

/// A header that was read has a path without whitespace, which is the start
/// of the line, has no column unless it has a line, and has a subject that is
/// the end of the line.
pub proof fn lemma_error_header(l: Seq<char>)
    ensures
        error_header(l) matches Some(h) ==> {
            &&& h.path.len() > 0
            &&& forall|k: int| 0 <= k < h.path.len() ==> !is_space(#[trigger] h.path[k])
            &&& h.column is Some ==> h.line is Some
            &&& h.path.len() <= l.len()
            &&& h.path == l.take(h.path.len() as int)
            &&& h.subject.len() <= l.len()
            &&& h.subject == l.skip(l.len() - h.subject.len())
        },
{
    lemma_header_with(l, all_shapes(), "fatal error: "@);
    lemma_header_with(l, all_shapes(), "error: "@);
}

/// The record of a block whose first line is a header and holds no line
/// feed is the record of an error.
pub proof fn lemma_error_item(b: BlockView)
    requires
        error_header(b.head) is Some,
        single_line(b.head),
    ensures
        is_error_record(error_item(b)),
{
    lemma_error_header(b.head);
    let h = error_header(b.head).unwrap();
    lemma_stripped_keeps(h.path, |c: char| !is_space(c));
    assert forall|i: int| 0 <= i < h.subject.len() implies #[trigger] h.subject[i] != '\n' by {
        assert(h.subject[i] == b.head[b.head.len() - h.subject.len() + i]);
    }
    lemma_stripped_keeps(h.subject, |c: char| c != '\n');
}

/// The record of a block whose first line is a header without escape
/// sequences has the path and the subject of the header; its path is not
/// empty.
pub proof fn lemma_error_item_plain(b: BlockView)
    requires
        error_header(b.head) is Some,
        !has_escape(b.head),
    ensures
        error_item(b).path == error_header(b.head).unwrap().path,
        error_item(b).subject == error_header(b.head).unwrap().subject,
        error_item(b).path.len() > 0,
{
    lemma_error_header(b.head);
    let h = error_header(b.head).unwrap();
    let l = b.head;
    assert(l.take(h.path.len() as int) =~= l.subrange(0, h.path.len() as int));
    assert(l.skip(l.len() - h.subject.len()) =~= l.subrange(
        l.len() - h.subject.len(),
        l.len() as int,
    ));
    lemma_escape_within(l, 0, h.path.len() as int);
    lemma_escape_within(l, l.len() - h.subject.len(), l.len() as int);
    lemma_strip_unchanged(h.path);
    lemma_strip_unchanged(h.subject);
}

/// The first line of every block of what a command printed is a header,
/// holds no line feed, and holds no escape sequence unless one is left in
/// the output once it is stripped.
pub proof fn lemma_output_blocks(output: Seq<char>)
    ensures
        forall|i: int|
            0 <= i < output_blocks(output).len() ==> {
                let head = (#[trigger] output_blocks(output)[i]).head;
                &&& error_header(head) is Some
                &&& single_line(head)
                &&& !has_escape(stripped(output)) ==> !has_escape(head)
            },
{
    let text = stripped(output);
    let all = lines(text);
    let plain = |l: Seq<char>| single_line(l) && (!has_escape(text) ==> !has_escape(l));
    lemma_lines(text);
    assert forall|a: int, b: int| 0 <= a <= b <= text.len() implies (!has_escape(text)
        ==> !has_escape(#[trigger] text.subrange(a, b))) by {
        if !has_escape(text) {
            lemma_escape_within(text, a, b);
        }
    }
    lemma_lines_within(text, |l: Seq<char>| !has_escape(text) ==> !has_escape(l));
    lemma_error_events(all, plain);
    lemma_collect_heads(
        ScanView::Idle,
        error_events(all),
        |l: Seq<char>| error_header(l) is Some && plain(l),
    );
}

/// Every record of what a command printed is the record of an error.
pub proof fn lemma_output_items(output: Seq<char>)
    ensures
        forall|i: int|
            0 <= i < output_items(output).len() ==> is_error_record(
                #[trigger] output_items(output)[i],
            ),
{
    lemma_output_blocks(output);
    assert forall|i: int| 0 <= i < output_items(output).len() implies is_error_record(
        #[trigger] output_items(output)[i],
    ) by {
        lemma_error_item(output_blocks(output)[i]);
    }
}

/// Unless an escape sequence is left in the output once it is stripped,
/// every record of the output has a path.
pub proof fn lemma_output_paths(output: Seq<char>)
    requires
        !has_escape(stripped(output)),
    ensures
        forall|i: int|
            0 <= i < output_items(output).len() ==> (#[trigger] output_items(output)[i]).path.len()
                > 0,
{
    lemma_output_blocks(output);
    assert forall|i: int| 0 <= i < output_items(output).len() implies (#[trigger] output_items(
        output,
    )[i]).path.len() > 0 by {
        lemma_error_item_plain(output_blocks(output)[i]);
    }
}

proof fn lemma_error_events(all: Seq<Seq<char>>, q: spec_fn(Seq<char>) -> bool)
    requires
        forall|k: int| 0 <= k < all.len() ==> q(#[trigger] all[k]),
    ensures
        forall|i: int|
            0 <= i < error_events(all).len() ==> (#[trigger] error_events(all)[i]
                matches EventView::Header(l) ==> error_header(l) is Some && q(l)),
    decreases all.len(),
{
    if all.len() > 0 {
        let front = all.drop_last();
        assert forall|k: int| 0 <= k < front.len() implies q(#[trigger] front[k]) by {
            assert(front[k] == all[k]);
        }
        lemma_error_events(front, q);
    }
}

proof fn lemma_parsed_outputs(outputs: Seq<Seq<char>>)
    ensures
        parsed_outputs(outputs) matches Ok(items) ==> (outputs.len() > 0 ==> items.len() > 0)
            && forall|i: int|
            0 <= i < items.len() ==> is_error_record(#[trigger] items[i]),
    decreases outputs.len(),
{
    if outputs.len() > 0 {
        lemma_output_items(outputs[0]);
        lemma_parsed_outputs(outputs.drop_first());
        if let Ok(items) = parsed_outputs(outputs) {
            let first = output_items(outputs[0]);
            let rest = parsed_outputs(outputs.drop_first())->Ok_0;
            assert forall|i: int| 0 <= i < items.len() implies is_error_record(
                #[trigger] items[i],
            ) by {
                if i < first.len() {
                    assert(items[i] == first[i]);
                } else {
                    assert(items[i] == rest[i - first.len()]);
                }
            }
        }
    }
}

/// A failure log that is read holds a record unless it is empty, and every
/// record of it is the record of an error.
pub proof fn lemma_parsed(haystack: Seq<char>)
    ensures
        parsed(haystack) matches Ok(items) ==> (haystack.len() > 0 ==> items.len() > 0)
            && forall|i: int|
            0 <= i < items.len() ==> is_error_record(#[trigger] items[i]),
{
    if haystack.len() > 0 {
        lemma_parsed_outputs(outputs_from(haystack, 0));
    }
}

fn classify(all: Vec<Vec<char>>) -> (events: Vec<Event>)
    ensures
        event_views(events@) == error_events(line_views(all@)),
{
    let ghost views = line_views(all@);
    let mut events: Vec<Event> = Vec::new();
    let mut all = all;
    let n = all.len();
    let mut i: usize = 0;
    proof {
        assert(views.take(0) =~= Seq::<Seq<char>>::empty());
        assert(event_views(events@) =~= Seq::<EventView>::empty());
    }
    while i < n
        invariant
            i <= n,
            n == all.len(),
            n == views.len(),
            forall|k: int| i <= k < n ==> (#[trigger] all@[k])@ == views[k],
            event_views(events@) == error_events(views.take(i as int)),
        decreases n - i,
    {
        let mut line: Vec<char> = Vec::new();
        std::mem::swap(&mut line, &mut all[i]);
        proof {
            assert(views.take(i + 1).drop_last() =~= views.take(i as int));
            assert(views.take(i + 1).last() == line@);
        }
        if line.len() > 0 && !summary(line.as_slice()) {
            let event = if read_error_header(line.as_slice()).is_some() {
                Event::Header(line)
            } else {
                Event::Body(line)
            };
            proof {
                assert(event_views(events@.push(event)) =~= event_views(events@).push(event@));
            }
            events.push(event);
        }
        i += 1;
    }
    proof {
        assert(views.take(n as int) =~= views);
    }
    events
}

fn make_item(block: &Block) -> (item: Item)
    requires
        error_header(block@.head) is Some,
    ensures
        item@ == error_item(block@),
{
    let h = read_error_header(block.head.as_slice()).unwrap();
    let path = strip_chars(h.path.as_slice());
    let subject = strip_chars(h.subject.as_slice());
    let body = if block.body.len() == 0 {
        None
    } else {
        let text = join_lines(block.body.as_slice());
        Some(to_string(strip_chars(text.as_slice()).as_slice()))
    };
    Item {
        path: to_string(path.as_slice()),
        line: h.line,
        column: h.column,
        subject: to_string(subject.as_slice()),
        body,
        type_: ItemType::Error,
    }
}

/// Reads what one command printed and gives its records, in the order in
/// which their headers stand.
pub fn read_output(output: &[char]) -> (items: Vec<Item>)
    ensures
        item_views(items@) == output_items(output@),
        forall|i: int|
            0 <= i < items.len() ==> is_error_record(#[trigger] items@[i]@),
{
    let plain = strip_chars(output);
    let events = classify(split_lines(plain.as_slice()));
    let blocks = collect_blocks(events);
    proof {
        lemma_output_blocks(output@);
    }
    let mut items: Vec<Item> = Vec::new();
    let mut i: usize = 0;
    while i < blocks.len()
        invariant
            i <= blocks.len(),
            block_views(blocks@) == output_blocks(output@),
            forall|j: int|
                0 <= j < blocks.len() ==> error_header((#[trigger] block_views(blocks@)[j]).head)
                    is Some,
            item_views(items@) == output_items(output@).take(i as int),
        decreases blocks.len() - i,
    {
        proof {
            assert(block_views(blocks@)[i as int] == blocks@[i as int]@);
        }
        let item = make_item(&blocks[i]);
        proof {
            assert(item_views(items@.push(item)) =~= item_views(items@).push(item@));
            assert(output_items(output@).take(i + 1) =~= output_items(output@).take(
                i as int,
            ).push(item@));
        }
        items.push(item);
        i += 1;
    }
    proof {
        assert(output_items(output@).take(i as int) =~= output_items(output@));
        lemma_output_items(output@);
        assert forall|i: int| 0 <= i < items.len() implies is_error_record(
            #[trigger] items@[i]@,
        ) by {
            assert(item_views(items@)[i] == items@[i]@);
        }
    }
    items
}

/// Reads what one command printed.
///
/// Gives the records of the output, in the order in which their headers
/// stand, where it holds at least one header; else the error that carries
/// the output.
pub fn parse_output(haystack: &str) -> (r: Result<Vec<Item>, ParseError>)
    ensures
        match r {
            Ok(items) => items.len() > 0 && item_views(items@) == output_items(haystack@),
            Err(e) => output_items(haystack@).len() == 0 && e@ == ParseErrorView::BlockParseError(
                haystack@,
            ),
        },
        r matches Ok(items) ==> forall|i: int|
            0 <= i < items.len() ==> is_error_record(#[trigger] items@[i]@),
{
    let chars = to_chars(haystack);
    let items = read_output(chars.as_slice());
    if items.len() == 0 {
        Err(ParseError::BlockParseError(String::from_str(haystack)))
    } else {
        Ok(items)
    }
}

fn find_labelled_line(s: &[char], at: usize, label: &str) -> (r: Option<usize>)
    requires
        at <= s@.len(),
    ensures
        match r {
            Some(next) => labelled_line(s@, at as int, label@) == Some(next as int) && at < next
                <= s@.len(),
            None => labelled_line(s@, at as int, label@) is None,
        },
{
    let end = s.len();
    if !match_at(s, at, label) {
        return None;
    }
    let n = label.unicode_len();
    let mut e: usize = at + n;
    while e < end && s[e] != '\n'
        invariant
            at + n <= e <= end,
            end == s.len(),
            line_end(s@, at + n) == line_end(s@, e as int),
        decreases end - e,
    {
        e += 1;
    }
    if e < end {
        Some(e + 1)
    } else {
        None
    }
}

fn find_blank_line(s: &[char], from: usize) -> (r: usize)
    requires
        from <= s@.len(),
    ensures
        r == blank_line(s@, from as int),
        from <= r <= s@.len(),
        r < s@.len() ==> r + 2 <= s@.len(),
{
    let mut i: usize = from;
    while i < s.len() && s.len() - i >= 2 && !(s[i] == '\n' && s[i + 1] == '\n')
        invariant
            from <= i <= s.len(),
            blank_line(s@, from as int) == blank_line(s@, i as int),
        decreases s.len() - i,
    {
        i += 1;
    }
    if i < s.len() && s.len() - i >= 2 {
        i
    } else {
        s.len()
    }
}

fn find_block(s: &[char], at: usize) -> (r: Option<(usize, usize)>)
    requires
        at <= s@.len(),
    ensures
        match r {
            Some((q, r)) => block_at(s@, at as int) == Some((q as int, r as int)) && at < q <= r
                && r + 2 <= s@.len(),
            None => block_at(s@, at as int) is None,
        },
{
    let outputs_at = match find_labelled_line(s, at, "FAILED: ") {
        Some(p) => p,
        None => {
            return None;
        },
    };
    let error_at = match find_labelled_line(s, outputs_at, "Outputs: ") {
        Some(p) => p,
        None => {
            return None;
        },
    };
    let command_at = match find_labelled_line(s, error_at, "Error: ") {
        Some(p) => p,
        None => {
            return None;
        },
    };
    let output_at = match find_labelled_line(s, command_at, "Command: ") {
        Some(p) => p,
        None => {
            return None;
        },
    };
    let end = s.len();
    if !match_at(s, output_at, "Output:\n") {
        return None;
    }
    let q = output_at + "Output:\n".unicode_len();
    let r = find_blank_line(s, q);
    if r < end {
        Some((q, r))
    } else {
        None
    }
}

/// Reads a failure log.
///
/// The empty log gives no record. In any other log every failure block is
/// searched for, and what its command printed is read for diagnostics. The
/// records come in the order of the log. A log that holds no failure block
/// is refused, and so is a log with a block that holds no diagnostic: the
/// first such block is named in the error.
pub fn parse(haystack: &str) -> (r: Result<Vec<Item>, ParseError>)
    ensures
        match r {
            Ok(items) => parsed(haystack@) == Ok::<Seq<ItemView>, ParseErrorView>(
                item_views(items@),
            ),
            Err(e) => parsed(haystack@) == Err::<Seq<ItemView>, ParseErrorView>(e@),
        },
        r matches Ok(items) ==> (haystack@.len() > 0 ==> items.len() > 0) && forall|i: int|
            0 <= i < items.len() ==> is_error_record(#[trigger] items@[i]@),
{
    let s = to_chars(haystack);
    let mut items: Vec<Item> = Vec::new();
    if s.len() == 0 {
        proof {
            assert(item_views(items@) =~= Seq::<ItemView>::empty());
        }
        return Ok(items);
    }
    let ghost all = outputs_from(s@, 0);
    let ghost mut seen: int = 0;
    let mut at: usize = 0;
    proof {
        assert(all.skip(0) =~= all);
        assert(item_views(items@) =~= Seq::<ItemView>::empty());
    }
    while at < s.len()
        invariant
            at <= s.len(),
            s@ == haystack@,
            s.len() > 0,
            all == outputs_from(s@, 0),
            0 <= seen <= all.len(),
            all.skip(seen) == outputs_from(s@, at as int),
            seen == 0 <==> items.len() == 0,
            match parsed_outputs(all.skip(seen)) {
                Ok(rest) => parsed_outputs(all) == Ok::<Seq<ItemView>, ParseErrorView>(
                    item_views(items@) + rest,
                ),
                Err(e) => parsed_outputs(all) == Err::<Seq<ItemView>, ParseErrorView>(e),
            },
        decreases s.len() - at,
    {
        let start = at == 0 || s[at - 1] == '\n';
        let found = if start {
            find_block(s.as_slice(), at)
        } else {
            None
        };
        match found {
            Some((q, r)) => {
                let output = copy_range(s.as_slice(), q, r);
                let mut more = read_output(output.as_slice());
                proof {
                    assert(all.skip(seen)[0] == output@);
                    assert(all.skip(seen).drop_first() =~= all.skip(seen + 1));
                }
                if more.len() == 0 {
                    return Err(ParseError::BlockParseError(to_string(output.as_slice())));
                }
                proof {
                    assert(item_views(items@ + more@) =~= item_views(items@) + item_views(more@));
                    match parsed_outputs(all.skip(seen + 1)) {
                        Ok(rest) => {
                            assert((item_views(items@) + item_views(more@)) + rest =~= item_views(
                                items@,
                            ) + (item_views(more@) + rest));
                        },
                        Err(e) => {},
                    }
                    seen = seen + 1;
                }
                items.append(&mut more);
                at = r + 2;
            },
            None => {
                at += 1;
            },
        }
    }
    proof {
        assert(item_views(items@) + Seq::<ItemView>::empty() =~= item_views(items@));
        lemma_parsed(haystack@);
        assert forall|i: int| 0 <= i < items.len() implies is_error_record(
            #[trigger] items@[i]@,
        ) by {
            assert(item_views(items@)[i] == items@[i]@);
        }
    }
    if items.len() == 0 {
        Err(ParseError::InputStructureError)
    } else {
        Ok(items)
    }
}

} // verus!
