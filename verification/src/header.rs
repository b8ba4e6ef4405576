//! The shapes of a header line.
//!
//! A header line is a location, a colon, a space, a label and the subject.
//! The location holds no whitespace: it is a path, or a path and a line, or a
//! path, a line and a column, each joined to the next by a colon. Which of
//! these a location is, is tried in a given order of shapes, and the first
//! shape that fits decides.
use vstd::prelude::*;
use crate::text::{copy_range, has_at, is_space, match_at, number, parse_number, space};

verus! {

/// One way to read a location.
#[derive(Debug, Clone, Copy, PartialEq, Eq, Structural)]
pub enum Shape {
    /// `path:line:column`
    LineColumn,
    /// `path:line`
    Line,
    /// `path`
    Bare,
}

/// The three shapes, from the one that says most to the one that says least.
pub open spec fn all_shapes() -> Seq<Shape> {
    seq![Shape::LineColumn, Shape::Line, Shape::Bare]
}

/// A location that was read.
pub struct Location {
    pub path: Seq<char>,
    pub line: Option<usize>,
    pub column: Option<usize>,
}

/// A header line that was read.
#[derive(Debug, Clone)]
pub struct Header {
    pub path: Vec<char>,
    pub line: Option<usize>,
    pub column: Option<usize>,
    pub subject: Vec<char>,
}

/// What a header holds.
pub struct HeaderView {
    pub path: Seq<char>,
    pub line: Option<usize>,
    pub column: Option<usize>,
    pub subject: Seq<char>,
}

impl View for Header {
    type V = HeaderView;

    open spec fn view(&self) -> HeaderView {
        HeaderView {
            path: self.path@,
            line: self.line,
            column: self.column,
            subject: self.subject@,
        }
    }
}

/// The index of the last colon in `b`, or -1 where it holds none.
pub open spec fn last_colon(b: Seq<char>) -> int
    decreases b.len(),
{
    if b.len() == 0 {
        -1
    } else if b.last() == ':' {
        b.len() - 1
    } else {
        last_colon(b.drop_last())
    }
}

/// The last colon stands in the text, and no colon stands behind it.
pub proof fn lemma_last_colon(b: Seq<char>)
    ensures
        -1 <= last_colon(b) < b.len(),
        last_colon(b) >= 0 ==> b[last_colon(b)] == ':',
        forall|k: int| last_colon(b) < k < b.len() ==> #[trigger] b[k] != ':',
    decreases b.len(),
{
    if b.len() > 0 && b.last() != ':' {
        lemma_last_colon(b.drop_last());
        assert forall|k: int| last_colon(b) < k < b.len() implies #[trigger] b[k] != ':' by {
            if k < b.len() - 1 {
                assert(b.drop_last()[k] == b[k]);
            }
        }
    }
}

/// Splits `b` at its last colon, where a number stands behind that colon:
/// gives the index of the colon and the number.
pub open spec fn number_field(b: Seq<char>) -> Option<(int, usize)> {
    let c = last_colon(b);
    if c < 0 {
        None
    } else {
        match number(b.subrange(c + 1, b.len() as int)) {
            Some(n) => Some((c, n)),
            None => None,
        }
    }
}

/// Reads the location `b` in the given shape. The path is never empty.
pub open spec fn located(b: Seq<char>, shape: Shape) -> Option<Location> {
    match shape {
        Shape::LineColumn => match number_field(b) {
            Some((c2, column)) => match number_field(b.take(c2)) {
                Some((c1, line)) => if c1 > 0 {
                    Some(Location { path: b.take(c1), line: Some(line), column: Some(column) })
                } else {
                    None
                },
                None => None,
            },
            None => None,
        },
        Shape::Line => match number_field(b) {
            Some((c1, line)) => if c1 > 0 {
                Some(Location { path: b.take(c1), line: Some(line), column: None })
            } else {
                None
            },
            None => None,
        },
        Shape::Bare => if b.len() > 0 {
            Some(Location { path: b, line: None, column: None })
        } else {
            None
        },
    }
}

/// Reads the location `b` in the first of the given shapes that fits.
pub open spec fn first_located(b: Seq<char>, shapes: Seq<Shape>) -> Option<Location>
    decreases shapes.len(),
{
    if shapes.len() == 0 {
        None
    } else {
        match located(b, shapes[0]) {
            Some(location) => Some(location),
            None => first_located(b, shapes.drop_first()),
        }
    }
}

/// The index of the first whitespace character of the line, or its length
/// where it holds none.
pub open spec fn token_end(l: Seq<char>) -> int
    decreases l.len(),
{
    if l.len() == 0 || is_space(l[0]) {
        0
    } else {
        1 + token_end(l.drop_first())
    }
}

/// No whitespace stands before the first whitespace character.
pub proof fn lemma_token_end(l: Seq<char>)
    ensures
        0 <= token_end(l) <= l.len(),
        forall|k: int| 0 <= k < token_end(l) ==> !is_space(#[trigger] l[k]),
        token_end(l) < l.len() ==> is_space(l[token_end(l)]),
    decreases l.len(),
{
    if l.len() > 0 && !is_space(l[0]) {
        lemma_token_end(l.drop_first());
        assert forall|k: int| 0 <= k < token_end(l) implies !is_space(#[trigger] l[k]) by {
            if k > 0 {
                assert(l[k] == l.drop_first()[k - 1]);
            }
        }
    }
}

/// The text of the location with which the line starts: what stands before
/// the first whitespace character, without the colon that ends it. The line
/// starts with no location unless that whitespace character is a space and a
/// colon stands before it.
pub open spec fn location_text(l: Seq<char>) -> Option<Seq<char>> {
    let t = token_end(l);
    if 1 <= t < l.len() && l[t] == ' ' && l[t - 1] == ':' {
        Some(l.take(t - 1))
    } else {
        None
    }
}

/// What follows the location, the colon and the space.
pub open spec fn after_location(l: Seq<char>) -> Seq<char> {
    l.skip(token_end(l) + 1)
}

/// Reads a line as a header: a location in one of the given shapes, a colon,
/// a space, the label, and the subject, which is the rest of the line.
pub open spec fn header_with(l: Seq<char>, shapes: Seq<Shape>, label: Seq<char>) -> Option<
    HeaderView,
> {
    match location_text(l) {
        Some(b) => if has_at(after_location(l), 0, label) {
            match first_located(b, shapes) {
                Some(location) => Some(
                    HeaderView {
                        path: location.path,
                        line: location.line,
                        column: location.column,
                        subject: after_location(l).skip(label.len() as int),
                    },
                ),
                None => None,
            }
        } else {
            None
        },
        None => None,
    }
}

/// A location that was read has a path, which is the start of the text, and
/// has no column unless it has a line.
pub proof fn lemma_first_located(b: Seq<char>, shapes: Seq<Shape>)
    ensures
        first_located(b, shapes) matches Some(location) ==> {
            &&& 0 < location.path.len() <= b.len()
            &&& location.path == b.take(location.path.len() as int)
            &&& location.column is Some ==> location.line is Some
        },
    decreases shapes.len(),
{
    if shapes.len() > 0 {
        lemma_last_colon(b);
        if let Some((c, _)) = number_field(b) {
            lemma_last_colon(b.take(c));
            if let Some((d, _)) = number_field(b.take(c)) {
                assert(b.take(c).take(d) =~= b.take(d));
            }
        }
        assert(b.take(b.len() as int) =~= b);
        lemma_first_located(b, shapes.drop_first());
    }
}

/// A header that was read has a path without whitespace, and has no column
/// unless it has a line. Where the only shape is `path:line:column`, it has
/// both. The path is the start of the line and the subject is its end.
pub proof fn lemma_header_with(l: Seq<char>, shapes: Seq<Shape>, label: Seq<char>)
    ensures
        header_with(l, shapes, label) matches Some(h) ==> {
            &&& h.path.len() > 0
            &&& forall|k: int| 0 <= k < h.path.len() ==> !is_space(#[trigger] h.path[k])
            &&& h.column is Some ==> h.line is Some
            &&& shapes == seq![Shape::LineColumn] ==> h.line is Some && h.column is Some
            &&& h.path.len() <= l.len()
            &&& h.path == l.take(h.path.len() as int)
            &&& h.subject.len() <= l.len()
            &&& h.subject == l.skip(l.len() - h.subject.len())
        },
{
    if let Some(b) = location_text(l) {
        lemma_token_end(l);
        lemma_first_located(b, shapes);
        if shapes == seq![Shape::LineColumn] {
            assert(shapes.drop_first() =~= Seq::<Shape>::empty());
            reveal_with_fuel(first_located, 2);
        }
        if let Some(h) = header_with(l, shapes, label) {
            let t = token_end(l);
            assert(h.subject =~= l.skip(t + 1 + label.len()));
            assert(b.take(h.path.len() as int) =~= l.take(h.path.len() as int));
        }
    }
}

fn find_token_end(l: &[char]) -> (t: usize)
    ensures
        t == token_end(l@),
        t <= l@.len(),
{
    let mut i: usize = 0;
    proof {
        assert(l@.skip(0) =~= l@);
    }
    while i < l.len() && !space(l[i])
        invariant
            i <= l.len(),
            token_end(l@) == i + token_end(l@.skip(i as int)),
        decreases l.len() - i,
    {
        proof {
            assert(l@.skip(i as int)[0] == l@[i as int]);
            assert(l@.skip(i as int).drop_first() =~= l@.skip(i + 1));
        }
        i += 1;
    }
    proof {
        if i < l.len() {
            assert(l@.skip(i as int)[0] == l@[i as int]);
        }
    }
    i
}

fn find_number_field(l: &[char], end: usize) -> (r: Option<(usize, usize)>)
    requires
        end <= l@.len(),
    ensures
        match r {
            Some((c, n)) => number_field(l@.take(end as int)) == Some((c as int, n)) && c < end,
            None => number_field(l@.take(end as int)) is None,
        },
{
    let ghost b = l@.take(end as int);
    let mut i: usize = end;
    proof {
        assert(b.take(end as int) =~= b);
    }
    while i > 0 && l[i - 1] != ':'
        invariant
            i <= end <= l.len(),
            b == l@.take(end as int),
            last_colon(b) == last_colon(b.take(i as int)),
        decreases i,
    {
        proof {
            assert(b.take(i as int).last() == l@[i - 1]);
            assert(b.take(i as int).drop_last() =~= b.take(i - 1));
        }
        i -= 1;
    }
    if i == 0 {
        return None;
    }
    proof {
        assert(b.take(i as int).last() == l@[i - 1]);
        assert(b.subrange(i as int, b.len() as int) =~= l@.subrange(i as int, end as int));
    }
    match parse_number(l, i, end) {
        Some(n) => Some((i - 1, n)),
        None => None,
    }
}

/// Reads `l[..end]` as a location of the given shape: gives the length of the
/// path, the line and the column.
fn locate(l: &[char], end: usize, shape: Shape) -> (r: Option<(usize, Option<usize>, Option<usize>)>)
    requires
        end <= l@.len(),
    ensures
        match r {
            Some((p, line, column)) => p <= end && located(l@.take(end as int), shape) == Some(
                Location { path: l@.take(p as int), line, column },
            ),
            None => located(l@.take(end as int), shape) is None,
        },
{
    let ghost b = l@.take(end as int);
    match shape {
        Shape::LineColumn => match find_number_field(l, end) {
            Some((c2, column)) => {
                proof {
                    assert(b.take(c2 as int) =~= l@.take(c2 as int));
                }
                match find_number_field(l, c2) {
                    Some((c1, line)) => if c1 > 0 {
                        proof {
                            assert(b.take(c1 as int) =~= l@.take(c1 as int));
                        }
                        Some((c1, Some(line), Some(column)))
                    } else {
                        None
                    },
                    None => None,
                }
            },
            None => None,
        },
        Shape::Line => match find_number_field(l, end) {
            Some((c1, line)) => if c1 > 0 {
                proof {
                    assert(b.take(c1 as int) =~= l@.take(c1 as int));
                }
                Some((c1, Some(line), None))
            } else {
                None
            },
            None => None,
        },
        Shape::Bare => if end > 0 {
            Some((end, None, None))
        } else {
            None
        },
    }
}

fn first_fit(l: &[char], end: usize, shapes: &[Shape]) -> (r: Option<
    (usize, Option<usize>, Option<usize>),
>)
    requires
        end <= l@.len(),
    ensures
        match r {
            Some((p, line, column)) => p <= end && first_located(l@.take(end as int), shapes@)
                == Some(Location { path: l@.take(p as int), line, column }),
            None => first_located(l@.take(end as int), shapes@) is None,
        },
{
    let ghost b = l@.take(end as int);
    let mut i: usize = 0;
    proof {
        assert(shapes@.skip(0) =~= shapes@);
    }
    while i < shapes.len()
        invariant
            i <= shapes.len(),
            end <= l.len(),
            b == l@.take(end as int),
            first_located(b, shapes@) == first_located(b, shapes@.skip(i as int)),
        decreases shapes.len() - i,
    {
        proof {
            assert(shapes@.skip(i as int)[0] == shapes@[i as int]);
            assert(shapes@.skip(i as int).drop_first() =~= shapes@.skip(i + 1));
        }
        let found = locate(l, end, shapes[i]);
        if found.is_some() {
            return found;
        }
        i += 1;
    }
    None
}

/// Reads a line as a header with the given label, trying the shapes in order.
pub fn read_header(l: &[char], shapes: &[Shape], label: &str) -> (r: Option<Header>)
    ensures
        match r {
            Some(h) => header_with(l@, shapes@, label@) == Some(h@),
            None => header_with(l@, shapes@, label@) is None,
        },
{
    let t = find_token_end(l);
    if t < 1 || t >= l.len() || l[t] != ' ' || l[t - 1] != ':' {
        return None;
    }
    let rest = t + 1;
    proof {
        assert(after_location(l@) == l@.skip(rest as int));
        assert(has_at(l@, rest as int, label@) == has_at(l@.skip(rest as int), 0, label@)) by {
            if rest + label@.len() <= l@.len() {
                assert(l@.skip(rest as int).subrange(0, label@.len() as int) =~= l@.subrange(
                    rest as int,
                    rest + label@.len(),
                ));
            }
        }
    }
    if !match_at(l, rest, label) {
        return None;
    }
    match first_fit(l, t - 1, shapes) {
        Some((p, line, column)) => {
            let n = label.unicode_len();
            let path = copy_range(l, 0, p);
            let subject = copy_range(l, rest + n, l.len());
            proof {
                assert(l@.subrange(0, p as int) =~= l@.take(p as int));
                assert(l@.subrange(rest + n, l@.len() as int) =~= l@.skip(rest as int).skip(
                    n as int,
                ));
            }
            Some(Header { path, line, column, subject })
        },
        None => None,
    }
}

} // verus!
