//! The diagnostic record, and the order and the equality by which records
//! are sorted and merged.
//!
//! Both go by path, line, column, subject and kind. The body is left out on
//! purpose: two records that differ in their body only are the same
//! diagnostic.
use vstd::prelude::*;
use std::cmp::Ordering;
use vstd::utf8::{encode_utf8, encode_utf8_decode_utf8};

verus! {

/// The kind of a diagnostic. An error sorts before a warning.
#[derive(Debug, Clone, Copy, PartialEq, Eq, PartialOrd, Ord, Hash, Structural)]
pub enum ItemType {
    Error,
    Warning,
}

/// One diagnostic.
#[derive(Debug, Clone)]
pub struct Item {
    /// The source file or the tool that the diagnostic is about.
    pub path: String,
    /// The line in the source file; absent for a diagnostic of a tool.
    pub line: Option<usize>,
    /// The column in the line; absent whenever the line is.
    pub column: Option<usize>,
    /// The summary, one line.
    pub subject: String,
    /// The lines that followed the header, joined by line feeds.
    pub body: Option<String>,
    /// Error or warning.
    pub type_: ItemType,
}

/// What a record holds, as plain values.
pub struct ItemView {
    pub path: Seq<char>,
    pub line: Option<usize>,
    pub column: Option<usize>,
    pub subject: Seq<char>,
    pub body: Option<Seq<char>>,
    pub type_: ItemType,
}

impl View for Item {
    type V = ItemView;

    open spec fn view(&self) -> ItemView {
        ItemView {
            path: self.path@,
            line: self.line,
            column: self.column,
            subject: self.subject@,
            body: match self.body {
                Some(b) => Some(b@),
                None => None,
            },
            type_: self.type_,
        }
    }
}

/// What a list of records holds.
pub open spec fn item_views(items: Seq<Item>) -> Seq<ItemView> {
    items.map_values(|i: Item| i@)
}

/// How one value stands to another in an order.
#[derive(Debug, Clone, Copy, PartialEq, Eq, Structural)]
pub enum Order {
    Before,
    Same,
    After,
}

/// The order seen from the other side.
pub open spec fn flip(o: Order) -> Order {
    match o {
        Order::Before => Order::After,
        Order::Same => Order::Same,
        Order::After => Order::Before,
    }
}

/// The order by a first key and, where that is the same, by a second.
pub open spec fn then(first: Order, second: Order) -> Order {
    if first is Same {
        second
    } else {
        first
    }
}

/// The order of two byte strings that agree before index `i`: the first
/// byte in which they differ decides, and a string sorts before every string
/// that it starts.
pub open spec fn order_bytes_from(a: Seq<u8>, b: Seq<u8>, i: int) -> Order
    decreases a.len() - i,
{
    if i < 0 || i >= a.len() {
        if i < 0 || i >= b.len() {
            Order::Same
        } else {
            Order::Before
        }
    } else if i >= b.len() {
        Order::After
    } else if a[i] < b[i] {
        Order::Before
    } else if a[i] > b[i] {
        Order::After
    } else {
        order_bytes_from(a, b, i + 1)
    }
}

/// The order of two texts: that of their UTF-8 bytes, as strings compare.
pub open spec fn order_text(a: Seq<char>, b: Seq<char>) -> Order {
    order_bytes_from(encode_utf8(a), encode_utf8(b), 0)
}

/// The order of two optional numbers: an absent one sorts before every
/// number.
pub open spec fn order_numbers(a: Option<usize>, b: Option<usize>) -> Order {
    match (a, b) {
        (None, None) => Order::Same,
        (None, Some(_)) => Order::Before,
        (Some(_), None) => Order::After,
        (Some(x), Some(y)) => if x < y {
            Order::Before
        } else if x > y {
            Order::After
        } else {
            Order::Same
        },
    }
}

/// The order of two kinds: an error sorts before a warning.
pub open spec fn order_types(a: ItemType, b: ItemType) -> Order {
    match (a, b) {
        (ItemType::Error, ItemType::Warning) => Order::Before,
        (ItemType::Warning, ItemType::Error) => Order::After,
        _ => Order::Same,
    }
}

/// The order of two records: by path, then line, then column, then subject,
/// then kind. The body has no part in it.
pub open spec fn order_items(a: ItemView, b: ItemView) -> Order {
    then(
        order_text(a.path, b.path),
        then(
            order_numbers(a.line, b.line),
            then(
                order_numbers(a.column, b.column),
                then(order_text(a.subject, b.subject), order_types(a.type_, b.type_)),
            ),
        ),
    )
}

/// Two records are the same diagnostic: they agree in path, line, column,
/// subject and kind. Their bodies may differ.
pub open spec fn same_diagnostic(a: ItemView, b: ItemView) -> bool {
    &&& a.path == b.path
    &&& a.line == b.line
    &&& a.column == b.column
    &&& a.subject == b.subject
    &&& a.type_ == b.type_
}

proof fn lemma_bytes_same(a: Seq<u8>, b: Seq<u8>, i: int)
    requires
        0 <= i <= a.len(),
        i <= b.len(),
        forall|k: int| 0 <= k < i ==> a[k] == b[k],
    ensures
        order_bytes_from(a, b, i) is Same <==> a == b,
    decreases a.len() - i,
{
    if i >= a.len() {
        if i >= b.len() {
            assert(a =~= b);
        }
    } else if i >= b.len() {
    } else if a[i] == b[i] {
        lemma_bytes_same(a, b, i + 1);
    }
}

proof fn lemma_bytes_flip(a: Seq<u8>, b: Seq<u8>, i: int)
    requires
        0 <= i,
    ensures
        order_bytes_from(b, a, i) == flip(order_bytes_from(a, b, i)),
    decreases a.len() - i,
{
    if i < a.len() && i < b.len() && a[i] == b[i] {
        lemma_bytes_flip(a, b, i + 1);
    }
}

proof fn lemma_bytes_transitive(a: Seq<u8>, b: Seq<u8>, c: Seq<u8>, i: int)
    requires
        0 <= i,
        order_bytes_from(a, b, i) is Before,
        order_bytes_from(b, c, i) is Before,
    ensures
        order_bytes_from(a, c, i) is Before,
    decreases a.len() - i,
{
    if i < a.len() && i < b.len() && i < c.len() && a[i] == b[i] && b[i] == c[i] {
        lemma_bytes_transitive(a, b, c, i + 1);
    }
}

proof fn lemma_text_same(a: Seq<char>, b: Seq<char>)
    ensures
        order_text(a, b) is Same <==> a == b,
{
    lemma_bytes_same(encode_utf8(a), encode_utf8(b), 0);
    encode_utf8_decode_utf8(a);
    encode_utf8_decode_utf8(b);
}

/// Two records stand in the same place of the order exactly when they are
/// the same diagnostic.
pub proof fn lemma_order_same(a: ItemView, b: ItemView)
    ensures
        order_items(a, b) is Same <==> same_diagnostic(a, b),
{
    lemma_text_same(a.path, b.path);
    lemma_text_same(a.subject, b.subject);
}

/// Swapping the two records turns the order round.
pub proof fn lemma_order_flip(a: ItemView, b: ItemView)
    ensures
        order_items(b, a) == flip(order_items(a, b)),
{
    lemma_bytes_flip(encode_utf8(a.path), encode_utf8(b.path), 0);
    lemma_bytes_flip(encode_utf8(a.subject), encode_utf8(b.subject), 0);
}

/// The order is transitive.
pub proof fn lemma_order_transitive(a: ItemView, b: ItemView, c: ItemView)
    requires
        order_items(a, b) is Before,
        order_items(b, c) is Before,
    ensures
        order_items(a, c) is Before,
{
    lemma_text_same(a.path, b.path);
    lemma_text_same(b.path, c.path);
    lemma_text_same(a.path, c.path);
    lemma_text_same(a.subject, b.subject);
    lemma_text_same(b.subject, c.subject);
    lemma_text_same(a.subject, c.subject);
    if order_text(a.path, b.path) is Before && order_text(b.path, c.path) is Before {
        lemma_bytes_transitive(encode_utf8(a.path), encode_utf8(b.path), encode_utf8(c.path), 0);
    }
    if order_text(a.subject, b.subject) is Before && order_text(b.subject, c.subject) is Before {
        lemma_bytes_transitive(
            encode_utf8(a.subject),
            encode_utf8(b.subject),
            encode_utf8(c.subject),
            0,
        );
    }
}

/// Compares two strings by their bytes.
pub fn order_of_text(a: &str, b: &str) -> (o: Order)
    ensures
        o == order_text(a@, b@),
{
    let x = a.as_bytes();
    let y = b.as_bytes();
    let mut i: usize = 0;
    loop
        invariant
            i <= x.len(),
            i <= y.len(),
            x@ == encode_utf8(a@),
            y@ == encode_utf8(b@),
            order_text(a@, b@) == order_bytes_from(x@, y@, i as int),
        decreases x.len() - i,
    {
        if i >= x.len() {
            if i >= y.len() {
                return Order::Same;
            }
            return Order::Before;
        }
        if i >= y.len() {
            return Order::After;
        }
        if x[i] < y[i] {
            return Order::Before;
        }
        if x[i] > y[i] {
            return Order::After;
        }
        i += 1;
    }
}

/// Compares two optional numbers.
pub fn order_of_numbers(a: Option<usize>, b: Option<usize>) -> (o: Order)
    ensures
        o == order_numbers(a, b),
{
    match (a, b) {
        (None, None) => Order::Same,
        (None, Some(_)) => Order::Before,
        (Some(_), None) => Order::After,
        (Some(x), Some(y)) => if x < y {
            Order::Before
        } else if x > y {
            Order::After
        } else {
            Order::Same
        },
    }
}

/// Compares two kinds.
pub fn order_of_types(a: ItemType, b: ItemType) -> (o: Order)
    ensures
        o == order_types(a, b),
{
    match (a, b) {
        (ItemType::Error, ItemType::Warning) => Order::Before,
        (ItemType::Warning, ItemType::Error) => Order::After,
        _ => Order::Same,
    }
}

/// A record is well formed: it has no column unless it has a line.
pub open spec fn well_formed(item: ItemView) -> bool {
    item.column is Some ==> item.line is Some
}

impl Item {
    /// Tells whether two records are the same diagnostic: whether they agree
    /// in path, line, column, subject and kind. The bodies are not looked
    /// at.
    pub fn same_diagnostic(&self, other: &Item) -> (r: bool)
        ensures
            r == same_diagnostic(self@, other@),
    {
        self.path == other.path && self.line == other.line && self.column == other.column
            && self.subject == other.subject && self.type_ == other.type_
    }

    /// Where this record stands to `other` in the order of records.
    pub fn order(&self, other: &Item) -> (o: Order)
        ensures
            o == order_items(self@, other@),
    {
        let by_path = order_of_text(self.path.as_str(), other.path.as_str());
        if by_path != Order::Same {
            return by_path;
        }
        let by_line = order_of_numbers(self.line, other.line);
        if by_line != Order::Same {
            return by_line;
        }
        let by_column = order_of_numbers(self.column, other.column);
        if by_column != Order::Same {
            return by_column;
        }
        let by_subject = order_of_text(self.subject.as_str(), other.subject.as_str());
        if by_subject != Order::Same {
            return by_subject;
        }
        order_of_types(self.type_, other.type_)
    }
}

impl PartialEq for Item {
    /// Two records are equal when they are the same diagnostic; the body is
    /// not compared.
    fn eq(&self, other: &Item) -> (r: bool) {
        self.same_diagnostic(other)
    }
}

impl vstd::std_specs::cmp::PartialEqSpecImpl for Item {
    open spec fn obeys_eq_spec() -> bool {
        true
    }

    open spec fn eq_spec(&self, other: &Item) -> bool {
        same_diagnostic(self@, other@)
    }
}

impl Eq for Item {

}

impl PartialOrd for Item {
    /// Records compare by their place in the order of records; the body is
    /// not compared.
    fn partial_cmp(&self, other: &Item) -> (r: Option<Ordering>) {
        match self.order(other) {
            Order::Before => Some(Ordering::Less),
            Order::Same => Some(Ordering::Equal),
            Order::After => Some(Ordering::Greater),
        }
    }
}

impl vstd::std_specs::cmp::PartialOrdSpecImpl for Item {
    open spec fn obeys_partial_cmp_spec() -> bool {
        true
    }

    open spec fn partial_cmp_spec(&self, other: &Item) -> Option<Ordering> {
        match order_items(self@, other@) {
            Order::Before => Some(Ordering::Less),
            Order::Same => Some(Ordering::Equal),
            Order::After => Some(Ordering::Greater),
        }
    }
}

} // verus!
