//! Sorting the records and dropping the duplicates.
//!
//! The records are put in the order of [`order_items`]. Of the records that
//! are the same diagnostic only the one that came first is kept, so the body
//! of the first occurrence is the one that stays.
use vstd::prelude::*;
use crate::item::{
    item_views, lemma_order_flip, lemma_order_same, lemma_order_transitive, order_items,
    same_diagnostic, Item, ItemView, Order,
};

verus! {

/// Each record sorts before every record behind it: the list is in order
/// and no two of its records are the same diagnostic.
pub open spec fn strictly_sorted(s: Seq<ItemView>) -> bool {
    forall|i: int, j: int| 0 <= i < j < s.len() ==> order_items(s[i], s[j]) is Before
}

/// The number of records at the start of `s` that sort before `x`.
pub open spec fn position(s: Seq<ItemView>, x: ItemView) -> int
    decreases s.len(),
{
    if s.len() == 0 || !(order_items(s[0], x) is Before) {
        0
    } else {
        1 + position(s.drop_first(), x)
    }
}

/// The sorted list `s` with `x` put in its place. Where `s` holds the same
/// diagnostic already, `s` stays as it is.
pub open spec fn inserted(s: Seq<ItemView>, x: ItemView) -> Seq<ItemView> {
    let p = position(s, x);
    if p < s.len() && order_items(s[p], x) is Same {
        s
    } else {
        s.insert(p, x)
    }
}

/// The records in order and without duplicates: each record of the input is
/// put in its place, one after the other, unless the same diagnostic has
/// come before.
pub open spec fn collated(input: Seq<ItemView>) -> Seq<ItemView>
    decreases input.len(),
{
    if input.len() == 0 {
        Seq::empty()
    } else {
        inserted(collated(input.drop_last()), input.last())
    }
}

proof fn lemma_position(s: Seq<ItemView>, x: ItemView)
    ensures
        0 <= position(s, x) <= s.len(),
        forall|i: int| 0 <= i < position(s, x) ==> order_items(#[trigger] s[i], x) is Before,
        position(s, x) < s.len() ==> !(order_items(s[position(s, x)], x) is Before),
    decreases s.len(),
{
    if s.len() > 0 && order_items(s[0], x) is Before {
        let rest = s.drop_first();
        lemma_position(rest, x);
        assert forall|i: int| 0 <= i < position(s, x) implies order_items(
            #[trigger] s[i],
            x,
        ) is Before by {
            if i > 0 {
                assert(s[i] == rest[i - 1]);
            }
        }
    }
}

proof fn lemma_position_is(s: Seq<ItemView>, x: ItemView, p: int)
    requires
        0 <= p <= s.len(),
        forall|i: int| 0 <= i < p ==> order_items(#[trigger] s[i], x) is Before,
        p < s.len() ==> !(order_items(s[p], x) is Before),
    ensures
        position(s, x) == p,
    decreases s.len(),
{
    if p > 0 {
        let rest = s.drop_first();
        assert(order_items(s[0], x) is Before);
        assert forall|i: int| 0 <= i < p - 1 implies order_items(
            #[trigger] rest[i],
            x,
        ) is Before by {
            assert(rest[i] == s[i + 1]);
        }
        lemma_position_is(rest, x, p - 1);
    }
}

/// Putting a record into a sorted list leaves the list sorted.
pub proof fn lemma_inserted_sorted(s: Seq<ItemView>, x: ItemView)
    requires
        strictly_sorted(s),
    ensures
        strictly_sorted(inserted(s, x)),
{
    lemma_position(s, x);
    let p = position(s, x);
    let t = inserted(s, x);
    if !(p < s.len() && order_items(s[p], x) is Same) {
        assert forall|i: int, j: int| 0 <= i < j < t.len() implies order_items(
            t[i],
            t[j],
        ) is Before by {
            if i == p {
                // x stands at i, and t[j] is s[j - 1], at or behind s[p]
                lemma_order_flip(s[p], x);
                if j - 1 > p {
                    lemma_order_transitive(x, s[p], s[j - 1]);
                }
            } else if j == p {
                assert(t[i] == s[i]);
            } else if i < p && j > p {
                assert(t[i] == s[i] && t[j] == s[j - 1]);
            } else if i < p {
                assert(t[i] == s[i] && t[j] == s[j]);
            } else {
                assert(t[i] == s[i - 1] && t[j] == s[j - 1]);
            }
        }
    }
}

/// The collated records are in order, and no two of them are the same
/// diagnostic.
pub proof fn lemma_collated_sorted(input: Seq<ItemView>)
    ensures
        strictly_sorted(collated(input)),
    decreases input.len(),
{
    if input.len() > 0 {
        lemma_collated_sorted(input.drop_last());
        lemma_inserted_sorted(collated(input.drop_last()), input.last());
    }
}

/// Collating a list that is in order and without duplicates changes nothing.
pub proof fn lemma_collated_fixed(s: Seq<ItemView>)
    requires
        strictly_sorted(s),
    ensures
        collated(s) == s,
    decreases s.len(),
{
    if s.len() > 0 {
        let front = s.drop_last();
        lemma_collated_fixed(front);
        assert forall|i: int| 0 <= i < front.len() implies order_items(
            #[trigger] front[i],
            s.last(),
        ) is Before by {
            assert(front[i] == s[i]);
        }
        lemma_position_is(front, s.last(), front.len() as int);
        assert(front.insert(front.len() as int, s.last()) =~= s);
    }
}

/// Collating twice gives what collating once gives.
pub proof fn lemma_collated_idempotent(input: Seq<ItemView>)
    ensures
        collated(collated(input)) == collated(input),
{
    lemma_collated_sorted(input);
    lemma_collated_fixed(collated(input));
}

/// Neighbours in the collated list are in order and are not the same
/// diagnostic.
pub proof fn lemma_collated_neighbours(input: Seq<ItemView>, i: int)
    requires
        0 <= i,
        i + 1 < collated(input).len(),
    ensures
        order_items(collated(input)[i], collated(input)[i + 1]) is Before,
        !same_diagnostic(collated(input)[i], collated(input)[i + 1]),
{
    lemma_collated_sorted(input);
    lemma_order_same(collated(input)[i], collated(input)[i + 1]);
}

/// Some record of `s` is the same diagnostic as `x`.
pub open spec fn holds_same(s: Seq<ItemView>, x: ItemView) -> bool {
    exists|k: int| 0 <= k < s.len() && same_diagnostic(#[trigger] s[k], x)
}

/// No record before `input[i]` is the same diagnostic as `input[i]`.
pub open spec fn first_seen(input: Seq<ItemView>, i: int) -> bool {
    forall|k: int| 0 <= k < i ==> !same_diagnostic(#[trigger] input[k], input[i])
}

proof fn lemma_order_congruent(a: ItemView, b: ItemView, c: ItemView)
    requires
        same_diagnostic(a, b),
    ensures
        order_items(c, a) == order_items(c, b),
{
}

/// Putting a record into a sorted list changes nothing where the list holds
/// the same diagnostic, and else adds the record at its position.
pub proof fn lemma_inserted_cases(s: Seq<ItemView>, x: ItemView)
    requires
        strictly_sorted(s),
    ensures
        0 <= position(s, x) <= s.len(),
        holds_same(s, x) ==> inserted(s, x) == s,
        !holds_same(s, x) ==> inserted(s, x) == s.insert(position(s, x), x),
{
    lemma_position(s, x);
    let p = position(s, x);
    if p < s.len() && order_items(s[p], x) is Same {
        lemma_order_same(s[p], x);
    }
    if holds_same(s, x) {
        let k = choose|k: int| 0 <= k < s.len() && same_diagnostic(#[trigger] s[k], x);
        lemma_order_same(s[k], x);
        if k > p {
            lemma_order_congruent(s[k], x, s[p]);
        }
    }
}

/// `y` is the record at index `i` of the input, and no record before it is
/// the same diagnostic.
pub open spec fn is_first_at(input: Seq<ItemView>, i: int, y: ItemView) -> bool {
    0 <= i < input.len() && input[i] == y && first_seen(input, i)
}

/// `y` is the first record of the input with its diagnostic.
pub open spec fn is_first(input: Seq<ItemView>, y: ItemView) -> bool {
    exists|i: int| is_first_at(input, i, y)
}

proof fn lemma_first_stays(front: Seq<ItemView>, x: ItemView, y: ItemView)
    requires
        is_first(front, y),
    ensures
        is_first(front.push(x), y),
{
    let input = front.push(x);
    let i = choose|i: int| is_first_at(front, i, y);
    assert forall|k: int| 0 <= k < i implies !same_diagnostic(#[trigger] input[k], input[i]) by {
        assert(input[k] == front[k]);
    }
    assert(is_first_at(input, i, y));
}

proof fn lemma_same_stays(s: Seq<ItemView>, x: ItemView, y: ItemView)
    requires
        strictly_sorted(s),
        holds_same(s, y),
    ensures
        holds_same(inserted(s, x), y),
{
    lemma_inserted_cases(s, x);
    let p = position(s, x);
    let t = inserted(s, x);
    let k = choose|k: int| 0 <= k < s.len() && same_diagnostic(#[trigger] s[k], y);
    if holds_same(s, x) || k < p {
        assert(same_diagnostic(t[k], y));
    } else {
        assert(t[k + 1] == s[k]);
        assert(same_diagnostic(t[k + 1], y));
    }
}

proof fn lemma_new_is_first(front: Seq<ItemView>, s: Seq<ItemView>, x: ItemView)
    requires
        forall|i: int| 0 <= i < front.len() ==> holds_same(s, #[trigger] front[i]),
        !holds_same(s, x),
    ensures
        is_first(front.push(x), x),
{
    let input = front.push(x);
    let last = front.len() as int;
    assert forall|k: int| 0 <= k < last implies !same_diagnostic(
        #[trigger] input[k],
        input[last],
    ) by {
        assert(input[k] == front[k]);
        assert(holds_same(s, front[k]));
        let j = choose|j: int| 0 <= j < s.len() && same_diagnostic(#[trigger] s[j], front[k]);
        if same_diagnostic(input[k], x) {
            assert(same_diagnostic(s[j], x));
        }
    }
    assert(is_first_at(input, last, x));
}

proof fn lemma_inserted_members(front: Seq<ItemView>, s: Seq<ItemView>, x: ItemView)
    requires
        strictly_sorted(s),
        forall|j: int| 0 <= j < s.len() ==> is_first(front, #[trigger] s[j]),
        forall|i: int| 0 <= i < front.len() ==> holds_same(s, #[trigger] front[i]),
    ensures
        forall|j: int|
            0 <= j < inserted(s, x).len() ==> is_first(front.push(x), #[trigger] inserted(s, x)[j]),
        forall|i: int|
            0 <= i < front.push(x).len() ==> holds_same(
                inserted(s, x),
                #[trigger] front.push(x)[i],
            ),
{
    let input = front.push(x);
    let t = inserted(s, x);
    lemma_inserted_cases(s, x);
    let p = position(s, x);
    let kept = holds_same(s, x);
    assert forall|j: int| 0 <= j < t.len() implies is_first(input, #[trigger] t[j]) by {
        if !kept && j == p {
            lemma_new_is_first(front, s, x);
        } else {
            let sj = if kept || j < p {
                j
            } else {
                j - 1
            };
            assert(t[j] == s[sj]);
            lemma_first_stays(front, x, s[sj]);
        }
    }
    assert forall|i: int| 0 <= i < input.len() implies holds_same(t, #[trigger] input[i]) by {
        if i < front.len() {
            assert(input[i] == front[i]);
            lemma_same_stays(s, x, front[i]);
        } else if kept {
        } else {
            assert(same_diagnostic(t[p], x));
        }
    }
}

/// Each collated record is the first record of the input with its
/// diagnostic, body and all, and each record of the input has its diagnostic
/// among the collated ones.
pub proof fn lemma_collated_members(input: Seq<ItemView>)
    ensures
        forall|j: int|
            0 <= j < collated(input).len() ==> is_first(input, #[trigger] collated(input)[j]),
        forall|i: int| 0 <= i < input.len() ==> holds_same(collated(input), #[trigger] input[i]),
    decreases input.len(),
{
    if input.len() > 0 {
        let front = input.drop_last();
        lemma_collated_members(front);
        lemma_collated_sorted(front);
        lemma_inserted_members(front, collated(front), input.last());
        assert(front.push(input.last()) =~= input);
    }
}

fn find_position(sorted: &Vec<Item>, x: &Item) -> (p: usize)
    requires
        strictly_sorted(item_views(sorted@)),
    ensures
        p == position(item_views(sorted@), x@),
        p <= sorted.len(),
{
    let ghost s = item_views(sorted@);
    let mut low: usize = 0;
    let mut high: usize = sorted.len();
    while low < high
        invariant
            low <= high <= sorted.len(),
            s == item_views(sorted@),
            strictly_sorted(s),
            forall|i: int| 0 <= i < low ==> order_items(#[trigger] s[i], x@) is Before,
            high < s.len() ==> !(order_items(s[high as int], x@) is Before),
        decreases high - low,
    {
        let mid = low + (high - low) / 2;
        let o = sorted[mid].order(x);
        proof {
            assert(s[mid as int] == sorted@[mid as int]@);
        }
        if o == Order::Before {
            proof {
                assert forall|i: int| 0 <= i < mid + 1 implies order_items(
                    #[trigger] s[i],
                    x@,
                ) is Before by {
                    if i < mid {
                        lemma_order_transitive(s[i], s[mid as int], x@);
                    }
                }
            }
            low = mid + 1;
        } else {
            high = mid;
        }
    }
    proof {
        lemma_position_is(s, x@, low as int);
    }
    low
}

/// Sorts the records and drops the duplicates.
///
/// The records come out in order. Of the records that are the same
/// diagnostic, the first of the input stays, with its body.
pub fn collate(items: Vec<Item>) -> (out: Vec<Item>)
    ensures
        item_views(out@) == collated(item_views(items@)),
        strictly_sorted(item_views(out@)),
        out.len() <= items.len(),
{
    let ghost input = item_views(items@);
    let mut out: Vec<Item> = Vec::new();
    let mut items = items;
    let n = items.len();
    let mut i: usize = 0;
    proof {
        assert(input.take(0) =~= Seq::<ItemView>::empty());
        assert(item_views(out@) =~= Seq::<ItemView>::empty());
    }
    while i < n
        invariant
            i <= n,
            n == items.len(),
            n == input.len(),
            forall|k: int| i <= k < n ==> (#[trigger] items@[k])@ == input[k],
            item_views(out@) == collated(input.take(i as int)),
            strictly_sorted(item_views(out@)),
            out.len() <= i,
        decreases n - i,
    {
        let mut item = Item {
            path: String::new(),
            line: None,
            column: None,
            subject: String::new(),
            body: None,
            type_: crate::item::ItemType::Error,
        };
        std::mem::swap(&mut item, &mut items[i]);
        let ghost s = item_views(out@);
        proof {
            assert(input.take(i + 1).drop_last() =~= input.take(i as int));
            assert(input.take(i + 1).last() == item@);
            lemma_inserted_sorted(s, item@);
        }
        let p = find_position(&out, &item);
        let same = if p < out.len() {
            out[p].order(&item) == Order::Same
        } else {
            false
        };
        proof {
            if p < out.len() {
                assert(s[p as int] == out@[p as int]@);
            }
        }
        if !same {
            proof {
                assert(item_views(out@.insert(p as int, item)) =~= s.insert(p as int, item@));
            }
            out.insert(p, item);
        }
        i += 1;
    }
    proof {
        assert(input.take(n as int) =~= input);
    }
    out
}

} // verus!
