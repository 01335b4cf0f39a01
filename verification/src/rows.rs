//! Rows of a table: finding, selecting, ordering and removing them.
use vstd::prelude::*;

use crate::order::views;
use crate::text::{same, text_at_most, text_le};

verus! {

/// A condition on rows.
pub trait Query<T: View> {
    /// The condition.
    spec fn pred(&self) -> spec_fn(T::V) -> bool;

    /// Decides the condition for a row.
    fn test(&self, row: &T) -> (r: bool)
        ensures
            r == (self.pred())(row@),
    ;
}

/// An order of rows.
pub trait Sort<T: View> {
    /// Whether one row comes strictly before another.
    spec fn before(&self) -> spec_fn(T::V, T::V) -> bool;

    /// Decides the order of two rows.
    fn is_before(&self, a: &T, b: &T) -> (r: bool)
        ensures
            r == (self.before())(a@, b@),
    ;
}

/// Rows that can be copied.
pub trait Row: View + Sized {
    /// A row with the same value.
    fn duplicate(&self) -> (r: Self)
        ensures
            r@ == self@,
    ;
}

/// Copies of rows.
pub fn duplicate_all<T: Row>(rows: &Vec<T>) -> (r: Vec<T>)
    ensures
        views(r@) == views(rows@),
{
    let mut out: Vec<T> = Vec::new();
    let mut i: usize = 0;
    while i < rows.len()
        invariant
            i <= rows.len(),
            out@.len() == i,
            forall|j: int| 0 <= j < i ==> (#[trigger] out@[j])@ == rows@[j]@,
        decreases rows.len() - i,
    {
        out.push(rows[i].duplicate());
        i += 1;
    }
    assert(views(out@) =~= views(rows@));
    out
}

impl Row for String {
    fn duplicate(&self) -> (r: Self) {
        self.clone()
    }
}

impl Row for crate::json::Json {
    fn duplicate(&self) -> (r: Self) {
        self.copy()
    }
}

impl Row for crate::capture::event::CapturedEvent {
    fn duplicate(&self) -> (r: Self) {
        self.copy()
    }
}

// ── Finding ───────────────────────────────────────────────────────────────────

/// The place of the first row that meets a condition.
pub open spec fn index_of<V>(rows: Seq<V>, p: spec_fn(V) -> bool) -> Option<int>
    decreases rows.len(),
{
    if rows.len() == 0 {
        None
    } else if index_of(rows.drop_last(), p) is Some {
        index_of(rows.drop_last(), p)
    } else if p(rows.last()) {
        Some(rows.len() - 1)
    } else {
        None
    }
}

/// The first row that meets a condition.
pub open spec fn found<V>(rows: Seq<V>, p: spec_fn(V) -> bool) -> Option<V> {
    match index_of(rows, p) {
        Some(i) => Some(rows[i]),
        None => None,
    }
}

/// Whether some row meets a condition.
pub open spec fn holds_somewhere<V>(rows: Seq<V>, p: spec_fn(V) -> bool) -> bool {
    index_of(rows, p) is Some
}

/// The place of the first row is a place, its row meets the condition, and no earlier row does.
pub proof fn lemma_index_of<V>(rows: Seq<V>, p: spec_fn(V) -> bool)
    ensures
        match index_of(rows, p) {
            Some(i) => 0 <= i < rows.len() && p(rows[i]) && forall|j: int|
                0 <= j < i ==> !p(#[trigger] rows[j]),
            None => forall|j: int| 0 <= j < rows.len() ==> !p(#[trigger] rows[j]),
        },
    decreases rows.len(),
{
    if rows.len() > 0 {
        let rest = rows.drop_last();
        lemma_index_of(rest, p);
        assert forall|j: int| 0 <= j < rest.len() implies rows[j] == rest[j] by {}
        match index_of(rows, p) {
            Some(i) => {
                assert forall|j: int| 0 <= j < i implies !p(#[trigger] rows[j]) by {
                    assert(rest[j] == rows[j]);
                }
            },
            None => {
                assert forall|j: int| 0 <= j < rows.len() implies !p(#[trigger] rows[j]) by {
                    if j < rest.len() {
                        assert(rest[j] == rows[j]);
                    }
                }
            },
        }
    }
}

/// A row that meets a condition, with none before it that does, is the first.
pub proof fn lemma_index_is<V>(rows: Seq<V>, p: spec_fn(V) -> bool, i: int)
    requires
        0 <= i < rows.len(),
        p(rows[i]),
        forall|j: int| 0 <= j < i ==> !p(#[trigger] rows[j]),
    ensures
        index_of(rows, p) == Some(i),
{
    lemma_index_of(rows, p);
    match index_of(rows, p) {
        Some(k) => {
            if k < i {
                assert(!p(rows[k]));
            }
            if i < k {
                assert(!p(rows[i]));
            }
        },
        None => {
            assert(!p(rows[i]));
        },
    }
}

/// Where no row meets a condition, none is found.
pub proof fn lemma_index_none<V>(rows: Seq<V>, p: spec_fn(V) -> bool)
    requires
        forall|j: int| 0 <= j < rows.len() ==> !p(#[trigger] rows[j]),
    ensures
        index_of(rows, p) is None,
{
    lemma_index_of(rows, p);
}

/// The rows with one put in place: instead of the first that meets a condition, or else as the last.
pub open spec fn put<V>(rows: Seq<V>, p: spec_fn(V) -> bool, row: V) -> Seq<V> {
    match index_of(rows, p) {
        Some(i) => rows.update(i, row),
        None => rows.push(row),
    }
}

/// What was put in place is found.
pub proof fn lemma_put_own<V>(rows: Seq<V>, p: spec_fn(V) -> bool, row: V)
    requires
        p(row),
    ensures
        found(put(rows, p, row), p) == Some(row),
{
    lemma_index_of(rows, p);
    let after = put(rows, p, row);
    let i = match index_of(rows, p) {
        Some(i) => i,
        None => rows.len() as int,
    };
    assert forall|j: int| 0 <= j < i implies !p(#[trigger] after[j]) by {
        assert(after[j] == rows[j]);
    }
    lemma_index_is(after, p, i);
}

/// What meets another condition is found as before.
pub proof fn lemma_put_other<V>(rows: Seq<V>, p: spec_fn(V) -> bool, row: V, q: spec_fn(V) -> bool)
    requires
        !q(row),
        found(rows, q) matches Some(x) && !p(x),
    ensures
        found(put(rows, p, row), q) == found(rows, q),
{
    lemma_index_of(rows, p);
    lemma_index_of(rows, q);
    let after = put(rows, p, row);
    let k = index_of(rows, q)->Some_0;
    assert(after[k] == rows[k]);
    assert forall|j: int| 0 <= j < k implies !q(#[trigger] after[j]) by {
        if after[j] != row {
            assert(after[j] == rows[j]);
        }
    }
    lemma_index_is(after, q, k);
}

/// Putting in place what is there changes nothing.
pub proof fn lemma_put_again<V>(rows: Seq<V>, p: spec_fn(V) -> bool, row: V)
    requires
        found(rows, p) == Some(row),
    ensures
        put(rows, p, row) == rows,
{
    lemma_index_of(rows, p);
    assert(put(rows, p, row) =~= rows);
}

/// Every row that is put in place is the new one or an old one.
pub proof fn lemma_put_rows<V>(rows: Seq<V>, p: spec_fn(V) -> bool, row: V, i: int)
    requires
        0 <= i < put(rows, p, row).len(),
    ensures
        put(rows, p, row)[i] == row || (0 <= i < rows.len() && put(rows, p, row)[i] == rows[i]),
{
    lemma_index_of(rows, p);
}

/// Finds the first row that meets a condition.
pub fn find<T: View, Q: Query<T>>(rows: &Vec<T>, query: &Q) -> (r: Option<usize>)
    ensures
        match r {
            Some(i) => i < rows.len() && index_of(views(rows@), query.pred()) == Some(i as int)
                && (query.pred())(rows@[i as int]@),
            None => index_of(views(rows@), query.pred()) is None,
        },
{
    let ghost all = views(rows@);
    let mut i: usize = 0;
    while i < rows.len()
        invariant
            i <= rows.len(),
            all == views(rows@),
            forall|j: int| 0 <= j < i ==> !(query.pred())(#[trigger] all[j]),
        decreases rows.len() - i,
    {
        assert(all[i as int] == rows@[i as int]@);
        if query.test(&rows[i]) {
            proof {
                lemma_index_is(all, query.pred(), i as int);
            }
            return Some(i);
        }
        i += 1;
    }
    proof {
        lemma_index_none(all, query.pred());
    }
    None
}

// ── Selecting and removing ────────────────────────────────────────────────────

/// The rows that meet a condition, in order.
pub open spec fn selected<V>(rows: Seq<V>, p: spec_fn(V) -> bool) -> Seq<V>
    decreases rows.len(),
{
    if rows.len() == 0 {
        Seq::empty()
    } else if p(rows.last()) {
        selected(rows.drop_last(), p).push(rows.last())
    } else {
        selected(rows.drop_last(), p)
    }
}

/// The rows that do not meet a condition, in order.
pub open spec fn removed<V>(rows: Seq<V>, p: spec_fn(V) -> bool) -> Seq<V>
    decreases rows.len(),
{
    if rows.len() == 0 {
        Seq::empty()
    } else if p(rows.last()) {
        removed(rows.drop_last(), p)
    } else {
        removed(rows.drop_last(), p).push(rows.last())
    }
}

/// A row is selected exactly if it is there and meets the condition.
pub proof fn lemma_selected<V>(rows: Seq<V>, p: spec_fn(V) -> bool, row: V)
    ensures
        selected(rows, p).contains(row) <==> rows.contains(row) && p(row),
    decreases rows.len(),
{
    if rows.len() > 0 {
        let rest = rows.drop_last();
        lemma_selected(rest, p, row);
        assert(rows =~= rest.push(rows.last()));
        lemma_push_contains(rest, rows.last(), row);
        lemma_push_contains(selected(rest, p), rows.last(), row);
    }
}

/// What is selected from two lists in a row is what is selected from each.
pub proof fn lemma_selected_concat<V>(a: Seq<V>, b: Seq<V>, p: spec_fn(V) -> bool)
    ensures
        selected(a + b, p) == selected(a, p) + selected(b, p),
    decreases b.len(),
{
    if b.len() == 0 {
        assert(a + b =~= a);
        assert(selected(a, p) + selected(b, p) =~= selected(a, p));
    } else {
        lemma_selected_concat(a, b.drop_last(), p);
        assert((a + b).drop_last() =~= a + b.drop_last());
        assert(selected(a + b, p) =~= selected(a, p) + selected(b, p));
    }
}

/// Rows that all meet a condition are all selected, and rows of which none does are not.
pub proof fn lemma_selected_whole<V>(rows: Seq<V>, p: spec_fn(V) -> bool)
    ensures
        (forall|i: int| 0 <= i < rows.len() ==> p(#[trigger] rows[i])) ==> selected(rows, p)
            == rows,
        (forall|i: int| 0 <= i < rows.len() ==> !p(#[trigger] rows[i])) ==> selected(rows, p)
            == Seq::<V>::empty(),
    decreases rows.len(),
{
    if rows.len() > 0 {
        let rest = rows.drop_last();
        lemma_selected_whole(rest, p);
        assert forall|i: int| 0 <= i < rest.len() implies #[trigger] rest[i] == rows[i] by {}
        assert(rows =~= rest.push(rows[rows.len() - 1]));
    } else {
        assert(selected(rows, p) =~= rows);
    }
}

/// Selecting by one condition and then by another selects by both.
pub proof fn lemma_selected_twice<V>(
    rows: Seq<V>,
    p: spec_fn(V) -> bool,
    q: spec_fn(V) -> bool,
    both: spec_fn(V) -> bool,
)
    requires
        forall|v: V| #[trigger] both(v) == (p(v) && q(v)),
    ensures
        selected(selected(rows, p), q) == selected(rows, both),
    decreases rows.len(),
{
    if rows.len() > 0 {
        let rest = rows.drop_last();
        lemma_selected_twice(rest, p, q, both);
        assert(selected(rest, p).push(rows.last()).drop_last() =~= selected(rest, p));
        assert(both(rows.last()) == (p(rows.last()) && q(rows.last())));
    }
}

/// A row is left exactly if it was there and does not meet the condition.
pub proof fn lemma_removed<V>(rows: Seq<V>, p: spec_fn(V) -> bool, row: V)
    ensures
        removed(rows, p).contains(row) <==> rows.contains(row) && !p(row),
    decreases rows.len(),
{
    if rows.len() > 0 {
        let rest = rows.drop_last();
        lemma_removed(rest, p, row);
        assert(rows =~= rest.push(rows.last()));
        lemma_push_contains(rest, rows.last(), row);
        lemma_push_contains(removed(rest, p), rows.last(), row);
    }
}

/// Where no row meets a condition, none is removed.
pub proof fn lemma_removed_none<V>(rows: Seq<V>, p: spec_fn(V) -> bool)
    requires
        forall|row: V| #[trigger] rows.contains(row) ==> !p(row),
    ensures
        removed(rows, p) == rows,
    decreases rows.len(),
{
    if rows.len() > 0 {
        let rest = rows.drop_last();
        assert(rows =~= rest.push(rows.last()));
        assert forall|row: V| #[trigger] rest.contains(row) implies !p(row) by {
            lemma_push_contains(rest, rows.last(), row);
        }
        lemma_removed_none(rest, p);
        assert(rows.contains(rows.last()));
    }
}

/// Removing works on each part of a list.
pub proof fn lemma_removed_concat<V>(a: Seq<V>, b: Seq<V>, p: spec_fn(V) -> bool)
    ensures
        removed(a + b, p) == removed(a, p) + removed(b, p),
    decreases b.len(),
{
    if b.len() == 0 {
        assert(a + b =~= a);
        assert(removed(a, p) + removed(b, p) =~= removed(a, p));
    } else {
        lemma_removed_concat(a, b.drop_last(), p);
        assert((a + b).drop_last() =~= a + b.drop_last());
        assert(removed(a + b, p) =~= removed(a, p) + removed(b, p));
    }
}

/// What a list with one more row holds.
pub proof fn lemma_push_contains<V>(rows: Seq<V>, last: V, row: V)
    ensures
        rows.push(last).contains(row) <==> rows.contains(row) || last == row,
{
    let all = rows.push(last);
    if rows.contains(row) {
        let i = choose|i: int| 0 <= i < rows.len() && rows[i] == row;
        assert(all[i] == row);
    }
    if last == row {
        assert(all[all.len() - 1] == row);
    }
    if all.contains(row) {
        let i = choose|i: int| 0 <= i < all.len() && all[i] == row;
        if i < rows.len() {
            assert(rows[i] == row);
        }
    }
}

/// Selects the rows that meet a condition.
pub fn select<T: Row, Q: Query<T>>(rows: &Vec<T>, query: &Q) -> (r: Vec<T>)
    ensures
        views(r@) == selected(views(rows@), query.pred()),
{
    let ghost all = views(rows@);
    let mut out: Vec<T> = Vec::new();
    let mut i: usize = 0;
    assert(all.take(0) =~= Seq::<T::V>::empty());
    assert(views(out@) =~= Seq::<T::V>::empty());
    while i < rows.len()
        invariant
            i <= rows.len(),
            all == views(rows@),
            views(out@) == selected(all.take(i as int), query.pred()),
        decreases rows.len() - i,
    {
        assert(all.take(i + 1).drop_last() =~= all.take(i as int));
        assert(all.take(i + 1).last() == rows@[i as int]@);
        let ghost before = views(out@);
        if query.test(&rows[i]) {
            out.push(rows[i].duplicate());
            assert(views(out@) =~= before.push(rows@[i as int]@));
        }
        i += 1;
    }
    assert(all.take(all.len() as int) =~= all);
    out
}

/// Removes the rows that meet a condition. Returns how many there were.
pub fn remove<T: View, Q: Query<T>>(rows: &mut Vec<T>, query: &Q) -> (r: usize)
    ensures
        views(final(rows)@) == removed(views(old(rows)@), query.pred()),
        r == old(rows)@.len() - final(rows)@.len(),
        r > 0 <==> index_of(views(old(rows)@), query.pred()) is Some,
{
    let ghost all = views(rows@);
    let total: usize = rows.len();
    let mut i: usize = 0;
    let ghost mut k: int = 0;
    let mut count: usize = 0;
    assert(all.take(0) =~= Seq::<T::V>::empty());
    assert(views(rows@) =~= all.skip(0));
    assert(removed(all.take(0), query.pred()) =~= Seq::<T::V>::empty());
    while i < rows.len()
        invariant
            0 <= k <= all.len(),
            all == views(old(rows)@),
            all.len() == total,
            i + count == k,
            rows@.len() == all.len() - count,
            views(rows@) == removed(all.take(k), query.pred()) + all.skip(k),
            removed(all.take(k), query.pred()).len() == i,
            count > 0 <==> exists|j: int| 0 <= j < k && (query.pred())(#[trigger] all[j]),
        decreases rows.len() - i,
    {
        let ghost done = removed(all.take(k), query.pred());
        assert(all.take(k + 1).drop_last() =~= all.take(k));
        assert(views(rows@)[i as int] == rows@[i as int]@);
        assert(rows@[i as int]@ == all[k]);
        assert(all.skip(k).skip(1) =~= all.skip(k + 1));
        if query.test(&rows[i]) {
            let ghost before = views(rows@);
            rows.remove(i);
            count = count + 1;
            assert(views(rows@) =~= before.remove(i as int));
            assert(views(rows@) =~= done + all.skip(k + 1));
            assert((query.pred())(all[k]));
        } else {
            assert(views(rows@) =~= done.push(all[k]) + all.skip(k + 1));
            i += 1;
        }
        proof {
            k = k + 1;
        }
    }
    assert(k == all.len());
    assert(all.take(k) =~= all);
    assert(all.skip(k) =~= Seq::<T::V>::empty());
    assert(views(rows@) =~= removed(all, query.pred()));
    proof {
        lemma_index_of(all, query.pred());
    }
    count
}

// ── Ordering ──────────────────────────────────────────────────────────────────

/// A sorted list with one more row, behind all that it does not come before.
pub open spec fn placed<V>(list: Seq<V>, row: V, before: spec_fn(V, V) -> bool) -> Seq<V>
    decreases list.len(),
{
    if list.len() > 0 && before(row, list.last()) {
        placed(list.drop_last(), row, before).push(list.last())
    } else {
        list.push(row)
    }
}

/// Rows in order; rows of one rank keep their order.
pub open spec fn sorted<V>(rows: Seq<V>, before: spec_fn(V, V) -> bool) -> Seq<V>
    decreases rows.len(),
{
    if rows.len() == 0 {
        Seq::empty()
    } else {
        placed(sorted(rows.drop_last(), before), rows.last(), before)
    }
}

/// Placing a row adds that row.
pub proof fn lemma_placed<V>(list: Seq<V>, row: V, before: spec_fn(V, V) -> bool, x: V)
    ensures
        placed(list, row, before).len() == list.len() + 1,
        placed(list, row, before).contains(x) <==> list.contains(x) || x == row,
    decreases list.len(),
{
    if list.len() > 0 && before(row, list.last()) {
        lemma_placed(list.drop_last(), row, before, x);
        assert(list =~= list.drop_last().push(list.last()));
        lemma_push_contains(list.drop_last(), list.last(), x);
        lemma_push_contains(placed(list.drop_last(), row, before), list.last(), x);
    } else {
        lemma_push_contains(list, row, x);
    }
}

/// Sorting neither loses nor adds a row.
pub proof fn lemma_sorted<V>(rows: Seq<V>, before: spec_fn(V, V) -> bool, x: V)
    ensures
        sorted(rows, before).len() == rows.len(),
        sorted(rows, before).contains(x) <==> rows.contains(x),
    decreases rows.len(),
{
    if rows.len() > 0 {
        lemma_sorted(rows.drop_last(), before, x);
        lemma_placed(sorted(rows.drop_last(), before), rows.last(), before, x);
        assert(rows =~= rows.drop_last().push(rows.last()));
        lemma_push_contains(rows.drop_last(), rows.last(), x);
    }
}

/// Whether an order is strict, and rows of no difference in rank are interchangeable under it.
pub open spec fn is_order<V>(before: spec_fn(V, V) -> bool) -> bool {
    &&& forall|a: V, b: V| #[trigger] before(a, b) ==> !before(b, a)
    &&& forall|a: V, b: V, c: V| #[trigger]
        before(a, c) ==> #[trigger] before(a, b) || before(b, c)
}

/// Whether no row comes before an earlier one.
pub open spec fn in_order<V>(rows: Seq<V>, before: spec_fn(V, V) -> bool) -> bool {
    forall|i: int, j: int|
        0 <= i < j < rows.len() ==> !before(#[trigger] rows[j], #[trigger] rows[i])
}

proof fn lemma_placed_in_order<V>(list: Seq<V>, row: V, before: spec_fn(V, V) -> bool)
    requires
        is_order(before),
        in_order(list, before),
    ensures
        in_order(placed(list, row, before), before),
    decreases list.len(),
{
    let all = placed(list, row, before);
    if list.len() > 0 && before(row, list.last()) {
        let shorter = list.drop_last();
        assert forall|i: int, j: int| 0 <= i < j < shorter.len() implies !before(
            #[trigger] shorter[j],
            #[trigger] shorter[i],
        ) by {
            assert(!before(list[j], list[i]));
        }
        lemma_placed_in_order(shorter, row, before);
        let inner = placed(shorter, row, before);
        assert forall|i: int, j: int| 0 <= i < j < all.len() implies !before(
            #[trigger] all[j],
            #[trigger] all[i],
        ) by {
            if j < inner.len() {
                assert(!before(inner[j], inner[i]));
            } else {
                lemma_placed(shorter, row, before, inner[i]);
                assert(inner.contains(inner[i]));
                if inner[i] != row {
                    let k = choose|k: int| 0 <= k < shorter.len() && shorter[k] == inner[i];
                    assert(!before(list[list.len() - 1], list[k]));
                }
            }
        }
    } else {
        assert forall|i: int, j: int| 0 <= i < j < all.len() implies !before(
            #[trigger] all[j],
            #[trigger] all[i],
        ) by {
            if j < list.len() {
                assert(!before(list[j], list[i]));
            } else if before(row, list[i]) && i < list.len() - 1 {
                let last = list[list.len() - 1];
                assert(!before(last, list[i]));
                assert(before(row, last) || before(last, list[i]));
            }
        }
    }
}

/// Sorting puts rows in order.
pub proof fn law_sorting_orders<V>(rows: Seq<V>, before: spec_fn(V, V) -> bool)
    requires
        is_order(before),
    ensures
        in_order(sorted(rows, before), before),
    decreases rows.len(),
{
    if rows.len() > 0 {
        law_sorting_orders(rows.drop_last(), before);
        lemma_placed_in_order(sorted(rows.drop_last(), before), rows.last(), before);
    }
}

proof fn lemma_placed_multiset<V>(list: Seq<V>, row: V, before: spec_fn(V, V) -> bool)
    ensures
        placed(list, row, before).to_multiset() == list.to_multiset().insert(row),
    decreases list.len(),
{
    broadcast use vstd::seq_lib::group_to_multiset_ensures;

    if list.len() > 0 && before(row, list.last()) {
        lemma_placed_multiset(list.drop_last(), row, before);
        assert(list =~= list.drop_last().push(list.last()));
        assert(placed(list, row, before).to_multiset() =~= list.to_multiset().insert(row));
    }
}

/// Sorting keeps every row, each as often as it was there.
pub proof fn law_sorting_keeps_every_row<V>(rows: Seq<V>, before: spec_fn(V, V) -> bool)
    ensures
        sorted(rows, before).to_multiset() == rows.to_multiset(),
    decreases rows.len(),
{
    broadcast use vstd::seq_lib::group_to_multiset_ensures;

    if rows.len() == 0 {
        assert(sorted(rows, before) =~= rows);
    } else {
        law_sorting_keeps_every_row(rows.drop_last(), before);
        lemma_placed_multiset(sorted(rows.drop_last(), before), rows.last(), before);
        assert(rows =~= rows.drop_last().push(rows.last()));
    }
}

proof fn lemma_placed_ties<V>(
    list: Seq<V>,
    row: V,
    before: spec_fn(V, V) -> bool,
    tied: spec_fn(V) -> bool,
)
    requires
        forall|a: V, b: V| tied(a) && tied(b) ==> !#[trigger] before(a, b),
    ensures
        selected(placed(list, row, before), tied) == (if tied(row) {
            selected(list, tied).push(row)
        } else {
            selected(list, tied)
        }),
    decreases list.len(),
{
    let all = placed(list, row, before);
    if list.len() > 0 && before(row, list.last()) {
        let shorter = list.drop_last();
        lemma_placed_ties(shorter, row, before, tied);
        assert(all.drop_last() =~= placed(shorter, row, before));
    } else {
        assert(all.drop_last() =~= list);
    }
}

/// Sorting keeps ties in order: rows of which none comes before another stand in the result as they stood.
pub proof fn law_sorting_keeps_ties<V>(
    rows: Seq<V>,
    before: spec_fn(V, V) -> bool,
    tied: spec_fn(V) -> bool,
)
    requires
        forall|a: V, b: V| tied(a) && tied(b) ==> !#[trigger] before(a, b),
    ensures
        selected(sorted(rows, before), tied) == selected(rows, tied),
    decreases rows.len(),
{
    if rows.len() > 0 {
        law_sorting_keeps_ties(rows.drop_last(), before, tied);
        lemma_placed_ties(sorted(rows.drop_last(), before), rows.last(), before, tied);
    }
}

fn place<T: View, S: Sort<T>>(list: &mut Vec<T>, row: T, order: &S)
    ensures
        views(final(list)@) == placed(views(old(list)@), row@, order.before()),
{
    let ghost before = views(list@);
    let mut at: usize = list.len();
    assert(before.take(before.len() as int) =~= before);
    assert(placed(before, row@, order.before()) =~= placed(
        before.take(at as int),
        row@,
        order.before(),
    ) + before.skip(at as int));
    while at > 0 && order.is_before(&row, &list[at - 1])
        invariant
            at <= list.len(),
            list@ == old(list)@,
            before == views(list@),
            placed(before, row@, order.before()) == placed(
                before.take(at as int),
                row@,
                order.before(),
            ) + before.skip(at as int),
        decreases at,
    {
        assert(before.take(at as int).drop_last() =~= before.take(at - 1));
        assert(before.take(at as int).last() == list@[at - 1]@);
        assert(placed(before.take(at - 1), row@, order.before()).push(before[at - 1])
            + before.skip(at as int) =~= placed(before.take(at - 1), row@, order.before())
            + before.skip(at - 1));
        at -= 1;
    }
    let ghost value = row@;
    if at > 0 {
        assert(before.take(at as int).last() == list@[at - 1]@);
    }
    list.insert(at, row);
    assert(views(list@) =~= before.take(at as int).push(value) + before.skip(at as int));
}

/// Sorts rows.
pub fn sort<T: View, S: Sort<T>>(rows: Vec<T>, order: &S) -> (r: Vec<T>)
    ensures
        views(r@) == sorted(views(rows@), order.before()),
{
    let ghost all = views(rows@);
    let mut rest = rows;
    let mut out: Vec<T> = Vec::new();
    let ghost mut k: int = 0;
    assert(all.take(0) =~= Seq::<T::V>::empty());
    assert(views(out@) =~= Seq::<T::V>::empty());
    assert(all.skip(0) =~= all);
    while rest.len() > 0
        invariant
            0 <= k <= all.len(),
            views(rest@) == all.skip(k),
            views(out@) == sorted(all.take(k), order.before()),
        decreases rest.len(),
    {
        assert(views(rest@).len() == all.skip(k).len());
        assert(views(rest@)[0] == rest@[0]@);
        assert(all.skip(k)[0] == all[k]);
        assert(all.take(k + 1).drop_last() =~= all.take(k));
        let ghost before = views(rest@);
        let row = rest.remove(0);
        assert(views(rest@) =~= before.skip(1));
        assert(all.skip(k).skip(1) =~= all.skip(k + 1));
        place(&mut out, row, order);
        proof {
            k = k + 1;
        }
    }
    assert(all.skip(k).len() == 0);
    assert(all.take(k) =~= all);
    out
}

/// Selects the rows that meet a condition, in an order.
pub fn select_sorted<T: Row, Q: Query<T>, S: Sort<T>>(rows: &Vec<T>, query: &Q, order: &S) -> (r:
    Vec<T>)
    ensures
        views(r@) == sorted(selected(views(rows@), query.pred()), order.before()),
{
    let chosen = select(rows, query);
    sort(chosen, order)
}

// ── Changing ──────────────────────────────────────────────────────────────────

/// Replaces a row.
pub fn replace<T: View>(rows: &mut Vec<T>, i: usize, row: T)
    requires
        i < old(rows)@.len(),
    ensures
        views(final(rows)@) == views(old(rows)@).update(i as int, row@),
        final(rows)@.len() == old(rows)@.len(),
{
    let ghost before = views(rows@);
    let ghost value = row@;
    rows.set(i, row);
    assert(views(rows@) =~= before.update(i as int, value));
}

/// Appends a row.
pub fn append<T: View>(rows: &mut Vec<T>, row: T)
    ensures
        views(final(rows)@) == views(old(rows)@).push(row@),
{
    let ghost before = views(rows@);
    let ghost value = row@;
    rows.push(row);
    assert(views(rows@) =~= before.push(value));
}

// ── Steps ─────────────────────────────────────────────────────────────────────

/// A state after a step for each row in turn, up to the first that fails.
pub open spec fn steps<A, V, F>(
    start: A,
    rows: Seq<V>,
    step: spec_fn(A, V) -> Result<A, F>,
) -> Result<A, F>
    decreases rows.len(),
{
    if rows.len() == 0 {
        Ok(start)
    } else {
        match steps(start, rows.drop_last(), step) {
            Err(fault) => Err(fault),
            Ok(state) => step(state, rows.last()),
        }
    }
}

/// What fails early fails as a whole.
pub proof fn lemma_steps_error<A, V, F>(
    start: A,
    rows: Seq<V>,
    step: spec_fn(A, V) -> Result<A, F>,
    k: int,
)
    requires
        0 <= k <= rows.len(),
    ensures
        steps(start, rows.take(k), step) matches Err(fault) ==> steps(start, rows, step) == Err::<
            A,
            F,
        >(fault),
    decreases rows.len() - k,
{
    if k < rows.len() {
        lemma_steps_error(start, rows, step, k + 1);
        assert(rows.take(k + 1).drop_last() =~= rows.take(k));
    } else {
        assert(rows.take(k) =~= rows);
    }
}

/// A state after a step for each row in turn, up to the first that meets a fault; what was done until then
/// stays done.
pub open spec fn runs<A, V, F>(
    start: A,
    rows: Seq<V>,
    step: spec_fn(A, V) -> (A, Option<F>),
) -> (A, Option<F>)
    decreases rows.len(),
{
    if rows.len() == 0 {
        (start, None)
    } else {
        let (state, fault) = runs(start, rows.drop_last(), step);
        if fault is Some {
            (state, fault)
        } else {
            step(state, rows.last())
        }
    }
}

/// What stops early has stopped as a whole.
pub proof fn lemma_runs_stop<A, V, F>(
    start: A,
    rows: Seq<V>,
    step: spec_fn(A, V) -> (A, Option<F>),
    k: int,
)
    requires
        0 <= k <= rows.len(),
    ensures
        runs(start, rows.take(k), step).1 is Some ==> runs(start, rows, step) == runs(
            start,
            rows.take(k),
            step,
        ),
    decreases rows.len() - k,
{
    if k < rows.len() {
        lemma_runs_stop(start, rows, step, k + 1);
        assert(rows.take(k + 1).drop_last() =~= rows.take(k));
    } else {
        assert(rows.take(k) =~= rows);
    }
}

// ── Sets of texts ─────────────────────────────────────────────────────────────

/// A sorted list of distinct texts with one more.
pub open spec fn text_added(list: Seq<Seq<char>>, text: Seq<char>) -> Seq<Seq<char>>
    decreases list.len(),
{
    if list.len() == 0 {
        seq![text]
    } else if list.last() == text {
        list
    } else if text_le(text, list.last()) {
        text_added(list.drop_last(), text).push(list.last())
    } else {
        list.push(text)
    }
}

/// A sorted list of distinct texts with more of them.
pub open spec fn texts_added(list: Seq<Seq<char>>, texts: Seq<Seq<char>>) -> Seq<Seq<char>>
    decreases texts.len(),
{
    if texts.len() == 0 {
        list
    } else {
        text_added(texts_added(list, texts.drop_last()), texts.last())
    }
}

/// A text that was added is in the list, with all that was there.
pub proof fn lemma_text_added(list: Seq<Seq<char>>, text: Seq<char>, x: Seq<char>)
    ensures
        text_added(list, text).contains(x) <==> list.contains(x) || x == text,
    decreases list.len(),
{
    if list.len() == 0 {
        assert(seq![text] =~= list.push(text));
        lemma_push_contains(list, text, x);
    } else if list.last() == text {
        assert(list[list.len() - 1] == text);
    } else if text_le(text, list.last()) {
        lemma_text_added(list.drop_last(), text, x);
        assert(list =~= list.drop_last().push(list.last()));
        lemma_push_contains(list.drop_last(), list.last(), x);
        lemma_push_contains(text_added(list.drop_last(), text), list.last(), x);
    } else {
        lemma_push_contains(list, text, x);
    }
}

/// Adds a text to a sorted list of distinct texts.
pub fn add_text(list: &mut Vec<String>, text: &str)
    ensures
        views(final(list)@) == text_added(views(old(list)@), text@),
{
    let ghost before = views(list@);
    let mut at: usize = list.len();
    assert(before.take(before.len() as int) =~= before);
    assert(text_added(before, text@) =~= text_added(before.take(at as int), text@) + before.skip(
        at as int,
    ));
    while at > 0 && !same(list[at - 1].as_str(), text) && text_at_most(text, list[at - 1].as_str())
        invariant
            at <= list.len(),
            list@ == old(list)@,
            before == views(list@),
            text_added(before, text@) == text_added(before.take(at as int), text@) + before.skip(
                at as int,
            ),
        decreases at,
    {
        assert(before.take(at as int).drop_last() =~= before.take(at - 1));
        assert(before.take(at as int).last() == list@[at - 1]@);
        assert(text_added(before.take(at - 1), text@).push(before[at - 1]) + before.skip(at as int)
            =~= text_added(before.take(at - 1), text@) + before.skip(at - 1));
        at -= 1;
    }
    if at > 0 {
        assert(before.take(at as int).last() == list@[at - 1]@);
        if same(list[at - 1].as_str(), text) {
            assert(before.take(at as int) + before.skip(at as int) =~= before);
            return;
        }
    }
    list.insert(at, text.to_owned());
    assert(views(list@) =~= before.take(at as int).push(text@) + before.skip(at as int));
    assert(before.take(0) =~= Seq::<Seq<char>>::empty());
    assert(Seq::<Seq<char>>::empty().push(text@) =~= seq![text@]);
}

/// Adds texts to a sorted list of distinct texts.
pub fn add_texts(list: &mut Vec<String>, texts: &Vec<String>)
    ensures
        views(final(list)@) == texts_added(views(old(list)@), views(texts@)),
{
    let ghost all = views(texts@);
    let ghost start = views(list@);
    let mut i: usize = 0;
    assert(all.take(0) =~= Seq::<Seq<char>>::empty());
    while i < texts.len()
        invariant
            i <= texts.len(),
            all == views(texts@),
            views(list@) == texts_added(start, all.take(i as int)),
        decreases texts.len() - i,
    {
        assert(all.take(i + 1).drop_last() =~= all.take(i as int));
        assert(all.take(i + 1).last() == texts@[i as int]@);
        add_text(list, texts[i].as_str());
        i += 1;
    }
    assert(all.take(all.len() as int) =~= all);
}

/// Adding texts keeps what was there and holds what was added.
pub proof fn lemma_texts_added(list: Seq<Seq<char>>, texts: Seq<Seq<char>>, x: Seq<char>)
    ensures
        texts_added(list, texts).contains(x) <==> list.contains(x) || texts.contains(x),
    decreases texts.len(),
{
    if texts.len() > 0 {
        lemma_texts_added(list, texts.drop_last(), x);
        lemma_text_added(texts_added(list, texts.drop_last()), texts.last(), x);
        assert(texts =~= texts.drop_last().push(texts.last()));
        lemma_push_contains(texts.drop_last(), texts.last(), x);
    }
}

} // verus!
