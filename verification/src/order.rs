//! Lists in order of rank.
use vstd::prelude::*;

use crate::rows::selected;

verus! {

/// Things that have a rank among their like.
pub trait Ranked: View + Sized {
    /// Whether one comes strictly before another.
    spec fn ahead(a: Self::V, b: Self::V) -> bool;

    /// Decides [`Ranked::ahead`].
    fn is_ahead(&self, other: &Self) -> (r: bool)
        ensures
            r == Self::ahead(self@, other@),
    ;
}

/// A ranked list with one more item, behind all that it does not come before.
pub open spec fn rank_in<T: Ranked>(list: Seq<T::V>, item: T::V) -> Seq<T::V>
    decreases list.len(),
{
    if list.len() > 0 && T::ahead(item, list.last()) {
        rank_in::<T>(list.drop_last(), item).push(list.last())
    } else {
        list.push(item)
    }
}

/// Items in order of rank; items of one rank keep their order.
pub open spec fn ranked<T: Ranked>(items: Seq<T::V>) -> Seq<T::V>
    decreases items.len(),
{
    if items.len() == 0 {
        Seq::empty()
    } else {
        rank_in::<T>(ranked::<T>(items.drop_last()), items.last())
    }
}

/// The views of items.
pub open spec fn views<T: View>(items: Seq<T>) -> Seq<T::V> {
    items.map_values(|t: T| t@)
}

/// The value of a result.
pub open spec fn outcome<T: View, E: View>(r: Result<T, E>) -> Result<T::V, E::V> {
    match r {
        Ok(t) => Ok(t@),
        Err(e) => Err(e@),
    }
}

/// The first items of a list.
pub open spec fn first<V>(items: Seq<V>, n: int) -> Seq<V> {
    if items.len() <= n {
        items
    } else {
        items.take(n)
    }
}

/// Puts one more item into a ranked list.
pub fn insert_ranked<T: Ranked>(list: &mut Vec<T>, item: T)
    ensures
        views(final(list)@) == rank_in::<T>(views(old(list)@), item@),
{
    let ghost before = views(list@);
    let ghost all = list@;
    let ghost view = item@;
    let mut i: usize = list.len();
    assert(before.take(before.len() as int) =~= before);
    assert(rank_in::<T>(before, view) =~= rank_in::<T>(before, view) + before.skip(
        before.len() as int,
    ));
    while i > 0 && item.is_ahead(&list[i - 1])
        invariant
            i <= list.len(),
            list@ == all,
            before == views(all),
            view == item@,
            rank_in::<T>(before, view) == rank_in::<T>(before.take(i as int), view) + before.skip(
                i as int,
            ),
        decreases i,
    {
        let ghost here = before.take(i as int);
        assert(here.last() == before[i - 1]);
        assert(here.drop_last() =~= before.take(i - 1));
        assert(before.skip(i - 1) =~= seq![before[i - 1]] + before.skip(i as int));
        assert(rank_in::<T>(before.take(i - 1), view).push(before[i - 1]) + before.skip(i as int)
            =~= rank_in::<T>(before.take(i - 1), view) + before.skip(i - 1));
        i -= 1;
    }
    proof {
        let here = before.take(i as int);
        if i > 0 {
            assert(here.last() == before[i - 1]);
        }
        assert(rank_in::<T>(here, view) == here.push(view));
    }
    list.insert(i, item);
    assert(views(list@) =~= before.take(i as int).push(view) + before.skip(i as int));
}

/// Cuts a list to its first items.
pub fn keep_first<T: View>(list: &mut Vec<T>, n: usize)
    ensures
        views(final(list)@) == first(views(old(list)@), n as int),
{
    let ghost before = views(list@);
    if list.len() > n {
        list.truncate(n);
        assert(views(list@) =~= before.take(n as int));
    }
}

/// Ranking neither loses nor adds an item.
pub proof fn law_ranking_keeps_every_item<T: Ranked>(items: Seq<T::V>)
    ensures
        ranked::<T>(items).to_multiset() == items.to_multiset(),
        ranked::<T>(items).len() == items.len(),
    decreases items.len(),
{
    broadcast use vstd::seq_lib::group_to_multiset_ensures;

    if items.len() == 0 {
        assert(ranked::<T>(items) =~= items);
    } else {
        law_ranking_keeps_every_item::<T>(items.drop_last());
        lemma_rank_in_multiset::<T>(ranked::<T>(items.drop_last()), items.last());
        assert(items =~= items.drop_last().push(items.last()));
    }
}

proof fn lemma_rank_in_multiset<T: Ranked>(list: Seq<T::V>, item: T::V)
    ensures
        rank_in::<T>(list, item).to_multiset() == list.to_multiset().insert(item),
        rank_in::<T>(list, item).len() == list.len() + 1,
    decreases list.len(),
{
    broadcast use vstd::seq_lib::group_to_multiset_ensures;

    if list.len() > 0 && T::ahead(item, list.last()) {
        lemma_rank_in_multiset::<T>(list.drop_last(), item);
        assert(list =~= list.drop_last().push(list.last()));
        assert(rank_in::<T>(list, item).to_multiset() =~= list.to_multiset().insert(item));
    }
}

/// Whether no item comes before an earlier one.
pub open spec fn in_order<T: Ranked>(items: Seq<T::V>) -> bool {
    forall|i: int, j: int|
        0 <= i < j < items.len() ==> !T::ahead(#[trigger] items[j], #[trigger] items[i])
}

/// Whether the rank is a strict order under which items of no rank difference are interchangeable.
pub open spec fn weak_order<T: Ranked>() -> bool {
    &&& forall|a: T::V, b: T::V| #[trigger] T::ahead(a, b) ==> !T::ahead(b, a)
    &&& forall|a: T::V, b: T::V, c: T::V| #[trigger]
        T::ahead(a, c) ==> #[trigger] T::ahead(a, b) || T::ahead(b, c)
}

/// A ranked list is in order of rank.
pub proof fn law_ranking_orders<T: Ranked>(items: Seq<T::V>)
    requires
        weak_order::<T>(),
    ensures
        in_order::<T>(ranked::<T>(items)),
    decreases items.len(),
{
    if items.len() > 0 {
        law_ranking_orders::<T>(items.drop_last());
        lemma_rank_in_order::<T>(ranked::<T>(items.drop_last()), items.last());
    }
}

proof fn lemma_rank_in_order<T: Ranked>(list: Seq<T::V>, item: T::V)
    requires
        weak_order::<T>(),
        in_order::<T>(list),
    ensures
        in_order::<T>(rank_in::<T>(list, item)),
        rank_in::<T>(list, item).len() == list.len() + 1,
        forall|i: int|
            0 <= i < rank_in::<T>(list, item).len() ==> list.contains(
                #[trigger] rank_in::<T>(list, item)[i],
            ) || rank_in::<T>(list, item)[i] == item,
    decreases list.len(),
{
    let r = rank_in::<T>(list, item);
    if list.len() > 0 && T::ahead(item, list.last()) {
        let shorter = list.drop_last();
        assert(in_order::<T>(shorter)) by {
            assert forall|i: int, j: int| 0 <= i < j < shorter.len() implies !T::ahead(
                #[trigger] shorter[j],
                #[trigger] shorter[i],
            ) by {
                assert(!T::ahead(list[j], list[i]));
            }
        }
        lemma_rank_in_order::<T>(shorter, item);
        let inner = rank_in::<T>(shorter, item);
        assert forall|i: int| 0 <= i < r.len() implies list.contains(#[trigger] r[i]) || r[i]
            == item by {
            if i < inner.len() {
                assert(r[i] == inner[i]);
                if shorter.contains(inner[i]) {
                    let k = choose|k: int| 0 <= k < shorter.len() && shorter[k] == inner[i];
                    assert(list[k] == r[i]);
                }
            } else {
                assert(list[list.len() - 1] == r[i]);
            }
        }
        assert forall|i: int, j: int| 0 <= i < j < r.len() implies !T::ahead(
            #[trigger] r[j],
            #[trigger] r[i],
        ) by {
            if j < inner.len() {
                assert(!T::ahead(inner[j], inner[i]));
            } else {
                assert(r[j] == list.last());
                assert(r[i] == inner[i]);
                if inner[i] != item {
                    assert(shorter.contains(inner[i]));
                    let k = choose|k: int| 0 <= k < shorter.len() && shorter[k] == inner[i];
                    assert(!T::ahead(list[list.len() - 1], list[k]));
                }
            }
        }
    } else {
        assert forall|i: int| 0 <= i < r.len() implies list.contains(#[trigger] r[i]) || r[i]
            == item by {
            if i < list.len() {
                assert(list[i] == r[i]);
            }
        }
        assert forall|i: int, j: int| 0 <= i < j < r.len() implies !T::ahead(
            #[trigger] r[j],
            #[trigger] r[i],
        ) by {
            if j < list.len() {
                assert(!T::ahead(list[j], list[i]));
            } else {
                assert(r[j] == item && r[i] == list[i]);
                if T::ahead(item, list[i]) && i < list.len() - 1 {
                    let last = list[list.len() - 1];
                    assert(!T::ahead(last, list[i]));
                    assert(T::ahead(item, last) || T::ahead(last, list[i]));
                }
            }
        }
    }
}

proof fn lemma_rank_in_ties<T: Ranked>(
    list: Seq<T::V>,
    item: T::V,
    tied: spec_fn(T::V) -> bool,
)
    requires
        forall|a: T::V, b: T::V| tied(a) && tied(b) ==> !#[trigger] T::ahead(a, b),
    ensures
        selected(rank_in::<T>(list, item), tied) == (if tied(item) {
            selected(list, tied).push(item)
        } else {
            selected(list, tied)
        }),
    decreases list.len(),
{
    let all = rank_in::<T>(list, item);
    if list.len() > 0 && T::ahead(item, list.last()) {
        let shorter = list.drop_last();
        lemma_rank_in_ties::<T>(shorter, item, tied);
        assert(all.drop_last() =~= rank_in::<T>(shorter, item));
    } else {
        assert(all.drop_last() =~= list);
    }
}

/// Ranking keeps ties in order: items of which none comes before another stand in the result as they stood.
pub proof fn law_ranking_keeps_ties<T: Ranked>(items: Seq<T::V>, tied: spec_fn(T::V) -> bool)
    requires
        forall|a: T::V, b: T::V| tied(a) && tied(b) ==> !#[trigger] T::ahead(a, b),
    ensures
        selected(ranked::<T>(items), tied) == selected(items, tied),
    decreases items.len(),
{
    if items.len() > 0 {
        law_ranking_keeps_ties::<T>(items.drop_last(), tied);
        lemma_rank_in_ties::<T>(ranked::<T>(items.drop_last()), items.last(), tied);
    }
}

} // verus!
