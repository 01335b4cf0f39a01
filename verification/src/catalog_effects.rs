//! What the catalog promises of counting and listing.
use vstd::prelude::*;
use vstd::string::*;

use crate::capture::event::EventModel;
use crate::catalog::{all_keys_counted, all_values_counted, names_counted, top_values, ByTally};
use crate::counters::{
    begins_with, known, like, matching, same_letter, ByCount, BySeen, CountModel, CountRowModel,
};
use crate::json::{kind_name, shown, JsonValue};
use crate::order::{
    first, law_ranking_keeps_every_item, law_ranking_orders, ranked, weak_order, Ranked,
};
use crate::text::{lemma_text_le_total, lemma_text_le_transitive, text_le};

verus! {

// ── Counting ──────────────────────────────────────────────────────────────────

/// How many events meet a condition.
pub open spec fn how_many(events: Seq<EventModel>, p: spec_fn(EventModel) -> bool) -> nat
    decreases events.len(),
{
    if events.len() == 0 {
        0
    } else {
        how_many(events.drop_last(), p) + if p(events.last()) {
            1nat
        } else {
            0nat
        }
    }
}

/// Whether a count went up by a number, up to the largest there is.
pub open spec fn went_up(before: Option<CountModel>, after: Option<CountModel>, n: nat) -> bool {
    let from = match before {
        Some(b) => b.count,
        None => 0,
    };
    &&& n == 0 ==> after == before
    &&& n > 0 ==> after is Some
    &&& n > 0 && from + n <= i64::MAX ==> after->Some_0.count == from + n
    &&& n > 0 && from <= i64::MAX && from + n > i64::MAX ==> after->Some_0.count == i64::MAX
}

/// The name of an event is counted as often as events of that name come in, and was then seen last at that
/// instant. Other names stay as they are.
pub proof fn law_names_are_counted(
    names: Map<(Seq<char>, Seq<char>, Seq<char>), CountModel>,
    token: Seq<char>,
    events: Seq<EventModel>,
    now: int,
    name: Seq<char>,
)
    ensures
        ({
            let key = (token, Seq::<char>::empty(), name);
            let n = how_many(events, |e: EventModel| e.event == name);
            let after = known(names_counted(names, token, events, now), key);
            &&& went_up(known(names, key), after, n)
            &&& n > 0 ==> after->Some_0.last_seen == now
        }),
    decreases events.len(),
{
    reveal_strlit("");
    assert(""@ =~= Seq::<char>::empty());
    if events.len() > 0 {
        law_names_are_counted(names, token, events.drop_last(), now, name);
    }
}

/// A property is counted as often as events with it come in, was then seen last at that instant, and has the kind
/// of its last value. Other properties stay as they are.
pub proof fn law_properties_are_counted(
    keys: Map<(Seq<char>, Seq<char>, Seq<char>), CountModel>,
    token: Seq<char>,
    events: Seq<EventModel>,
    now: int,
    k: Seq<char>,
)
    ensures
        ({
            let key = (token, "event"@, k);
            let n = how_many(events, |e: EventModel| e.properties.contains_key(k));
            let after = known(all_keys_counted(keys, token, events, now), key);
            &&& went_up(known(keys, key), after, n)
            &&& n > 0 ==> after->Some_0.last_seen == now
            &&& forall|i: int|
                0 <= i < events.len() && (#[trigger] events[i]).properties.contains_key(k) && (forall|
                    j: int,
                |
                    i < j < events.len() ==> !(#[trigger] events[j]).properties.contains_key(k))
                    ==> after->Some_0.label == kind_name(events[i].properties[k])
        }),
    decreases events.len(),
{
    if events.len() > 0 {
        let rest = events.drop_last();
        law_properties_are_counted(keys, token, rest, now, k);
        let key = (token, "event"@, k);
        let after = known(all_keys_counted(keys, token, events, now), key);
        assert forall|i: int|
            0 <= i < events.len() && (#[trigger] events[i]).properties.contains_key(k) && (forall|
                j: int,
            |
                i < j < events.len() ==> !(#[trigger] events[j]).properties.contains_key(k)) implies after->Some_0.label
            == kind_name(events[i].properties[k]) by {
            if i < rest.len() {
                assert(rest[i] == events[i]);
                assert(!events[events.len() - 1].properties.contains_key(k));
                assert forall|j: int| i < j < rest.len() implies !(
                #[trigger] rest[j]).properties.contains_key(k) by {
                    assert(rest[j] == events[j]);
                }
            }
        }
    }
}

/// A value of a property is counted as often as events with it come in; null is no value. Other values stay as
/// they are.
pub proof fn law_values_are_counted(
    values: Map<(Seq<char>, Seq<char>, Seq<char>), CountModel>,
    token: Seq<char>,
    events: Seq<EventModel>,
    taken: int,
    k: Seq<char>,
    text: Seq<char>,
)
    ensures
        ({
            let key = (token, k, text);
            let n = how_many(
                events,
                |e: EventModel|
                    e.properties.contains_key(k) && e.properties[k] != JsonValue::Null && shown(
                        e.properties[k],
                    ) == text,
            );
            went_up(
                known(values, key),
                known(all_values_counted(values, token, events, taken), key),
                n,
            )
        }),
    decreases events.len(),
{
    if events.len() > 0 {
        law_values_are_counted(values, token, events.drop_last(), taken, k, text);
    }
}

/// A value is seen with the number of the last event that has it: events are numbered on from those taken before.
pub proof fn law_values_are_seen_in_turn(
    values: Map<(Seq<char>, Seq<char>, Seq<char>), CountModel>,
    token: Seq<char>,
    events: Seq<EventModel>,
    taken: int,
    k: Seq<char>,
    text: Seq<char>,
    i: int,
)
    requires
        0 <= i < events.len(),
        taken + events.len() < u64::MAX,
        events[i].properties.contains_key(k),
        events[i].properties[k] != JsonValue::Null,
        shown(events[i].properties[k]) == text,
        forall|j: int|
            i < j < events.len() ==> !((#[trigger] events[j]).properties.contains_key(k) && shown(
                events[j].properties[k],
            ) == text),
    ensures
        known(all_values_counted(values, token, events, taken), (token, k, text)) is Some,
        known(all_values_counted(values, token, events, taken), (token, k, text))->Some_0.last_seen
            == taken + i,
    decreases events.len(),
{
    let rest = events.drop_last();
    if i < rest.len() {
        assert(rest[i] == events[i]);
        assert(!(events[events.len() - 1].properties.contains_key(k) && shown(
            events[events.len() - 1].properties[k],
        ) == text));
        assert forall|j: int| i < j < rest.len() implies !((
        #[trigger] rest[j]).properties.contains_key(k) && shown(rest[j].properties[k]) == text) by {
            assert(rest[j] == events[j]);
        }
        law_values_are_seen_in_turn(values, token, rest, taken, k, text, i);
    }
}

/// A text is shown as it is, and a truth value by its name. Each kind of value has a name of its own.
pub proof fn law_values_are_shown_as_text(a: JsonValue, b: JsonValue)
    ensures
        a is Text ==> shown(a) == a->Text_0,
        a is Null ==> shown(a).len() == 0,
        kind_name(a) == "null"@ <==> a is Null,
        kind_name(a) == "boolean"@ <==> a is Bool,
        kind_name(a) == "number"@ <==> a is Number,
        kind_name(a) == "string"@ <==> a is Text,
        kind_name(a) == "array"@ <==> a is Array,
        kind_name(a) == "object"@ <==> a is Object,
{
    reveal_strlit("null");
    reveal_strlit("boolean");
    reveal_strlit("number");
    reveal_strlit("string");
    reveal_strlit("array");
    reveal_strlit("object");
    assert("null"@.len() == 4 && "boolean"@.len() == 7 && "array"@.len() == 5);
    assert("number"@.len() == 6 && "string"@.len() == 6 && "object"@.len() == 6);
    assert("number"@[0] == 'n' && "string"@[0] == 's' && "object"@[0] == 'o');
}

// ── Listing ───────────────────────────────────────────────────────────────────

/// Every row of an owner and a group whose name fits the pattern is among the matching ones.
pub proof fn law_matching_misses_nothing(
    rows: Seq<CountRowModel>,
    owner: Seq<char>,
    group: Seq<char>,
    pattern: Option<Seq<char>>,
    escape: Option<char>,
    row: CountRowModel,
)
    ensures
        matching(rows, owner, group, pattern, escape).contains(row) <==> rows.contains(row) && row.key.0
            == owner && row.key.1 == group && (pattern is Some ==> like(
            pattern->Some_0,
            row.key.2,
            escape,
        )),
    decreases rows.len(),
{
    let all = matching(rows, owner, group, pattern, escape);
    if rows.len() > 0 {
        let rest = rows.drop_last();
        let before = matching(rest, owner, group, pattern, escape);
        law_matching_misses_nothing(rest, owner, group, pattern, escape, row);
        assert(rows =~= rest.push(rows.last()));
        crate::rows::lemma_push_contains(rest, rows.last(), row);
        crate::rows::lemma_push_contains(before, rows.last(), row);
    }
}

/// A pattern of ordinary characters and a percent sign fits exactly what begins with those characters, whatever
/// the case of their letters.
pub proof fn law_prefix_patterns_fit_prefixes(prefix: Seq<char>, text: Seq<char>)
    requires
        !prefix.contains('%'),
        !prefix.contains('_'),
    ensures
        like(prefix + seq!['%'], text, None) <==> begins_with(text, prefix),
    decreases prefix.len(),
{
    let pattern = prefix + seq!['%'];
    if prefix.len() == 0 {
        assert(pattern =~= seq!['%']);
        lemma_percent_fits(text);
    } else {
        assert(pattern[0] == prefix[0]);
        assert(prefix.contains(prefix[0]));
        let rest = prefix.skip(1);
        assert(pattern.skip(1) =~= rest + seq!['%']);
        if rest.contains('%') {
            let i = choose|i: int| 0 <= i < rest.len() && rest[i] == '%';
            assert(prefix[i + 1] == '%');
        }
        if rest.contains('_') {
            let i = choose|i: int| 0 <= i < rest.len() && rest[i] == '_';
            assert(prefix[i + 1] == '_');
        }
        if text.len() > 0 {
            law_prefix_patterns_fit_prefixes(rest, text.skip(1));
            if begins_with(text, prefix) {
                assert forall|i: int| 0 <= i < rest.len() implies same_letter(
                    #[trigger] rest[i],
                    text.skip(1)[i],
                ) by {
                    assert(same_letter(prefix[i + 1], text[i + 1]));
                }
                assert(same_letter(prefix[0], text[0]));
            }
            if same_letter(prefix[0], text[0]) && begins_with(text.skip(1), rest) {
                assert forall|i: int| 0 <= i < prefix.len() implies same_letter(
                    #[trigger] prefix[i],
                    text[i],
                ) by {
                    if i > 0 {
                        assert(same_letter(rest[i - 1], text.skip(1)[i - 1]));
                    }
                }
            }
        }
    }
}

proof fn lemma_percent_fits(text: Seq<char>)
    ensures
        like(seq!['%'], text, None),
    decreases text.len(),
{
    reveal_with_fuel(like, 2);
    assert(seq!['%'].skip(1) =~= Seq::<char>::empty());
    if text.len() > 0 {
        lemma_percent_fits(text.skip(1));
    }
}

/// Letters are alike whatever their case, and nothing else is.
pub proof fn law_letters_are_alike_in_both_cases(a: char, b: char)
    ensures
        same_letter(a, b) <==> a == b || ('A' <= a <= 'Z' && b as int == a as int + 32) || ('A' <= b
            <= 'Z' && a as int == b as int + 32),
{
}

/// What a listing keeps of a ranked list is its beginning: so many rows, or all there are.
pub proof fn law_listings_keep_the_beginning<V>(items: Seq<V>, n: int)
    requires
        0 <= n,
    ensures
        first(items, n).len() <= n,
        first(items, n).len() == items.len() || first(items, n).len() == n,
        items == first(items, n) + items.skip(first(items, n).len() as int),
{
    let kept = first(items, n).len() as int;
    assert(items =~= first(items, n) + items.skip(kept));
}

proof fn lemma_ranked_members<T: Ranked>(items: Seq<T::V>, item: T::V)
    ensures
        ranked::<T>(items).contains(item) <==> items.contains(item),
{
    broadcast use vstd::seq_lib::group_to_multiset_ensures;

    law_ranking_keeps_every_item::<T>(items);
    assert(ranked::<T>(items).to_multiset().count(item) == items.to_multiset().count(item));
}

/// A listing by recency holds the rows that were seen last, the latest first: no row that it leaves out was seen
/// after one that it holds.
pub proof fn law_recent_rows_come_first(rows: Seq<CountRowModel>, limit: int, i: int, j: int, out: CountRowModel)
    requires
        0 <= limit,
        0 <= i < j,
    ensures
        ({
            let list = first(ranked::<BySeen>(rows), limit);
            &&& j < list.len() ==> list[i].value.last_seen >= list[j].value.last_seen
            &&& i < list.len() ==> rows.contains(list[i])
            &&& i < list.len() && rows.contains(out) && !list.contains(out)
                ==> list[i].value.last_seen >= out.value.last_seen
        }),
{
    let all = ranked::<BySeen>(rows);
    let list = first(all, limit);
    assert(weak_order::<BySeen>());
    law_ranking_orders::<BySeen>(rows);
    if j < list.len() {
        assert(!BySeen::ahead(all[j], all[i]));
    }
    if i < list.len() {
        lemma_ranked_members::<BySeen>(rows, all[i]);
        assert(all.contains(all[i]));
    }
    if i < list.len() && rows.contains(out) && !list.contains(out) {
        lemma_ranked_members::<BySeen>(rows, out);
        let k = choose|k: int| 0 <= k < all.len() && all[k] == out;
        if k < list.len() {
            assert(list[k] == out);
        }
        assert(!BySeen::ahead(all[k], all[i]));
    }
}

/// A listing by count holds the rows that were counted most, the largest count first.
pub proof fn law_top_values_come_first(
    rows: Seq<CountRowModel>,
    token: Seq<char>,
    key: Seq<char>,
    pattern: Option<Seq<char>>,
    limit: int,
    i: int,
    j: int,
    out: CountRowModel,
)
    requires
        0 <= limit,
        0 <= i < j,
    ensures
        ({
            let list = top_values(rows, token, key, pattern, limit);
            &&& list.len() <= limit
            &&& j < list.len() ==> list[i].value.count >= list[j].value.count
            &&& i < list.len() ==> rows.contains(list[i]) && list[i].key.0 == token && list[i].key.1
                == key && (pattern is Some ==> like(pattern->Some_0, list[i].key.2, None))
            &&& i < list.len() && rows.contains(out) && out.key.0 == token && out.key.1 == key && (
            pattern is Some ==> like(pattern->Some_0, out.key.2, None)) && !list.contains(out)
                ==> list[i].value.count >= out.value.count && list.len() == limit
        }),
{
    let fit = matching(rows, token, key, pattern, None);
    let all = ranked::<ByTally>(fit);
    let list = top_values(rows, token, key, pattern, limit);
    assert(weak_order::<ByTally>());
    law_ranking_orders::<ByTally>(fit);
    if j < list.len() {
        assert(!ByTally::ahead(all[j], all[i]));
    }
    if i < list.len() {
        lemma_ranked_members::<ByTally>(fit, all[i]);
        assert(all.contains(all[i]));
        law_matching_misses_nothing(rows, token, key, pattern, None, all[i]);
    }
    law_matching_misses_nothing(rows, token, key, pattern, None, out);
    if i < list.len() && fit.contains(out) && !list.contains(out) {
        lemma_ranked_members::<ByTally>(fit, out);
        let k = choose|k: int| 0 <= k < all.len() && all[k] == out;
        if k < list.len() {
            assert(list[k] == out);
        }
        assert(!ByTally::ahead(all[k], all[i]));
    }
}

/// Where two rows were counted as often, the one whose name comes first is listed first.
pub proof fn law_frequent_rows_come_first(rows: Seq<CountRowModel>, limit: int, i: int, j: int)
    requires
        0 <= limit,
        0 <= i < j,
    ensures
        ({
            let list = first(ranked::<ByCount>(rows), limit);
            &&& j < list.len() ==> list[i].value.count > list[j].value.count || (list[i].value.count
                == list[j].value.count && text_le(list[i].key.2, list[j].key.2))
            &&& i < list.len() ==> rows.contains(list[i])
        }),
{
    let all = ranked::<ByCount>(rows);
    let list = first(all, limit);
    assert(weak_order::<ByCount>()) by {
        assert forall|a: CountRowModel, b: CountRowModel| #[trigger]
            ByCount::ahead(a, b) implies !ByCount::ahead(b, a) by {
            lemma_text_le_total(a.key.2, b.key.2);
        }
        assert forall|a: CountRowModel, b: CountRowModel, c: CountRowModel| #[trigger]
            ByCount::ahead(a, c) implies #[trigger] ByCount::ahead(a, b) || ByCount::ahead(b, c) by {
            lemma_text_le_total(a.key.2, b.key.2);
            lemma_text_le_total(b.key.2, c.key.2);
            lemma_text_le_total(a.key.2, c.key.2);
            if !ByCount::ahead(a, b) && !ByCount::ahead(b, c) {
                if a.value.count == b.value.count && b.value.count == c.value.count {
                    lemma_text_le_transitive(c.key.2, b.key.2, a.key.2);
                }
            }
        }
    }
    law_ranking_orders::<ByCount>(rows);
    if j < list.len() {
        assert(!ByCount::ahead(all[j], all[i]));
        lemma_text_le_total(all[i].key.2, all[j].key.2);
    }
    if i < list.len() {
        lemma_ranked_members::<ByCount>(rows, all[i]);
        assert(all.contains(all[i]));
    }
}

} // verus!
