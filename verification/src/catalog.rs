//! The properties catalog: event names, property keys and the most frequent values per key, for
//! autocompletion. The values of one key are capped to those that were seen last, so that a property with
//! many values cannot grow it without bound.
use vstd::prelude::*;
use vstd::string::*;

use crate::capture::event::{CapturedEvent, EventModel};
use crate::counters::{
    count_rows, known, matching, pattern_view, row_names, seen_again, BySeen, CountModel, CountRow,
    CountRowModel, CountTable,
};
use crate::order::{
    first, insert_ranked, keep_first, law_ranking_keeps_every_item, law_ranking_orders, ranked, views,
    Ranked,
};
use crate::projection_catalog::{key_models, PropertyKeyModel};
use crate::property_index::{count_properties, has_value, keys_counted, values_counted};
use crate::rows::lemma_push_contains;
use crate::table::{distinct_rows, lemma_row_at, lemma_row_key, lemma_rows_kept, rows_kept, rows_map};
use crate::text::same;

verus! {

/// How many values of one key the catalog keeps.
pub const VALUES_CAP_PER_KEY: usize = 200;

/// A property key as the catalog shows it.
pub struct PropertyKeyInfo {
    pub key: String,
    pub source: String,
    pub type_guess: String,
    pub count: i64,
}

impl View for PropertyKeyInfo {
    type V = PropertyKeyModel;

    open spec fn view(&self) -> PropertyKeyModel {
        PropertyKeyModel {
            key: self.key@,
            source: self.source@,
            type_guess: self.type_guess@,
            count: self.count as int,
        }
    }
}

/// The catalog of all tokens.
pub struct CatalogStore {
    pub event_names: CountTable,
    pub property_keys: CountTable,
    pub property_values: CountTable,
    /// How many events the catalog has taken in. A value is last seen in the event of that number.
    pub taken: u64,
}

/// Rows by how often they were seen.
pub struct ByTally {
    pub row: CountRow,
}

impl View for ByTally {
    type V = CountRowModel;

    open spec fn view(&self) -> CountRowModel {
        self.row@
    }
}

impl Ranked for ByTally {
    open spec fn ahead(a: CountRowModel, b: CountRowModel) -> bool {
        a.value.count > b.value.count
    }

    fn is_ahead(&self, other: &Self) -> (r: bool) {
        self.row.count > other.row.count
    }
}

/// The values of a key that match a pattern, the most frequent first.
pub open spec fn top_values(
    rows: Seq<CountRowModel>,
    token: Seq<char>,
    key: Seq<char>,
    pattern: Option<Seq<char>>,
    limit: int,
) -> Seq<CountRowModel> {
    first(ranked::<ByTally>(matching(rows, token, key, pattern, None)), limit)
}

/// Whether a row stays when the values of a key are capped.
pub open spec fn stays(
    row: CountRowModel,
    token: Seq<char>,
    key: Seq<char>,
    kept: Seq<Seq<char>>,
) -> bool {
    row.key.0 != token || row.key.1 != key || kept.contains(row.key.2)
}

/// The rows that stay, in order.
pub open spec fn staying(
    rows: Seq<CountRowModel>,
    token: Seq<char>,
    key: Seq<char>,
    kept: Seq<Seq<char>>,
) -> Seq<CountRowModel>
    decreases rows.len(),
{
    if rows.len() == 0 {
        Seq::empty()
    } else {
        let before = staying(rows.drop_last(), token, key, kept);
        if stays(rows.last(), token, key, kept) {
            before.push(rows.last())
        } else {
            before
        }
    }
}

/// The values of a key, the most recent first.
pub open spec fn recent_values(
    rows: Seq<CountRowModel>,
    token: Seq<char>,
    key: Seq<char>,
    limit: int,
) -> Seq<CountRowModel> {
    first(ranked::<BySeen>(matching(rows, token, key, None, None)), limit)
}

/// The rows once the values of a key are capped: those that were seen least recently go.
pub open spec fn capped(rows: Seq<CountRowModel>, token: Seq<char>, key: Seq<char>) -> Seq<
    CountRowModel,
> {
    staying(
        rows,
        token,
        key,
        row_names(recent_values(rows, token, key, VALUES_CAP_PER_KEY as int)),
    )
}

/// The rows once the values of several keys are capped.
pub open spec fn all_capped(rows: Seq<CountRowModel>, token: Seq<char>, keys: Seq<Seq<char>>) -> Seq<
    CountRowModel,
>
    decreases keys.len(),
{
    if keys.len() == 0 {
        rows
    } else {
        capped(all_capped(rows, token, keys.drop_last()), token, keys.last())
    }
}

/// The event names after events.
pub open spec fn names_counted(
    names: Map<(Seq<char>, Seq<char>, Seq<char>), CountModel>,
    token: Seq<char>,
    events: Seq<EventModel>,
    now: int,
) -> Map<(Seq<char>, Seq<char>, Seq<char>), CountModel>
    decreases events.len(),
{
    if events.len() == 0 {
        names
    } else {
        let before = names_counted(names, token, events.drop_last(), now);
        let key = (token, ""@, events.last().event);
        before.insert(key, seen_again(known(before, key), ""@, now, false))
    }
}

/// The property keys after events.
pub open spec fn all_keys_counted(
    keys: Map<(Seq<char>, Seq<char>, Seq<char>), CountModel>,
    token: Seq<char>,
    events: Seq<EventModel>,
    now: int,
) -> Map<(Seq<char>, Seq<char>, Seq<char>), CountModel>
    decreases events.len(),
{
    if events.len() == 0 {
        keys
    } else {
        keys_counted(
            all_keys_counted(keys, token, events.drop_last(), now),
            token,
            events.last().properties,
            now,
            false,
        )
    }
}

/// The number of the event behind `n` more, up to the largest number.
pub open spec fn event_number(taken: int, n: int) -> int {
    if taken + n < u64::MAX {
        taken + n
    } else {
        u64::MAX as int
    }
}

/// The property values after events, before they are capped. Each is seen in the event of its number.
pub open spec fn all_values_counted(
    values: Map<(Seq<char>, Seq<char>, Seq<char>), CountModel>,
    token: Seq<char>,
    events: Seq<EventModel>,
    taken: int,
) -> Map<(Seq<char>, Seq<char>, Seq<char>), CountModel>
    decreases events.len(),
{
    if events.len() == 0 {
        values
    } else {
        values_counted(
            all_values_counted(values, token, events.drop_last(), taken),
            token,
            events.last().properties,
            event_number(taken, events.len() - 1),
            false,
        )
    }
}

/// The rows of a table with a map's contents.
pub open spec fn holds(
    rows: Seq<CountRowModel>,
    map: Map<(Seq<char>, Seq<char>, Seq<char>), CountModel>,
) -> bool {
    let pairs = rows.map_values(|r: CountRowModel| (r.key, r.value));
    distinct_rows(pairs) && rows_map(pairs) == map
}

/// The keys of the rows of a token and a source, in order.
pub open spec fn keys_of(rows: Seq<CountRowModel>, token: Seq<char>, source: Seq<char>) -> Seq<
    Seq<char>,
> {
    row_names(matching(rows, token, source, None, None))
}

/// Whether every value belongs to a key that is known.
pub open spec fn keyed(
    keys: Map<(Seq<char>, Seq<char>, Seq<char>), CountModel>,
    values: Map<(Seq<char>, Seq<char>, Seq<char>), CountModel>,
) -> bool {
    forall|k: (Seq<char>, Seq<char>, Seq<char>)|
        values.contains_key(k) ==> keys.contains_key((k.0, "event"@, #[trigger] k.1))
}

/// Whether the counts of all tokens but one are as they were.
pub open spec fn others_kept(
    before: Map<(Seq<char>, Seq<char>, Seq<char>), CountModel>,
    after: Map<(Seq<char>, Seq<char>, Seq<char>), CountModel>,
    token: Seq<char>,
) -> bool {
    forall|k: (Seq<char>, Seq<char>, Seq<char>)|
        k.0 != token ==> #[trigger] known(after, k) == known(before, k)
}

/// Whether of the values that were counted only those of a token are gone that were seen least recently: each
/// was seen no later than any value of its key that is left, and its key is full. What is left is as it was
/// counted.
pub open spec fn least_recent_dropped(
    counted: Map<(Seq<char>, Seq<char>, Seq<char>), CountModel>,
    left: Map<(Seq<char>, Seq<char>, Seq<char>), CountModel>,
    rows: Seq<CountRowModel>,
    token: Seq<char>,
) -> bool {
    &&& forall|k: (Seq<char>, Seq<char>, Seq<char>)| #[trigger]
        left.contains_key(k) ==> counted.contains_key(k) && left[k] == counted[k]
    &&& forall|gone: (Seq<char>, Seq<char>, Seq<char>)| #[trigger]
        counted.contains_key(gone) && !left.contains_key(gone) ==> gone.0 == token && matching(
            rows,
            token,
            gone.1,
            None,
            None,
        ).len() == VALUES_CAP_PER_KEY
    &&& forall|gone: (Seq<char>, Seq<char>, Seq<char>), stayed: (Seq<char>, Seq<char>, Seq<char>)|
        #![trigger counted.contains_key(gone), left.contains_key(stayed)]
        counted.contains_key(gone) && !left.contains_key(gone) && left.contains_key(stayed)
            && stayed.0 == gone.0 && stayed.1 == gone.1 ==> counted[gone].last_seen
            <= left[stayed].last_seen
}

impl CatalogStore {
    /// No key occurs twice in any table, and every value belongs to a key that is known.
    pub open spec fn well_formed(&self) -> bool {
        &&& self.event_names.well_formed()
        &&& self.property_keys.well_formed()
        &&& self.property_values.well_formed()
        &&& keyed(self.property_keys@, self.property_values@)
    }

    /// An empty catalog.
    pub fn open_in_memory() -> (r: CatalogStore)
        ensures
            r.well_formed(),
            r.event_names.rows.len() == 0,
            r.property_keys.rows.len() == 0,
            r.property_values.rows.len() == 0,
            r.taken == 0,
    {
        CatalogStore {
            event_names: CountTable::new(),
            property_keys: CountTable::new(),
            property_values: CountTable::new(),
            taken: 0,
        }
    }

    fn top(&self, token: &str, key: &str, pattern: Option<&str>, limit: usize) -> (r: Vec<ByTally>)
        ensures
            views(r@) == top_values(
                views(self.property_values.rows@),
                token@,
                key@,
                pattern_view(pattern),
                limit as int,
            ),
    {
        let rows = &self.property_values.rows;
        let ghost all = views(rows@);
        let mut out: Vec<ByTally> = Vec::new();
        let mut i: usize = 0;
        assert(all.take(0) =~= Seq::<CountRowModel>::empty());
        assert(views(out@) =~= Seq::<CountRowModel>::empty());
        while i < rows.len()
            invariant
                i <= rows.len(),
                all == views(rows@),
                views(out@) == ranked::<ByTally>(
                    matching(all.take(i as int), token@, key@, pattern_view(pattern), None),
                ),
            decreases rows.len() - i,
        {
            assert(all.take(i + 1).drop_last() =~= all.take(i as int));
            assert(all.take(i + 1).last() == rows@[i as int]@);
            let ghost before = matching(
                all.take(i as int),
                token@,
                key@,
                pattern_view(pattern),
                None,
            );
            let matches = same(rows[i].owner.as_str(), token) && same(rows[i].group.as_str(), key)
                && match pattern {
                Some(p) => crate::counters::is_like(p, rows[i].name.as_str(), None),
                None => true,
            };
            if matches {
                let row = rows[i].copy();
                assert(before.push(row@).drop_last() =~= before);
                insert_ranked(&mut out, ByTally { row });
            }
            i += 1;
        }
        assert(all.take(rows.len() as int) =~= all);
        keep_first(&mut out, limit);
        out
    }

    fn cap_values(&mut self, token: &str, key: &str)
        requires
            old(self).well_formed(),
        ensures
            final(self).well_formed(),
            final(self).event_names == old(self).event_names,
            final(self).property_keys == old(self).property_keys,
            final(self).taken == old(self).taken,
            views(final(self).property_values.rows@) == capped(
                views(old(self).property_values.rows@),
                token@,
                key@,
            ),
    {
        let recent = self.property_values.most_recent(token, key, None, None, VALUES_CAP_PER_KEY);
        let ghost kept = row_names(views(recent@));
        let ghost all = views(self.property_values.rows@);
        let ghost pairs = count_rows(self.property_values.rows@);
        let ghost keep = |k: (Seq<char>, Seq<char>, Seq<char>), v: CountModel|
            k.0 != token@ || k.1 != key@ || kept.contains(k.2);
        let mut out: Vec<CountRow> = Vec::new();
        let mut i: usize = 0;
        assert(all.take(0) =~= Seq::<CountRowModel>::empty());
        assert(pairs.take(0) =~= Seq::<((Seq<char>, Seq<char>, Seq<char>), CountModel)>::empty());
        assert(views(out@) =~= Seq::<CountRowModel>::empty());
        assert(count_rows(out@) =~= Seq::<
            ((Seq<char>, Seq<char>, Seq<char>), CountModel),
        >::empty());
        while i < self.property_values.rows.len()
            invariant
                i <= self.property_values.rows.len(),
                self.property_values == old(self).property_values,
                self.event_names == old(self).event_names,
                self.property_keys == old(self).property_keys,
                self.taken == old(self).taken,
                all == views(self.property_values.rows@),
                pairs == count_rows(self.property_values.rows@),
                kept == row_names(views(recent@)),
                keep == (|k: (Seq<char>, Seq<char>, Seq<char>), v: CountModel|
                    k.0 != token@ || k.1 != key@ || kept.contains(k.2)),
                views(out@) == staying(all.take(i as int), token@, key@, kept),
                count_rows(out@) == rows_kept(pairs.take(i as int), keep),
            decreases self.property_values.rows.len() - i,
        {
            let row = &self.property_values.rows[i];
            assert(all.take(i + 1).drop_last() =~= all.take(i as int));
            assert(all.take(i + 1).last() == row@);
            assert(pairs.take(i + 1).drop_last() =~= pairs.take(i as int));
            assert(pairs.take(i + 1).last() == (row@.key, row@.value));
            let mut stay = !same(row.owner.as_str(), token) || !same(row.group.as_str(), key);
            if !stay {
                stay = holds_name(&recent, row.name.as_str());
            }
            let ghost before_views = views(out@);
            let ghost before_pairs = count_rows(out@);
            if stay {
                let copy = row.copy();
                out.push(copy);
                assert(views(out@) =~= before_views.push(row@));
                assert(count_rows(out@) =~= before_pairs.push((row@.key, row@.value)));
            }
            i += 1;
        }
        assert(all.take(all.len() as int) =~= all);
        assert(pairs.take(pairs.len() as int) =~= pairs);
        proof {
            lemma_rows_kept(pairs, keep);
        }
        self.property_values.rows = out;
    }

    /// Caps the values of every event property of a token.
    pub fn enforce_values_cap(&mut self, token: &str)
        requires
            old(self).well_formed(),
        ensures
            final(self).well_formed(),
            final(self).event_names == old(self).event_names,
            final(self).property_keys == old(self).property_keys,
            final(self).taken == old(self).taken,
            views(final(self).property_values.rows@) == all_capped(
                views(old(self).property_values.rows@),
                token@,
                keys_of(views(old(self).property_keys.rows@), token@, "event"@),
            ),
    {
        let ghost rows = views(self.property_keys.rows@);
        let ghost start = views(self.property_values.rows@);
        let ghost keys = keys_of(rows, token@, "event"@);
        let mut i: usize = 0;
        assert(rows.take(0) =~= Seq::<CountRowModel>::empty());
        assert(keys_of(rows.take(0), token@, "event"@) =~= Seq::<Seq<char>>::empty());
        while i < self.property_keys.rows.len()
            invariant
                i <= self.property_keys.rows.len(),
                self.well_formed(),
                self.event_names == old(self).event_names,
                self.property_keys == old(self).property_keys,
                self.taken == old(self).taken,
                rows == views(self.property_keys.rows@),
                views(self.property_values.rows@) == all_capped(
                    start,
                    token@,
                    keys_of(rows.take(i as int), token@, "event"@),
                ),
            decreases self.property_keys.rows.len() - i,
        {
            assert(rows.take(i + 1).drop_last() =~= rows.take(i as int));
            assert(rows.take(i + 1).last() == self.property_keys.rows@[i as int]@);
            let ghost before = keys_of(rows.take(i as int), token@, "event"@);
            let own = same(self.property_keys.rows[i].owner.as_str(), token) && same(
                self.property_keys.rows[i].group.as_str(),
                "event",
            );
            if own {
                let key = self.property_keys.rows[i].name.clone();
                self.cap_values(token, key.as_str());
                assert(keys_of(rows.take(i + 1), token@, "event"@) =~= before.push(key@));
                assert(before.push(key@).drop_last() =~= before);
            } else {
                assert(keys_of(rows.take(i + 1), token@, "event"@) =~= before);
            }
            i += 1;
        }
        assert(rows.take(rows.len() as int) =~= rows);
    }

    fn count_events(&mut self, events: &Vec<CapturedEvent>, token: &str, now: i128)
        requires
            old(self).well_formed(),
        ensures
            final(self).well_formed(),
            final(self).event_names@ == names_counted(
                old(self).event_names@,
                token@,
                views(events@),
                now as int,
            ),
            final(self).property_keys@ == all_keys_counted(
                old(self).property_keys@,
                token@,
                views(events@),
                now as int,
            ),
            final(self).property_values@ == all_values_counted(
                old(self).property_values@,
                token@,
                views(events@),
                old(self).taken as int,
            ),
            final(self).taken == event_number(old(self).taken as int, events.len() as int),
    {
        let ghost all = views(events@);
        let mut i: usize = 0;
        assert(all.take(0) =~= Seq::<EventModel>::empty());
        while i < events.len()
            invariant
                i <= events.len(),
                all == views(events@),
                self.well_formed(),
                self.event_names@ == names_counted(
                    old(self).event_names@,
                    token@,
                    all.take(i as int),
                    now as int,
                ),
                self.property_keys@ == all_keys_counted(
                    old(self).property_keys@,
                    token@,
                    all.take(i as int),
                    now as int,
                ),
                self.property_values@ == all_values_counted(
                    old(self).property_values@,
                    token@,
                    all.take(i as int),
                    old(self).taken as int,
                ),
                self.taken == event_number(old(self).taken as int, i as int),
            decreases events.len() - i,
        {
            assert(all.take(i + 1).drop_last() =~= all.take(i as int));
            assert(all.take(i + 1).last() == events@[i as int]@);
            self.event_names.touch(token, "", events[i].event.as_str(), "", now, false);
            count_properties(
                &mut self.property_keys,
                &mut self.property_values,
                token,
                &events[i].properties,
                now,
                self.taken as i128,
                false,
            );
            if self.taken < u64::MAX {
                self.taken = self.taken + 1;
            }
            i += 1;
        }
        assert(all.take(all.len() as int) =~= all);
    }

    /// Takes a batch of events into the catalog of a token, and caps the values of every key to those that
    /// were seen last. The catalogs of all other tokens stay as they are.
    pub fn ingest(&mut self, events: &Vec<CapturedEvent>, token: &str, now: i128)
        requires
            old(self).well_formed(),
        ensures
            final(self).well_formed(),
            final(self).event_names@ == names_counted(
                old(self).event_names@,
                token@,
                views(events@),
                now as int,
            ),
            final(self).property_keys@ == all_keys_counted(
                old(self).property_keys@,
                token@,
                views(events@),
                now as int,
            ),
            final(self).taken == event_number(old(self).taken as int, events.len() as int),
            forall|key: Seq<char>|
                (#[trigger] matching(
                    views(final(self).property_values.rows@),
                    token@,
                    key,
                    None,
                    None,
                )).len() <= VALUES_CAP_PER_KEY,
            exists|rows: Seq<CountRowModel>|
                holds(
                    rows,
                    all_values_counted(
                        old(self).property_values@,
                        token@,
                        views(events@),
                        old(self).taken as int,
                    ),
                ) && views(final(self).property_values.rows@) == #[trigger] all_capped(
                    rows,
                    token@,
                    keys_of(views(final(self).property_keys.rows@), token@, "event"@),
                ),
            least_recent_dropped(
                all_values_counted(
                    old(self).property_values@,
                    token@,
                    views(events@),
                    old(self).taken as int,
                ),
                final(self).property_values@,
                views(final(self).property_values.rows@),
                token@,
            ),
            others_kept(old(self).event_names@, final(self).event_names@, token@),
            others_kept(old(self).property_keys@, final(self).property_keys@, token@),
            others_kept(old(self).property_values@, final(self).property_values@, token@),
    {
        self.count_events(events, token, now);
        let ghost rows = views(self.property_values.rows@);
        proof {
            assert(rows.map_values(|r: CountRowModel| (r.key, r.value)) =~= count_rows(
                self.property_values.rows@,
            ));
        }
        let ghost keys = self.property_keys@;
        let ghost pairs = count_rows(self.property_values.rows@);
        self.enforce_values_cap(token);
        proof {
            let key_rows = views(self.property_keys.rows@);
            let names = keys_of(key_rows, token@, "event"@);
            assert(count_rows(self.property_keys.rows@) =~= key_rows.map_values(
                |r: CountRowModel| (r.key, r.value),
            ));
            assert(rows.map_values(|r: CountRowModel| (r.key, r.value)) =~= pairs);
            assert forall|key: Seq<char>|
                (#[trigger] matching(
                    views(self.property_values.rows@),
                    token@,
                    key,
                    None,
                    None,
                )).len() <= VALUES_CAP_PER_KEY by {
                if !names.contains(key) {
                    lemma_unknown_keys_have_no_values(key_rows, rows, token@, key);
                    lemma_caps_only_drop(rows, token@, names, key);
                } else {
                    law_all_values_are_capped(rows, token@, names, key);
                }
            }
            lemma_names_distinct(key_rows, token@, "event"@);
            assert(names.no_duplicates());
            lemma_caps_in_maps(rows, token@, names);
            assert(views(self.property_values.rows@).map_values(
                |r: CountRowModel| (r.key, r.value),
            ) =~= count_rows(self.property_values.rows@));
            lemma_others_kept(
                old(self).event_names@,
                old(self).property_keys@,
                old(self).property_values@,
                token@,
                views(events@),
                now as int,
                old(self).taken as int,
            );
        }
    }

    /// The event names of a token that match a prefix, the most recent first.
    pub fn event_names(&self, token: &str, prefix: &str, limit: usize) -> (r: Vec<String>)
        ensures
            views(r@) == row_names(
                first(
                    ranked::<BySeen>(
                        matching(
                            views(self.event_names.rows@),
                            token@,
                            ""@,
                            Some(prefix@ + "%"@),
                            None,
                        ),
                    ),
                    limit as int,
                ),
            ),
    {
        let pattern = crate::text::joined(prefix, "%");
        let rows = self.event_names.most_recent(token, "", Some(pattern.as_str()), None, limit);
        recent_names(rows)
    }

    /// All event names of a token, the most recent first.
    pub fn all_event_names(&self, token: &str) -> (r: Vec<String>)
        ensures
            views(r@) == row_names(
                first(
                    ranked::<BySeen>(
                        matching(views(self.event_names.rows@), token@, ""@, None, None),
                    ),
                    usize::MAX as int,
                ),
            ),
    {
        let rows = self.event_names.most_recent(token, "", None, None, usize::MAX);
        recent_names(rows)
    }

    /// The property keys of a token from one source, the most recent first.
    pub fn property_keys(&self, token: &str, source: &str) -> (r: Vec<PropertyKeyInfo>)
        ensures
            views(r@) == key_models(
                first(
                    ranked::<BySeen>(
                        matching(views(self.property_keys.rows@), token@, source@, None, None),
                    ),
                    usize::MAX as int,
                ),
            ),
    {
        let rows = self.property_keys.most_recent(token, source, None, None, usize::MAX);
        let mut out: Vec<PropertyKeyInfo> = Vec::new();
        let mut i: usize = 0;
        while i < rows.len()
            invariant
                i <= rows.len(),
                out.len() == i,
                forall|j: int|
                    0 <= j < i ==> (#[trigger] out@[j])@ == (PropertyKeyModel {
                        key: rows@[j]@.key.2,
                        source: rows@[j]@.key.1,
                        type_guess: rows@[j]@.value.label,
                        count: rows@[j]@.value.count,
                    }),
            decreases rows.len() - i,
        {
            out.push(
                PropertyKeyInfo {
                    key: rows[i].row.name.clone(),
                    source: rows[i].row.group.clone(),
                    type_guess: rows[i].row.label.clone(),
                    count: rows[i].row.count,
                },
            );
            i += 1;
        }
        assert(views(out@) =~= key_models(views(rows@)));
        out
    }

    /// The values of a property of a token that match a prefix, the most frequent first.
    pub fn property_values(&self, token: &str, key: &str, prefix: &str, limit: usize) -> (r: Vec<
        String,
    >)
        ensures
            views(r@) == row_names(
                top_values(
                    views(self.property_values.rows@),
                    token@,
                    key@,
                    Some(prefix@ + "%"@),
                    limit as int,
                ),
            ),
    {
        let pattern = crate::text::joined(prefix, "%");
        let rows = self.top(token, key, Some(pattern.as_str()), limit);
        let mut out: Vec<String> = Vec::new();
        let mut i: usize = 0;
        while i < rows.len()
            invariant
                i <= rows.len(),
                out.len() == i,
                forall|j: int| 0 <= j < i ==> (#[trigger] out@[j])@ == rows@[j]@.key.2,
            decreases rows.len() - i,
        {
            out.push(rows[i].row.name.clone());
            i += 1;
        }
        assert(views(out@) =~= row_names(views(rows@)));
        out
    }
}

fn recent_names(rows: Vec<BySeen>) -> (r: Vec<String>)
    ensures
        views(r@) == row_names(views(rows@)),
{
    let mut out: Vec<String> = Vec::new();
    let mut i: usize = 0;
    while i < rows.len()
        invariant
            i <= rows.len(),
            out.len() == i,
            forall|j: int| 0 <= j < i ==> (#[trigger] out@[j])@ == rows@[j]@.key.2,
        decreases rows.len() - i,
    {
        out.push(rows[i].row.name.clone());
        i += 1;
    }
    assert(views(out@) =~= row_names(views(rows@)));
    out
}

fn holds_name(rows: &Vec<BySeen>, name: &str) -> (r: bool)
    ensures
        r == row_names(views(rows@)).contains(name@),
{
    let ghost names = row_names(views(rows@));
    let mut i: usize = 0;
    while i < rows.len()
        invariant
            i <= rows.len(),
            names == row_names(views(rows@)),
            forall|j: int| 0 <= j < i ==> names[j] != name@,
        decreases rows.len() - i,
    {
        assert(names[i as int] == rows@[i as int]@.key.2);
        if same(rows[i].row.name.as_str(), name) {
            return true;
        }
        i += 1;
    }
    false
}

// ── Laws ──────────────────────────────────────────────────────────────────────

/// The names among the rows of a key, when no key occurs twice, are distinct.
proof fn lemma_names_distinct(rows: Seq<CountRowModel>, token: Seq<char>, key: Seq<char>)
    requires
        distinct_rows(rows.map_values(|r: CountRowModel| (r.key, r.value))),
    ensures
        ({
            let m = matching(rows, token, key, None, None);
            &&& forall|i: int, j: int|
                0 <= i < j < m.len() ==> (#[trigger] m[i]).key.2 != (#[trigger] m[j]).key.2
            &&& forall|i: int| 0 <= i < m.len() ==> rows.contains(#[trigger] m[i])
        }),
    decreases rows.len(),
{
    if rows.len() > 0 {
        let rest = rows.drop_last();
        let pairs = rows.map_values(|r: CountRowModel| (r.key, r.value));
        let rest_pairs = rest.map_values(|r: CountRowModel| (r.key, r.value));
        assert(distinct_rows(rest_pairs)) by {
            assert forall|i: int, j: int| 0 <= i < j < rest_pairs.len() implies (
            #[trigger] rest_pairs[i]).0 != (#[trigger] rest_pairs[j]).0 by {
                assert(pairs[i].0 != pairs[j].0);
            }
        }
        lemma_names_distinct(rest, token, key);
        crate::counters::law_matching_is_scoped(rest, token, key, None, None);
        let before = matching(rest, token, key, None, None);
        let m = matching(rows, token, key, None, None);
        assert forall|i: int| 0 <= i < m.len() implies rows.contains(#[trigger] m[i]) by {
            if i < before.len() {
                assert(m[i] == before[i]);
                let k = choose|k: int| 0 <= k < rest.len() && rest[k] == before[i];
                assert(rows[k] == m[i]);
            } else {
                assert(rows[rows.len() - 1] == m[i]);
            }
        }
        assert forall|i: int, j: int| 0 <= i < j < m.len() implies (#[trigger] m[i]).key.2 != (
        #[trigger] m[j]).key.2 by {
            assert(m[i] == before[i]);
            if j < before.len() {
                assert(m[j] == before[j]);
            } else {
                let k = choose|k: int| 0 <= k < rest.len() && rest[k] == before[i];
                assert(pairs[k].0 != pairs[rows.len() - 1].0);
                assert(before[i].key.0 == token && before[i].key.1 == key);
            }
        }
    }
}

proof fn lemma_staying_subset(
    rows: Seq<CountRowModel>,
    token: Seq<char>,
    key: Seq<char>,
    kept: Seq<Seq<char>>,
)
    requires
        distinct_rows(rows.map_values(|r: CountRowModel| (r.key, r.value))),
    ensures
        ({
            let s = staying(rows, token, key, kept);
            &&& distinct_rows(s.map_values(|r: CountRowModel| (r.key, r.value)))
            &&& forall|i: int|
                0 <= i < s.len() ==> rows.contains(#[trigger] s[i]) && stays(
                    s[i],
                    token,
                    key,
                    kept,
                )
        }),
    decreases rows.len(),
{
    if rows.len() > 0 {
        let rest = rows.drop_last();
        let pairs = rows.map_values(|r: CountRowModel| (r.key, r.value));
        let rest_pairs = rest.map_values(|r: CountRowModel| (r.key, r.value));
        assert(distinct_rows(rest_pairs)) by {
            assert forall|i: int, j: int| 0 <= i < j < rest_pairs.len() implies (
            #[trigger] rest_pairs[i]).0 != (#[trigger] rest_pairs[j]).0 by {
                assert(pairs[i].0 != pairs[j].0);
            }
        }
        lemma_staying_subset(rest, token, key, kept);
        let before = staying(rest, token, key, kept);
        let s = staying(rows, token, key, kept);
        assert forall|i: int| 0 <= i < s.len() implies rows.contains(#[trigger] s[i]) && stays(
            s[i],
            token,
            key,
            kept,
        ) by {
            if i < before.len() {
                assert(s[i] == before[i]);
                let k = choose|k: int| 0 <= k < rest.len() && rest[k] == before[i];
                assert(rows[k] == s[i]);
            } else {
                assert(rows[rows.len() - 1] == s[i]);
            }
        }
        let sp = s.map_values(|r: CountRowModel| (r.key, r.value));
        let bp = before.map_values(|r: CountRowModel| (r.key, r.value));
        assert forall|i: int, j: int| 0 <= i < j < sp.len() implies (#[trigger] sp[i]).0 != (
        #[trigger] sp[j]).0 by {
            assert(s[i] == before[i]);
            assert(sp[i] == bp[i]);
            if j < before.len() {
                assert(sp[j] == bp[j]);
            } else {
                let k = choose|k: int| 0 <= k < rest.len() && rest[k] == before[i];
                assert(pairs[k].0 != pairs[rows.len() - 1].0);
            }
        }
    }
}

/// Once capped, a key has at most [`VALUES_CAP_PER_KEY`] values.
pub proof fn law_values_are_capped(rows: Seq<CountRowModel>, token: Seq<char>, key: Seq<char>)
    requires
        distinct_rows(rows.map_values(|r: CountRowModel| (r.key, r.value))),
    ensures
        matching(capped(rows, token, key), token, key, None, None).len() <= VALUES_CAP_PER_KEY,
{
    let kept = row_names(recent_values(rows, token, key, VALUES_CAP_PER_KEY as int));
    let s = capped(rows, token, key);
    lemma_staying_subset(rows, token, key, kept);
    lemma_names_distinct(s, token, key);
    crate::counters::law_matching_is_scoped(s, token, key, None, None);
    let m = matching(s, token, key, None, None);
    let names = row_names(m);
    assert(names.no_duplicates());
    assert(names.to_set().subset_of(kept.to_set())) by {
        assert forall|n: Seq<char>| names.to_set().contains(n) implies kept.to_set().contains(n) by {
            let i = choose|i: int| 0 <= i < names.len() && names[i] == n;
            assert(m[i].key.2 == n);
            assert(s.contains(m[i]));
            let k = choose|k: int| 0 <= k < s.len() && s[k] == m[i];
            assert(stays(s[k], token, key, kept));
        }
    }
    names.unique_seq_to_set();
    kept.lemma_cardinality_of_set();
    vstd::set_lib::lemma_len_subset(names.to_set(), kept.to_set());
}

proof fn lemma_matching_holds(
    rows: Seq<CountRowModel>,
    token: Seq<char>,
    key: Seq<char>,
    row: CountRowModel,
)
    ensures
        matching(rows, token, key, None, None).contains(row) <==> rows.contains(row) && row.key.0
            == token && row.key.1 == key,
    decreases rows.len(),
{
    if rows.len() > 0 {
        let rest = rows.drop_last();
        lemma_matching_holds(rest, token, key, row);
        let before = matching(rest, token, key, None, None);
        assert(rows =~= rest.push(rows.last()));
        lemma_push_contains(rest, rows.last(), row);
        lemma_push_contains(before, rows.last(), row);
    }
}

proof fn lemma_staying_holds(
    rows: Seq<CountRowModel>,
    token: Seq<char>,
    key: Seq<char>,
    kept: Seq<Seq<char>>,
    row: CountRowModel,
)
    ensures
        staying(rows, token, key, kept).contains(row) <==> rows.contains(row) && stays(
            row,
            token,
            key,
            kept,
        ),
    decreases rows.len(),
{
    if rows.len() > 0 {
        let rest = rows.drop_last();
        lemma_staying_holds(rest, token, key, kept, row);
        assert(rows =~= rest.push(rows.last()));
        lemma_push_contains(rest, rows.last(), row);
        lemma_push_contains(staying(rest, token, key, kept), rows.last(), row);
    }
}

/// Capping the values of a key drops those that were seen least recently: none of them was seen after one
/// that stays.
pub proof fn law_dropped_values_were_seen_least_recently(
    rows: Seq<CountRowModel>,
    token: Seq<char>,
    key: Seq<char>,
    dropped: CountRowModel,
    stayed: CountRowModel,
)
    requires
        distinct_rows(rows.map_values(|r: CountRowModel| (r.key, r.value))),
        rows.contains(dropped),
        !capped(rows, token, key).contains(dropped),
        capped(rows, token, key).contains(stayed),
        stayed.key.0 == token,
        stayed.key.1 == key,
    ensures
        dropped.key.0 == token,
        dropped.key.1 == key,
        dropped.value.last_seen <= stayed.value.last_seen,
{
    let m = matching(rows, token, key, None, None);
    let all = ranked::<BySeen>(m);
    let recent = recent_values(rows, token, key, VALUES_CAP_PER_KEY as int);
    let kept = row_names(recent);
    lemma_staying_holds(rows, token, key, kept, dropped);
    lemma_staying_holds(rows, token, key, kept, stayed);
    lemma_matching_holds(rows, token, key, dropped);
    law_ranking_keeps_every_item::<BySeen>(m);
    law_ranking_orders::<BySeen>(m);
    lemma_same_items(m, all, dropped);
    let j = choose|j: int| 0 <= j < all.len() && all[j] == dropped;
    let i = choose|i: int| 0 <= i < kept.len() && kept[i] == stayed.key.2;
    assert(recent[i] == all[i] && all[i].key.2 == stayed.key.2);
    assert(all.contains(all[i]));
    lemma_same_items(all, m, all[i]);
    lemma_matching_holds(rows, token, key, all[i]);
    let pairs = rows.map_values(|r: CountRowModel| (r.key, r.value));
    let a = choose|a: int| 0 <= a < rows.len() && rows[a] == all[i];
    let b = choose|b: int| 0 <= b < rows.len() && rows[b] == stayed;
    assert(pairs[a].0 == pairs[b].0);
    assert(a == b);
    if j < recent.len() {
        assert(kept[j] == dropped.key.2);
        assert(false);
    }
    assert(!BySeen::ahead(all[j], all[i]));
}

proof fn lemma_same_items(a: Seq<CountRowModel>, b: Seq<CountRowModel>, item: CountRowModel)
    requires
        a.to_multiset() == b.to_multiset(),
        a.contains(item),
    ensures
        b.contains(item),
{
    broadcast use vstd::seq_lib::group_to_multiset_ensures;

    assert(a.to_multiset().count(item) > 0);
    assert(b.to_multiset().count(item) > 0);
}

/// Rows of another key, or of another token, stay where they are when the values of a key are capped.
proof fn lemma_cap_elsewhere(
    rows: Seq<CountRowModel>,
    token: Seq<char>,
    key: Seq<char>,
    kept: Seq<Seq<char>>,
    owner: Seq<char>,
    group: Seq<char>,
    pattern: Option<Seq<char>>,
)
    requires
        owner != token || group != key,
    ensures
        matching(staying(rows, token, key, kept), owner, group, pattern, None) == matching(
            rows,
            owner,
            group,
            pattern,
            None,
        ),
    decreases rows.len(),
{
    if rows.len() > 0 {
        let rest = rows.drop_last();
        lemma_cap_elsewhere(rest, token, key, kept, owner, group, pattern);
        let before = staying(rest, token, key, kept);
        assert(before.push(rows.last()).drop_last() =~= before);
    }
}

proof fn lemma_all_capped_distinct(
    rows: Seq<CountRowModel>,
    token: Seq<char>,
    keys: Seq<Seq<char>>,
)
    requires
        distinct_rows(rows.map_values(|r: CountRowModel| (r.key, r.value))),
    ensures
        distinct_rows(
            all_capped(rows, token, keys).map_values(|r: CountRowModel| (r.key, r.value)),
        ),
    decreases keys.len(),
{
    if keys.len() > 0 {
        lemma_all_capped_distinct(rows, token, keys.drop_last());
        let before = all_capped(rows, token, keys.drop_last());
        lemma_staying_subset(
            before,
            token,
            keys.last(),
            row_names(recent_values(before, token, keys.last(), VALUES_CAP_PER_KEY as int)),
        );
    }
}

/// Once the values of several keys are capped, each of them has at most [`VALUES_CAP_PER_KEY`] values.
pub proof fn law_all_values_are_capped(
    rows: Seq<CountRowModel>,
    token: Seq<char>,
    keys: Seq<Seq<char>>,
    key: Seq<char>,
)
    requires
        distinct_rows(rows.map_values(|r: CountRowModel| (r.key, r.value))),
        keys.contains(key),
    ensures
        matching(all_capped(rows, token, keys), token, key, None, None).len()
            <= VALUES_CAP_PER_KEY,
    decreases keys.len(),
{
    let rest = keys.drop_last();
    let before = all_capped(rows, token, rest);
    lemma_all_capped_distinct(rows, token, rest);
    if keys.last() == key {
        law_values_are_capped(before, token, key);
    } else {
        let i = choose|i: int| 0 <= i < keys.len() && keys[i] == key;
        assert(rest[i] == key);
        law_all_values_are_capped(rows, token, rest, key);
        lemma_cap_elsewhere(
            before,
            token,
            keys.last(),
            row_names(recent_values(before, token, keys.last(), VALUES_CAP_PER_KEY as int)),
            token,
            key,
            None,
        );
    }
}

/// Capping never adds a value.
proof fn lemma_caps_only_drop(
    rows: Seq<CountRowModel>,
    token: Seq<char>,
    keys: Seq<Seq<char>>,
    key: Seq<char>,
)
    requires
        !keys.contains(key),
    ensures
        matching(all_capped(rows, token, keys), token, key, None, None) == matching(
            rows,
            token,
            key,
            None,
            None,
        ),
    decreases keys.len(),
{
    if keys.len() > 0 {
        let rest = keys.drop_last();
        let before = all_capped(rows, token, rest);
        assert(keys.contains(keys.last()));
        if rest.contains(key) {
            let i = choose|i: int| 0 <= i < rest.len() && rest[i] == key;
            assert(keys[i] == key);
        }
        lemma_caps_only_drop(rows, token, rest, key);
        lemma_cap_elsewhere(
            before,
            token,
            keys.last(),
            row_names(recent_values(before, token, keys.last(), VALUES_CAP_PER_KEY as int)),
            token,
            key,
            None,
        );
    }
}

/// A key that is not known has no values.
proof fn lemma_unknown_keys_have_no_values(
    key_rows: Seq<CountRowModel>,
    rows: Seq<CountRowModel>,
    token: Seq<char>,
    key: Seq<char>,
)
    requires
        ({
            let pair = |r: CountRowModel| (r.key, r.value);
            keyed(rows_map(key_rows.map_values(pair)), rows_map(rows.map_values(pair)))
        }),
        !keys_of(key_rows, token, "event"@).contains(key),
    ensures
        matching(rows, token, key, None, None).len() == 0,
{
    let pair = |r: CountRowModel| (r.key, r.value);
    let m = matching(rows, token, key, None, None);
    if m.len() > 0 {
        assert(m.contains(m[0]));
        lemma_matching_holds(rows, token, key, m[0]);
        let i = choose|i: int| 0 <= i < rows.len() && rows[i] == m[0];
        let pairs = rows.map_values(pair);
        assert(pairs[i].0 == m[0].key);
        lemma_row_key(pairs, m[0].key);
        assert(rows_map(pairs).contains_key(m[0].key));
        let wanted = (token, "event"@, m[0].key.1);
        let key_pairs = key_rows.map_values(pair);
        lemma_row_key(key_pairs, wanted);
        let j = choose|j: int| 0 <= j < key_pairs.len() && (#[trigger] key_pairs[j]).0 == wanted;
        let known = matching(key_rows, token, "event"@, None, None);
        lemma_matching_holds(key_rows, token, "event"@, key_rows[j]);
        assert(key_rows.contains(key_rows[j]));
        let k = choose|k: int| 0 <= k < known.len() && known[k] == key_rows[j];
        assert(keys_of(key_rows, token, "event"@)[k] == key);
    }
}

/// A key that loses a value is full.
proof fn lemma_full_key(
    rows: Seq<CountRowModel>,
    token: Seq<char>,
    key: Seq<char>,
    gone: CountRowModel,
)
    requires
        distinct_rows(rows.map_values(|r: CountRowModel| (r.key, r.value))),
        rows.contains(gone),
        !capped(rows, token, key).contains(gone),
    ensures
        gone.key.0 == token,
        gone.key.1 == key,
        matching(capped(rows, token, key), token, key, None, None).len() == VALUES_CAP_PER_KEY,
{
    let own = matching(rows, token, key, None, None);
    let all = ranked::<BySeen>(own);
    let recent = recent_values(rows, token, key, VALUES_CAP_PER_KEY as int);
    let kept = row_names(recent);
    let left = capped(rows, token, key);
    lemma_staying_holds(rows, token, key, kept, gone);
    lemma_matching_holds(rows, token, key, gone);
    law_ranking_keeps_every_item::<BySeen>(own);
    lemma_same_items(own, all, gone);
    let g = choose|g: int| 0 <= g < all.len() && all[g] == gone;
    if g < recent.len() {
        assert(kept[g] == gone.key.2);
        assert(false);
    }
    lemma_names_distinct(rows, token, key);
    assert(own.no_duplicates());
    own.lemma_multiset_has_no_duplicates();
    all.lemma_multiset_has_no_duplicates_conv();
    assert forall|i: int, j: int| 0 <= i < kept.len() && 0 <= j < kept.len() && i
        != j implies kept[i] != kept[j] by {
        assert(kept[i] == all[i].key.2 && kept[j] == all[j].key.2);
        assert(all.contains(all[i]) && all.contains(all[j]));
        lemma_same_items(all, own, all[i]);
        lemma_same_items(all, own, all[j]);
        let a = choose|a: int| 0 <= a < own.len() && own[a] == all[i];
        let b = choose|b: int| 0 <= b < own.len() && own[b] == all[j];
        assert(own[a].key.2 == all[i].key.2 && own[b].key.2 == all[j].key.2);
        assert(a != b);
    }
    assert(kept.no_duplicates());
    kept.unique_seq_to_set();
    let after = matching(left, token, key, None, None);
    let names = row_names(after);
    assert forall|n: Seq<char>| kept.to_set().contains(n) implies names.to_set().contains(n) by {
        let i = choose|i: int| 0 <= i < kept.len() && kept[i] == n;
        let row = all[i];
        assert(recent[i] == row && row.key.2 == n);
        assert(all.contains(row));
        lemma_same_items(all, own, row);
        lemma_matching_holds(rows, token, key, row);
        lemma_staying_holds(rows, token, key, kept, row);
        lemma_matching_holds(left, token, key, row);
        let k = choose|k: int| 0 <= k < after.len() && after[k] == row;
        assert(names[k] == n);
    }
    names.lemma_cardinality_of_set();
    vstd::set_lib::lemma_len_subset(kept.to_set(), names.to_set());
    law_values_are_capped(rows, token, key);
}

/// A value that the caps of several keys drop belongs to one of the keys, which is full, and was seen no later
/// than any value of the key that stays.
proof fn lemma_gone(
    rows: Seq<CountRowModel>,
    token: Seq<char>,
    keys: Seq<Seq<char>>,
    gone: CountRowModel,
)
    requires
        distinct_rows(rows.map_values(|r: CountRowModel| (r.key, r.value))),
        keys.no_duplicates(),
        rows.contains(gone),
        !all_capped(rows, token, keys).contains(gone),
    ensures
        gone.key.0 == token,
        keys.contains(gone.key.1),
        matching(all_capped(rows, token, keys), token, gone.key.1, None, None).len()
            == VALUES_CAP_PER_KEY,
        forall|stayed: CountRowModel| #[trigger]
            all_capped(rows, token, keys).contains(stayed) && stayed.key.0 == token && stayed.key.1
                == gone.key.1 ==> gone.value.last_seen <= stayed.value.last_seen,
    decreases keys.len(),
{
    let rest = keys.drop_last();
    let last = keys.last();
    let before = all_capped(rows, token, rest);
    let kept = row_names(recent_values(before, token, last, VALUES_CAP_PER_KEY as int));
    lemma_all_capped_distinct(rows, token, rest);
    if before.contains(gone) {
        lemma_full_key(before, token, last, gone);
        assert(keys[keys.len() - 1] == last);
        assert forall|stayed: CountRowModel| #[trigger]
            all_capped(rows, token, keys).contains(stayed) && stayed.key.0 == token && stayed.key.1
                == gone.key.1 implies gone.value.last_seen <= stayed.value.last_seen by {
            law_dropped_values_were_seen_least_recently(before, token, last, gone, stayed);
        }
    } else {
        assert(rest.no_duplicates());
        lemma_gone(rows, token, rest, gone);
        let i = choose|i: int| 0 <= i < rest.len() && rest[i] == gone.key.1;
        assert(keys[i] == gone.key.1);
        assert(keys[keys.len() - 1] == last);
        lemma_cap_elsewhere(before, token, last, kept, token, gone.key.1, None);
        assert forall|stayed: CountRowModel| #[trigger]
            all_capped(rows, token, keys).contains(stayed) && stayed.key.0 == token && stayed.key.1
                == gone.key.1 implies gone.value.last_seen <= stayed.value.last_seen by {
            lemma_staying_holds(before, token, last, kept, stayed);
        }
    }
}

proof fn lemma_capped_rows_were_there(
    rows: Seq<CountRowModel>,
    token: Seq<char>,
    keys: Seq<Seq<char>>,
    row: CountRowModel,
)
    requires
        all_capped(rows, token, keys).contains(row),
    ensures
        rows.contains(row),
    decreases keys.len(),
{
    if keys.len() > 0 {
        let before = all_capped(rows, token, keys.drop_last());
        let kept = row_names(recent_values(before, token, keys.last(), VALUES_CAP_PER_KEY as int));
        lemma_staying_holds(before, token, keys.last(), kept, row);
        lemma_capped_rows_were_there(rows, token, keys.drop_last(), row);
    }
}

/// A row is there exactly if the map of the rows has its value under its key.
proof fn lemma_row_of_map(rows: Seq<CountRowModel>, row: CountRowModel)
    requires
        distinct_rows(rows.map_values(|r: CountRowModel| (r.key, r.value))),
    ensures
        ({
            let map = rows_map(rows.map_values(|r: CountRowModel| (r.key, r.value)));
            rows.contains(row) <==> map.contains_key(row.key) && map[row.key] == row.value
        }),
{
    let pairs = rows.map_values(|r: CountRowModel| (r.key, r.value));
    lemma_row_key(pairs, row.key);
    if rows.contains(row) {
        let i = choose|i: int| 0 <= i < rows.len() && rows[i] == row;
        assert(pairs[i] == (row.key, row.value));
        lemma_row_at(pairs, i);
    }
    if rows_map(pairs).contains_key(row.key) && rows_map(pairs)[row.key] == row.value {
        let i = choose|i: int| 0 <= i < pairs.len() && (#[trigger] pairs[i]).0 == row.key;
        lemma_row_at(pairs, i);
        assert(rows[i] == row);
    }
}

proof fn lemma_caps_in_maps(rows: Seq<CountRowModel>, token: Seq<char>, keys: Seq<Seq<char>>)
    requires
        distinct_rows(rows.map_values(|r: CountRowModel| (r.key, r.value))),
        keys.no_duplicates(),
    ensures
        ({
            let pair = |r: CountRowModel| (r.key, r.value);
            let after = all_capped(rows, token, keys);
            &&& least_recent_dropped(
                rows_map(rows.map_values(pair)),
                rows_map(after.map_values(pair)),
                after,
                token,
            )
            &&& others_kept(
                rows_map(rows.map_values(pair)),
                rows_map(after.map_values(pair)),
                token,
            )
        }),
{
    let pair = |r: CountRowModel| (r.key, r.value);
    let after = all_capped(rows, token, keys);
    let counted = rows_map(rows.map_values(pair));
    let left = rows_map(after.map_values(pair));
    lemma_all_capped_distinct(rows, token, keys);
    assert forall|k: (Seq<char>, Seq<char>, Seq<char>)| #[trigger]
        left.contains_key(k) implies counted.contains_key(k) && left[k] == counted[k] by {
        let row = CountRowModel { key: k, value: left[k] };
        lemma_row_of_map(after, row);
        lemma_capped_rows_were_there(rows, token, keys, row);
        lemma_row_of_map(rows, row);
    }
    assert forall|gone: (Seq<char>, Seq<char>, Seq<char>)|
        #[trigger] counted.contains_key(gone) && !left.contains_key(gone) implies gone.0 == token
        && matching(after, token, gone.1, None, None).len() == VALUES_CAP_PER_KEY by {
        let row = CountRowModel { key: gone, value: counted[gone] };
        lemma_row_of_map(rows, row);
        lemma_row_of_map(after, row);
        lemma_gone(rows, token, keys, row);
    }
    assert forall|
        gone: (Seq<char>, Seq<char>, Seq<char>),
        stayed: (Seq<char>, Seq<char>, Seq<char>),
    |
        #![trigger counted.contains_key(gone), left.contains_key(stayed)]
        counted.contains_key(gone) && !left.contains_key(gone) && left.contains_key(stayed)
            && stayed.0 == gone.0 && stayed.1 == gone.1 implies counted[gone].last_seen
        <= left[stayed].last_seen by {
        let row = CountRowModel { key: gone, value: counted[gone] };
        let other = CountRowModel { key: stayed, value: left[stayed] };
        lemma_row_of_map(rows, row);
        lemma_row_of_map(after, row);
        lemma_row_of_map(after, other);
        lemma_gone(rows, token, keys, row);
        assert(after.contains(other));
    }
    assert forall|k: (Seq<char>, Seq<char>, Seq<char>)| k.0 != token implies #[trigger] known(
        left,
        k,
    ) == known(counted, k) by {
        if counted.contains_key(k) {
            assert(left.contains_key(k));
        }
        if left.contains_key(k) {
            assert(counted.contains_key(k));
        }
    }
}

/// Events of one token leave the catalogs of all others as they are.
pub proof fn law_other_tokens_keep_their_catalog(
    names: Map<(Seq<char>, Seq<char>, Seq<char>), CountModel>,
    keys: Map<(Seq<char>, Seq<char>, Seq<char>), CountModel>,
    values: Map<(Seq<char>, Seq<char>, Seq<char>), CountModel>,
    token: Seq<char>,
    events: Seq<EventModel>,
    now: int,
    taken: int,
    k: (Seq<char>, Seq<char>, Seq<char>),
)
    requires
        k.0 != token,
    ensures
        known(names_counted(names, token, events, now), k) == known(names, k),
        known(all_keys_counted(keys, token, events, now), k) == known(keys, k),
        known(all_values_counted(values, token, events, taken), k) == known(values, k),
    decreases events.len(),
{
    if events.len() > 0 {
        law_other_tokens_keep_their_catalog(
            names,
            keys,
            values,
            token,
            events.drop_last(),
            now,
            taken,
            k,
        );
    }
}

proof fn lemma_others_kept(
    names: Map<(Seq<char>, Seq<char>, Seq<char>), CountModel>,
    keys: Map<(Seq<char>, Seq<char>, Seq<char>), CountModel>,
    values: Map<(Seq<char>, Seq<char>, Seq<char>), CountModel>,
    token: Seq<char>,
    events: Seq<EventModel>,
    now: int,
    taken: int,
)
    ensures
        others_kept(names, names_counted(names, token, events, now), token),
        others_kept(keys, all_keys_counted(keys, token, events, now), token),
        others_kept(values, all_values_counted(values, token, events, taken), token),
{
    let after_names = names_counted(names, token, events, now);
    let after_keys = all_keys_counted(keys, token, events, now);
    let after_values = all_values_counted(values, token, events, taken);
    assert forall|k: (Seq<char>, Seq<char>, Seq<char>)| k.0 != token implies #[trigger] known(
        after_names,
        k,
    ) == known(names, k) by {
        law_other_tokens_keep_their_catalog(names, keys, values, token, events, now, taken, k);
    }
    assert forall|k: (Seq<char>, Seq<char>, Seq<char>)| k.0 != token implies #[trigger] known(
        after_keys,
        k,
    ) == known(keys, k) by {
        law_other_tokens_keep_their_catalog(names, keys, values, token, events, now, taken, k);
    }
    assert forall|k: (Seq<char>, Seq<char>, Seq<char>)| k.0 != token implies #[trigger] known(
        after_values,
        k,
    ) == known(values, k) by {
        law_other_tokens_keep_their_catalog(names, keys, values, token, events, now, taken, k);
    }
}

/// Capping the values of one token leaves those of all others as they are.
pub proof fn law_other_tokens_keep_their_values(
    rows: Seq<CountRowModel>,
    token: Seq<char>,
    keys: Seq<Seq<char>>,
    other: Seq<char>,
    key: Seq<char>,
    pattern: Option<Seq<char>>,
)
    requires
        other != token,
    ensures
        matching(all_capped(rows, token, keys), other, key, pattern, None) == matching(
            rows,
            other,
            key,
            pattern,
            None,
        ),
    decreases keys.len(),
{
    if keys.len() > 0 {
        let rest = keys.drop_last();
        let before = all_capped(rows, token, rest);
        law_other_tokens_keep_their_values(rows, token, rest, other, key, pattern);
        lemma_cap_elsewhere(
            before,
            token,
            keys.last(),
            row_names(recent_values(before, token, keys.last(), VALUES_CAP_PER_KEY as int)),
            other,
            key,
            pattern,
        );
    }
}

proof fn lemma_patterns_only_narrow(
    rows: Seq<CountRowModel>,
    token: Seq<char>,
    key: Seq<char>,
    pattern: Option<Seq<char>>,
)
    ensures
        matching(rows, token, key, pattern, None).len() <= matching(
            rows,
            token,
            key,
            None,
            None,
        ).len(),
    decreases rows.len(),
{
    if rows.len() > 0 {
        lemma_patterns_only_narrow(rows.drop_last(), token, key, pattern);
    }
}

/// However many values of a key are asked for, no more are listed than are kept.
pub proof fn law_listings_are_bounded(
    rows: Seq<CountRowModel>,
    token: Seq<char>,
    key: Seq<char>,
    pattern: Option<Seq<char>>,
    limit: int,
)
    requires
        0 <= limit,
    ensures
        top_values(rows, token, key, pattern, limit).len() <= matching(
            rows,
            token,
            key,
            None,
            None,
        ).len(),
{
    lemma_patterns_only_narrow(rows, token, key, pattern);
    law_ranking_keeps_every_item::<ByTally>(matching(rows, token, key, pattern, None));
}

/// Whether a catalog knows everything that an event has: its name, its keys and its values.
pub open spec fn knows_event(
    names: Map<(Seq<char>, Seq<char>, Seq<char>), CountModel>,
    keys: Map<(Seq<char>, Seq<char>, Seq<char>), CountModel>,
    values: Map<(Seq<char>, Seq<char>, Seq<char>), CountModel>,
    token: Seq<char>,
    event: EventModel,
) -> bool {
    &&& names.contains_key((token, ""@, event.event))
    &&& forall|key: Seq<char>| #[trigger]
        event.properties.contains_key(key) ==> keys.contains_key((token, "event"@, key))
    &&& forall|key: Seq<char>, value: Seq<char>| #[trigger]
        has_value(event.properties, key, value) ==> values.contains_key((token, key, value))
}

proof fn lemma_events_are_known(
    names: Map<(Seq<char>, Seq<char>, Seq<char>), CountModel>,
    keys: Map<(Seq<char>, Seq<char>, Seq<char>), CountModel>,
    values: Map<(Seq<char>, Seq<char>, Seq<char>), CountModel>,
    token: Seq<char>,
    events: Seq<EventModel>,
    now: int,
    taken: int,
)
    ensures
        forall|i: int|
            0 <= i < events.len() ==> knows_event(
                names_counted(names, token, events, now),
                all_keys_counted(keys, token, events, now),
                all_values_counted(values, token, events, taken),
                token,
                #[trigger] events[i],
            ),
    decreases events.len(),
{
    if events.len() > 0 {
        let rest = events.drop_last();
        lemma_events_are_known(names, keys, values, token, rest, now, taken);
        assert forall|i: int| 0 <= i < events.len() implies knows_event(
            names_counted(names, token, events, now),
            all_keys_counted(keys, token, events, now),
            all_values_counted(values, token, events, taken),
            token,
            #[trigger] events[i],
        ) by {
            if i < rest.len() {
                assert(rest[i] == events[i]);
            }
        }
    }
}

proof fn lemma_known_events_add_nothing(
    names: Map<(Seq<char>, Seq<char>, Seq<char>), CountModel>,
    keys: Map<(Seq<char>, Seq<char>, Seq<char>), CountModel>,
    values: Map<(Seq<char>, Seq<char>, Seq<char>), CountModel>,
    token: Seq<char>,
    events: Seq<EventModel>,
    now: int,
    taken: int,
)
    requires
        forall|i: int|
            0 <= i < events.len() ==> knows_event(names, keys, values, token, #[trigger] events[i]),
    ensures
        names_counted(names, token, events, now).dom() == names.dom(),
        all_keys_counted(keys, token, events, now).dom() == keys.dom(),
        all_values_counted(values, token, events, taken).dom() == values.dom(),
    decreases events.len(),
{
    if events.len() > 0 {
        let rest = events.drop_last();
        let last = events[events.len() - 1];
        assert forall|i: int| 0 <= i < rest.len() implies knows_event(
            names,
            keys,
            values,
            token,
            #[trigger] rest[i],
        ) by {
            assert(rest[i] == events[i]);
        }
        lemma_known_events_add_nothing(names, keys, values, token, rest, now, taken);
        assert(knows_event(names, keys, values, token, last));
        assert forall|k: (Seq<char>, Seq<char>, Seq<char>)|
            #![trigger all_keys_counted(keys, token, events, now).contains_key(k)]
            all_keys_counted(keys, token, events, now).contains_key(k) <==> keys.contains_key(
            k,
        ) by {
            assert(all_keys_counted(keys, token, rest, now).dom().contains(k)
                == keys.dom().contains(k));
        }
        assert forall|k: (Seq<char>, Seq<char>, Seq<char>)|
            #![trigger all_values_counted(values, token, events, taken).contains_key(k)]
            all_values_counted(values, token, events, taken).contains_key(k)
                <==> values.contains_key(k) by {
            assert(all_values_counted(values, token, rest, taken).dom().contains(k)
                == values.dom().contains(k));
        }
        assert(names_counted(names, token, events, now).dom() =~= names.dom());
        assert(all_keys_counted(keys, token, events, now).dom() =~= keys.dom());
        assert(all_values_counted(values, token, events, taken).dom() =~= values.dom());
    }
}

/// Taking in a batch again adds no name, no key and no value.
pub proof fn law_replays_add_nothing(
    names: Map<(Seq<char>, Seq<char>, Seq<char>), CountModel>,
    keys: Map<(Seq<char>, Seq<char>, Seq<char>), CountModel>,
    values: Map<(Seq<char>, Seq<char>, Seq<char>), CountModel>,
    token: Seq<char>,
    events: Seq<EventModel>,
    now: int,
    taken: int,
    later: int,
    taken_later: int,
)
    ensures
        ({
            let once = names_counted(names, token, events, now);
            names_counted(once, token, events, later).dom() == once.dom()
        }),
        ({
            let once = all_keys_counted(keys, token, events, now);
            all_keys_counted(once, token, events, later).dom() == once.dom()
        }),
        ({
            let once = all_values_counted(values, token, events, taken);
            all_values_counted(once, token, events, taken_later).dom() == once.dom()
        }),
{
    lemma_events_are_known(names, keys, values, token, events, now, taken);
    lemma_known_events_add_nothing(
        names_counted(names, token, events, now),
        all_keys_counted(keys, token, events, now),
        all_values_counted(values, token, events, taken),
        token,
        events,
        later,
        taken_later,
    );
}

} // verus!
