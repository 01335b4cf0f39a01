//! What one event does to the projections of its project, stated of the projections before and after it.
use vstd::prelude::*;
use vstd::string::*;

use crate::capture::event::EventModel;
use crate::counters::{known, CountModel};
use crate::identity::{object_entry, set_properties};
use crate::identity_effects::{gives, lemma_gives, mentions};
use crate::json::{kind_name, shown, JsonValue};
use crate::pipeline::wal::WalCursor;
use crate::projections::{
    anonymous_id, event_applied, graph_ok, id_ensured, identity_applied, person_identified,
    projection_merged, GraphModel, ProjectedModel, ProjectionModel,
};

verus! {

// ── Persons ───────────────────────────────────────────────────────────────────

/// Whether an event identifies a user with an anonymous id: a text that is not empty.
pub open spec fn brings(event: EventModel, anon: Seq<char>) -> bool {
    &&& event.event == "$identify"@
    &&& event.properties.contains_key("$anon_distinct_id"@)
    &&& event.properties["$anon_distinct_id"@] == JsonValue::Text(anon)
    &&& anon.len() > 0
}

/// Whether the person of an anonymous id is somebody else than the person of an event, and not identified yet.
pub open spec fn may_join(
    g: GraphModel,
    project: Seq<char>,
    event: EventModel,
    anon: Seq<char>,
) -> bool {
    let own = (project, event.distinct_id);
    let theirs = (project, anon);
    &&& anon != event.distinct_id
    &&& !(g.ids.contains_key(own) && g.ids.contains_key(theirs) && g.ids[own] == g.ids[theirs])
    &&& !(g.ids.contains_key(theirs) && g.persons[(project, g.ids[theirs])].is_identified)
}

/// Whether the person of a distinct id has a property.
pub open spec fn holds_property(g: GraphModel, project: Seq<char>, distinct_id: Seq<char>, k: Seq<char>) -> bool {
    g.ids.contains_key((project, distinct_id)) && g.persons[(
        project,
        g.ids[(project, distinct_id)],
    )].properties.contains_key(k)
}

/// The person of a distinct id.
pub open spec fn person_of_id(g: GraphModel, project: Seq<char>, distinct_id: Seq<char>) -> ProjectedModel {
    g.persons[(project, g.ids[(project, distinct_id)])]
}

/// Whether an event has not been applied yet.
pub open spec fn is_new(m: ProjectionModel, project: Seq<char>, event: EventModel) -> bool {
    !m.applied.contains_key((project, event.uuid))
}

proof fn lemma_brings(event: EventModel)
    ensures
        forall|anon: Seq<char>| #[trigger]
            brings(event, anon) <==> anonymous_id(event) == Some(anon),
        anonymous_id(event) is Some ==> brings(event, anonymous_id(event)->Some_0),
{
}

proof fn lemma_projected_effect(g: GraphModel, project: Seq<char>, event: EventModel)
    requires
        graph_ok(g),
    ensures
        ({
            let own = (project, event.distinct_id);
            let after = identity_applied(g, project, event);
            let winner = after.ids[own];
            let person = after.persons[(project, winner)];
            let known = g.ids.contains_key(own);
            let old_one = g.persons[(project, g.ids[own])];
            let created = if known {
                old_one.created_at
            } else {
                event.timestamp
            };
            let before = if known {
                old_one.properties
            } else {
                Map::empty()
            };
            let anon = anonymous_id(event);
            let theirs = (project, anon->Some_0);
            let joins = anon is Some && may_join(g, project, event, anon->Some_0);
            let loser = g.persons[(project, g.ids[theirs])];
            let loser_created = if g.ids.contains_key(theirs) {
                loser.created_at
            } else {
                event.timestamp
            };
            let joined = if joins && g.ids.contains_key(theirs) {
                loser.properties.union_prefer_right(before)
            } else {
                before
            };
            &&& after.ids.contains_key(own)
            &&& after.persons.contains_key((project, winner))
            &&& winner == if known {
                g.ids[own]
            } else {
                event.distinct_id
            }
            &&& person.is_identified == (known && old_one.is_identified || event.event
                == "$identify"@)
            &&& person.first_seen_key == if known {
                old_one.first_seen_key
            } else {
                event.distinct_id
            }
            &&& person.created_at == if joins && loser_created < created {
                loser_created
            } else {
                created
            }
            &&& person.properties == set_properties(
                joined,
                object_entry(event.properties, "$set_once"@),
                object_entry(event.properties, "$set"@),
            )
            &&& anon is Some ==> after.ids.contains_key(theirs)
            &&& joins ==> after.ids[theirs] == winner
            &&& joins && g.ids.contains_key(theirs) ==> !after.persons.contains_key(
                (project, g.ids[theirs]),
            )
            &&& forall|id: (Seq<char>, Seq<char>)| #[trigger]
                after.ids.contains_key(id) <==> (g.ids.contains_key(id) || id == own || (anon is Some
                    && id == theirs))
            &&& forall|id: (Seq<char>, Seq<char>)| #[trigger]
                g.ids.contains_key(id) ==> after.ids[id] == if joins && g.ids.contains_key(theirs)
                    && id.0 == project && g.ids[id] == g.ids[theirs] {
                    winner
                } else {
                    g.ids[id]
                }
            &&& forall|p: (Seq<char>, Seq<char>)| #[trigger]
                g.persons.contains_key(p) && p != (project, winner) && !(joins
                    && g.ids.contains_key(theirs) && p == (project, g.ids[theirs]))
                    ==> after.persons.contains_key(p) && after.persons[p] == g.persons[p]
            &&& forall|p: (Seq<char>, Seq<char>)| #[trigger]
                after.persons.contains_key(p) ==> g.persons.contains_key(p) || p == (project, winner)
                    || (anon is Some && !joins && p == theirs)
        }),
{
    let own = (project, event.distinct_id);
    let t = event.timestamp;
    let with = id_ensured(g, own, t);
    let winner = with.ids[own];
    assert(g.ids.contains_key(own) ==> g.persons.contains_key((project, g.ids[own])));
    let base = if event.event == "$identify"@ {
        person_identified(with, (project, winner))
    } else {
        with
    };
    if let Some(anon) = anonymous_id(event) {
        let theirs = (project, anon);
        let both = id_ensured(base, theirs, t);
        let loser = both.ids[theirs];
        assert(id_ensured(base, own, t) == base);
        assert(both.ids[own] == winner);
        if g.ids.contains_key(theirs) {
            assert(loser == g.ids[theirs]);
            assert(g.persons.contains_key((project, loser)));
            if !g.ids.contains_key(own) {
                assert(!g.persons.contains_key(own));
            }
        } else {
            assert(!g.persons.contains_key(theirs));
            if anon != event.distinct_id {
                assert(loser == anon);
                if winner == anon {
                    assert(g.persons.contains_key((project, winner)));
                }
            }
        }
        let stitched = projection_merged(base, project, anon, event.distinct_id, t);
        assert(stitched.ids.contains_key(own) && stitched.ids[own] == winner);
    }
}

/// What an event sets is set: afterwards the person of its distinct id has every value of its `$set`.
pub proof fn law_projected_events_set_properties(
    m: ProjectionModel,
    project: Seq<char>,
    event: EventModel,
    cursor: WalCursor,
    k: Seq<char>,
    value: JsonValue,
)
    requires
        graph_ok(m.graph),
        is_new(m, project, event),
        gives(event.properties, "$set"@, k, value),
    ensures
        ({
            let after = event_applied(m, project, event, cursor).graph;
            &&& holds_property(after, project, event.distinct_id, k)
            &&& person_of_id(after, project, event.distinct_id).properties[k] == value
        }),
{
    lemma_projected_effect(m.graph, project, event);
    lemma_gives(event.properties, "$set"@, k, value);
}

/// What an event sets once fills a gap, unless `$set` has the key too, or the person had it before, or the
/// person that joins it had.
pub proof fn law_projected_events_set_once(
    m: ProjectionModel,
    project: Seq<char>,
    event: EventModel,
    cursor: WalCursor,
    k: Seq<char>,
    value: JsonValue,
)
    requires
        graph_ok(m.graph),
        is_new(m, project, event),
        gives(event.properties, "$set_once"@, k, value),
        !mentions(event.properties, "$set"@, k),
        !holds_property(m.graph, project, event.distinct_id, k),
        forall|anon: Seq<char>| #[trigger]
            brings(event, anon) && may_join(m.graph, project, event, anon) ==> !holds_property(
                m.graph,
                project,
                anon,
                k,
            ),
    ensures
        ({
            let after = event_applied(m, project, event, cursor).graph;
            &&& holds_property(after, project, event.distinct_id, k)
            &&& person_of_id(after, project, event.distinct_id).properties[k] == value
        }),
{
    lemma_projected_effect(m.graph, project, event);
    lemma_gives(event.properties, "$set"@, k, value);
    lemma_gives(event.properties, "$set_once"@, k, value);
    lemma_brings(event);
}

/// In a merge the person of the event's own distinct id wins: every property that it had keeps its value,
/// unless the event sets it anew.
pub proof fn law_projected_winner_wins(
    m: ProjectionModel,
    project: Seq<char>,
    event: EventModel,
    cursor: WalCursor,
    k: Seq<char>,
)
    requires
        graph_ok(m.graph),
        is_new(m, project, event),
        holds_property(m.graph, project, event.distinct_id, k),
        !mentions(event.properties, "$set"@, k),
    ensures
        ({
            let after = event_applied(m, project, event, cursor).graph;
            &&& holds_property(after, project, event.distinct_id, k)
            &&& person_of_id(after, project, event.distinct_id).properties[k] == person_of_id(
                m.graph,
                project,
                event.distinct_id,
            ).properties[k]
        }),
{
    lemma_projected_effect(m.graph, project, event);
    lemma_gives(event.properties, "$set"@, k, JsonValue::Null);
}

/// What only the person that joins had comes along.
pub proof fn law_projected_loser_comes_along(
    m: ProjectionModel,
    project: Seq<char>,
    event: EventModel,
    cursor: WalCursor,
    anon: Seq<char>,
    k: Seq<char>,
)
    requires
        graph_ok(m.graph),
        is_new(m, project, event),
        brings(event, anon),
        may_join(m.graph, project, event, anon),
        holds_property(m.graph, project, anon, k),
        !holds_property(m.graph, project, event.distinct_id, k),
        !mentions(event.properties, "$set"@, k),
    ensures
        ({
            let after = event_applied(m, project, event, cursor).graph;
            &&& holds_property(after, project, event.distinct_id, k)
            &&& person_of_id(after, project, event.distinct_id).properties[k] == person_of_id(
                m.graph,
                project,
                anon,
            ).properties[k]
        }),
{
    lemma_projected_effect(m.graph, project, event);
    lemma_gives(event.properties, "$set"@, k, JsonValue::Null);
    lemma_brings(event);
}

/// No property is made up: what the person has afterwards was its own, came with the event, or with the person
/// that joined it.
pub proof fn law_projected_properties_have_a_source(
    m: ProjectionModel,
    project: Seq<char>,
    event: EventModel,
    cursor: WalCursor,
    k: Seq<char>,
)
    requires
        graph_ok(m.graph),
        is_new(m, project, event),
        !holds_property(m.graph, project, event.distinct_id, k),
        !mentions(event.properties, "$set"@, k),
        !mentions(event.properties, "$set_once"@, k),
        forall|anon: Seq<char>| #[trigger]
            brings(event, anon) && may_join(m.graph, project, event, anon) ==> !holds_property(
                m.graph,
                project,
                anon,
                k,
            ),
    ensures
        !holds_property(event_applied(m, project, event, cursor).graph, project, event.distinct_id, k),
{
    lemma_projected_effect(m.graph, project, event);
    lemma_gives(event.properties, "$set"@, k, JsonValue::Null);
    lemma_gives(event.properties, "$set_once"@, k, JsonValue::Null);
    lemma_brings(event);
}

/// Identifying brings the anonymous id to the person of the event, unless somebody else owns it who is
/// identified already; all ids of the person that joins come with it, and that person is gone.
pub proof fn law_projected_ids_join(
    m: ProjectionModel,
    project: Seq<char>,
    event: EventModel,
    cursor: WalCursor,
    anon: Seq<char>,
)
    requires
        graph_ok(m.graph),
        is_new(m, project, event),
        brings(event, anon),
    ensures
        ({
            let g = m.graph;
            let after = event_applied(m, project, event, cursor).graph;
            let own = (project, event.distinct_id);
            let theirs = (project, anon);
            let joins = may_join(g, project, event, anon);
            &&& after.ids.contains_key(own) && after.ids.contains_key(theirs)
            &&& joins ==> after.ids[theirs] == after.ids[own]
            &&& joins && g.ids.contains_key(theirs) ==> {
                &&& !after.persons.contains_key((project, g.ids[theirs]))
                &&& forall|id: (Seq<char>, Seq<char>)| #[trigger]
                    g.ids.contains_key(id) && id.0 == project && g.ids[id] == g.ids[theirs]
                        ==> after.ids[id] == after.ids[own]
            }
            &&& !joins && g.ids.contains_key(theirs) ==> after.ids[theirs] == g.ids[theirs]
            &&& !joins && g.ids.contains_key(theirs) && anon != event.distinct_id && !(
            g.ids.contains_key(own) && g.ids[own] == g.ids[theirs]) ==> after.persons.contains_key(
                (project, g.ids[theirs]),
            ) && after.persons[(project, g.ids[theirs])] == g.persons[(project, g.ids[theirs])]
                && after.ids[own] != after.ids[theirs]
        }),
{
    lemma_projected_effect(m.graph, project, event);
    lemma_brings(event);
    if m.graph.ids.contains_key((project, anon)) {
        assert(m.graph.persons.contains_key((project, m.graph.ids[(project, anon)])));
        if !m.graph.ids.contains_key((project, event.distinct_id)) {
            assert(!m.graph.persons.contains_key((project, event.distinct_id)));
        }
    }
}

/// An event touches nobody else, of its project or of another.
pub proof fn law_projected_others_are_untouched(
    m: ProjectionModel,
    project: Seq<char>,
    event: EventModel,
    cursor: WalCursor,
)
    requires
        graph_ok(m.graph),
    ensures
        ({
            let g = m.graph;
            let after = event_applied(m, project, event, cursor).graph;
            let own = (project, event.distinct_id);
            &&& g.ids.contains_key(own) ==> after.ids.contains_key(own) && after.ids[own]
                == g.ids[own]
            &&& forall|id: (Seq<char>, Seq<char>)|
                #![trigger after.ids.contains_key(id)]
                after.ids.contains_key(id) && !g.ids.contains_key(id) ==> id == own || (id.0
                    == project && brings(event, id.1))
            &&& forall|id: (Seq<char>, Seq<char>)|
                #![trigger g.ids.contains_key(id)]
                g.ids.contains_key(id) && (id.0 != project || forall|anon: Seq<char>| #[trigger]
                    brings(event, anon) && may_join(g, project, event, anon) && g.ids.contains_key(
                        (project, anon),
                    ) ==> g.ids[(project, anon)] != g.ids[id]) ==> after.ids.contains_key(id)
                    && after.ids[id] == g.ids[id]
            &&& forall|p: (Seq<char>, Seq<char>)|
                #![trigger g.persons.contains_key(p)]
                g.persons.contains_key(p) && p != (project, after.ids[own]) && (p.0 != project
                    || forall|anon: Seq<char>| #[trigger]
                    brings(event, anon) && may_join(g, project, event, anon) && g.ids.contains_key(
                        (project, anon),
                    ) ==> g.ids[(project, anon)] != p.1) ==> after.persons.contains_key(p)
                    && after.persons[p] == g.persons[p]
        }),
{
    lemma_projected_effect(m.graph, project, event);
    lemma_brings(event);
}

/// Identifying marks the person of an event, and nothing else does or undoes it. A new person is as old as the
/// event, and is first seen under its distinct id; a known one only gets older, by a merge, and is then as old
/// as the older of the two.
pub proof fn law_projected_marks_and_ages(
    m: ProjectionModel,
    project: Seq<char>,
    event: EventModel,
    cursor: WalCursor,
)
    requires
        graph_ok(m.graph),
        is_new(m, project, event),
    ensures
        ({
            let g = m.graph;
            let after = event_applied(m, project, event, cursor).graph;
            let person = person_of_id(after, project, event.distinct_id);
            let own = (project, event.distinct_id);
            let old_one = person_of_id(g, project, event.distinct_id);
            let created = if g.ids.contains_key(own) {
                old_one.created_at
            } else {
                event.timestamp
            };
            &&& after.ids.contains_key(own)
            &&& after.persons.contains_key((project, after.ids[own]))
            &&& g.ids.contains_key(own) ==> person.first_seen_key == old_one.first_seen_key
            &&& !g.ids.contains_key(own) ==> person.first_seen_key == event.distinct_id
                && after.ids[own] == event.distinct_id
            &&& person.is_identified <==> event.event == "$identify"@ || (g.ids.contains_key(own)
                && old_one.is_identified)
            &&& person.created_at <= created
            &&& (forall|anon: Seq<char>| #[trigger]
                brings(event, anon) ==> !may_join(g, project, event, anon)) ==> person.created_at
                == created
            &&& forall|anon: Seq<char>| #[trigger]
                brings(event, anon) && may_join(g, project, event, anon) ==> {
                    let theirs = if g.ids.contains_key((project, anon)) {
                        person_of_id(g, project, anon).created_at
                    } else {
                        event.timestamp
                    };
                    &&& person.created_at <= theirs
                    &&& person.created_at == theirs || person.created_at == created
                }
        }),
{
    lemma_projected_effect(m.graph, project, event);
    lemma_brings(event);
}

// ── Catalog ───────────────────────────────────────────────────────────────────

/// Whether a name was seen once more at an instant: its count is one higher, up to the largest number, and the
/// instant that it was last seen never goes back.
pub open spec fn tallied(before: Option<CountModel>, after: CountModel, now: int) -> bool {
    match before {
        None => after.count == 1 && after.last_seen == now,
        Some(b) => {
            &&& after.count == b.count + 1 || (b.count >= i64::MAX && after.count == b.count)
            &&& after.last_seen >= b.last_seen && after.last_seen >= now
            &&& after.last_seen == b.last_seen || after.last_seen == now
        },
    }
}

/// A new event is entered as applied, and counts once: its name, each of its properties, with the kind of its
/// value, and each value that is not null. What it does not name is left as it is.
pub proof fn law_projected_catalog_counts_once(
    m: ProjectionModel,
    project: Seq<char>,
    event: EventModel,
    cursor: WalCursor,
    k: Seq<char>,
    text: Seq<char>,
)
    requires
        is_new(m, project, event),
    ensures
        ({
            let after = event_applied(m, project, event, cursor);
            let now = event.timestamp / 1_000_000;
            let name = (project, Seq::<char>::empty(), event.event);
            let key = (project, "event"@, k);
            let value = (project, k, text);
            let before = m.catalog;
            let seen = after.catalog;
            &&& after.applied.contains_key((project, event.uuid))
            &&& after.applied[(project, event.uuid)] == cursor
            &&& seen.event_names.contains_key(name)
            &&& tallied(known(before.event_names, name), seen.event_names[name], now)
            &&& event.properties.contains_key(k) ==> seen.property_keys.contains_key(key) && tallied(
                known(before.property_keys, key),
                seen.property_keys[key],
                now,
            ) && seen.property_keys[key].label == kind_name(event.properties[k])
            &&& !event.properties.contains_key(k) ==> known(seen.property_keys, key) == known(
                before.property_keys,
                key,
            )
            &&& event.properties.contains_key(k) && event.properties[k] != JsonValue::Null && shown(
                event.properties[k],
            ) == text ==> seen.property_values.contains_key(value) && tallied(
                known(before.property_values, value),
                seen.property_values[value],
                now,
            )
            &&& !(event.properties.contains_key(k) && event.properties[k] != JsonValue::Null
                && shown(event.properties[k]) == text) ==> known(seen.property_values, value)
                == known(before.property_values, value)
        }),
{
}

/// The catalog of other projects, and of other names, is left as it is.
pub proof fn law_projected_catalog_is_scoped(
    m: ProjectionModel,
    project: Seq<char>,
    event: EventModel,
    cursor: WalCursor,
    k: (Seq<char>, Seq<char>, Seq<char>),
)
    ensures
        ({
            let after = event_applied(m, project, event, cursor).catalog;
            let before = m.catalog;
            &&& k.0 != project || k.1 != Seq::<char>::empty() || k.2 != event.event ==> known(
                after.event_names,
                k,
            ) == known(before.event_names, k)
            &&& k.0 != project || k.1 != "event"@ ==> known(after.property_keys, k) == known(
                before.property_keys,
                k,
            )
            &&& k.0 != project ==> known(after.property_values, k) == known(
                before.property_values,
                k,
            )
        }),
{
}

} // verus!
