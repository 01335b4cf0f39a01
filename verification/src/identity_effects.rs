//! What one event does to the graph of persons and their ids, stated of the graph before and after it.
use vstd::prelude::*;
use vstd::string::*;

use crate::capture::event::{text_entry, EventModel};
use crate::identity::{
    blank_person, ensured, folded_into, has_room, identified, identity_ok, lemma_ensured_ok,
    lemma_merged_after_ensured, lemma_person_replaced_ok, lemma_properties_ok, merged, object_entry,
    processed, set_properties, IdentityModel, PersonModel,
};
use crate::json::{members_map, JsonValue};

verus! {

// ── What one event does ───────────────────────────────────────────────────────

/// Whether an event gives a key a value in the object that it carries under a name: of two members with one
/// key the later one counts.
pub open spec fn gives(
    properties: Map<Seq<char>, JsonValue>,
    name: Seq<char>,
    k: Seq<char>,
    value: JsonValue,
) -> bool {
    properties.contains_key(name) && (properties[name] matches JsonValue::Object(members) && exists|
        i: int,
    |
        0 <= i < members.len() && (#[trigger] members[i]) == (k, value) && forall|j: int|
            i < j < members.len() ==> (#[trigger] members[j]).0 != k)
}

/// Whether the object that an event carries under a name has a key.
pub open spec fn mentions(
    properties: Map<Seq<char>, JsonValue>,
    name: Seq<char>,
    k: Seq<char>,
) -> bool {
    properties.contains_key(name) && (properties[name] matches JsonValue::Object(members) && exists|
        i: int,
    | 0 <= i < members.len() && (#[trigger] members[i]).0 == k)
}

/// Whether an event names another id of the same person: an identifying event an anonymous one, an event that
/// makes an alias or merges by force an alias.
pub open spec fn names_other(event: EventModel, other: Seq<char>) -> bool {
    let name = if event.event == "$identify"@ {
        "$anon_distinct_id"@
    } else {
        "alias"@
    };
    &&& event.event == "$identify"@ || event.event == "$create_alias"@ || event.event
        == "$merge_dangerously"@
    &&& event.properties.contains_key(name)
    &&& event.properties[name] == JsonValue::Text(other)
}

/// Whether the person of an id is somebody else than the person of an event, and may be merged into it: it is
/// not identified yet, or the merge is forced.
pub open spec fn may_merge(m: IdentityModel, event: EventModel, other: Seq<char>) -> bool {
    let own = (event.token, event.distinct_id);
    let theirs = (event.token, other);
    &&& other != event.distinct_id
    &&& !(m.ids.contains_key(own) && m.ids.contains_key(theirs) && m.ids[own] == m.ids[theirs])
    &&& event.event == "$merge_dangerously"@ || !(m.ids.contains_key(theirs)
        && m.persons[m.ids[theirs]].is_identified)
}

/// Whether an event carries properties of its person.
pub open spec fn sets_properties(event: EventModel) -> bool {
    event.event != "$create_alias"@ && event.event != "$merge_dangerously"@
}

/// Whether the person of a distinct id is known to have a property.
pub open spec fn had(m: IdentityModel, token: Seq<char>, distinct_id: Seq<char>, k: Seq<char>) -> bool {
    m.ids.contains_key((token, distinct_id)) && m.persons[m.ids[(
        token,
        distinct_id,
    )]].properties.contains_key(k)
}

/// The person of a distinct id.
pub open spec fn person_at(m: IdentityModel, token: Seq<char>, distinct_id: Seq<char>) -> PersonModel {
    m.persons[m.ids[(token, distinct_id)]]
}

proof fn lemma_members(members: Seq<(Seq<char>, JsonValue)>, k: Seq<char>)
    ensures
        members_map(members).contains_key(k) <==> exists|i: int|
            0 <= i < members.len() && (#[trigger] members[i]).0 == k,
        members_map(members).contains_key(k) ==> exists|i: int|
            0 <= i < members.len() && (#[trigger] members[i]) == (k, members_map(members)[k])
                && forall|j: int| i < j < members.len() ==> (#[trigger] members[j]).0 != k,
    decreases members.len(),
{
    if members.len() > 0 {
        let rest = members.drop_last();
        let n = members.len() - 1;
        lemma_members(rest, k);
        if members.last().0 == k {
            assert(members[n] == (k, members_map(members)[k]));
        } else {
            if members_map(rest).contains_key(k) {
                let i = choose|i: int|
                    0 <= i < rest.len() && (#[trigger] rest[i]) == (k, members_map(rest)[k])
                        && forall|j: int| i < j < rest.len() ==> (#[trigger] rest[j]).0 != k;
                assert(members[i] == (k, members_map(members)[k]));
                assert forall|j: int| i < j < members.len() implies (#[trigger] members[j]).0 != k by {
                    if j < n {
                        assert(rest[j] == members[j]);
                    }
                }
            }
            if exists|i: int| 0 <= i < members.len() && (#[trigger] members[i]).0 == k {
                let i = choose|i: int| 0 <= i < members.len() && (#[trigger] members[i]).0 == k;
                assert(rest[i].0 == k);
            }
        }
    }
}

pub proof fn lemma_gives(
    properties: Map<Seq<char>, JsonValue>,
    name: Seq<char>,
    k: Seq<char>,
    value: JsonValue,
)
    ensures
        mentions(properties, name, k) <==> (object_entry(properties, name) matches Some(o)
            && o.contains_key(k)),
        gives(properties, name, k, value) <==> (object_entry(properties, name) matches Some(o)
            && o.contains_key(k) && o[k] == value),
{
    if properties.contains_key(name) {
        if let JsonValue::Object(members) = properties[name] {
            lemma_members(members, k);
            if members_map(members).contains_key(k) {
                let a = choose|i: int|
                    0 <= i < members.len() && (#[trigger] members[i]) == (
                        k,
                        members_map(members)[k],
                    ) && forall|j: int| i < j < members.len() ==> (#[trigger] members[j]).0 != k;
                if gives(properties, name, k, value) {
                    let b = choose|i: int|
                        0 <= i < members.len() && (#[trigger] members[i]) == (k, value) && forall|
                            j: int,
                        | i < j < members.len() ==> (#[trigger] members[j]).0 != k;
                    assert(members[a].0 == k && members[b].0 == k);
                    assert(a == b);
                }
            }
        }
    }
}

/// The whole effect of one event, over the store before and after it.
proof fn lemma_effect(m: IdentityModel, event: EventModel)
    requires
        identity_ok(m),
        has_room(m),
    ensures
        ({
            let own = (event.token, event.distinct_id);
            let after = processed(m, event);
            let winner = after.ids[own];
            let created = if m.ids.contains_key(own) {
                m.persons[m.ids[own]].created_at
            } else {
                event.timestamp
            };
            let before = if m.ids.contains_key(own) {
                m.persons[m.ids[own]].properties
            } else {
                Map::empty()
            };
            let flag = m.ids.contains_key(own) && m.persons[m.ids[own]].is_identified;
            let name = if event.event == "$identify"@ {
                "$anon_distinct_id"@
            } else {
                "alias"@
            };
            let other = text_entry(event.properties, name);
            let stitches = !sets_properties(event) || event.event == "$identify"@;
            let once = object_entry(event.properties, "$set_once"@);
            let set = object_entry(event.properties, "$set"@);
            let merges = stitches && other is Some && may_merge(m, event, other->Some_0);
            let theirs = (event.token, other->Some_0);
            let loser = if m.ids.contains_key(theirs) {
                m.persons[m.ids[theirs]]
            } else {
                blank_person(event.token, event.timestamp)
            };
            let joined = if merges {
                loser.properties.union_prefer_right(before)
            } else {
                before
            };
            &&& after.ids.contains_key(own)
            &&& after.persons.contains_key(winner)
            &&& m.ids.contains_key(own) ==> winner == m.ids[own]
            &&& !m.ids.contains_key(own) ==> !m.persons.contains_key(winner)
            &&& after.persons[winner].token == event.token
            &&& after.persons[winner].is_identified == (flag || event.event == "$identify"@)
            &&& after.persons[winner].created_at == if merges && loser.created_at < created {
                loser.created_at
            } else {
                created
            }
            &&& after.persons[winner].properties == if sets_properties(event) {
                set_properties(joined, once, set)
            } else {
                joined
            }
            &&& stitches && other is Some ==> after.ids.contains_key(theirs)
            &&& merges ==> after.ids[theirs] == winner
            &&& merges && m.ids.contains_key(theirs) ==> !after.persons.contains_key(m.ids[theirs])
            &&& forall|id: (Seq<char>, Seq<char>)| #[trigger]
                after.ids.contains_key(id) <==> (m.ids.contains_key(id) || id == own || (stitches
                    && other is Some && id == theirs))
            &&& forall|id: (Seq<char>, Seq<char>)| #[trigger]
                m.ids.contains_key(id) ==> after.ids[id] == if merges && m.ids.contains_key(theirs)
                    && m.ids[id] == m.ids[theirs] {
                    winner
                } else {
                    m.ids[id]
                }
            &&& forall|p: i64| #[trigger]
                m.persons.contains_key(p) && p != winner && !(merges && m.ids.contains_key(theirs)
                    && p == m.ids[theirs]) ==> after.persons.contains_key(p) && after.persons[p]
                    == m.persons[p]
            &&& forall|p: i64| #[trigger]
                after.persons.contains_key(p) ==> m.persons.contains_key(p) || p == winner
        }),
{
    reveal_strlit("$create_alias");
    reveal_strlit("$merge_dangerously");
    reveal_strlit("$identify");
    assert("$create_alias"@.len() != "$merge_dangerously"@.len());
    assert("$identify"@.len() != "$merge_dangerously"@.len());
    assert("$identify"@.len() != "$create_alias"@.len());
    let own = (event.token, event.distinct_id);
    let t = event.timestamp;
    let bound = (i64::MAX - 3) as i64;
    lemma_ensured_ok(m, own, t, bound);
    let with = ensured(m, own, t);
    let winner = with.ids[own];
    let base = if event.event == "$identify"@ {
        identified(with, winner)
    } else {
        with
    };
    lemma_person_replaced_ok(
        with,
        winner,
        PersonModel { is_identified: true, ..with.persons[winner] },
    );
    let name = if event.event == "$identify"@ {
        "$anon_distinct_id"@
    } else {
        "alias"@
    };
    let stitches = !sets_properties(event) || event.event == "$identify"@;
    let other = text_entry(event.properties, name);
    let stitched = if stitches && other is Some {
        let theirs = (event.token, other->Some_0);
        merged(base, own, theirs, event.event == "$merge_dangerously"@, t)
    } else {
        base
    };
    if stitches && other is Some {
        let theirs = (event.token, other->Some_0);
        lemma_ensured_ok(base, theirs, t, (bound + 1) as i64);
        let both = ensured(base, theirs, t);
        let loser = both.ids[theirs];
        assert(ensured(base, own, t) == base);
        assert(base.ids.contains_key(own));
        assert(both.ids[own] == winner);
        if m.ids.contains_key(theirs) {
            assert(base.ids.contains_key(theirs));
            assert(loser == m.ids[theirs]);
            assert(m.persons.contains_key(loser));
            if loser != winner {
                assert(base.persons[loser] == m.persons[loser]);
            }
        }
        if may_merge(m, event, other->Some_0) {
            assert(loser != winner);
            assert(stitched == folded_into(both, winner, loser));
        } else {
            assert(stitched == both);
        }
    }
    if sets_properties(event) {
        if stitches && other is Some {
            lemma_merged_after_ensured(
                base,
                own,
                (event.token, other->Some_0),
                event.event == "$merge_dangerously"@,
                t,
                (bound + 1) as i64,
            );
        }
        lemma_properties_ok(stitched, own, event.properties, t);
    }
}

/// What an event sets is set: after an identifying or an ordinary event the person of its distinct id has every
/// value of its `$set`, whatever the person had before and whoever is merged into it.
pub proof fn law_events_set_properties(
    m: IdentityModel,
    event: EventModel,
    k: Seq<char>,
    value: JsonValue,
)
    requires
        identity_ok(m),
        has_room(m),
        event.event != "$create_alias"@,
        event.event != "$merge_dangerously"@,
        gives(event.properties, "$set"@, k, value),
    ensures
        had(processed(m, event), event.token, event.distinct_id, k),
        person_at(processed(m, event), event.token, event.distinct_id).properties[k] == value,
{
    lemma_effect(m, event);
    lemma_gives(event.properties, "$set"@, k, value);
}

/// What an event sets once fills a gap: a value of `$set_once` is there after an identifying or an ordinary
/// event, unless `$set` has the key too, or the person had it before, or the person that is merged into it had.
pub proof fn law_events_set_once(
    m: IdentityModel,
    event: EventModel,
    k: Seq<char>,
    value: JsonValue,
)
    requires
        identity_ok(m),
        has_room(m),
        event.event != "$create_alias"@,
        event.event != "$merge_dangerously"@,
        gives(event.properties, "$set_once"@, k, value),
        !mentions(event.properties, "$set"@, k),
        !had(m, event.token, event.distinct_id, k),
        forall|other: Seq<char>| #[trigger]
            names_other(event, other) && may_merge(m, event, other) ==> !had(
                m,
                event.token,
                other,
                k,
            ),
    ensures
        had(processed(m, event), event.token, event.distinct_id, k),
        person_at(processed(m, event), event.token, event.distinct_id).properties[k] == value,
{
    lemma_effect(m, event);
    lemma_gives(event.properties, "$set"@, k, value);
    lemma_gives(event.properties, "$set_once"@, k, value);
    lemma_names(event);
}

/// What the person of an event had stays, unless the event sets it anew: neither `$set_once` nor a merge
/// overwrites a value.
pub proof fn law_own_properties_stay(m: IdentityModel, event: EventModel, k: Seq<char>)
    requires
        identity_ok(m),
        has_room(m),
        had(m, event.token, event.distinct_id, k),
        sets_properties(event) ==> !mentions(event.properties, "$set"@, k),
    ensures
        had(processed(m, event), event.token, event.distinct_id, k),
        person_at(processed(m, event), event.token, event.distinct_id).properties[k] == person_at(
            m,
            event.token,
            event.distinct_id,
        ).properties[k],
{
    lemma_effect(m, event);
    lemma_gives(event.properties, "$set"@, k, JsonValue::Null);
}

/// What only the merged person had comes along.
pub proof fn law_merged_properties_come_along(
    m: IdentityModel,
    event: EventModel,
    other: Seq<char>,
    k: Seq<char>,
)
    requires
        identity_ok(m),
        has_room(m),
        names_other(event, other),
        may_merge(m, event, other),
        had(m, event.token, other, k),
        !had(m, event.token, event.distinct_id, k),
        sets_properties(event) ==> !mentions(event.properties, "$set"@, k),
    ensures
        had(processed(m, event), event.token, event.distinct_id, k),
        person_at(processed(m, event), event.token, event.distinct_id).properties[k] == person_at(
            m,
            event.token,
            other,
        ).properties[k],
{
    lemma_effect(m, event);
    lemma_gives(event.properties, "$set"@, k, JsonValue::Null);
    lemma_names(event);
    assert(m.ids.contains_key((event.token, other)));
}

/// Nothing is made up: a property that the person of an event has afterwards was its own before, or came with
/// the event, or with the person that was merged into it. An event that makes an alias or merges by force
/// brings no properties of its own.
pub proof fn law_no_property_is_made_up(m: IdentityModel, event: EventModel, k: Seq<char>)
    requires
        identity_ok(m),
        has_room(m),
        !had(m, event.token, event.distinct_id, k),
        sets_properties(event) ==> !mentions(event.properties, "$set"@, k) && !mentions(
            event.properties,
            "$set_once"@,
            k,
        ),
        forall|other: Seq<char>| #[trigger]
            names_other(event, other) && may_merge(m, event, other) ==> !had(
                m,
                event.token,
                other,
                k,
            ),
    ensures
        !had(processed(m, event), event.token, event.distinct_id, k),
{
    lemma_effect(m, event);
    lemma_gives(event.properties, "$set"@, k, JsonValue::Null);
    lemma_gives(event.properties, "$set_once"@, k, JsonValue::Null);
    lemma_names(event);
}

proof fn lemma_names(event: EventModel)
    ensures
        ({
            let name = if event.event == "$identify"@ {
                "$anon_distinct_id"@
            } else {
                "alias"@
            };
            let stitches = !sets_properties(event) || event.event == "$identify"@;
            &&& forall|other: Seq<char>| #[trigger]
                names_other(event, other) <==> stitches && text_entry(event.properties, name)
                    == Some(other)
            &&& stitches && text_entry(event.properties, name) is Some ==> names_other(
                event,
                text_entry(event.properties, name)->Some_0,
            )
        }),
{
}

/// An event brings two ids together exactly if it names the other one and that one's person may be merged, or
/// if they belonged together before.
pub proof fn law_events_join_ids(m: IdentityModel, event: EventModel, other: Seq<char>)
    requires
        identity_ok(m),
        has_room(m),
        names_other(event, other),
    ensures
        ({
            let after = processed(m, event);
            let own = (event.token, event.distinct_id);
            let theirs = (event.token, other);
            &&& after.ids.contains_key(own)
            &&& after.ids.contains_key(theirs)
            &&& may_merge(m, event, other) ==> after.ids[theirs] == after.ids[own]
            &&& !may_merge(m, event, other) && m.ids.contains_key(own) && m.ids.contains_key(theirs)
                ==> after.ids[own] == m.ids[own] && after.ids[theirs] == m.ids[theirs]
            &&& may_merge(m, event, other) && m.ids.contains_key(theirs) ==> {
                &&& !after.persons.contains_key(m.ids[theirs])
                &&& forall|id: (Seq<char>, Seq<char>)| #[trigger]
                    m.ids.contains_key(id) && m.ids[id] == m.ids[theirs] ==> after.ids[id]
                        == after.ids[own]
            }
            &&& !may_merge(m, event, other) && m.ids.contains_key(theirs) && other
                != event.distinct_id && !(m.ids.contains_key(own) && m.ids[own] == m.ids[theirs])
                ==> after.persons.contains_key(m.ids[theirs]) && after.persons[m.ids[theirs]]
                == m.persons[m.ids[theirs]] && after.ids[own] != after.ids[theirs]
        }),
{
    lemma_effect(m, event);
    lemma_names(event);
    if m.ids.contains_key((event.token, other)) {
        assert(m.persons.contains_key(m.ids[(event.token, other)]));
    }
}

/// An event touches nobody else: all other ids keep their person, all other persons stay as they are, and no
/// other id or person appears.
pub proof fn law_everybody_else_is_untouched(m: IdentityModel, event: EventModel)
    requires
        identity_ok(m),
        has_room(m),
    ensures
        ({
            let after = processed(m, event);
            let own = (event.token, event.distinct_id);
            &&& m.ids.contains_key(own) ==> after.ids[own] == m.ids[own]
            &&& forall|id: (Seq<char>, Seq<char>)|
                #![trigger after.ids.contains_key(id)]
                after.ids.contains_key(id) && !m.ids.contains_key(id) ==> id == own || (id.0
                    == event.token && names_other(event, id.1))
            &&& forall|id: (Seq<char>, Seq<char>)|
                #![trigger m.ids.contains_key(id)]
                m.ids.contains_key(id) && (forall|other: Seq<char>| #[trigger]
                    names_other(event, other) && may_merge(m, event, other) && m.ids.contains_key(
                        (event.token, other),
                    ) ==> m.ids[(event.token, other)] != m.ids[id]) ==> after.ids.contains_key(id)
                    && after.ids[id] == m.ids[id]
            &&& forall|p: i64|
                #![trigger m.persons.contains_key(p)]
                m.persons.contains_key(p) && p != after.ids[own] && (forall|
                    other: Seq<char>,
                | #[trigger]
                    names_other(event, other) && may_merge(m, event, other) && m.ids.contains_key(
                        (event.token, other),
                    ) ==> m.ids[(event.token, other)] != p) ==> after.persons.contains_key(p)
                    && after.persons[p] == m.persons[p]
            &&& forall|p: i64| #[trigger]
                after.persons.contains_key(p) && !m.persons.contains_key(p) ==> p == after.ids[own]
        }),
{
    lemma_effect(m, event);
    lemma_names(event);
}

/// Identifying marks the person of an event as identified, and nothing else does or undoes it. A new person is
/// of the event's token and as old as the event; a known one only gets older, by a merge, and is then as old as
/// the older of the two.
pub proof fn law_marks_and_ages(m: IdentityModel, event: EventModel)
    requires
        identity_ok(m),
        has_room(m),
    ensures
        ({
            let own = (event.token, event.distinct_id);
            let after = person_at(processed(m, event), event.token, event.distinct_id);
            let created = if m.ids.contains_key(own) {
                m.persons[m.ids[own]].created_at
            } else {
                event.timestamp
            };
            &&& processed(m, event).ids.contains_key(own)
            &&& after.token == event.token
            &&& after.is_identified <==> event.event == "$identify"@ || (m.ids.contains_key(own)
                && m.persons[m.ids[own]].is_identified)
            &&& after.created_at <= created
            &&& (forall|other: Seq<char>| #[trigger]
                names_other(event, other) ==> !may_merge(m, event, other)) ==> after.created_at
                == created
            &&& forall|other: Seq<char>| #[trigger]
                names_other(event, other) && may_merge(m, event, other) ==> {
                    let theirs = if m.ids.contains_key((event.token, other)) {
                        m.persons[m.ids[(event.token, other)]].created_at
                    } else {
                        event.timestamp
                    };
                    &&& after.created_at <= theirs
                    &&& after.created_at == theirs || after.created_at == created
                }
        }),
{
    lemma_effect(m, event);
    lemma_names(event);
}

} // verus!
