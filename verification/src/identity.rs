//! Identity: persons, their distinct ids, and how they merge.
//!
//! - A distinct id of a token belongs to exactly one person at any time.
//! - The person of the event's own distinct id wins property conflicts, the older creation instant
//!   survives, and merging a person with itself changes nothing.
//! - Identifying and aliasing do not merge another person that is already identified; merging
//!   dangerously does.
use vstd::prelude::*;

use crate::capture::event::{entry_text, text_entry, CapturedEvent, EventModel};
use crate::json::{members_map, members_model, Json, JsonMap, JsonValue};
use crate::table::{distinct_rows, lemma_row_absent, lemma_row_at, lemma_row_key, lemma_row_push, lemma_row_remove, lemma_row_update, lemma_rows_changed, rows_map};
use crate::text::same;

verus! {

/// A person.
pub struct Person {
    pub id: i64,
    pub token: String,
    pub created_at: i128,
    pub is_identified: bool,
    pub properties: JsonMap,
}

/// A distinct id of a token, and the person that it belongs to.
pub struct DistinctId {
    pub token: String,
    pub distinct_id: String,
    pub person_id: i64,
}

/// The mathematical value of a person.
pub struct PersonModel {
    pub token: Seq<char>,
    pub created_at: int,
    pub is_identified: bool,
    pub properties: Map<Seq<char>, JsonValue>,
}

/// A distinct id of a token.
pub type IdKey = (Seq<char>, Seq<char>);

/// The mathematical value of a store: who each distinct id belongs to, and the persons.
pub struct IdentityModel {
    pub ids: Map<(Seq<char>, Seq<char>), i64>,
    pub persons: Map<i64, PersonModel>,
}

/// The persons and distinct ids of all tokens.
pub struct IdentityStore {
    pub persons: Vec<Person>,
    pub ids: Vec<DistinctId>,
}

/// The rows of persons.
pub open spec fn person_rows(persons: Seq<Person>) -> Seq<(i64, PersonModel)> {
    persons.map_values(
        |p: Person|
            (
                p.id,
                PersonModel {
                    token: p.token@,
                    created_at: p.created_at as int,
                    is_identified: p.is_identified,
                    properties: p.properties@,
                },
            ),
    )
}

/// The rows of distinct ids.
pub open spec fn id_rows(ids: Seq<DistinctId>) -> Seq<((Seq<char>, Seq<char>), i64)> {
    ids.map_values(|d: DistinctId| ((d.token@, d.distinct_id@), d.person_id))
}

impl View for IdentityStore {
    type V = IdentityModel;

    open spec fn view(&self) -> IdentityModel {
        IdentityModel {
            ids: rows_map(id_rows(self.ids@)),
            persons: rows_map(person_rows(self.persons@)),
        }
    }
}

// ── What a store satisfies ────────────────────────────────────────────────────

/// Every distinct id belongs to a person of its own token.
pub open spec fn ids_have_persons(m: IdentityModel) -> bool {
    forall|k: (Seq<char>, Seq<char>)| #[trigger]
        m.ids.contains_key(k) ==> m.persons.contains_key(m.ids[k]) && m.persons[m.ids[k]].token
            == k.0
}

/// Every person has a distinct id: there are no ghost profiles.
pub open spec fn persons_have_ids(m: IdentityModel) -> bool {
    forall|p: i64| #[trigger]
        m.persons.contains_key(p) ==> exists|k: (Seq<char>, Seq<char>)| #[trigger]
            m.ids.contains_key(k) && m.ids[k] == p
}

/// What a store always satisfies.
pub open spec fn identity_ok(m: IdentityModel) -> bool {
    &&& ids_have_persons(m)
    &&& persons_have_ids(m)
    &&& forall|p: i64| #[trigger] m.persons.contains_key(p) ==> p > 0
}

impl IdentityStore {
    /// What the rows of a store always satisfy.
    pub open spec fn well_formed(&self) -> bool {
        &&& distinct_rows(id_rows(self.ids@))
        &&& distinct_rows(person_rows(self.persons@))
        &&& identity_ok(self@)
    }
}

// ── What events do ────────────────────────────────────────────────────────────

/// Whether a number is the next free one: one more than the largest in use.
pub open spec fn is_next(persons: Map<i64, PersonModel>, n: i64) -> bool {
    &&& n >= 1
    &&& forall|p: i64| #[trigger] persons.contains_key(p) ==> p < n
    &&& n == 1 || persons.contains_key((n - 1) as i64)
}

/// The next free number.
pub open spec fn next_person(persons: Map<i64, PersonModel>) -> i64 {
    choose|n: i64| is_next(persons, n)
}

proof fn lemma_next_unique(persons: Map<i64, PersonModel>, n: i64)
    requires
        is_next(persons, n),
    ensures
        next_person(persons) == n,
        !persons.contains_key(n),
{
    let c = next_person(persons);
    assert(is_next(persons, c));
    if c < n {
        assert(persons.contains_key((n - 1) as i64));
    }
    if n < c {
        assert(persons.contains_key((c - 1) as i64));
    }
}

/// A person that nothing is known of yet.
pub open spec fn blank_person(token: Seq<char>, t: int) -> PersonModel {
    PersonModel { token, created_at: t, is_identified: false, properties: Map::empty() }
}

/// The store once a distinct id has a person.
pub open spec fn ensured(m: IdentityModel, key: (Seq<char>, Seq<char>), t: int) -> IdentityModel {
    if m.ids.contains_key(key) {
        m
    } else {
        let n = next_person(m.persons);
        IdentityModel {
            ids: m.ids.insert(key, n),
            persons: m.persons.insert(n, blank_person(key.0, t)),
        }
    }
}

/// The store once a person is marked as identified.
pub open spec fn identified(m: IdentityModel, p: i64) -> IdentityModel {
    IdentityModel {
        ids: m.ids,
        persons: m.persons.insert(p, PersonModel { is_identified: true, ..m.persons[p] }),
    }
}

/// The winner of a merge: its own properties over the loser's, and the older creation instant.
pub open spec fn merged_person(winner: PersonModel, loser: PersonModel) -> PersonModel {
    PersonModel {
        token: winner.token,
        created_at: if loser.created_at < winner.created_at {
            loser.created_at
        } else {
            winner.created_at
        },
        is_identified: winner.is_identified,
        properties: loser.properties.union_prefer_right(winner.properties),
    }
}

/// The store once one person has been folded into another.
pub open spec fn folded_into(m: IdentityModel, winner: i64, loser: i64) -> IdentityModel {
    IdentityModel {
        ids: m.ids.map_values(
            |p: i64|
                if p == loser {
                    winner
                } else {
                    p
                },
        ),
        persons: m.persons.insert(
            winner,
            merged_person(m.persons[winner], m.persons[loser]),
        ).remove(loser),
    }
}

/// The store once the person of one distinct id has been merged into that of another, unless it is the
/// same person, or is already identified and the merge is not a dangerous one.
pub open spec fn merged(
    m: IdentityModel,
    winner_key: (Seq<char>, Seq<char>),
    loser_key: (Seq<char>, Seq<char>),
    dangerous: bool,
    t: int,
) -> IdentityModel {
    let both = ensured(ensured(m, winner_key, t), loser_key, t);
    let winner = both.ids[winner_key];
    let loser = both.ids[loser_key];
    if winner == loser || (!dangerous && both.persons[loser].is_identified) {
        both
    } else {
        folded_into(both, winner, loser)
    }
}

/// The object that an event carries under a property.
pub open spec fn object_entry(
    properties: Map<Seq<char>, JsonValue>,
    key: Seq<char>,
) -> Option<Map<Seq<char>, JsonValue>> {
    match properties[key] {
        JsonValue::Object(members) if properties.contains_key(key) => Some(members_map(members)),
        _ => None,
    }
}

/// Properties with defaults for what is not set yet, and then with new values.
pub open spec fn set_properties(
    current: Map<Seq<char>, JsonValue>,
    set_once: Option<Map<Seq<char>, JsonValue>>,
    set: Option<Map<Seq<char>, JsonValue>>,
) -> Map<Seq<char>, JsonValue> {
    let with_defaults = match set_once {
        Some(once) => once.union_prefer_right(current),
        None => current,
    };
    match set {
        Some(values) => with_defaults.union_prefer_right(values),
        None => with_defaults,
    }
}

/// The store once `$set_once` and `$set` of an event have been applied to the person of a distinct id.
pub open spec fn properties_applied(
    m: IdentityModel,
    key: (Seq<char>, Seq<char>),
    properties: Map<Seq<char>, JsonValue>,
    t: int,
) -> IdentityModel {
    let once = object_entry(properties, "$set_once"@);
    let set = object_entry(properties, "$set"@);
    if once is None && set is None {
        m
    } else {
        let with = ensured(m, key, t);
        let p = with.ids[key];
        let person = with.persons[p];
        IdentityModel {
            ids: with.ids,
            persons: with.persons.insert(
                p,
                PersonModel {
                    properties: set_properties(person.properties, once, set),
                    ..person
                },
            ),
        }
    }
}

/// The store after an event.
pub open spec fn processed(m: IdentityModel, event: EventModel) -> IdentityModel {
    let key = (event.token, event.distinct_id);
    let t = event.timestamp;
    let with = ensured(m, key, t);
    if event.event == "$identify"@ {
        let known = identified(with, with.ids[key]);
        let stitched = match text_entry(event.properties, "$anon_distinct_id"@) {
            Some(anon) => merged(known, key, (event.token, anon), false, t),
            None => known,
        };
        properties_applied(stitched, key, event.properties, t)
    } else if event.event == "$create_alias"@ || event.event == "$merge_dangerously"@ {
        match text_entry(event.properties, "alias"@) {
            Some(alias) => merged(
                with,
                key,
                (event.token, alias),
                event.event == "$merge_dangerously"@,
                t,
            ),
            None => with,
        }
    } else {
        properties_applied(with, key, event.properties, t)
    }
}

// ── Laws ──────────────────────────────────────────────────────────────────────

/// Whether a store has room for two more persons.
pub open spec fn has_room(m: IdentityModel) -> bool {
    forall|p: i64| #[trigger] m.persons.contains_key(p) ==> p < i64::MAX - 2
}

/// Whether a next number exists, and is at most one above a bound.
proof fn lemma_next_exists(persons: Map<i64, PersonModel>, bound: i64)
    requires
        0 <= bound < i64::MAX,
        forall|p: i64| #[trigger] persons.contains_key(p) ==> 0 < p <= bound,
    ensures
        is_next(persons, next_person(persons)),
        next_person(persons) <= bound + 1,
        !persons.contains_key(next_person(persons)),
    decreases bound,
{
    if bound > 0 && !persons.contains_key(bound) {
        lemma_next_exists(persons, (bound - 1) as i64);
    } else {
        assert(is_next(persons, (bound + 1) as i64));
        lemma_next_unique(persons, (bound + 1) as i64);
    }
}

pub proof fn lemma_ensured_ok(m: IdentityModel, key: (Seq<char>, Seq<char>), t: int, bound: i64)
    requires
        identity_ok(m),
        0 <= bound < i64::MAX,
        forall|p: i64| #[trigger] m.persons.contains_key(p) ==> p <= bound,
    ensures
        ({
            let e = ensured(m, key, t);
            &&& identity_ok(e)
            &&& e.ids.contains_key(key)
            &&& e.persons.contains_key(e.ids[key])
            &&& forall|k: (Seq<char>, Seq<char>)| #[trigger]
                m.ids.contains_key(k) ==> e.ids.contains_key(k) && e.ids[k] == m.ids[k]
            &&& forall|p: i64| #[trigger]
                m.persons.contains_key(p) ==> e.persons.contains_key(p) && e.persons[p]
                    == m.persons[p]
            &&& forall|p: i64| #[trigger] e.persons.contains_key(p) ==> p <= bound + 1
            &&& !m.ids.contains_key(key) ==> e.persons[e.ids[key]] == blank_person(key.0, t)
                && !m.persons.contains_key(e.ids[key])
        }),
{
    if !m.ids.contains_key(key) {
        lemma_next_exists(m.persons, bound);
        let e = ensured(m, key, t);
        let n = next_person(m.persons);
        assert(e.ids.contains_key(key) && e.ids[key] == n);
        assert forall|p: i64| #[trigger] e.persons.contains_key(p) implies exists|
            k: (Seq<char>, Seq<char>),
        | #[trigger] e.ids.contains_key(k) && e.ids[k] == p by {
            if p == n {
                assert(e.ids.contains_key(key) && e.ids[key] == p);
            } else {
                assert(m.persons.contains_key(p));
                let k = choose|k: (Seq<char>, Seq<char>)| #[trigger]
                    m.ids.contains_key(k) && m.ids[k] == p;
                assert(e.ids.contains_key(k) && e.ids[k] == p);
            }
        }
        assert forall|k: (Seq<char>, Seq<char>)| #[trigger] e.ids.contains_key(k) implies
            e.persons.contains_key(e.ids[k]) && e.persons[e.ids[k]].token == k.0 by {
            if k != key {
                assert(m.ids.contains_key(k));
            }
        }
    }
}

pub proof fn lemma_person_replaced_ok(m: IdentityModel, p: i64, person: PersonModel)
    requires
        identity_ok(m),
        m.persons.contains_key(p),
        person.token == m.persons[p].token,
    ensures
        identity_ok(IdentityModel { ids: m.ids, persons: m.persons.insert(p, person) }),
{
    let n = IdentityModel { ids: m.ids, persons: m.persons.insert(p, person) };
    assert forall|q: i64| #[trigger] n.persons.contains_key(q) implies exists|
        k: (Seq<char>, Seq<char>),
    | #[trigger] n.ids.contains_key(k) && n.ids[k] == q by {
        assert(m.persons.contains_key(q));
        let k = choose|k: (Seq<char>, Seq<char>)| #[trigger]
            m.ids.contains_key(k) && m.ids[k] == q;
        assert(n.ids.contains_key(k));
    }
    assert forall|k: (Seq<char>, Seq<char>)| #[trigger] n.ids.contains_key(k) implies
        n.persons.contains_key(n.ids[k]) && n.persons[n.ids[k]].token == k.0 by {
        assert(m.ids.contains_key(k));
    }
}

proof fn lemma_folded_ok(m: IdentityModel, winner: i64, loser: i64)
    requires
        identity_ok(m),
        winner != loser,
        m.persons.contains_key(winner),
        m.persons.contains_key(loser),
        m.persons[winner].token == m.persons[loser].token,
    ensures
        identity_ok(folded_into(m, winner, loser)),
        folded_into(m, winner, loser).ids.dom() == m.ids.dom(),
{
    let f = folded_into(m, winner, loser);
    assert(f.ids.dom() =~= m.ids.dom());
    assert forall|q: i64| #[trigger] f.persons.contains_key(q) implies exists|
        k: (Seq<char>, Seq<char>),
    | #[trigger] f.ids.contains_key(k) && f.ids[k] == q by {
        assert(m.persons.contains_key(q));
        let k = choose|k: (Seq<char>, Seq<char>)| #[trigger]
            m.ids.contains_key(k) && m.ids[k] == q;
        assert(f.ids.contains_key(k) && f.ids[k] == q);
    }
    assert forall|k: (Seq<char>, Seq<char>)| #[trigger] f.ids.contains_key(k) implies
        f.persons.contains_key(f.ids[k]) && f.persons[f.ids[k]].token == k.0 by {
        assert(m.ids.contains_key(k));
    }
}

/// Whether distinct ids that share a person in one store share one in another.
pub open spec fn keeps_together(before: IdentityModel, after: IdentityModel) -> bool {
    forall|a: (Seq<char>, Seq<char>), b: (Seq<char>, Seq<char>)|
        #![trigger before.ids.contains_key(a), before.ids.contains_key(b)]
        before.ids.contains_key(a) && before.ids.contains_key(b) && before.ids[a] == before.ids[b]
            ==> after.ids.contains_key(a) && after.ids.contains_key(b) && after.ids[a]
            == after.ids[b]
}

proof fn lemma_merged_ok(
    m: IdentityModel,
    winner_key: (Seq<char>, Seq<char>),
    loser_key: (Seq<char>, Seq<char>),
    dangerous: bool,
    t: int,
    bound: i64,
)
    requires
        identity_ok(m),
        winner_key.0 == loser_key.0,
        0 <= bound < i64::MAX - 1,
        forall|p: i64| #[trigger] m.persons.contains_key(p) ==> p <= bound,
    ensures
        ({
            let r = merged(m, winner_key, loser_key, dangerous, t);
            &&& identity_ok(r)
            &&& keeps_together(m, r)
            &&& r.ids.contains_key(winner_key)
            &&& r.ids.contains_key(loser_key)
            &&& forall|p: i64| #[trigger] r.persons.contains_key(p) ==> p <= bound + 2
        }),
{
    lemma_ensured_ok(m, winner_key, t, bound);
    let one = ensured(m, winner_key, t);
    lemma_ensured_ok(one, loser_key, t, (bound + 1) as i64);
    let both = ensured(one, loser_key, t);
    let winner = both.ids[winner_key];
    let loser = both.ids[loser_key];
    assert(one.ids.contains_key(winner_key));
    assert(both.ids.contains_key(winner_key));
    assert(keeps_together(m, both)) by {
        assert forall|a: (Seq<char>, Seq<char>), b: (Seq<char>, Seq<char>)|
            #![trigger m.ids.contains_key(a), m.ids.contains_key(b)]
            m.ids.contains_key(a) && m.ids.contains_key(b) && m.ids[a] == m.ids[b] implies
            both.ids.contains_key(a) && both.ids.contains_key(b) && both.ids[a] == both.ids[b] by {
            assert(one.ids.contains_key(a) && one.ids.contains_key(b));
        }
    }
    if winner != loser && (dangerous || !both.persons[loser].is_identified) {
        lemma_folded_ok(both, winner, loser);
        let r = folded_into(both, winner, loser);
        assert forall|a: (Seq<char>, Seq<char>), b: (Seq<char>, Seq<char>)|
            #![trigger m.ids.contains_key(a), m.ids.contains_key(b)]
            m.ids.contains_key(a) && m.ids.contains_key(b) && m.ids[a] == m.ids[b] implies
            r.ids.contains_key(a) && r.ids.contains_key(b) && r.ids[a] == r.ids[b] by {
            assert(both.ids.contains_key(a) && both.ids.contains_key(b) && both.ids[a]
                == both.ids[b]);
        }
    }
}

pub proof fn lemma_properties_ok(
    m: IdentityModel,
    key: (Seq<char>, Seq<char>),
    properties: Map<Seq<char>, JsonValue>,
    t: int,
)
    requires
        identity_ok(m),
        m.ids.contains_key(key),
    ensures
        identity_ok(properties_applied(m, key, properties, t)),
        properties_applied(m, key, properties, t).ids == m.ids,
        properties_applied(m, key, properties, t).persons.dom() == m.persons.dom(),
{
    let r = properties_applied(m, key, properties, t);
    let p = m.ids[key];
    assert(m.persons.contains_key(p));
    if object_entry(properties, "$set_once"@) is Some || object_entry(properties, "$set"@) is Some {
        let person = PersonModel {
            properties: set_properties(
                m.persons[p].properties,
                object_entry(properties, "$set_once"@),
                object_entry(properties, "$set"@),
            ),
            ..m.persons[p]
        };
        lemma_person_replaced_ok(m, p, person);
        assert(r.persons =~= m.persons.insert(p, person));
    }
    assert(r.persons.dom() =~= m.persons.dom());
}

/// Every event keeps the store in order: each distinct id belongs to exactly one person of its token,
/// there are no ghost profiles, and ids that share a person go on sharing one.
pub proof fn law_events_keep_the_graph(m: IdentityModel, event: EventModel)
    requires
        identity_ok(m),
        has_room(m),
    ensures
        identity_ok(processed(m, event)),
        keeps_together(m, processed(m, event)),
        processed(m, event).ids.contains_key((event.token, event.distinct_id)),
{
    let key = (event.token, event.distinct_id);
    let t = event.timestamp;
    let bound = (i64::MAX - 3) as i64;
    lemma_ensured_ok(m, key, t, bound);
    let with = ensured(m, key, t);
    let bound1 = (bound + 1) as i64;
    if event.event == "$identify"@ {
        let p = with.ids[key];
        let person = PersonModel { is_identified: true, ..with.persons[p] };
        lemma_person_replaced_ok(with, p, person);
        let known = identified(with, p);
        let stitched = match text_entry(event.properties, "$anon_distinct_id"@) {
            Some(anon) => merged(known, key, (event.token, anon), false, t),
            None => known,
        };
        if let Some(anon) = text_entry(event.properties, "$anon_distinct_id"@) {
            lemma_merged_after_ensured(known, key, (event.token, anon), false, t, bound1);
        }
        lemma_properties_ok(stitched, key, event.properties, t);
        lemma_together_through(m, with, stitched);
    } else if event.event == "$create_alias"@ || event.event == "$merge_dangerously"@ {
        if let Some(alias) = text_entry(event.properties, "alias"@) {
            let dangerous = event.event == "$merge_dangerously"@;
            lemma_merged_after_ensured(with, key, (event.token, alias), dangerous, t, bound1);
            lemma_together_through(m, with, merged(with, key, (event.token, alias), dangerous, t));
        }
    } else {
        lemma_properties_ok(with, key, event.properties, t);
    }
}

proof fn lemma_together_through(a: IdentityModel, b: IdentityModel, c: IdentityModel)
    requires
        forall|k: (Seq<char>, Seq<char>)| #[trigger]
            a.ids.contains_key(k) ==> b.ids.contains_key(k) && b.ids[k] == a.ids[k],
        keeps_together(b, c),
    ensures
        keeps_together(a, c),
{
    assert forall|x: (Seq<char>, Seq<char>), y: (Seq<char>, Seq<char>)|
        #![trigger a.ids.contains_key(x), a.ids.contains_key(y)]
        a.ids.contains_key(x) && a.ids.contains_key(y) && a.ids[x] == a.ids[y] implies
        c.ids.contains_key(x) && c.ids.contains_key(y) && c.ids[x] == c.ids[y] by {
        assert(b.ids.contains_key(x) && b.ids.contains_key(y));
    }
}

/// Merging when the winner is already there needs room for one person only.
pub proof fn lemma_merged_after_ensured(
    m: IdentityModel,
    winner_key: (Seq<char>, Seq<char>),
    loser_key: (Seq<char>, Seq<char>),
    dangerous: bool,
    t: int,
    bound: i64,
)
    requires
        identity_ok(m),
        m.ids.contains_key(winner_key),
        winner_key.0 == loser_key.0,
        0 <= bound < i64::MAX - 1,
        forall|p: i64| #[trigger] m.persons.contains_key(p) ==> p <= bound,
    ensures
        ({
            let r = merged(m, winner_key, loser_key, dangerous, t);
            &&& identity_ok(r)
            &&& keeps_together(m, r)
            &&& r.ids.contains_key(winner_key)
            &&& r.ids.contains_key(loser_key)
        }),
{
    lemma_merged_ok(m, winner_key, loser_key, dangerous, t, bound);
}

/// Whether merging the person of a distinct id would be refused: it is somebody else's, and identified.
pub open spec fn refused(
    m: IdentityModel,
    winner_key: (Seq<char>, Seq<char>),
    loser_key: (Seq<char>, Seq<char>),
) -> bool {
    m.ids.contains_key(loser_key) && m.persons[m.ids[loser_key]].is_identified && !(
    m.ids.contains_key(winner_key) && m.ids[winner_key] == m.ids[loser_key])
}

/// Identifying stitches the anonymous id to the event's own id, unless that is refused.
pub proof fn law_identify_stitches(m: IdentityModel, event: EventModel, anon: Seq<char>)
    requires
        identity_ok(m),
        has_room(m),
        event.event == "$identify"@,
        text_entry(event.properties, "$anon_distinct_id"@) == Some(anon),
        !refused(m, (event.token, event.distinct_id), (event.token, anon)),
    ensures
        processed(m, event).ids.contains_key((event.token, anon)),
        processed(m, event).ids[(event.token, anon)] == processed(m, event).ids[(
            event.token,
            event.distinct_id,
        )],
        processed(m, event).persons[processed(m, event).ids[(
            event.token,
            event.distinct_id,
        )]].is_identified,
{
    let key = (event.token, event.distinct_id);
    let other = (event.token, anon);
    let t = event.timestamp;
    let bound = (i64::MAX - 3) as i64;
    lemma_ensured_ok(m, key, t, bound);
    let with = ensured(m, key, t);
    let p = with.ids[key];
    let person = PersonModel { is_identified: true, ..with.persons[p] };
    lemma_person_replaced_ok(with, p, person);
    let known = identified(with, p);
    let bound1 = (bound + 1) as i64;
    lemma_ensured_ok(known, other, t, bound1);
    let both = ensured(known, other, t);
    assert(ensured(known, key, t) == known);
    lemma_merged_after_ensured(known, key, other, false, t, bound1);
    let stitched = merged(known, key, other, false, t);
    assert(both.ids[key] == p);
    if both.ids[other] != p {
        let l = both.ids[other];
        assert(!both.persons[l].is_identified) by {
            if m.ids.contains_key(other) {
                assert(with.ids[other] == m.ids[other]);
                assert(m.persons.contains_key(m.ids[other]));
                assert(with.persons[l] == m.persons[l]);
                assert(known.ids.contains_key(other));
                assert(both.ids[other] == m.ids[other]);
                if m.ids.contains_key(key) {
                    assert(m.ids[key] == p);
                }
            } else {
                assert(!known.ids.contains_key(other));
            }
        }
    }
    lemma_properties_ok(stitched, key, event.properties, t);
    assert(stitched.ids.contains_key(key) && stitched.ids.contains_key(other));
    assert(stitched.ids[key] == p);
    assert(stitched.ids[other] == p);
    assert(stitched.persons[p].is_identified);
}

/// An event that identifies a user with an anonymous id.
pub open spec fn identifies(event: EventModel, token: Seq<char>, user: Seq<char>, anon: Seq<char>) -> bool {
    &&& event.event == "$identify"@
    &&& event.token == token
    &&& event.distinct_id == user
    &&& text_entry(event.properties, "$anon_distinct_id"@) == Some(anon)
}

/// The store after events, in order.
pub open spec fn processed_all(m: IdentityModel, events: Seq<EventModel>) -> IdentityModel
    decreases events.len(),
{
    if events.len() == 0 {
        m
    } else {
        processed(processed_all(m, events.drop_last()), events.last())
    }
}

/// Whether a store has room for two more persons per event.
pub open spec fn has_room_for(m: IdentityModel, events: int) -> bool {
    &&& 2 * events + 3 <= i64::MAX
    &&& forall|p: i64| #[trigger] m.persons.contains_key(p) ==> p < i64::MAX - 2 - 2 * events
}

proof fn lemma_room(m: IdentityModel, event: EventModel, events: int)
    requires
        identity_ok(m),
        0 < events,
        has_room_for(m, events),
    ensures
        has_room_for(processed(m, event), events - 1),
        has_room(m),
{
    let key = (event.token, event.distinct_id);
    let t = event.timestamp;
    let bound = (i64::MAX - 3 - 2 * events) as i64;
    lemma_ensured_ok(m, key, t, bound);
    let with = ensured(m, key, t);
    let bound1 = (bound + 1) as i64;
    if event.event == "$identify"@ {
        let p = with.ids[key];
        let person = PersonModel { is_identified: true, ..with.persons[p] };
        lemma_person_replaced_ok(with, p, person);
        let known = identified(with, p);
        if let Some(anon) = text_entry(event.properties, "$anon_distinct_id"@) {
            let other = (event.token, anon);
            lemma_merged_after_ensured(known, key, other, false, t, bound1);
            lemma_ensured_ok(known, other, t, bound1);
            let stitched = merged(known, key, other, false, t);
            assert(ensured(known, key, t) == known);
            assert forall|q: i64| #[trigger] stitched.persons.contains_key(q) implies q <= bound
                + 2 by {
                assert(ensured(known, other, t).persons.contains_key(q));
            }
            lemma_properties_ok(stitched, key, event.properties, t);
        } else {
            lemma_properties_ok(known, key, event.properties, t);
        }
    } else if event.event == "$create_alias"@ || event.event == "$merge_dangerously"@ {
        if let Some(alias) = text_entry(event.properties, "alias"@) {
            let other = (event.token, alias);
            let dangerous = event.event == "$merge_dangerously"@;
            lemma_merged_after_ensured(with, key, other, dangerous, t, bound1);
            lemma_ensured_ok(with, other, t, bound1);
            assert(ensured(with, key, t) == with);
            let r = merged(with, key, other, dangerous, t);
            assert forall|q: i64| #[trigger] r.persons.contains_key(q) implies q <= bound + 2 by {
                assert(ensured(with, other, t).persons.contains_key(q));
            }
        }
    } else {
        lemma_properties_ok(with, key, event.properties, t);
    }
}

/// An event never turns a person of another id into an identified one, except by stitching it to the
/// event's own id.
proof fn lemma_refusal_does_not_spread(
    m: IdentityModel,
    event: EventModel,
    token: Seq<char>,
    user: Seq<char>,
    anon: Seq<char>,
    other: Seq<char>,
)
    requires
        identity_ok(m),
        has_room(m),
        identifies(event, token, user, anon),
        !refused(m, (token, user), (token, other)),
    ensures
        !refused(processed(m, event), (token, user), (token, other)),
{
    law_events_keep_the_graph(m, event);
    let key = (token, user);
    let a = (token, anon);
    let o = (token, other);
    let t = event.timestamp;
    let bound = (i64::MAX - 3) as i64;
    lemma_ensured_ok(m, key, t, bound);
    let with = ensured(m, key, t);
    let p = with.ids[key];
    let person = PersonModel { is_identified: true, ..with.persons[p] };
    lemma_person_replaced_ok(with, p, person);
    let known = identified(with, p);
    let bound1 = (bound + 1) as i64;
    lemma_ensured_ok(known, a, t, bound1);
    let both = ensured(known, a, t);
    assert(ensured(known, key, t) == known);
    lemma_merged_after_ensured(known, key, a, false, t, bound1);
    let stitched = merged(known, key, a, false, t);
    lemma_properties_ok(stitched, key, event.properties, t);
    let r = processed(m, event);
    assert(r.ids == stitched.ids);
    if r.ids.contains_key(o) && r.ids[o] != r.ids[key] {
        assert(both.ids.contains_key(o));
        let q = both.ids[o];
        assert(both.ids[key] == p);
        assert(stitched.ids[key] == p);
        assert(q != p);
        assert(stitched.ids[o] == q);
        if known.ids.contains_key(o) {
            assert(with.ids.contains_key(o));
            if m.ids.contains_key(o) {
                assert(m.ids[o] == q);
                assert(m.persons.contains_key(q));
                assert(!m.persons[q].is_identified);
                assert(with.persons[q] == m.persons[q]);
                assert(known.persons[q] == m.persons[q]);
                assert(known.persons.contains_key(q));
                assert(both.persons[q] == known.persons[q]);
            } else {
                assert(o == key);
            }
        } else {
            assert(o == a);
            assert(both.persons[q] == blank_person(token, t));
        }
        assert(!both.persons[q].is_identified);
        assert(!stitched.persons[q].is_identified);
        assert(r.persons[q].is_identified == stitched.persons[q].is_identified);
    }
}

/// The order of identifications does not matter: however events that identify one user with anonymous
/// ids are ordered, all of those ids end up with the user's person.
pub proof fn law_identification_order_converges(
    m: IdentityModel,
    events: Seq<EventModel>,
    anons: Seq<Seq<char>>,
    token: Seq<char>,
    user: Seq<char>,
)
    requires
        identity_ok(m),
        events.len() == anons.len(),
        has_room_for(m, events.len() as int),
        forall|i: int|
            0 <= i < events.len() ==> identifies(#[trigger] events[i], token, user, anons[i]),
        forall|i: int|
            0 <= i < anons.len() ==> !refused(m, (token, user), (token, #[trigger] anons[i])),
    ensures
        forall|i: int|
            0 <= i < anons.len() ==> processed_all(m, events).ids.contains_key(
                (token, #[trigger] anons[i]),
            ) && processed_all(m, events).ids.contains_key((token, user)) && processed_all(
                m,
                events,
            ).ids[(token, anons[i])] == processed_all(m, events).ids[(token, user)],
{
    lemma_identified_in_order(m, events, anons, anons, token, user, events.len() as int);
}

proof fn lemma_identified_in_order(
    m: IdentityModel,
    events: Seq<EventModel>,
    anons: Seq<Seq<char>>,
    watched: Seq<Seq<char>>,
    token: Seq<char>,
    user: Seq<char>,
    room: int,
)
    requires
        identity_ok(m),
        events.len() == anons.len(),
        events.len() <= room,
        has_room_for(m, room),
        forall|i: int|
            0 <= i < events.len() ==> identifies(#[trigger] events[i], token, user, anons[i]),
        forall|i: int|
            0 <= i < watched.len() ==> !refused(m, (token, user), (token, #[trigger] watched[i])),
        forall|i: int| 0 <= i < anons.len() ==> watched.contains(#[trigger] anons[i]),
    ensures
        identity_ok(processed_all(m, events)),
        has_room_for(processed_all(m, events), room - events.len()),
        forall|i: int|
            0 <= i < watched.len() ==> !refused(
                processed_all(m, events),
                (token, user),
                (token, #[trigger] watched[i]),
            ),
        forall|i: int|
            0 <= i < anons.len() ==> processed_all(m, events).ids.contains_key(
                (token, #[trigger] anons[i]),
            ) && processed_all(m, events).ids.contains_key((token, user)) && processed_all(
                m,
                events,
            ).ids[(token, anons[i])] == processed_all(m, events).ids[(token, user)],
    decreases events.len(),
{
    if events.len() > 0 {
        let fewer = events.drop_last();
        let fewer_anons = anons.drop_last();
        assert forall|i: int| 0 <= i < fewer.len() implies identifies(
            #[trigger] fewer[i],
            token,
            user,
            fewer_anons[i],
        ) by {
            assert(identifies(events[i], token, user, anons[i]));
        }
        assert forall|i: int| 0 <= i < fewer_anons.len() implies watched.contains(
            #[trigger] fewer_anons[i],
        ) by {
            assert(watched.contains(anons[i]));
        }
        lemma_identified_in_order(m, fewer, fewer_anons, watched, token, user, room);
        let before = processed_all(m, fewer);
        let event = events.last();
        let anon = anons.last();
        let after = processed(before, event);
        assert(identifies(events[events.len() - 1], token, user, anons[anons.len() - 1]));
        lemma_room(before, event, room - fewer.len());
        law_events_keep_the_graph(before, event);
        assert(watched.contains(anons[anons.len() - 1]));
        let w = choose|w: int| 0 <= w < watched.len() && watched[w] == anon;
        assert(!refused(before, (token, user), (token, watched[w])));
        law_identify_stitches(before, event, anon);
        assert forall|i: int| 0 <= i < watched.len() implies !refused(
            after,
            (token, user),
            (token, #[trigger] watched[i]),
        ) by {
            lemma_refusal_does_not_spread(before, event, token, user, anon, watched[i]);
        }
        assert forall|i: int| 0 <= i < anons.len() implies after.ids.contains_key(
            (token, #[trigger] anons[i]),
        ) && after.ids.contains_key((token, user)) && after.ids[(token, anons[i])] == after.ids[(
            token,
            user,
        )] by {
            if i < fewer_anons.len() {
                assert(fewer_anons[i] == anons[i]);
                assert(before.ids.contains_key((token, anons[i])));
                assert(before.ids.contains_key((token, user)));
            }
        }
    }
}

/// The persons of a token.
pub open spec fn token_persons(m: IdentityModel, token: Seq<char>) -> Set<i64> {
    m.persons.dom().filter(|p: i64| m.persons[p].token == token)
}

/// A store without anybody.
pub open spec fn nobody() -> IdentityModel {
    IdentityModel { ids: Map::empty(), persons: Map::empty() }
}

/// An event that only says that a distinct id was there.
pub open spec fn browses(event: EventModel, token: Seq<char>, distinct_id: Seq<char>) -> bool {
    &&& event.event != "$identify"@
    &&& event.event != "$create_alias"@
    &&& event.event != "$merge_dangerously"@
    &&& event.token == token
    &&& event.distinct_id == distinct_id
}

/// Whether a store knows none but a user and some anonymous ids of a token.
pub open spec fn knows_only(
    m: IdentityModel,
    token: Seq<char>,
    user: Seq<char>,
    anons: Seq<Seq<char>>,
) -> bool {
    forall|k: (Seq<char>, Seq<char>)| #[trigger]
        m.ids.contains_key(k) ==> k.0 == token && (k.1 == user || anons.contains(k.1))
}

proof fn lemma_browsing(
    events: Seq<EventModel>,
    seen: Seq<Seq<char>>,
    anons: Seq<Seq<char>>,
    token: Seq<char>,
    user: Seq<char>,
    room: int,
)
    requires
        events.len() == seen.len(),
        events.len() <= room,
        2 * room + 3 <= i64::MAX,
        forall|i: int|
            0 <= i < events.len() ==> browses(#[trigger] events[i], token, seen[i])
                && anons.contains(seen[i]),
    ensures
        ({
            let m = processed_all(nobody(), events);
            &&& identity_ok(m)
            &&& has_room_for(m, room - events.len())
            &&& knows_only(m, token, user, anons)
            &&& forall|p: i64| #[trigger]
                m.persons.contains_key(p) ==> !m.persons[p].is_identified
        }),
    decreases events.len(),
{
    if events.len() > 0 {
        let fewer = events.drop_last();
        let fewer_seen = seen.drop_last();
        assert forall|i: int| 0 <= i < fewer.len() implies browses(
            #[trigger] fewer[i],
            token,
            fewer_seen[i],
        ) && anons.contains(fewer_seen[i]) by {
            assert(browses(events[i], token, seen[i]));
        }
        lemma_browsing(fewer, fewer_seen, anons, token, user, room);
        let before = processed_all(nobody(), fewer);
        let event = events.last();
        let key = (event.token, event.distinct_id);
        assert(browses(events[events.len() - 1], token, seen[seen.len() - 1]));
        lemma_room(before, event, room - fewer.len());
        law_events_keep_the_graph(before, event);
        lemma_ensured_ok(before, key, event.timestamp, (i64::MAX - 3) as i64);
        let with = ensured(before, key, event.timestamp);
        lemma_properties_ok(with, key, event.properties, event.timestamp);
        let after = processed(before, event);
        assert(after.ids == with.ids);
        assert forall|p: i64| #[trigger] after.persons.contains_key(p) implies !after.persons[p].is_identified by {
            assert(with.persons.dom().contains(p));
            assert(after.persons[p].is_identified == with.persons[p].is_identified);
            if before.persons.contains_key(p) {
                assert(with.persons[p] == before.persons[p]);
            }
        }
    }
}

proof fn lemma_identifying_knows_only(
    m: IdentityModel,
    events: Seq<EventModel>,
    anons: Seq<Seq<char>>,
    allowed: Seq<Seq<char>>,
    token: Seq<char>,
    user: Seq<char>,
    room: int,
)
    requires
        identity_ok(m),
        has_room_for(m, room),
        events.len() <= room,
        events.len() == anons.len(),
        knows_only(m, token, user, allowed),
        forall|i: int|
            0 <= i < events.len() ==> identifies(#[trigger] events[i], token, user, anons[i]),
        forall|i: int| 0 <= i < anons.len() ==> allowed.contains(#[trigger] anons[i]),
    ensures
        identity_ok(processed_all(m, events)),
        has_room_for(processed_all(m, events), room - events.len()),
        knows_only(processed_all(m, events), token, user, allowed),
    decreases events.len(),
{
    if events.len() > 0 {
        let fewer = events.drop_last();
        let fewer_anons = anons.drop_last();
        assert forall|i: int| 0 <= i < fewer.len() implies identifies(
            #[trigger] fewer[i],
            token,
            user,
            fewer_anons[i],
        ) by {
            assert(identifies(events[i], token, user, anons[i]));
        }
        assert forall|i: int| 0 <= i < fewer_anons.len() implies allowed.contains(
            #[trigger] fewer_anons[i],
        ) by {
            assert(allowed.contains(anons[i]));
        }
        lemma_identifying_knows_only(m, fewer, fewer_anons, allowed, token, user, room);
        let before = processed_all(m, fewer);
        let event = events.last();
        let anon = anons[anons.len() - 1];
        assert(identifies(events[events.len() - 1], token, user, anon));
        lemma_room(before, event, room - fewer.len());
        law_events_keep_the_graph(before, event);
        let key = (token, user);
        let other = (token, anon);
        let t = event.timestamp;
        let with = ensured(before, key, t);
        let known = identified(with, with.ids[key]);
        let stitched = merged(known, key, other, false, t);
        let after = processed(before, event);
        assert forall|k: (Seq<char>, Seq<char>)| #[trigger] after.ids.contains_key(k) implies k.0
            == token && (k.1 == user || allowed.contains(k.1)) by {
            assert(stitched.ids.contains_key(k) || k == key);
            assert(before.ids.contains_key(k) || k == key || k == other);
        }
    }
}

proof fn lemma_processed_concat(m: IdentityModel, a: Seq<EventModel>, b: Seq<EventModel>)
    ensures
        processed_all(m, a + b) == processed_all(processed_all(m, a), b),
    decreases b.len(),
{
    if b.len() == 0 {
        assert(a + b =~= a);
    } else {
        lemma_processed_concat(m, a, b.drop_last());
        assert((a + b).drop_last() =~= a + b.drop_last());
    }
}

/// However the visits of anonymous ids and the events that identify a user with them are ordered, one person
/// is left in the end, and the user and every one of the ids belong to it.
pub proof fn law_one_person_is_left(
    visits: Seq<EventModel>,
    seen: Seq<Seq<char>>,
    events: Seq<EventModel>,
    anons: Seq<Seq<char>>,
    token: Seq<char>,
    user: Seq<char>,
)
    requires
        visits.len() == seen.len(),
        events.len() == anons.len(),
        events.len() > 0,
        2 * (visits.len() + events.len()) + 3 <= i64::MAX,
        forall|i: int|
            0 <= i < visits.len() ==> browses(#[trigger] visits[i], token, seen[i])
                && anons.contains(seen[i]),
        forall|i: int|
            0 <= i < events.len() ==> identifies(#[trigger] events[i], token, user, anons[i]),
    ensures
        ({
            let m = processed_all(nobody(), visits + events);
            &&& m.ids.contains_key((token, user))
            &&& forall|i: int|
                0 <= i < anons.len() ==> m.ids.contains_key((token, #[trigger] anons[i]))
                    && m.ids[(token, anons[i])] == m.ids[(token, user)]
            &&& token_persons(m, token) == set![m.ids[(token, user)]]
            &&& token_persons(m, token).len() == 1
        }),
{
    let room = visits.len() + events.len();
    lemma_processed_concat(nobody(), visits, events);
    lemma_browsing(visits, seen, anons, token, user, room as int);
    let visited = processed_all(nobody(), visits);
    assert forall|i: int| 0 <= i < anons.len() implies !refused(
        visited,
        (token, user),
        (token, #[trigger] anons[i]),
    ) by {
        if visited.ids.contains_key((token, anons[i])) {
            assert(visited.persons.contains_key(visited.ids[(token, anons[i])]));
        }
    }
    assert forall|i: int| 0 <= i < anons.len() implies anons.contains(#[trigger] anons[i]) by {}
    law_identification_order_converges(visited, events, anons, token, user);
    lemma_identifying_knows_only(
        visited,
        events,
        anons,
        anons,
        token,
        user,
        events.len() as int,
    );
    let m = processed_all(visited, events);
    assert(m.ids.contains_key((token, anons[0])));
    let p = m.ids[(token, user)];
    assert(m.persons.contains_key(p));
    assert forall|q: i64| token_persons(m, token).contains(q) <==> q == p by {
        if token_persons(m, token).contains(q) {
            assert(m.persons.contains_key(q));
            let k = choose|k: (Seq<char>, Seq<char>)| #[trigger]
                m.ids.contains_key(k) && m.ids[k] == q;
            if k.1 != user {
                let i = choose|i: int| 0 <= i < anons.len() && anons[i] == k.1;
                assert(m.ids[(token, anons[i])] == p);
                assert(k == (token, anons[i]));
            } else {
                assert(k == (token, user));
            }
        }
    }
    assert(token_persons(m, token) =~= set![p]);
}

proof fn lemma_persons_of(persons: Seq<Person>, token: Seq<char>)
    requires
        distinct_rows(person_rows(persons)),
    ensures
        ({
            let all = rows_map(person_rows(persons));
            let own = all.dom().filter(|p: i64| all[p].token == token);
            own.finite() && own.len() == persons_of(persons, token)
        }),
    decreases persons.len(),
{
    let rows = person_rows(persons);
    let all = rows_map(rows);
    let own = all.dom().filter(|p: i64| all[p].token == token);
    if persons.len() == 0 {
        assert(own =~= Set::<i64>::empty());
    } else {
        let rest = persons.drop_last();
        let last = persons.last();
        let rest_rows = person_rows(rest);
        assert(rows.drop_last() =~= rest_rows);
        assert(rows.last().0 == last.id);
        assert forall|i: int, j: int| 0 <= i < j < rest_rows.len() implies (
        #[trigger] rest_rows[i]).0 != (#[trigger] rest_rows[j]).0 by {
            assert(rows[i].0 != rows[j].0);
        }
        lemma_persons_of(rest, token);
        let before = rows_map(rest_rows);
        let known = before.dom().filter(|p: i64| before[p].token == token);
        assert(!before.contains_key(last.id)) by {
            lemma_row_key(rest_rows, last.id);
            if before.contains_key(last.id) {
                let i = choose|i: int|
                    0 <= i < rest_rows.len() && (#[trigger] rest_rows[i]).0 == last.id;
                assert(rows[i].0 != rows[rows.len() - 1].0);
            }
        }
        if last.token@ == token {
            assert(own =~= known.insert(last.id));
        } else {
            assert(own =~= known);
        }
    }
}

/// Merging a person with itself changes nothing.
pub proof fn law_self_merge_is_a_no_op(
    m: IdentityModel,
    key: (Seq<char>, Seq<char>),
    dangerous: bool,
    t: int,
)
    requires
        m.ids.contains_key(key),
    ensures
        merged(m, key, key, dangerous, t) == m,
{
}

/// A refused merge leaves both persons and all ids as they were.
pub proof fn law_refused_merge_changes_nothing(
    m: IdentityModel,
    winner_key: (Seq<char>, Seq<char>),
    loser_key: (Seq<char>, Seq<char>),
    t: int,
)
    requires
        m.ids.contains_key(winner_key),
        refused(m, winner_key, loser_key),
    ensures
        merged(m, winner_key, loser_key, false, t) == m,
{
}

/// A dangerous merge always brings the two distinct ids together.
pub proof fn law_dangerous_merge_always_merges(
    m: IdentityModel,
    winner_key: (Seq<char>, Seq<char>),
    loser_key: (Seq<char>, Seq<char>),
    t: int,
)
    requires
        identity_ok(m),
        m.ids.contains_key(winner_key),
        m.ids.contains_key(loser_key),
    ensures
        merged(m, winner_key, loser_key, true, t).ids[winner_key] == merged(
            m,
            winner_key,
            loser_key,
            true,
            t,
        ).ids[loser_key],
{
}

/// In a merge the winner's properties beat the loser's, and what only the loser had survives.
pub proof fn law_winner_properties_win(winner: PersonModel, loser: PersonModel, key: Seq<char>)
    ensures
        winner.properties.contains_key(key) ==> merged_person(winner, loser).properties[key]
            == winner.properties[key],
        loser.properties.contains_key(key) && !winner.properties.contains_key(key)
            ==> merged_person(winner, loser).properties[key] == loser.properties[key],
        merged_person(winner, loser).properties.contains_key(key) <==> (
        winner.properties.contains_key(key) || loser.properties.contains_key(key)),
        merged_person(winner, loser).created_at <= winner.created_at,
        merged_person(winner, loser).created_at <= loser.created_at,
{
}

/// Setting once never overwrites what is there, and setting always does.
pub proof fn law_set_once_does_not_overwrite(
    current: Map<Seq<char>, JsonValue>,
    once: Map<Seq<char>, JsonValue>,
    set: Map<Seq<char>, JsonValue>,
    key: Seq<char>,
)
    ensures
        current.contains_key(key) ==> set_properties(current, Some(once), None)[key]
            == current[key],
        !current.contains_key(key) && once.contains_key(key) ==> set_properties(
            current,
            Some(once),
            None,
        )[key] == once[key],
        set.contains_key(key) ==> set_properties(current, Some(once), Some(set))[key] == set[key],
{
}

// ── The store ─────────────────────────────────────────────────────────────────

/// How many persons a token has.
pub open spec fn persons_of(persons: Seq<Person>, token: Seq<char>) -> int
    decreases persons.len(),
{
    if persons.len() == 0 {
        0
    } else {
        persons_of(persons.drop_last(), token) + if persons.last().token@ == token {
            1int
        } else {
            0int
        }
    }
}

/// Gives defaults for what is not set yet.
fn set_missing(properties: &mut JsonMap, defaults: &Vec<(String, Json)>)
    ensures
        final(properties)@ == members_map(members_model(defaults@)).union_prefer_right(
            old(properties)@,
        ),
{
    let ghost start = properties@;
    let ghost all = members_model(defaults@);
    let mut i: usize = defaults.len();
    let ghost mut seen: Map<Seq<char>, JsonValue> = Map::empty();
    assert(all.skip(all.len() as int) =~= Seq::<(Seq<char>, JsonValue)>::empty());
    assert(start =~= members_map(all.skip(all.len() as int)).union_prefer_right(start));
    while i > 0
        invariant
            i <= defaults.len(),
            all == members_model(defaults@),
            properties@ == members_map(all.skip(i as int)).union_prefer_right(start),
        decreases i,
    {
        i -= 1;
        proof {
            lemma_members_front(all.skip(i as int));
            assert(all.skip(i as int).drop_first() =~= all.skip(i + 1));
            assert(all.skip(i as int)[0] == all[i as int]);
        }
        let ghost before = properties@;
        if !properties.contains_key(defaults[i].0.as_str()) {
            properties.insert(defaults[i].0.as_str(), defaults[i].1.copy());
        }
        assert(properties@ =~= members_map(all.skip(i as int)).union_prefer_right(start));
    }
    assert(all.skip(0) =~= all);
}

/// Of the members of an object, the first counts only where no later one has its key.
proof fn lemma_members_front(members: Seq<(Seq<char>, JsonValue)>)
    requires
        members.len() > 0,
    ensures
        members_map(members) == Map::<Seq<char>, JsonValue>::empty().insert(
            members[0].0,
            members[0].1,
        ).union_prefer_right(members_map(members.drop_first())),
    decreases members.len(),
{
    let first = Map::<Seq<char>, JsonValue>::empty().insert(members[0].0, members[0].1);
    if members.len() == 1 {
        assert(members.drop_first() =~= Seq::<(Seq<char>, JsonValue)>::empty());
        assert(members.drop_last() =~= Seq::<(Seq<char>, JsonValue)>::empty());
        assert(members_map(members) =~= first.union_prefer_right(
            members_map(members.drop_first()),
        ));
    } else {
        lemma_members_front(members.drop_last());
        assert(members.drop_last().drop_first() =~= members.drop_first().drop_last());
        assert(members.drop_first().last() == members.last());
        assert(members_map(members) =~= first.union_prefer_right(
            members_map(members.drop_first()),
        ));
    }
}

/// Sets values.
fn set_all(properties: &mut JsonMap, values: &Vec<(String, Json)>)
    ensures
        final(properties)@ == old(properties)@.union_prefer_right(
            members_map(members_model(values@)),
        ),
{
    let ghost start = properties@;
    let ghost all = members_model(values@);
    let mut i: usize = 0;
    assert(all.take(0) =~= Seq::<(Seq<char>, JsonValue)>::empty());
    assert(start =~= start.union_prefer_right(members_map(all.take(0))));
    while i < values.len()
        invariant
            i <= values.len(),
            all == members_model(values@),
            properties@ == start.union_prefer_right(members_map(all.take(i as int))),
        decreases values.len() - i,
    {
        assert(all.take(i + 1).drop_last() =~= all.take(i as int));
        properties.insert(values[i].0.as_str(), values[i].1.copy());
        i += 1;
        assert(properties@ =~= start.union_prefer_right(members_map(all.take(i as int))));
    }
    assert(all.take(values.len() as int) =~= all);
}

/// Applies `$set_once` and `$set` objects to properties.
pub fn apply_properties(
    properties: &mut JsonMap,
    set_once: Option<&Vec<(String, Json)>>,
    set: Option<&Vec<(String, Json)>>,
)
    ensures
        final(properties)@ == set_properties(
            old(properties)@,
            match set_once {
                Some(v) => Some(members_map(members_model(v@))),
                None => None,
            },
            match set {
                Some(v) => Some(members_map(members_model(v@))),
                None => None,
            },
        ),
{
    if let Some(defaults) = set_once {
        set_missing(properties, defaults);
    }
    if let Some(values) = set {
        set_all(properties, values);
    }
}

/// The properties of the winner of a merge.
pub fn merge_properties(winner: &JsonMap, loser: &JsonMap) -> (r: JsonMap)
    ensures
        r@ == loser@.union_prefer_right(winner@),
{
    let mut out = loser.copy();
    set_all(&mut out, &winner.members);
    out
}

/// The object under a property of an event.
pub fn entry_object<'a>(properties: &'a JsonMap, key: &str) -> (r: Option<&'a Vec<(String, Json)>>)
    ensures
        match r {
            Some(v) => object_entry(properties@, key@) == Some(members_map(members_model(v@))),
            None => object_entry(properties@, key@) is None,
        },
{
    match properties.get(key) {
        Some(value) => value.as_object(),
        None => None,
    }
}

impl IdentityStore {
    /// An empty store.
    pub fn in_memory() -> (r: IdentityStore)
        ensures
            r.well_formed(),
            r@.ids == Map::<(Seq<char>, Seq<char>), i64>::empty(),
            r@.persons == Map::<i64, PersonModel>::empty(),
    {
        let r = IdentityStore { persons: Vec::new(), ids: Vec::new() };
        assert(r@.ids =~= Map::<(Seq<char>, Seq<char>), i64>::empty());
        assert(r@.persons =~= Map::<i64, PersonModel>::empty());
        r
    }

    fn find_id(&self, token: &str, distinct_id: &str) -> (r: Option<usize>)
        requires
            distinct_rows(id_rows(self.ids@)),
        ensures
            match r {
                Some(i) => i < self.ids.len() && id_rows(self.ids@)[i as int].0 == (
                    token@,
                    distinct_id@,
                ) && self@.ids.contains_key((token@, distinct_id@)) && self@.ids[(
                    token@,
                    distinct_id@,
                )] == self.ids@[i as int].person_id,
                None => !self@.ids.contains_key((token@, distinct_id@)),
            },
    {
        let ghost rows = id_rows(self.ids@);
        let mut i: usize = 0;
        while i < self.ids.len()
            invariant
                i <= self.ids.len(),
                rows == id_rows(self.ids@),
                distinct_rows(rows),
                forall|j: int| 0 <= j < i ==> (#[trigger] rows[j]).0 != (token@, distinct_id@),
            decreases self.ids.len() - i,
        {
            assert(rows[i as int].0 == (self.ids@[i as int].token@, self.ids@[i as int].distinct_id@));
            if same(self.ids[i].token.as_str(), token) && same(
                self.ids[i].distinct_id.as_str(),
                distinct_id,
            ) {
                proof {
                    lemma_row_at(rows, i as int);
                }
                return Some(i);
            }
            i += 1;
        }
        proof {
            lemma_row_absent(rows, (token@, distinct_id@));
        }
        None
    }

    fn find_person(&self, id: i64) -> (r: usize)
        requires
            distinct_rows(person_rows(self.persons@)),
            self@.persons.contains_key(id),
        ensures
            r < self.persons.len(),
            self.persons@[r as int].id == id,
            person_rows(self.persons@)[r as int] == (id, self@.persons[id]),
    {
        let ghost rows = person_rows(self.persons@);
        proof {
            lemma_row_key(rows, id);
        }
        let mut i: usize = 0;
        while i < self.persons.len()
            invariant
                i <= self.persons.len(),
                rows == person_rows(self.persons@),
                distinct_rows(rows),
                self@.persons == rows_map(rows),
                rows_map(rows).contains_key(id),
                forall|j: int| 0 <= j < i ==> (#[trigger] rows[j]).0 != id,
            decreases self.persons.len() - i,
        {
            assert(rows[i as int].0 == self.persons@[i as int].id);
            if self.persons[i].id == id {
                proof {
                    lemma_row_at(rows, i as int);
                }
                return i;
            }
            i += 1;
        }
        proof {
            lemma_row_absent(rows, id);
            assert(false);
        }
        0
    }

    fn next_id(&self) -> (r: i64)
        requires
            self.well_formed(),
            forall|p: i64| #[trigger] self@.persons.contains_key(p) ==> p < i64::MAX,
        ensures
            r == next_person(self@.persons),
            is_next(self@.persons, r),
    {
        let ghost rows = person_rows(self.persons@);
        let mut largest: i64 = 0;
        let mut i: usize = 0;
        while i < self.persons.len()
            invariant
                i <= self.persons.len(),
                self.well_formed(),
                rows == person_rows(self.persons@),
                forall|p: i64| #[trigger] self@.persons.contains_key(p) ==> p < i64::MAX,
                0 <= largest < i64::MAX,
                largest == 0 || self@.persons.contains_key(largest),
                forall|j: int| 0 <= j < i ==> (#[trigger] rows[j]).0 <= largest,
            decreases self.persons.len() - i,
        {
            assert(rows[i as int].0 == self.persons@[i as int].id);
            proof {
                lemma_row_at(rows, i as int);
            }
            assert(self@.persons.contains_key(self.persons@[i as int].id));
            if self.persons[i].id > largest {
                largest = self.persons[i].id;
            }
            i += 1;
        }
        let next: i64 = largest + 1;
        proof {
            assert forall|p: i64| #[trigger] self@.persons.contains_key(p) implies p < next by {
                lemma_row_key(rows, p);
                let j = choose|j: int| 0 <= j < rows.len() && (#[trigger] rows[j]).0 == p;
                assert(rows[j].0 <= largest);
            }
            assert(is_next(self@.persons, next));
            lemma_next_unique(self@.persons, next);
        }
        next
    }

    fn ensure_person(&mut self, token: &str, distinct_id: &str, t: i128) -> (r: i64)
        requires
            old(self).well_formed(),
            forall|p: i64| #[trigger] old(self)@.persons.contains_key(p) ==> p < i64::MAX,
        ensures
            final(self).well_formed(),
            final(self)@ == ensured(old(self)@, (token@, distinct_id@), t as int),
            r == final(self)@.ids[(token@, distinct_id@)],
            final(self)@.ids.contains_key((token@, distinct_id@)),
            final(self)@.persons.contains_key(r),
    {
        let ghost before = self@;
        let ghost key = (token@, distinct_id@);
        proof {
            lemma_ensured_ok(before, key, t as int, (i64::MAX - 1) as i64);
        }
        if let Some(i) = self.find_id(token, distinct_id) {
            return self.ids[i].person_id;
        }
        let id: i64 = self.next_id();
        let ghost person_before = person_rows(self.persons@);
        let ghost ids_before = id_rows(self.ids@);
        let ghost model = blank_person(token@, t as int);
        self.persons.push(
            Person {
                id,
                token: token.to_owned(),
                created_at: t,
                is_identified: false,
                properties: JsonMap::new(),
            },
        );
        self.ids.push(
            DistinctId {
                token: token.to_owned(),
                distinct_id: distinct_id.to_owned(),
                person_id: id,
            },
        );
        proof {
            lemma_next_unique(before.persons, id);
            assert(person_rows(self.persons@) =~= person_before.push((id, model)));
            assert(id_rows(self.ids@) =~= ids_before.push((key, id)));
            lemma_row_push(person_before, (id, model));
            lemma_row_push(ids_before, (key, id));
        }
        id
    }

    fn mark_identified(&mut self, id: i64)
        requires
            old(self).well_formed(),
            old(self)@.persons.contains_key(id),
        ensures
            final(self).well_formed(),
            final(self)@ == identified(old(self)@, id),
    {
        let ghost rows = person_rows(self.persons@);
        let i: usize = self.find_person(id);
        let ghost model = PersonModel { is_identified: true, ..self@.persons[id] };
        self.persons[i].is_identified = true;
        proof {
            assert(person_rows(self.persons@) =~= rows.update(i as int, (rows[i as int].0, model)));
            lemma_row_update(rows, i as int, model);
            lemma_person_replaced_ok(old(self)@, id, model);
        }
    }

    fn move_ids(&mut self, winner: i64, loser: i64)
        requires
            distinct_rows(id_rows(old(self).ids@)),
        ensures
            distinct_rows(id_rows(final(self).ids@)),
            final(self).persons == old(self).persons,
            final(self)@.ids == old(self)@.ids.map_values(
                |p: i64|
                    if p == loser {
                        winner
                    } else {
                        p
                    },
            ),
    {
        let ghost rows = id_rows(self.ids@);
        let ghost change = |p: i64|
            if p == loser {
                winner
            } else {
                p
            };
        let mut i: usize = 0;
        while i < self.ids.len()
            invariant
                i <= self.ids.len(),
                self.ids.len() == rows.len(),
                self.persons == old(self).persons,
                forall|j: int|
                    0 <= j < rows.len() ==> (#[trigger] id_rows(self.ids@)[j]).0 == rows[j].0
                        && id_rows(self.ids@)[j].1 == (if j < i && rows[j].1 == loser {
                        winner
                    } else {
                        rows[j].1
                    }),
            decreases self.ids.len() - i,
        {
            let ghost shown = id_rows(self.ids@);
            assert(shown[i as int].1 == self.ids@[i as int].person_id);
            if self.ids[i].person_id == loser {
                self.ids[i].person_id = winner;
            }
            assert(forall|j: int|
                0 <= j < rows.len() && j != i ==> #[trigger] id_rows(self.ids@)[j] == shown[j]);
            assert(id_rows(self.ids@)[i as int].0 == shown[i as int].0);
            i += 1;
        }
        proof {
            lemma_rows_changed(rows, id_rows(self.ids@), change);
        }
    }

    fn merge(
        &mut self,
        token: &str,
        loser_id: &str,
        winner_id: &str,
        dangerous: bool,
        t: i128,
    )
        requires
            old(self).well_formed(),
            forall|p: i64| #[trigger] old(self)@.persons.contains_key(p) ==> p < i64::MAX - 1,
        ensures
            final(self).well_formed(),
            final(self)@ == merged(
                old(self)@,
                (token@, winner_id@),
                (token@, loser_id@),
                dangerous,
                t as int,
            ),
    {
        let ghost start = self@;
        proof {
            lemma_ensured_ok(start, (token@, winner_id@), t as int, (i64::MAX - 2) as i64);
        }
        let winner: i64 = self.ensure_person(token, winner_id, t);
        proof {
            lemma_ensured_ok(self@, (token@, loser_id@), t as int, (i64::MAX - 1) as i64);
        }
        let loser: i64 = self.ensure_person(token, loser_id, t);
        let ghost both = self@;
        assert(both.ids[(token@, winner_id@)] == winner);
        if winner == loser {
            return ;
        }
        assert(both.persons.contains_key(winner));
        let l: usize = self.find_person(loser);
        if !dangerous && self.persons[l].is_identified {
            return ;
        }
        let w: usize = self.find_person(winner);
        proof {
            lemma_folded_ok(both, winner, loser);
        }
        let properties = merge_properties(&self.persons[w].properties, &self.persons[l].properties);
        let created_at: i128 = if self.persons[l].created_at < self.persons[w].created_at {
            self.persons[l].created_at
        } else {
            self.persons[w].created_at
        };
        self.move_ids(winner, loser);
        let ghost rows = person_rows(self.persons@);
        let ghost model = merged_person(both.persons[winner], both.persons[loser]);
        self.persons[w].properties = properties;
        self.persons[w].created_at = created_at;
        let ghost updated = person_rows(self.persons@);
        proof {
            assert(updated =~= rows.update(w as int, (rows[w as int].0, model)));
            lemma_row_update(rows, w as int, model);
            assert(updated[l as int].0 == loser);
            lemma_row_remove(updated, l as int);
        }
        let _ = self.persons.remove(l);
        proof {
            assert(person_rows(self.persons@) =~= updated.remove(l as int));
            let f = folded_into(both, winner, loser);
            assert(self@.ids =~= f.ids);
            assert(self@.persons =~= f.persons);
        }
    }

    fn apply_set_props(&mut self, token: &str, distinct_id: &str, properties: &JsonMap, t: i128)
        requires
            old(self).well_formed(),
            old(self)@.ids.contains_key((token@, distinct_id@)),
        ensures
            final(self).well_formed(),
            final(self)@ == properties_applied(
                old(self)@,
                (token@, distinct_id@),
                properties@,
                t as int,
            ),
    {
        let set_once = entry_object(properties, "$set_once");
        let set = entry_object(properties, "$set");
        if set_once.is_none() && set.is_none() {
            return ;
        }
        let ghost start = self@;
        let ghost key = (token@, distinct_id@);
        proof {
            lemma_properties_ok(start, key, properties@, t as int);
        }
        let id: i64 = match self.find_id(token, distinct_id) {
            Some(i) => self.ids[i].person_id,
            None => {
                assert(false);
                0
            },
        };
        let ghost rows = person_rows(self.persons@);
        let i: usize = self.find_person(id);
        let mut updated = self.persons[i].properties.copy();
        apply_properties(&mut updated, set_once, set);
        let ghost model = PersonModel { properties: updated@, ..start.persons[id] };
        self.persons[i].properties = updated;
        proof {
            assert(person_rows(self.persons@) =~= rows.update(i as int, (rows[i as int].0, model)));
            lemma_row_update(rows, i as int, model);
        }
    }

    /// Processes the identity effects of one event.
    pub fn process(&mut self, event: &CapturedEvent)
        requires
            old(self).well_formed(),
            has_room(old(self)@),
        ensures
            final(self).well_formed(),
            final(self)@ == processed(old(self)@, event@),
    {
        let token = event.token.as_str();
        let own = event.distinct_id.as_str();
        let t: i128 = event.timestamp;
        proof {
            reveal_strlit("$create_alias");
            reveal_strlit("$merge_dangerously");
            assert("$create_alias"@.len() != "$merge_dangerously"@.len());
            lemma_ensured_ok(
                self@,
                (event.token@, event.distinct_id@),
                t as int,
                (i64::MAX - 3) as i64,
            );
        }
        let person: i64 = self.ensure_person(token, own, t);
        if same(event.event.as_str(), "$identify") {
            self.mark_identified(person);
            if let Some(anon) = entry_text(&event.properties, "$anon_distinct_id") {
                proof {
                    lemma_merged_after_ensured(
                        self@,
                        (event.token@, event.distinct_id@),
                        (event.token@, anon@),
                        false,
                        t as int,
                        (i64::MAX - 2) as i64,
                    );
                }
                self.merge(token, anon.as_str(), own, false, t);
            }
            self.apply_set_props(token, own, &event.properties, t);
        } else if same(event.event.as_str(), "$create_alias") {
            if let Some(alias) = entry_text(&event.properties, "alias") {
                self.merge(token, alias.as_str(), own, false, t);
            }
        } else if same(event.event.as_str(), "$merge_dangerously") {
            if let Some(alias) = entry_text(&event.properties, "alias") {
                self.merge(token, alias.as_str(), own, true, t);
            }
        } else {
            self.apply_set_props(token, own, &event.properties, t);
        }
    }

    /// The person that a distinct id belongs to.
    pub fn person_of(&self, token: &str, distinct_id: &str) -> (r: Option<i64>)
        requires
            self.well_formed(),
        ensures
            match r {
                Some(p) => self@.ids.contains_key((token@, distinct_id@)) && self@.ids[(
                    token@,
                    distinct_id@,
                )] == p,
                None => !self@.ids.contains_key((token@, distinct_id@)),
            },
    {
        match self.find_id(token, distinct_id) {
            Some(i) => Some(self.ids[i].person_id),
            None => None,
        }
    }

    /// How many persons a token has.
    pub fn person_count(&self, token: &str) -> (r: usize)
        requires
            self.well_formed(),
        ensures
            r == token_persons(self@, token@).len(),
    {
        let mut count: usize = 0;
        let mut i: usize = 0;
        assert(self.persons@.take(0) =~= Seq::<Person>::empty());
        while i < self.persons.len()
            invariant
                i <= self.persons.len(),
                count <= i,
                count == persons_of(self.persons@.take(i as int), token@),
            decreases self.persons.len() - i,
        {
            assert(self.persons@.take(i + 1).drop_last() =~= self.persons@.take(i as int));
            if same(self.persons[i].token.as_str(), token) {
                count += 1;
            }
            i += 1;
        }
        assert(self.persons@.take(self.persons.len() as int) =~= self.persons@);
        proof {
            lemma_persons_of(self.persons@, token@);
            let all = self@.persons;
            assert(token_persons(self@, token@) =~= all.dom().filter(
                |p: i64| all[p].token == token@,
            ));
        }
        count
    }

    /// The properties of the person that a distinct id belongs to.
    pub fn person_properties(&self, token: &str, distinct_id: &str) -> (r: Option<JsonMap>)
        requires
            self.well_formed(),
        ensures
            match r {
                Some(m) => self@.ids.contains_key((token@, distinct_id@)) && m@
                    == self@.persons[self@.ids[(token@, distinct_id@)]].properties,
                None => !self@.ids.contains_key((token@, distinct_id@)),
            },
    {
        match self.find_id(token, distinct_id) {
            Some(i) => {
                let p: usize = self.find_person(self.ids[i].person_id);
                Some(self.persons[p].properties.copy())
            },
            None => None,
        }
    }
}

} // verus!
