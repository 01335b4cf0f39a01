//! Ordered, rebuildable identity and catalog projections.
//!
//! Events are applied in the order of the log. The guard on project and uuid comes first, so an event
//! that was applied before changes nothing.
use vstd::prelude::*;

use crate::capture::event::{entry_text, text_entry, CapturedEvent, EventModel};
use crate::counters::{known, seen_again, CountModel, CountTable};
use crate::identity::{apply_properties, entry_object, merge_properties, object_entry, set_properties};
use crate::json::{JsonMap, JsonValue};
use crate::pipeline::wal::WalCursor;
use crate::property_index::{count_properties, keys_counted, values_counted};
use crate::table::{distinct_rows, lemma_row_absent, lemma_row_at, lemma_row_key, lemma_row_push, lemma_row_remove, lemma_row_update, rows_map};
use crate::text::{blank, is_blank, same};

verus! {

/// Whether an event changed the projections or had been applied before.
#[derive(Debug, Clone, Copy, PartialEq, Eq, Structural)]
pub enum ApplyOutcome {
    Applied,
    Duplicate,
}

/// Why an event cannot be applied.
#[derive(Debug, Clone, Copy, PartialEq, Eq, Structural)]
pub enum ProjectionError {
    InvalidProjectId,
    CursorOutOfRange(WalCursor),
}

/// The message of an error.
pub open spec fn projection_message(error: ProjectionError) -> Seq<char> {
    match error {
        ProjectionError::InvalidProjectId => "project id is empty"@,
        ProjectionError::CursorOutOfRange(cursor) => "WAL cursor "@ + crate::text::decimal(
            cursor.segment as nat,
        ) + ":"@ + crate::text::decimal(cursor.byte_offset as nat)
            + " exceeds SQLite's integer range"@,
    }
}

impl ProjectionError {
    /// What the error says.
    pub fn message(&self) -> (r: String)
        ensures
            r@ == projection_message(*self),
    {
        match self {
            ProjectionError::InvalidProjectId => "project id is empty".to_owned(),
            ProjectionError::CursorOutOfRange(cursor) => {
                let mut out = "WAL cursor ".to_owned();
                out.append(crate::text::decimal_text(cursor.segment).as_str());
                out.append(":");
                out.append(crate::text::decimal_text(cursor.byte_offset).as_str());
                out.append(" exceeds SQLite's integer range");
                out
            },
        }
    }
}

/// A person of a project. Its id is the distinct id that it was first seen under.
pub struct ProjectedPerson {
    pub project_id: String,
    pub id: String,
    pub created_at: i128,
    pub is_identified: bool,
    pub properties: JsonMap,
    pub first_seen_key: String,
}

/// A distinct id of a project, and the person that it belongs to.
pub struct ProjectedId {
    pub project_id: String,
    pub distinct_id: String,
    pub person_id: String,
}

/// An event that has been applied, and where the log held it.
pub struct ProjectedEvent {
    pub project_id: String,
    pub uuid: u128,
    pub cursor: WalCursor,
}

/// The mathematical value of a projected person.
pub struct ProjectedModel {
    pub created_at: int,
    pub is_identified: bool,
    pub properties: Map<Seq<char>, JsonValue>,
    pub first_seen_key: Seq<char>,
}

/// A project and something within it.
pub type Scoped = (Seq<char>, Seq<char>);

/// The projected identities.
pub struct GraphModel {
    pub ids: Map<(Seq<char>, Seq<char>), Seq<char>>,
    pub persons: Map<(Seq<char>, Seq<char>), ProjectedModel>,
}

/// The projected catalog.
pub struct CatalogModel {
    pub event_names: Map<(Seq<char>, Seq<char>, Seq<char>), CountModel>,
    pub property_keys: Map<(Seq<char>, Seq<char>, Seq<char>), CountModel>,
    pub property_values: Map<(Seq<char>, Seq<char>, Seq<char>), CountModel>,
}

/// Everything that is projected.
pub struct ProjectionModel {
    pub applied: Map<(Seq<char>, u128), WalCursor>,
    pub graph: GraphModel,
    pub catalog: CatalogModel,
}

/// The projections of all projects.
pub struct Projections {
    pub applied: Vec<ProjectedEvent>,
    pub persons: Vec<ProjectedPerson>,
    pub ids: Vec<ProjectedId>,
    pub event_names: CountTable,
    pub property_keys: CountTable,
    pub property_values: CountTable,
}

/// The rows of applied events.
pub open spec fn applied_rows(rows: Seq<ProjectedEvent>) -> Seq<((Seq<char>, u128), WalCursor)> {
    rows.map_values(|e: ProjectedEvent| ((e.project_id@, e.uuid), e.cursor))
}

/// The rows of persons.
pub open spec fn projected_rows(rows: Seq<ProjectedPerson>) -> Seq<
    ((Seq<char>, Seq<char>), ProjectedModel),
> {
    rows.map_values(
        |p: ProjectedPerson|
            (
                (p.project_id@, p.id@),
                ProjectedModel {
                    created_at: p.created_at as int,
                    is_identified: p.is_identified,
                    properties: p.properties@,
                    first_seen_key: p.first_seen_key@,
                },
            ),
    )
}

/// The rows of distinct ids.
pub open spec fn scoped_rows(rows: Seq<ProjectedId>) -> Seq<((Seq<char>, Seq<char>), Seq<char>)> {
    rows.map_values(|d: ProjectedId| ((d.project_id@, d.distinct_id@), d.person_id@))
}

impl View for Projections {
    type V = ProjectionModel;

    open spec fn view(&self) -> ProjectionModel {
        ProjectionModel {
            applied: rows_map(applied_rows(self.applied@)),
            graph: GraphModel {
                ids: rows_map(scoped_rows(self.ids@)),
                persons: rows_map(projected_rows(self.persons@)),
            },
            catalog: CatalogModel {
                event_names: self.event_names@,
                property_keys: self.property_keys@,
                property_values: self.property_values@,
            },
        }
    }
}

/// Every distinct id belongs to a person of its project, and every person's id is one of the project's
/// distinct ids.
pub open spec fn graph_ok(g: GraphModel) -> bool {
    &&& forall|k: (Seq<char>, Seq<char>)| #[trigger]
        g.ids.contains_key(k) ==> g.persons.contains_key((k.0, g.ids[k]))
    &&& forall|p: (Seq<char>, Seq<char>)| #[trigger]
        g.persons.contains_key(p) ==> g.ids.contains_key(p)
}

impl Projections {
    /// What the rows always satisfy.
    pub open spec fn well_formed(&self) -> bool {
        &&& distinct_rows(applied_rows(self.applied@))
        &&& distinct_rows(projected_rows(self.persons@))
        &&& distinct_rows(scoped_rows(self.ids@))
        &&& self.event_names.well_formed()
        &&& self.property_keys.well_formed()
        &&& self.property_values.well_formed()
        &&& graph_ok(self@.graph)
    }
}

// ── What an event does ────────────────────────────────────────────────────────

/// The graph once a distinct id has a person: a new one takes the distinct id as its own.
pub open spec fn id_ensured(g: GraphModel, key: (Seq<char>, Seq<char>), t: int) -> GraphModel {
    if g.ids.contains_key(key) {
        g
    } else {
        GraphModel {
            ids: g.ids.insert(key, key.1),
            persons: g.persons.insert(
                key,
                ProjectedModel {
                    created_at: t,
                    is_identified: false,
                    properties: Map::empty(),
                    first_seen_key: key.1,
                },
            ),
        }
    }
}

/// The graph once a person is marked as identified.
pub open spec fn person_identified(g: GraphModel, person: (Seq<char>, Seq<char>)) -> GraphModel {
    GraphModel {
        ids: g.ids,
        persons: g.persons.insert(
            person,
            ProjectedModel { is_identified: true, ..g.persons[person] },
        ),
    }
}

/// The winner of a merge.
pub open spec fn merged_projection(winner: ProjectedModel, loser: ProjectedModel) -> ProjectedModel {
    ProjectedModel {
        created_at: if loser.created_at < winner.created_at {
            loser.created_at
        } else {
            winner.created_at
        },
        is_identified: winner.is_identified,
        properties: loser.properties.union_prefer_right(winner.properties),
        first_seen_key: winner.first_seen_key,
    }
}

/// Where the distinct ids of a project point once one person has been folded into another.
pub open spec fn ids_moved(
    ids: Map<(Seq<char>, Seq<char>), Seq<char>>,
    project: Seq<char>,
    winner: Seq<char>,
    loser: Seq<char>,
) -> Map<(Seq<char>, Seq<char>), Seq<char>> {
    Map::new(
        |k: (Seq<char>, Seq<char>)| ids.contains_key(k),
        |k: (Seq<char>, Seq<char>)|
            if k.0 == project && ids[k] == loser {
                winner
            } else {
                ids[k]
            },
    )
}

/// The graph once the person of one distinct id has been merged into that of another, unless they are
/// the same or the one to be merged is already identified.
pub open spec fn projection_merged(
    g: GraphModel,
    project: Seq<char>,
    losing: Seq<char>,
    winning: Seq<char>,
    t: int,
) -> GraphModel {
    let both = id_ensured(id_ensured(g, (project, winning), t), (project, losing), t);
    let winner = both.ids[(project, winning)];
    let loser = both.ids[(project, losing)];
    if winner == loser || both.persons[(project, loser)].is_identified {
        both
    } else {
        GraphModel {
            ids: ids_moved(both.ids, project, winner, loser),
            persons: both.persons.insert(
                (project, winner),
                merged_projection(both.persons[(project, winner)], both.persons[(project, loser)]),
            ).remove((project, loser)),
        }
    }
}

/// The graph once `$set_once` and `$set` have been applied to the person of a distinct id.
pub open spec fn projection_set(
    g: GraphModel,
    key: (Seq<char>, Seq<char>),
    properties: Map<Seq<char>, JsonValue>,
) -> GraphModel {
    let once = object_entry(properties, "$set_once"@);
    let set = object_entry(properties, "$set"@);
    if once is None && set is None {
        g
    } else {
        let p = (key.0, g.ids[key]);
        GraphModel {
            ids: g.ids,
            persons: g.persons.insert(
                p,
                ProjectedModel {
                    properties: set_properties(g.persons[p].properties, once, set),
                    ..g.persons[p]
                },
            ),
        }
    }
}

/// The anonymous id that an identifying event brings: a text that is not empty.
pub open spec fn anonymous_id(event: EventModel) -> Option<Seq<char>> {
    match text_entry(event.properties, "$anon_distinct_id"@) {
        Some(anon) if event.event == "$identify"@ && anon.len() > 0 => Some(anon),
        _ => None,
    }
}

/// The graph after an event.
pub open spec fn identity_applied(g: GraphModel, project: Seq<char>, event: EventModel) -> GraphModel {
    let key = (project, event.distinct_id);
    let with = id_ensured(g, key, event.timestamp);
    let known = if event.event == "$identify"@ {
        person_identified(with, (project, with.ids[key]))
    } else {
        with
    };
    let stitched = match anonymous_id(event) {
        Some(anon) => projection_merged(known, project, anon, event.distinct_id, event.timestamp),
        None => known,
    };
    projection_set(stitched, key, event.properties)
}

/// Milliseconds since the epoch.
pub open spec fn millis(t: int) -> int {
    t / 1_000_000
}

/// The catalog after an event.
pub open spec fn catalog_applied(c: CatalogModel, project: Seq<char>, event: EventModel) -> CatalogModel {
    let now = millis(event.timestamp);
    let name = (project, Seq::<char>::empty(), event.event);
    CatalogModel {
        event_names: c.event_names.insert(
            name,
            seen_again(known(c.event_names, name), Seq::empty(), now, true),
        ),
        property_keys: keys_counted(c.property_keys, project, event.properties, now, true),
        property_values: values_counted(c.property_values, project, event.properties, now, true),
    }
}

/// What is wrong with a project or a cursor, if anything.
pub open spec fn apply_fault(project: Seq<char>, cursor: WalCursor) -> Option<ProjectionError> {
    if blank(project) {
        Some(ProjectionError::InvalidProjectId)
    } else if cursor.segment > i64::MAX || cursor.byte_offset > i64::MAX {
        Some(ProjectionError::CursorOutOfRange(cursor))
    } else {
        None
    }
}

/// The projections after an event.
pub open spec fn event_applied(
    m: ProjectionModel,
    project: Seq<char>,
    event: EventModel,
    cursor: WalCursor,
) -> ProjectionModel {
    if m.applied.contains_key((project, event.uuid)) {
        m
    } else {
        ProjectionModel {
            applied: m.applied.insert((project, event.uuid), cursor),
            graph: identity_applied(m.graph, project, event),
            catalog: catalog_applied(m.catalog, project, event),
        }
    }
}

// ── Laws ──────────────────────────────────────────────────────────────────────

/// Applying an event again, wherever the log holds it, changes nothing: it counts exactly once.
pub proof fn law_events_count_once(
    m: ProjectionModel,
    project: Seq<char>,
    event: EventModel,
    again: EventModel,
    first: WalCursor,
    second: WalCursor,
)
    requires
        again.uuid == event.uuid,
    ensures
        event_applied(event_applied(m, project, event, first), project, again, second)
            == event_applied(m, project, event, first),
{
}

/// An event of one project leaves the persons of every other project alone.
pub proof fn law_projects_are_separate(
    g: GraphModel,
    project: Seq<char>,
    event: EventModel,
    other: (Seq<char>, Seq<char>),
)
    requires
        graph_ok(g),
        other.0 != project,
    ensures
        identity_applied(g, project, event).ids.contains_key(other) <==> g.ids.contains_key(other),
        g.ids.contains_key(other) ==> identity_applied(g, project, event).ids[other]
            == g.ids[other],
        identity_applied(g, project, event).persons.contains_key(other) <==> g.persons.contains_key(
            other,
        ),
        g.persons.contains_key(other) ==> identity_applied(g, project, event).persons[other]
            == g.persons[other],
{
}

proof fn lemma_id_ensured_ok(g: GraphModel, key: (Seq<char>, Seq<char>), t: int)
    requires
        graph_ok(g),
    ensures
        graph_ok(id_ensured(g, key, t)),
        id_ensured(g, key, t).ids.contains_key(key),
        id_ensured(g, key, t).persons.contains_key((key.0, id_ensured(g, key, t).ids[key])),
        forall|k: (Seq<char>, Seq<char>)| #[trigger]
            g.ids.contains_key(k) ==> id_ensured(g, key, t).ids.contains_key(k) && id_ensured(
                g,
                key,
                t,
            ).ids[k] == g.ids[k],
{
    let e = id_ensured(g, key, t);
    if !g.ids.contains_key(key) {
        assert forall|k: (Seq<char>, Seq<char>)| #[trigger] e.ids.contains_key(k) implies
            e.persons.contains_key((k.0, e.ids[k])) by {
            if k != key {
                assert(g.ids.contains_key(k));
            } else {
                assert((k.0, e.ids[k]) == key);
            }
        }
        assert forall|p: (Seq<char>, Seq<char>)| #[trigger] e.persons.contains_key(p) implies
            e.ids.contains_key(p) by {
            if p != key {
                assert(g.persons.contains_key(p));
            }
        }
    }
}

proof fn lemma_replaced_ok(g: GraphModel, p: (Seq<char>, Seq<char>), person: ProjectedModel)
    requires
        graph_ok(g),
        g.persons.contains_key(p),
    ensures
        graph_ok(GraphModel { ids: g.ids, persons: g.persons.insert(p, person) }),
{
    let n = GraphModel { ids: g.ids, persons: g.persons.insert(p, person) };
    assert forall|k: (Seq<char>, Seq<char>)| #[trigger] n.ids.contains_key(k) implies
        n.persons.contains_key((k.0, n.ids[k])) by {
        assert(g.ids.contains_key(k));
    }
    assert forall|q: (Seq<char>, Seq<char>)| #[trigger] n.persons.contains_key(q) implies
        n.ids.contains_key(q) by {
        assert(g.persons.contains_key(q));
    }
}

proof fn lemma_projection_merged_ok(
    g: GraphModel,
    project: Seq<char>,
    losing: Seq<char>,
    winning: Seq<char>,
    t: int,
)
    requires
        graph_ok(g),
    ensures
        graph_ok(projection_merged(g, project, losing, winning, t)),
        projection_merged(g, project, losing, winning, t).ids.contains_key((project, winning)),
        projection_merged(g, project, losing, winning, t).ids.contains_key((project, losing)),
{
    let one = id_ensured(g, (project, winning), t);
    lemma_id_ensured_ok(g, (project, winning), t);
    lemma_id_ensured_ok(one, (project, losing), t);
    let both = id_ensured(one, (project, losing), t);
    let winner = both.ids[(project, winning)];
    let loser = both.ids[(project, losing)];
    assert(one.ids.contains_key((project, winning)));
    assert(both.ids.contains_key((project, winning)));
    if winner != loser && !both.persons[(project, loser)].is_identified {
        let r = projection_merged(g, project, losing, winning, t);
        assert(both.persons.contains_key((project, winner)));
        assert forall|k: (Seq<char>, Seq<char>)| #[trigger] r.ids.contains_key(k) implies
            r.persons.contains_key((k.0, r.ids[k])) by {
            assert(both.ids.contains_key(k));
            assert(both.persons.contains_key((k.0, both.ids[k])));
        }
        assert forall|p: (Seq<char>, Seq<char>)| #[trigger] r.persons.contains_key(p) implies
            r.ids.contains_key(p) by {
            assert(both.persons.contains_key(p));
        }
    }
}

// ── The store ─────────────────────────────────────────────────────────────────

fn floor_millis(t: i128) -> (r: i128)
    ensures
        r == millis(t as int),
{
    if t >= 0 {
        t / 1_000_000
    } else {
        let back: i128 = -(t + 1);
        let q: i128 = back / 1_000_000;
        proof {
            let rest = back % 1_000_000;
            assert(back == q * 1_000_000 + rest);
            assert(t == (-q - 1) * 1_000_000 + (999_999 - rest));
            assert(t as int / 1_000_000 == -q - 1) by (nonlinear_arith)
                requires
                    t == (-q - 1) * 1_000_000 + (999_999 - rest),
                    0 <= rest < 1_000_000,
            ;
        }
        -q - 1
    }
}

impl Projections {
    /// No projections yet.
    pub fn new() -> (r: Projections)
        ensures
            r.well_formed(),
            r@.applied == Map::<(Seq<char>, u128), WalCursor>::empty(),
            r@.graph.ids == Map::<(Seq<char>, Seq<char>), Seq<char>>::empty(),
            r@.graph.persons == Map::<(Seq<char>, Seq<char>), ProjectedModel>::empty(),
            r.event_names.rows.len() == 0,
            r.property_keys.rows.len() == 0,
            r.property_values.rows.len() == 0,
    {
        Projections {
            applied: Vec::new(),
            persons: Vec::new(),
            ids: Vec::new(),
            event_names: CountTable::new(),
            property_keys: CountTable::new(),
            property_values: CountTable::new(),
        }
    }

    fn is_applied(&self, project: &str, uuid: u128) -> (r: bool)
        requires
            distinct_rows(applied_rows(self.applied@)),
        ensures
            r == self@.applied.contains_key((project@, uuid)),
    {
        let ghost rows = applied_rows(self.applied@);
        let mut i: usize = 0;
        while i < self.applied.len()
            invariant
                i <= self.applied.len(),
                rows == applied_rows(self.applied@),
                distinct_rows(rows),
                forall|j: int| 0 <= j < i ==> (#[trigger] rows[j]).0 != (project@, uuid),
            decreases self.applied.len() - i,
        {
            assert(rows[i as int].0 == (
                self.applied@[i as int].project_id@,
                self.applied@[i as int].uuid,
            ));
            if self.applied[i].uuid == uuid && same(self.applied[i].project_id.as_str(), project) {
                proof {
                    lemma_row_at(rows, i as int);
                }
                return true;
            }
            i += 1;
        }
        proof {
            lemma_row_absent(rows, (project@, uuid));
        }
        false
    }

    fn find_id(&self, project: &str, distinct_id: &str) -> (r: Option<usize>)
        requires
            distinct_rows(scoped_rows(self.ids@)),
        ensures
            match r {
                Some(i) => i < self.ids.len() && self@.graph.ids.contains_key(
                    (project@, distinct_id@),
                ) && self@.graph.ids[(project@, distinct_id@)] == self.ids@[i as int].person_id@,
                None => !self@.graph.ids.contains_key((project@, distinct_id@)),
            },
    {
        let ghost rows = scoped_rows(self.ids@);
        let ghost key = (project@, distinct_id@);
        let mut i: usize = 0;
        while i < self.ids.len()
            invariant
                i <= self.ids.len(),
                rows == scoped_rows(self.ids@),
                key == (project@, distinct_id@),
                distinct_rows(rows),
                forall|j: int| 0 <= j < i ==> (#[trigger] rows[j]).0 != key,
            decreases self.ids.len() - i,
        {
            assert(rows[i as int].0 == (
                self.ids@[i as int].project_id@,
                self.ids@[i as int].distinct_id@,
            ));
            if same(self.ids[i].project_id.as_str(), project) && same(
                self.ids[i].distinct_id.as_str(),
                distinct_id,
            ) {
                proof {
                    lemma_row_at(rows, i as int);
                }
                return Some(i);
            }
            i += 1;
        }
        proof {
            lemma_row_absent(rows, key);
        }
        None
    }

    fn find_person(&self, project: &str, id: &str) -> (r: usize)
        requires
            distinct_rows(projected_rows(self.persons@)),
            self@.graph.persons.contains_key((project@, id@)),
        ensures
            r < self.persons.len(),
            projected_rows(self.persons@)[r as int] == (
                (project@, id@),
                self@.graph.persons[(project@, id@)],
            ),
    {
        let ghost rows = projected_rows(self.persons@);
        let ghost key = (project@, id@);
        let mut i: usize = 0;
        while i < self.persons.len()
            invariant
                i <= self.persons.len(),
                rows == projected_rows(self.persons@),
                key == (project@, id@),
                distinct_rows(rows),
                self@.graph.persons == rows_map(rows),
                rows_map(rows).contains_key(key),
                forall|j: int| 0 <= j < i ==> (#[trigger] rows[j]).0 != key,
            decreases self.persons.len() - i,
        {
            assert(rows[i as int].0 == (
                self.persons@[i as int].project_id@,
                self.persons@[i as int].id@,
            ));
            if same(self.persons[i].project_id.as_str(), project) && same(
                self.persons[i].id.as_str(),
                id,
            ) {
                proof {
                    lemma_row_at(rows, i as int);
                }
                return i;
            }
            i += 1;
        }
        proof {
            lemma_row_absent(rows, key);
            assert(false);
        }
        0
    }

    /// Whether everything but the graph is as it was.
    pub open spec fn same_but_graph(&self, before: &Projections) -> bool {
        &&& self.applied == before.applied
        &&& self.event_names == before.event_names
        &&& self.property_keys == before.property_keys
        &&& self.property_values == before.property_values
    }

    fn ensure_person(&mut self, project: &str, distinct_id: &str, t: i128) -> (r: String)
        requires
            old(self).well_formed(),
        ensures
            final(self).well_formed(),
            final(self).same_but_graph(old(self)),
            final(self)@.graph == id_ensured(old(self)@.graph, (project@, distinct_id@), t as int),
            r@ == final(self)@.graph.ids[(project@, distinct_id@)],
            final(self)@.graph.ids.contains_key((project@, distinct_id@)),
            final(self)@.graph.persons.contains_key((project@, r@)),
    {
        let ghost key = (project@, distinct_id@);
        let ghost before = self@.graph;
        proof {
            lemma_id_ensured_ok(before, key, t as int);
        }
        if let Some(i) = self.find_id(project, distinct_id) {
            return self.ids[i].person_id.clone();
        }
        let ghost persons = projected_rows(self.persons@);
        let ghost ids = scoped_rows(self.ids@);
        let ghost model = ProjectedModel {
            created_at: t as int,
            is_identified: false,
            properties: Map::empty(),
            first_seen_key: distinct_id@,
        };
        self.persons.push(
            ProjectedPerson {
                project_id: project.to_owned(),
                id: distinct_id.to_owned(),
                created_at: t,
                is_identified: false,
                properties: JsonMap::new(),
                first_seen_key: distinct_id.to_owned(),
            },
        );
        self.ids.push(
            ProjectedId {
                project_id: project.to_owned(),
                distinct_id: distinct_id.to_owned(),
                person_id: distinct_id.to_owned(),
            },
        );
        proof {
            assert(!before.persons.contains_key(key));
            assert(projected_rows(self.persons@) =~= persons.push((key, model)));
            assert(scoped_rows(self.ids@) =~= ids.push((key, key.1)));
            lemma_row_push(persons, (key, model));
            lemma_row_push(ids, (key, key.1));
        }
        distinct_id.to_owned()
    }

    fn mark_identified(&mut self, project: &str, person: &str)
        requires
            old(self).well_formed(),
            old(self)@.graph.persons.contains_key((project@, person@)),
        ensures
            final(self).well_formed(),
            final(self).same_but_graph(old(self)),
            final(self)@.graph == person_identified(old(self)@.graph, (project@, person@)),
    {
        let ghost rows = projected_rows(self.persons@);
        let ghost key = (project@, person@);
        let i: usize = self.find_person(project, person);
        let ghost model = ProjectedModel { is_identified: true, ..self@.graph.persons[key] };
        self.persons[i].is_identified = true;
        proof {
            assert(projected_rows(self.persons@) =~= rows.update(
                i as int,
                (rows[i as int].0, model),
            ));
            lemma_row_update(rows, i as int, model);
            lemma_replaced_ok(old(self)@.graph, key, model);
        }
    }

    fn move_ids(&mut self, project: &str, winner: &str, loser: &str)
        requires
            distinct_rows(scoped_rows(old(self).ids@)),
        ensures
            distinct_rows(scoped_rows(final(self).ids@)),
            final(self).persons == old(self).persons,
            final(self).same_but_graph(old(self)),
            final(self)@.graph.ids == ids_moved(
                old(self)@.graph.ids,
                project@,
                winner@,
                loser@,
            ),
    {
        let ghost rows = scoped_rows(self.ids@);
        let mut i: usize = 0;
        while i < self.ids.len()
            invariant
                i <= self.ids.len(),
                self.ids.len() == rows.len(),
                self.persons == old(self).persons,
                self.same_but_graph(old(self)),
                forall|j: int|
                    0 <= j < rows.len() ==> (#[trigger] scoped_rows(self.ids@)[j]).0 == rows[j].0
                        && scoped_rows(self.ids@)[j].1 == (if j < i && rows[j].0.0 == project@
                        && rows[j].1 == loser@ {
                        winner@
                    } else {
                        rows[j].1
                    }),
            decreases self.ids.len() - i,
        {
            let ghost view = scoped_rows(self.ids@);
            assert(view[i as int] == (
                (self.ids@[i as int].project_id@, self.ids@[i as int].distinct_id@),
                self.ids@[i as int].person_id@,
            ));
            if same(self.ids[i].project_id.as_str(), project) && same(
                self.ids[i].person_id.as_str(),
                loser,
            ) {
                self.ids[i].person_id = winner.to_owned();
            }
            assert(forall|j: int|
                0 <= j < rows.len() && j != i ==> #[trigger] scoped_rows(self.ids@)[j] == view[j]);
            assert(scoped_rows(self.ids@)[i as int].0 == view[i as int].0);
            i += 1;
        }
        proof {
            let changed = scoped_rows(self.ids@);
            let target = ids_moved(rows_map(rows), project@, winner@, loser@);
            assert forall|a: int, b: int| 0 <= a < b < changed.len() implies (#[trigger] changed[a]).0
                != (#[trigger] changed[b]).0 by {
                assert(rows[a].0 != rows[b].0);
            }
            assert forall|j: int| 0 <= j < changed.len() implies target.contains_key(
                (#[trigger] changed[j]).0,
            ) && target[changed[j].0] == changed[j].1 by {
                lemma_row_at(rows, j);
            }
            assert forall|k: (Seq<char>, Seq<char>)| #[trigger] target.contains_key(
                k,
            ) implies exists|j: int| 0 <= j < changed.len() && (#[trigger] changed[j]).0 == k by {
                lemma_row_key(rows, k);
                let j = choose|j: int| 0 <= j < rows.len() && (#[trigger] rows[j]).0 == k;
                assert(changed[j].0 == k);
            }
            crate::table::lemma_rows_equal(changed, target);
        }
    }

    fn merge_persons(&mut self, project: &str, losing: &str, winning: &str, t: i128)
        requires
            old(self).well_formed(),
        ensures
            final(self).well_formed(),
            final(self).same_but_graph(old(self)),
            final(self)@.graph == projection_merged(
                old(self)@.graph,
                project@,
                losing@,
                winning@,
                t as int,
            ),
    {
        let ghost start = self@.graph;
        proof {
            lemma_projection_merged_ok(start, project@, losing@, winning@, t as int);
            lemma_id_ensured_ok(start, (project@, winning@), t as int);
        }
        let winner = self.ensure_person(project, winning, t);
        proof {
            lemma_id_ensured_ok(self@.graph, (project@, losing@), t as int);
        }
        let loser = self.ensure_person(project, losing, t);
        let ghost both = self@.graph;
        assert(both.ids[(project@, winning@)] == winner@);
        if same(winner.as_str(), loser.as_str()) {
            return ;
        }
        let l: usize = self.find_person(project, loser.as_str());
        if self.persons[l].is_identified {
            return ;
        }
        assert(both.persons.contains_key((project@, winner@))) by {
            assert(both.ids.contains_key((project@, winning@)));
        }
        let w: usize = self.find_person(project, winner.as_str());
        let properties = merge_properties(&self.persons[w].properties, &self.persons[l].properties);
        let created_at: i128 = if self.persons[l].created_at < self.persons[w].created_at {
            self.persons[l].created_at
        } else {
            self.persons[w].created_at
        };
        self.move_ids(project, winner.as_str(), loser.as_str());
        let ghost rows = projected_rows(self.persons@);
        let ghost model = merged_projection(
            both.persons[(project@, winner@)],
            both.persons[(project@, loser@)],
        );
        self.persons[w].properties = properties;
        self.persons[w].created_at = created_at;
        let ghost updated = projected_rows(self.persons@);
        proof {
            assert(updated =~= rows.update(w as int, (rows[w as int].0, model)));
            lemma_row_update(rows, w as int, model);
            assert(updated[l as int].0 == (project@, loser@));
            lemma_row_remove(updated, l as int);
        }
        let _ = self.persons.remove(l);
        proof {
            assert(projected_rows(self.persons@) =~= updated.remove(l as int));
            assert(self@.graph.ids =~= projection_merged(
                start,
                project@,
                losing@,
                winning@,
                t as int,
            ).ids);
            assert(self@.graph.persons =~= projection_merged(
                start,
                project@,
                losing@,
                winning@,
                t as int,
            ).persons);
        }
    }

    fn apply_person_properties(&mut self, project: &str, distinct_id: &str, properties: &JsonMap)
        requires
            old(self).well_formed(),
            old(self)@.graph.ids.contains_key((project@, distinct_id@)),
        ensures
            final(self).well_formed(),
            final(self).same_but_graph(old(self)),
            final(self)@.graph == projection_set(
                old(self)@.graph,
                (project@, distinct_id@),
                properties@,
            ),
    {
        let set_once = entry_object(properties, "$set_once");
        let set = entry_object(properties, "$set");
        if set_once.is_none() && set.is_none() {
            return ;
        }
        let ghost start = self@.graph;
        let person = match self.find_id(project, distinct_id) {
            Some(i) => self.ids[i].person_id.clone(),
            None => {
                assert(false);
                String::new()
            },
        };
        let ghost rows = projected_rows(self.persons@);
        let i: usize = self.find_person(project, person.as_str());
        let mut updated = self.persons[i].properties.copy();
        apply_properties(&mut updated, set_once, set);
        let ghost key = (project@, person@);
        let ghost model = ProjectedModel { properties: updated@, ..start.persons[key] };
        self.persons[i].properties = updated;
        proof {
            assert(projected_rows(self.persons@) =~= rows.update(
                i as int,
                (rows[i as int].0, model),
            ));
            lemma_row_update(rows, i as int, model);
            lemma_replaced_ok(start, key, model);
        }
    }

    /// Applies the identity effects of an event.
    pub fn apply_identity(&mut self, project: &str, event: &CapturedEvent)
        requires
            old(self).well_formed(),
        ensures
            final(self).well_formed(),
            final(self).same_but_graph(old(self)),
            final(self)@.graph == identity_applied(old(self)@.graph, project@, event@),
    {
        let own = event.distinct_id.as_str();
        let winner = self.ensure_person(project, own, event.timestamp);
        if same(event.event.as_str(), "$identify") {
            self.mark_identified(project, winner.as_str());
            if let Some(anon) = entry_text(&event.properties, "$anon_distinct_id") {
                if !anon.as_str().is_empty() {
                    proof {
                        lemma_projection_merged_ok(
                            self@.graph,
                            project@,
                            anon@,
                            event.distinct_id@,
                            event.timestamp as int,
                        );
                    }
                    self.merge_persons(project, anon.as_str(), own, event.timestamp);
                }
            }
        }
        self.apply_person_properties(project, own, &event.properties);
    }

    /// Applies the catalog effects of an event.
    pub fn apply_catalog(&mut self, project: &str, event: &CapturedEvent)
        requires
            old(self).well_formed(),
        ensures
            final(self).well_formed(),
            final(self).applied == old(self).applied,
            final(self).persons == old(self).persons,
            final(self).ids == old(self).ids,
            final(self)@.catalog == catalog_applied(old(self)@.catalog, project@, event@),
    {
        let last_seen: i128 = floor_millis(event.timestamp);
        assert(""@ =~= Seq::<char>::empty()) by {
            reveal_strlit("");
        }
        self.event_names.touch(project, "", event.event.as_str(), "", last_seen, true);
        count_properties(
            &mut self.property_keys,
            &mut self.property_values,
            project,
            &event.properties,
            last_seen,
            last_seen,
            true,
        );
    }

    /// Applies one event in the order of the log. An event that was applied before changes nothing.
    pub fn apply_captured_event(&mut self, project: &str, event: &CapturedEvent, cursor: WalCursor) -> (r: Result<
        ApplyOutcome,
        ProjectionError,
    >)
        requires
            old(self).well_formed(),
        ensures
            final(self).well_formed(),
            match apply_fault(project@, cursor) {
                Some(e) => r == Err::<ApplyOutcome, _>(e) && final(self)@ == old(self)@,
                None => r == Ok::<_, ProjectionError>(
                    if old(self)@.applied.contains_key((project@, event.uuid)) {
                        ApplyOutcome::Duplicate
                    } else {
                        ApplyOutcome::Applied
                    },
                ) && final(self)@ == event_applied(old(self)@, project@, event@, cursor),
            },
    {
        if is_blank(project) {
            return Err(ProjectionError::InvalidProjectId);
        }
        if cursor.segment > 0x7fff_ffff_ffff_ffff || cursor.byte_offset > 0x7fff_ffff_ffff_ffff {
            return Err(ProjectionError::CursorOutOfRange(cursor));
        }
        if self.is_applied(project, event.uuid) {
            return Ok(ApplyOutcome::Duplicate);
        }
        let ghost rows = applied_rows(self.applied@);
        self.applied.push(
            ProjectedEvent { project_id: project.to_owned(), uuid: event.uuid, cursor },
        );
        proof {
            assert(applied_rows(self.applied@) =~= rows.push(((project@, event.uuid), cursor)));
            lemma_row_push(rows, ((project@, event.uuid), cursor));
        }
        self.apply_identity(project, event);
        self.apply_catalog(project, event);
        Ok(ApplyOutcome::Applied)
    }
}

} // verus!
