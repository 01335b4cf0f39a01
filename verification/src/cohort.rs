//! Cohorts: lists of people, kept by hand or by what they did.
use vstd::prelude::*;
use vstd::string::*;

use crate::capture::event::uuid_version;
use crate::digest::{fresh_v4, uuid_text, uuid_text_of};
use crate::order::{outcome, views};
use crate::rows::{
    append, duplicate_all, find, found, holds_somewhere, index_of, lemma_index_none, lemma_index_of,
    lemma_push_contains, lemma_removed, lemma_runs_stop, lemma_selected, lemma_sorted,
    lemma_steps_error, remove, removed, replace, runs, select_sorted, selected, sorted, steps,
    Query, Row, Sort,
};
use crate::text::{chars_of, joined, same, text_at_most, text_le};

verus! {

// ── Types ─────────────────────────────────────────────────────────────────────

/// How a cohort is kept.
#[derive(Debug, Clone, Copy, PartialEq, Eq, Structural)]
pub enum CohortKind {
    Static,
    Behavioral,
}

/// How often an event has to have happened.
#[derive(Debug, Clone, Copy, PartialEq, Eq, Structural)]
pub enum CohortOp {
    Gte,
    Lte,
    Eq,
}

/// Who belongs to a cohort.
pub enum CohortDefinition {
    Static { distinct_ids: Vec<String> },
    Behavioral { event: String, operator: CohortOp, count: i64, window_days: u32 },
}

/// The mathematical value of a [`CohortDefinition`].
pub enum DefinitionModel {
    Static(Seq<Seq<char>>),
    Behavioral(Seq<char>, CohortOp, i64, u32),
}

impl View for CohortDefinition {
    type V = DefinitionModel;

    open spec fn view(&self) -> DefinitionModel {
        match self {
            CohortDefinition::Static { distinct_ids } => DefinitionModel::Static(
                views(distinct_ids@),
            ),
            CohortDefinition::Behavioral { event, operator, count, window_days } =>
                DefinitionModel::Behavioral(event@, *operator, *count, *window_days),
        }
    }
}

impl Row for CohortDefinition {
    fn duplicate(&self) -> (r: Self) {
        match self {
            CohortDefinition::Static { distinct_ids } => CohortDefinition::Static {
                distinct_ids: duplicate_all(distinct_ids),
            },
            CohortDefinition::Behavioral { event, operator, count, window_days } =>
                CohortDefinition::Behavioral {
                    event: event.clone(),
                    operator: *operator,
                    count: *count,
                    window_days: *window_days,
                },
        }
    }
}

/// A cohort.
pub struct CohortDef {
    pub id: String,
    pub token: String,
    pub name: String,
    pub kind: CohortKind,
    pub definition: CohortDefinition,
}

/// The mathematical value of a [`CohortDef`].
pub struct CohortModel {
    pub id: Seq<char>,
    pub token: Seq<char>,
    pub name: Seq<char>,
    pub kind: CohortKind,
    pub definition: DefinitionModel,
}

impl View for CohortDef {
    type V = CohortModel;

    open spec fn view(&self) -> CohortModel {
        CohortModel {
            id: self.id@,
            token: self.token@,
            name: self.name@,
            kind: self.kind,
            definition: self.definition@,
        }
    }
}

impl Row for CohortDef {
    fn duplicate(&self) -> (r: Self) {
        CohortDef {
            id: self.id.clone(),
            token: self.token.clone(),
            name: self.name.clone(),
            kind: self.kind,
            definition: self.definition.duplicate(),
        }
    }
}

/// Why a request fails.
#[derive(Debug)]
pub enum CohortError {
    Db(String),
    NotFound,
    DuckDb(String),
}

/// The mathematical value of a [`CohortError`].
pub enum CohortFault {
    Db(Seq<char>),
    NotFound,
    DuckDb(Seq<char>),
}

impl View for CohortError {
    type V = CohortFault;

    open spec fn view(&self) -> CohortFault {
        match self {
            CohortError::Db(s) => CohortFault::Db(s@),
            CohortError::NotFound => CohortFault::NotFound,
            CohortError::DuckDb(s) => CohortFault::DuckDb(s@),
        }
    }
}

/// The name under which a kind is stored.
pub open spec fn kind_name(kind: CohortKind) -> Seq<char> {
    match kind {
        CohortKind::Static => "static"@,
        CohortKind::Behavioral => "behavioral"@,
    }
}

/// The kind that a stored name stands for.
pub open spec fn kind_named(name: Seq<char>) -> CohortKind {
    if name == "behavioral"@ {
        CohortKind::Behavioral
    } else {
        CohortKind::Static
    }
}

/// The name under which a kind is stored.
pub fn kind_str(kind: CohortKind) -> (r: &'static str)
    ensures
        r@ == kind_name(kind),
{
    match kind {
        CohortKind::Static => "static",
        CohortKind::Behavioral => "behavioral",
    }
}

/// Reads a stored kind. What is not known is static.
pub fn parse_kind(name: &str) -> (r: CohortKind)
    ensures
        r == kind_named(name@),
{
    if same(name, "behavioral") {
        CohortKind::Behavioral
    } else {
        CohortKind::Static
    }
}

/// A kind is read back as it was stored.
pub proof fn law_kinds_read_back(kind: CohortKind)
    ensures
        kind_named(kind_name(kind)) == kind,
{
    reveal_strlit("static");
    reveal_strlit("behavioral");
    assert("static"@.len() != "behavioral"@.len());
}

// ── Rows ──────────────────────────────────────────────────────────────────────

/// A stored cohort.
pub struct CohortRow {
    pub def: CohortDef,
    pub created_at: i64,
    pub updated_at: i64,
}

/// The mathematical value of a [`CohortRow`].
pub struct CohortRowModel {
    pub def: CohortModel,
    pub created_at: i64,
    pub updated_at: i64,
}

impl View for CohortRow {
    type V = CohortRowModel;

    open spec fn view(&self) -> CohortRowModel {
        CohortRowModel {
            def: self.def@,
            created_at: self.created_at,
            updated_at: self.updated_at,
        }
    }
}

impl Row for CohortRow {
    fn duplicate(&self) -> (r: Self) {
        CohortRow {
            def: self.def.duplicate(),
            created_at: self.created_at,
            updated_at: self.updated_at,
        }
    }
}

/// A member of a cohort.
pub struct CohortMember {
    pub cohort_id: String,
    pub distinct_id: String,
    pub added_at: i64,
}

/// The mathematical value of a [`CohortMember`].
pub struct CohortMemberModel {
    pub cohort_id: Seq<char>,
    pub distinct_id: Seq<char>,
    pub added_at: i64,
}

impl View for CohortMember {
    type V = CohortMemberModel;

    open spec fn view(&self) -> CohortMemberModel {
        CohortMemberModel {
            cohort_id: self.cohort_id@,
            distinct_id: self.distinct_id@,
            added_at: self.added_at,
        }
    }
}

impl Row for CohortMember {
    fn duplicate(&self) -> (r: Self) {
        CohortMember {
            cohort_id: self.cohort_id.clone(),
            distinct_id: self.distinct_id.clone(),
            added_at: self.added_at,
        }
    }
}

/// The cohort with an id.
pub open spec fn cohort_is(id: Seq<char>) -> spec_fn(CohortRowModel) -> bool {
    |row: CohortRowModel| row.def.id == id
}

/// Tests [`cohort_is`].
pub struct CohortById<'a> {
    pub id: &'a str,
}

impl<'a> Query<CohortRow> for CohortById<'a> {
    open spec fn pred(&self) -> spec_fn(CohortRowModel) -> bool {
        cohort_is(self.id@)
    }

    fn test(&self, row: &CohortRow) -> (r: bool) {
        same(row.def.id.as_str(), self.id)
    }
}

/// The cohorts of a token.
pub open spec fn cohort_of(token: Seq<char>) -> spec_fn(CohortRowModel) -> bool {
    |row: CohortRowModel| row.def.token == token
}

/// Tests [`cohort_of`].
pub struct CohortOf<'a> {
    pub token: &'a str,
}

impl<'a> Query<CohortRow> for CohortOf<'a> {
    open spec fn pred(&self) -> spec_fn(CohortRowModel) -> bool {
        cohort_of(self.token@)
    }

    fn test(&self, row: &CohortRow) -> (r: bool) {
        same(row.def.token.as_str(), self.token)
    }
}

/// The members of a cohort.
pub open spec fn member_of(cohort: Seq<char>) -> spec_fn(CohortMemberModel) -> bool {
    |row: CohortMemberModel| row.cohort_id == cohort
}

/// Tests [`member_of`].
pub struct MemberOfCohort<'a> {
    pub cohort: &'a str,
}

impl<'a> Query<CohortMember> for MemberOfCohort<'a> {
    open spec fn pred(&self) -> spec_fn(CohortMemberModel) -> bool {
        member_of(self.cohort@)
    }

    fn test(&self, row: &CohortMember) -> (r: bool) {
        same(row.cohort_id.as_str(), self.cohort)
    }
}

/// One member of a cohort.
pub open spec fn member_is(cohort: Seq<char>, person: Seq<char>) -> spec_fn(CohortMemberModel) -> bool {
    |row: CohortMemberModel| row.cohort_id == cohort && row.distinct_id == person
}

/// Tests [`member_is`].
pub struct MemberIs<'a> {
    pub cohort: &'a str,
    pub person: &'a str,
}

impl<'a> Query<CohortMember> for MemberIs<'a> {
    open spec fn pred(&self) -> spec_fn(CohortMemberModel) -> bool {
        member_is(self.cohort@, self.person@)
    }

    fn test(&self, row: &CohortMember) -> (r: bool) {
        same(row.cohort_id.as_str(), self.cohort) && same(row.distinct_id.as_str(), self.person)
    }
}

/// Cohorts by name.
pub open spec fn cohort_order() -> spec_fn(CohortRowModel, CohortRowModel) -> bool {
    |a: CohortRowModel, b: CohortRowModel|
        a.def.name != b.def.name && text_le(a.def.name, b.def.name)
}

/// Decides [`cohort_order`].
pub struct CohortOrder;

impl Sort<CohortRow> for CohortOrder {
    open spec fn before(&self) -> spec_fn(CohortRowModel, CohortRowModel) -> bool {
        cohort_order()
    }

    fn is_before(&self, a: &CohortRow, b: &CohortRow) -> (r: bool) {
        !same(a.def.name.as_str(), b.def.name.as_str()) && text_at_most(
            a.def.name.as_str(),
            b.def.name.as_str(),
        )
    }
}

/// Members by when they were added.
pub open spec fn member_order() -> spec_fn(CohortMemberModel, CohortMemberModel) -> bool {
    |a: CohortMemberModel, b: CohortMemberModel| a.added_at < b.added_at
}

/// Decides [`member_order`].
pub struct MemberOrder;

impl Sort<CohortMember> for MemberOrder {
    open spec fn before(&self) -> spec_fn(CohortMemberModel, CohortMemberModel) -> bool {
        member_order()
    }

    fn is_before(&self, a: &CohortMember, b: &CohortMember) -> (r: bool) {
        a.added_at < b.added_at
    }
}

/// The store of cohorts.
pub struct CohortStore {
    pub cohorts: Vec<CohortRow>,
    pub members: Vec<CohortMember>,
}

/// The mathematical value of the store.
pub struct CohortsModel {
    pub cohorts: Seq<CohortRowModel>,
    pub members: Seq<CohortMemberModel>,
}

impl View for CohortStore {
    type V = CohortsModel;

    open spec fn view(&self) -> CohortsModel {
        CohortsModel { cohorts: views(self.cohorts@), members: views(self.members@) }
    }
}

// ── What requests lead to ─────────────────────────────────────────────────────

/// The fault of a member of a cohort that is not there.
pub open spec fn dangling() -> CohortFault {
    CohortFault::Db("FOREIGN KEY constraint failed"@)
}

fn dangling_error() -> (r: CohortError)
    ensures
        r@ == dangling(),
{
    CohortError::Db("FOREIGN KEY constraint failed".to_owned())
}

/// The fault of a cohort whose id is taken.
pub open spec fn cohort_taken() -> CohortFault {
    CohortFault::Db("UNIQUE constraint failed: cohorts.id"@)
}

/// The fault of a member that is there.
pub open spec fn member_taken() -> CohortFault {
    CohortFault::Db(
        "UNIQUE constraint failed: cohort_members.cohort_id, cohort_members.distinct_id"@,
    )
}

/// What making a cohort leads to, given its id.
pub open spec fn cohort_made(m: CohortsModel, def: CohortModel, now: i64) -> (
    CohortsModel,
    Result<CohortModel, CohortFault>,
) {
    if holds_somewhere(m.cohorts, cohort_is(def.id)) {
        (m, Err(cohort_taken()))
    } else {
        (
            CohortsModel {
                cohorts: m.cohorts.push(CohortRowModel { def, created_at: now, updated_at: now }),
                ..m
            },
            Ok(def),
        )
    }
}

/// The store once a person is added to a cohort, unless they are in it.
pub open spec fn member_added(cohort: Seq<char>, now: i64) -> spec_fn(CohortsModel, Seq<char>) -> (
    CohortsModel,
    Option<CohortFault>,
) {
    |m: CohortsModel, person: Seq<char>|
        if holds_somewhere(m.members, member_is(cohort, person)) {
            (m, None)
        } else if !holds_somewhere(m.cohorts, cohort_is(cohort)) {
            (m, Some(dangling()))
        } else {
            (
                CohortsModel {
                    members: m.members.push(
                        CohortMemberModel {
                            cohort_id: cohort,
                            distinct_id: person,
                            added_at: now,
                        },
                    ),
                    ..m
                },
                None,
            )
        }
}

/// Members once a person is put into a cohort that they are not in.
pub open spec fn member_put(cohort: Seq<char>, now: i64) -> spec_fn(
    Seq<CohortMemberModel>,
    Seq<char>,
) -> Result<Seq<CohortMemberModel>, CohortFault> {
    |members: Seq<CohortMemberModel>, person: Seq<char>|
        if holds_somewhere(members, member_is(cohort, person)) {
            Err(member_taken())
        } else {
            Ok(
                members.push(
                    CohortMemberModel { cohort_id: cohort, distinct_id: person, added_at: now },
                ),
            )
        }
}

/// Members of a cohort without some people.
pub open spec fn members_without(
    members: Seq<CohortMemberModel>,
    cohort: Seq<char>,
    people: Seq<Seq<char>>,
) -> Seq<CohortMemberModel>
    decreases people.len(),
{
    if people.len() == 0 {
        members
    } else {
        removed(
            members_without(members, cohort, people.drop_last()),
            member_is(cohort, people.last()),
        )
    }
}

/// A cohort that was changed now, if it has an id.
pub open spec fn touched(row: CohortRowModel, id: Seq<char>, now: i64) -> CohortRowModel {
    if row.def.id == id {
        CohortRowModel { updated_at: now, ..row }
    } else {
        row
    }
}

/// The store once the members of a cohort are replaced, or why they are not. What fails changes nothing.
pub open spec fn members_set(
    m: CohortsModel,
    cohort: Seq<char>,
    people: Seq<Seq<char>>,
    now: i64,
) -> Result<CohortsModel, CohortFault> {
    if people.len() > 0 && !holds_somewhere(m.cohorts, cohort_is(cohort)) {
        Err(dangling())
    } else {
        match steps(removed(m.members, member_of(cohort)), people, member_put(cohort, now)) {
            Err(fault) => Err(fault),
            Ok(members) => Ok(
                CohortsModel {
                    cohorts: m.cohorts.map_values(
                        |row: CohortRowModel| touched(row, cohort, now),
                    ),
                    members,
                },
            ),
        }
    }
}

/// The people among members.
pub open spec fn people_of(members: Seq<CohortMemberModel>) -> Seq<Seq<char>> {
    members.map_values(|row: CohortMemberModel| row.distinct_id)
}

// ── Behavior ──────────────────────────────────────────────────────────────────

/// An operator in a query.
pub open spec fn op_sql(op: CohortOp) -> Seq<char> {
    match op {
        CohortOp::Gte => ">="@,
        CohortOp::Lte => "<="@,
        CohortOp::Eq => "="@,
    }
}

/// A text with every quote doubled.
pub open spec fn quotes_doubled(s: Seq<char>) -> Seq<char>
    decreases s.len(),
{
    if s.len() == 0 {
        Seq::empty()
    } else if s.last() == '\'' {
        quotes_doubled(s.drop_last()).push('\'').push('\'')
    } else {
        quotes_doubled(s.drop_last()).push(s.last())
    }
}

/// The query for the people who did something often enough. An event that was stored twice counts once. Its
/// parameters are the token, the event, the window in days and the count.
pub open spec fn behavior_sql(glob: Seq<char>, op: CohortOp) -> Seq<char> {
    "WITH e AS (SELECT * FROM read_parquet('"@ + quotes_doubled(glob)
        + "') WHERE token = ?1 QUALIFY row_number() OVER (PARTITION BY uuid ORDER BY timestamp) = 1)\n                 SELECT distinct_id FROM e\n                 WHERE event = ?2 AND epoch(timestamp) >= epoch(now()) - (?3 * 86400)\n                 GROUP BY distinct_id\n                 HAVING count(*) "@
        + op_sql(op) + " ?4"@
}

fn double_quotes(s: &str) -> (r: String)
    ensures
        r@ == quotes_doubled(s@),
{
    let chars = chars_of(s);
    let mut out = String::new();
    let mut i: usize = 0;
    assert(chars@.take(0) =~= Seq::<char>::empty());
    assert(out@ =~= Seq::<char>::empty());
    while i < chars.len()
        invariant
            i <= chars.len(),
            chars@ == s@,
            out@ == quotes_doubled(chars@.take(i as int)),
        decreases chars.len() - i,
    {
        assert(chars@.take(i + 1).drop_last() =~= chars@.take(i as int));
        if chars[i] == '\'' {
            out.push('\'');
        }
        out.push(chars[i]);
        i += 1;
    }
    assert(chars@.take(chars.len() as int) =~= s@);
    out
}

/// Writes the query for the people who did something often enough.
pub fn behavioral_sql(glob: &str, op: CohortOp) -> (r: String)
    ensures
        r@ == behavior_sql(glob@, op),
{
    let mut out = joined(
        "WITH e AS (SELECT * FROM read_parquet('",
        double_quotes(glob).as_str(),
    );
    out.append(
        "') WHERE token = ?1 QUALIFY row_number() OVER (PARTITION BY uuid ORDER BY timestamp) = 1)\n                 SELECT distinct_id FROM e\n                 WHERE event = ?2 AND epoch(timestamp) >= epoch(now()) - (?3 * 86400)\n                 GROUP BY distinct_id\n                 HAVING count(*) ",
    );
    out.append(
        match op {
            CohortOp::Gte => ">=",
            CohortOp::Lte => "<=",
            CohortOp::Eq => "=",
        },
    );
    out.append(" ?4");
    out
}

/// A query whose people become the members of a cohort.
pub struct BehaviorQuery {
    pub cohort_id: String,
    pub sql: String,
    pub event: String,
    pub window_days: u32,
    pub count: i64,
}

/// The mathematical value of a [`BehaviorQuery`].
pub struct BehaviorModel {
    pub cohort_id: Seq<char>,
    pub sql: Seq<char>,
    pub event: Seq<char>,
    pub window_days: u32,
    pub count: i64,
}

impl View for BehaviorQuery {
    type V = BehaviorModel;

    open spec fn view(&self) -> BehaviorModel {
        BehaviorModel {
            cohort_id: self.cohort_id@,
            sql: self.sql@,
            event: self.event@,
            window_days: self.window_days,
            count: self.count,
        }
    }
}

/// The queries of cohorts that are kept by behavior.
pub open spec fn behavior_queries(cohorts: Seq<CohortModel>, glob: Seq<char>) -> Seq<BehaviorModel>
    decreases cohorts.len(),
{
    if cohorts.len() == 0 {
        Seq::empty()
    } else {
        let before = behavior_queries(cohorts.drop_last(), glob);
        let last = cohorts.last();
        match last.definition {
            DefinitionModel::Behavioral(event, op, count, window_days)
                if last.kind == CohortKind::Behavioral => before.push(
                BehaviorModel {
                    cohort_id: last.id,
                    sql: behavior_sql(glob, op),
                    event,
                    window_days,
                    count,
                },
            ),
            _ => before,
        }
    }
}

/// The store, and how many cohorts were evaluated, once the people found for each cohort are its members. A
/// cohort for which no one is found is left without members.
pub open spec fn reevaluated(now: i64) -> spec_fn(
    (CohortsModel, nat),
    (Seq<char>, Seq<Seq<char>>),
) -> ((CohortsModel, nat), Option<CohortFault>) {
    |state: (CohortsModel, nat), result: (Seq<char>, Seq<Seq<char>>)|
        match members_set(state.0, result.0, result.1, now) {
            Ok(next) => ((next, state.1 + 1), None),
            Err(fault) => (state, Some(fault)),
        }
}

/// The people found for a cohort.
pub struct BehaviorResult {
    pub cohort_id: String,
    pub members: Vec<String>,
}

impl View for BehaviorResult {
    type V = (Seq<char>, Seq<Seq<char>>);

    open spec fn view(&self) -> (Seq<char>, Seq<Seq<char>>) {
        (self.cohort_id@, views(self.members@))
    }
}

/// The cohorts of a token by name.
pub open spec fn cohorts_listed(m: CohortsModel, token: Seq<char>) -> Seq<CohortModel> {
    sorted(selected(m.cohorts, cohort_of(token)), cohort_order()).map_values(
        |row: CohortRowModel| row.def,
    )
}

// ── Store ─────────────────────────────────────────────────────────────────────

impl CohortStore {
    /// An empty store.
    pub fn open_in_memory() -> (r: Result<CohortStore, CohortError>)
        ensures
            r matches Ok(store) && store@ == (CohortsModel {
                cohorts: Seq::empty(),
                members: Seq::empty(),
            }),
    {
        let store = CohortStore { cohorts: Vec::new(), members: Vec::new() };
        assert(store@.cohorts =~= Seq::empty());
        assert(store@.members =~= Seq::empty());
        Ok(store)
    }

    /// Makes a cohort, given its id.
    pub fn create_with(&mut self, def: CohortDef, now: i64) -> (r: Result<CohortDef, CohortError>)
        ensures
            (final(self)@, outcome(r)) == cohort_made(old(self)@, def@, now),
    {
        if find(&self.cohorts, &CohortById { id: def.id.as_str() }).is_some() {
            return Err(CohortError::Db("UNIQUE constraint failed: cohorts.id".to_owned()));
        }
        let made = def.duplicate();
        append(&mut self.cohorts, CohortRow { def, created_at: now, updated_at: now });
        Ok(made)
    }

    /// Makes a cohort.
    pub fn create(
        &mut self,
        token: &str,
        name: &str,
        kind: CohortKind,
        definition: CohortDefinition,
        now: i64,
    ) -> (r: Result<CohortDef, CohortError>)
        ensures
            exists|number: u128|
                uuid_version(number) == 4 && (final(self)@, outcome(r)) == cohort_made(
                    old(self)@,
                    (CohortModel {
                        id: #[trigger] uuid_text_of(number),
                        token: token@,
                        name: name@,
                        kind,
                        definition: definition@,
                    }),
                    now,
                ),
    {
        let number: u128 = fresh_v4();
        let id = uuid_text(number);
        self.create_with(
            CohortDef { id, token: token.to_owned(), name: name.to_owned(), kind, definition },
            now,
        )
    }

    /// The cohorts of a token by name.
    pub fn list(&self, token: &str) -> (r: Result<Vec<CohortDef>, CohortError>)
        ensures
            r matches Ok(cohorts) && views(cohorts@) == cohorts_listed(self@, token@),
    {
        let rows = select_sorted(&self.cohorts, &CohortOf { token }, &CohortOrder);
        let mut out: Vec<CohortDef> = Vec::new();
        let mut i: usize = 0;
        while i < rows.len()
            invariant
                i <= rows.len(),
                out@.len() == i,
                forall|j: int| 0 <= j < i ==> (#[trigger] out@[j])@ == rows@[j]@.def,
            decreases rows.len() - i,
        {
            out.push(rows[i].def.duplicate());
            i += 1;
        }
        assert(views(out@) =~= views(rows@).map_values(|row: CohortRowModel| row.def));
        Ok(out)
    }

    /// The cohort with an id.
    pub fn get(&self, id: &str) -> (r: Result<CohortDef, CohortError>)
        ensures
            match found(self@.cohorts, cohort_is(id@)) {
                Some(row) => r matches Ok(def) && def@ == row.def,
                None => r matches Err(e) && e@ == CohortFault::NotFound,
            },
    {
        match find(&self.cohorts, &CohortById { id }) {
            Some(i) => Ok(self.cohorts[i].def.duplicate()),
            None => Err(CohortError::NotFound),
        }
    }

    /// Deletes a cohort with its members.
    pub fn delete(&mut self, id: &str) -> (r: Result<(), CohortError>)
        ensures
            r is Ok,
            final(self)@ == (CohortsModel {
                cohorts: removed(old(self)@.cohorts, cohort_is(id@)),
                members: removed(old(self)@.members, member_of(id@)),
            }),
    {
        remove(&mut self.members, &MemberOfCohort { cohort: id });
        remove(&mut self.cohorts, &CohortById { id });
        Ok(())
    }

    /// Adds people to a cohort. Those who are in it already stay as they are.
    pub fn add_members(&mut self, cohort_id: &str, distinct_ids: &Vec<String>, now: i64) -> (r: Result<
        (),
        CohortError,
    >)
        ensures
            ({
                let (next, fault) = runs(
                    old(self)@,
                    views(distinct_ids@),
                    member_added(cohort_id@, now),
                );
                final(self)@ == next && match fault {
                    Some(fault) => r matches Err(e) && e@ == fault,
                    None => r is Ok,
                }
            }),
    {
        let ghost all = views(distinct_ids@);
        let ghost start = self@;
        let mut i: usize = 0;
        assert(all.take(0) =~= Seq::<Seq<char>>::empty());
        while i < distinct_ids.len()
            invariant
                i <= distinct_ids.len(),
                all == views(distinct_ids@),
                start == old(self)@,
                runs(start, all.take(i as int), member_added(cohort_id@, now)) == (
                    self@,
                    None::<CohortFault>,
                ),
            decreases distinct_ids.len() - i,
        {
            assert(all.take(i + 1).drop_last() =~= all.take(i as int));
            assert(all.take(i + 1).last() == distinct_ids@[i as int]@);
            proof {
                lemma_runs_stop(start, all, member_added(cohort_id@, now), i + 1);
            }
            let person = distinct_ids[i].as_str();
            if find(&self.members, &MemberIs { cohort: cohort_id, person }).is_none() {
                if find(&self.cohorts, &CohortById { id: cohort_id }).is_none() {
                    return Err(dangling_error());
                }
                append(
                    &mut self.members,
                    CohortMember {
                        cohort_id: cohort_id.to_owned(),
                        distinct_id: person.to_owned(),
                        added_at: now,
                    },
                );
            }
            i += 1;
        }
        assert(all.take(all.len() as int) =~= all);
        Ok(())
    }

    /// Removes people from a cohort.
    pub fn remove_members(&mut self, cohort_id: &str, distinct_ids: &Vec<String>) -> (r: Result<
        (),
        CohortError,
    >)
        ensures
            r is Ok,
            final(self)@ == (CohortsModel {
                members: members_without(old(self)@.members, cohort_id@, views(distinct_ids@)),
                ..old(self)@
            }),
    {
        let ghost all = views(distinct_ids@);
        let mut i: usize = 0;
        assert(all.take(0) =~= Seq::<Seq<char>>::empty());
        while i < distinct_ids.len()
            invariant
                i <= distinct_ids.len(),
                all == views(distinct_ids@),
                self@ == (CohortsModel {
                    members: members_without(
                        old(self)@.members,
                        cohort_id@,
                        all.take(i as int),
                    ),
                    ..old(self)@
                }),
            decreases distinct_ids.len() - i,
        {
            assert(all.take(i + 1).drop_last() =~= all.take(i as int));
            assert(all.take(i + 1).last() == distinct_ids@[i as int]@);
            remove(
                &mut self.members,
                &MemberIs { cohort: cohort_id, person: distinct_ids[i].as_str() },
            );
            i += 1;
        }
        assert(all.take(all.len() as int) =~= all);
        Ok(())
    }

    /// Whether a person is in a cohort.
    pub fn is_member(&self, cohort_id: &str, distinct_id: &str) -> (r: Result<bool, CohortError>)
        ensures
            r == Ok::<bool, CohortError>(
                holds_somewhere(self@.members, member_is(cohort_id@, distinct_id@)),
            ),
    {
        Ok(
            find(
                &self.members,
                &MemberIs { cohort: cohort_id, person: distinct_id },
            ).is_some(),
        )
    }

    /// The people in a cohort, in the order in which they were added.
    pub fn get_members(&self, cohort_id: &str) -> (r: Result<Vec<String>, CohortError>)
        ensures
            r matches Ok(people) && views(people@) == people_of(
                sorted(selected(self@.members, member_of(cohort_id@)), member_order()),
            ),
    {
        let rows = select_sorted(
            &self.members,
            &MemberOfCohort { cohort: cohort_id },
            &MemberOrder,
        );
        let mut out: Vec<String> = Vec::new();
        let mut i: usize = 0;
        while i < rows.len()
            invariant
                i <= rows.len(),
                out@.len() == i,
                forall|j: int| 0 <= j < i ==> (#[trigger] out@[j])@ == rows@[j]@.distinct_id,
            decreases rows.len() - i,
        {
            out.push(rows[i].distinct_id.clone());
            i += 1;
        }
        assert(views(out@) =~= people_of(views(rows@)));
        Ok(out)
    }

    fn new_members(&self, cohort_id: &str, distinct_ids: &Vec<String>, now: i64) -> (r: Result<
        Vec<CohortMember>,
        CohortError,
    >)
        ensures
            match steps(
                removed(self@.members, member_of(cohort_id@)),
                views(distinct_ids@),
                member_put(cohort_id@, now),
            ) {
                Ok(members) => r matches Ok(v) && views(v@) == members,
                Err(fault) => r matches Err(e) && e@ == fault,
            },
    {
        let mut members = duplicate_all(&self.members);
        remove(&mut members, &MemberOfCohort { cohort: cohort_id });
        let ghost all = views(distinct_ids@);
        let ghost start = views(members@);
        let mut i: usize = 0;
        assert(all.take(0) =~= Seq::<Seq<char>>::empty());
        while i < distinct_ids.len()
            invariant
                i <= distinct_ids.len(),
                all == views(distinct_ids@),
                start == removed(self@.members, member_of(cohort_id@)),
                steps(start, all.take(i as int), member_put(cohort_id@, now)) == Ok::<
                    _,
                    CohortFault,
                >(views(members@)),
            decreases distinct_ids.len() - i,
        {
            assert(all.take(i + 1).drop_last() =~= all.take(i as int));
            assert(all.take(i + 1).last() == distinct_ids@[i as int]@);
            proof {
                lemma_steps_error(start, all, member_put(cohort_id@, now), i + 1);
            }
            let person = distinct_ids[i].as_str();
            if find(&members, &MemberIs { cohort: cohort_id, person }).is_some() {
                return Err(
                    CohortError::Db(
                        "UNIQUE constraint failed: cohort_members.cohort_id, cohort_members.distinct_id".to_owned(),
                    ),
                );
            }
            append(
                &mut members,
                CohortMember {
                    cohort_id: cohort_id.to_owned(),
                    distinct_id: person.to_owned(),
                    added_at: now,
                },
            );
            i += 1;
        }
        assert(all.take(all.len() as int) =~= all);
        Ok(members)
    }

    fn touch(&mut self, cohort_id: &str, now: i64)
        ensures
            final(self)@ == (CohortsModel {
                cohorts: old(self)@.cohorts.map_values(
                    |row: CohortRowModel| touched(row, cohort_id@, now),
                ),
                ..old(self)@
            }),
    {
        let ghost before = self@.cohorts;
        let ghost after = before.map_values(|row: CohortRowModel| touched(row, cohort_id@, now));
        let mut i: usize = 0;
        assert(self@.cohorts.len() == self.cohorts@.len());
        while i < self.cohorts.len()
            invariant
                i <= self.cohorts.len(),
                before == old(self)@.cohorts,
                after == before.map_values(|row: CohortRowModel| touched(row, cohort_id@, now)),
                self@.cohorts.len() == before.len(),
                self@ == (CohortsModel { cohorts: self@.cohorts, ..old(self)@ }),
                forall|j: int| 0 <= j < i ==> #[trigger] self@.cohorts[j] == after[j],
                forall|j: int| i <= j < before.len() ==> #[trigger] self@.cohorts[j] == before[j],
            decreases self.cohorts.len() - i,
        {
            assert(self@.cohorts[i as int] == self.cohorts@[i as int]@);
            if same(self.cohorts[i].def.id.as_str(), cohort_id) {
                let mut row = self.cohorts[i].duplicate();
                row.updated_at = now;
                replace(&mut self.cohorts, i, row);
            }
            i += 1;
            assert(self@.cohorts.len() == self.cohorts@.len());
        }
        assert(self@.cohorts =~= after);
    }

    /// Replaces all members of a cohort.
    pub fn set_members(&mut self, cohort_id: &str, distinct_ids: &Vec<String>, now: i64) -> (r: Result<
        (),
        CohortError,
    >)
        ensures
            match members_set(old(self)@, cohort_id@, views(distinct_ids@), now) {
                Ok(next) => r is Ok && final(self)@ == next,
                Err(fault) => r matches Err(e) && e@ == fault && final(self)@ == old(self)@,
            },
    {
        assert(distinct_ids@.len() == views(distinct_ids@).len());
        if distinct_ids.len() > 0 && find(
            &self.cohorts,
            &CohortById { id: cohort_id },
        ).is_none() {
            return Err(dangling_error());
        }
        match self.new_members(cohort_id, distinct_ids, now) {
            Ok(members) => {
                self.members = members;
                self.touch(cohort_id, now);
                Ok(())
            },
            Err(e) => Err(e),
        }
    }

    /// The queries that find the members of a token's behavioral cohorts.
    pub fn behavioral_queries(&self, token: &str, parquet_glob: &str) -> (r: Vec<BehaviorQuery>)
        ensures
            views(r@) == behavior_queries(cohorts_listed(self@, token@), parquet_glob@),
    {
        let cohorts = match self.list(token) {
            Ok(cohorts) => cohorts,
            Err(_) => Vec::new(),
        };
        let ghost all = views(cohorts@);
        let mut out: Vec<BehaviorQuery> = Vec::new();
        let mut i: usize = 0;
        assert(all.take(0) =~= Seq::<CohortModel>::empty());
        assert(views(out@) =~= Seq::<BehaviorModel>::empty());
        while i < cohorts.len()
            invariant
                i <= cohorts.len(),
                all == views(cohorts@),
                views(out@) == behavior_queries(all.take(i as int), parquet_glob@),
            decreases cohorts.len() - i,
        {
            assert(all.take(i + 1).drop_last() =~= all.take(i as int));
            assert(all.take(i + 1).last() == cohorts@[i as int]@);
            if let CohortDefinition::Behavioral { event, operator, count, window_days } =
                &cohorts[i].definition {
                if cohorts[i].kind == CohortKind::Behavioral {
                    append(
                        &mut out,
                        BehaviorQuery {
                            cohort_id: cohorts[i].id.clone(),
                            sql: behavioral_sql(parquet_glob, *operator),
                            event: event.clone(),
                            window_days: *window_days,
                            count: *count,
                        },
                    );
                }
            }
            i += 1;
        }
        assert(all.take(all.len() as int) =~= all);
        out
    }

    /// Makes the people found for behavioral cohorts their members. Returns how many cohorts
    /// were evaluated.
    pub fn reevaluate_behavioral(&mut self, results: &Vec<BehaviorResult>, now: i64) -> (r: Result<
        usize,
        CohortError,
    >)
        ensures
            ({
                let ((next, count), fault) = runs(
                    (old(self)@, 0nat),
                    views(results@),
                    reevaluated(now),
                );
                final(self)@ == next && match fault {
                    Some(fault) => r matches Err(e) && e@ == fault,
                    None => r matches Ok(n) && n == count,
                }
            }),
    {
        let ghost all = views(results@);
        let ghost start = (self@, 0nat);
        let mut count: usize = 0;
        let mut i: usize = 0;
        assert(all.take(0) =~= Seq::<(Seq<char>, Seq<Seq<char>>)>::empty());
        while i < results.len()
            invariant
                i <= results.len(),
                count <= i,
                all == views(results@),
                start == (old(self)@, 0nat),
                runs(start, all.take(i as int), reevaluated(now)) == (
                    (self@, count as nat),
                    None::<CohortFault>,
                ),
            decreases results.len() - i,
        {
            assert(all.take(i + 1).drop_last() =~= all.take(i as int));
            assert(all.take(i + 1).last() == results@[i as int]@);
            proof {
                lemma_runs_stop(start, all, reevaluated(now), i + 1);
            }
            match self.set_members(results[i].cohort_id.as_str(), &results[i].members, now) {
                Ok(()) => {
                    count = count + 1;
                },
                Err(e) => {
                    return Err(e);
                },
            }
            i += 1;
        }
        assert(all.take(all.len() as int) =~= all);
        Ok(count)
    }
}

// ── Laws ──────────────────────────────────────────────────────────────────────

/// Whoever was removed from a cohort is not in it.
pub proof fn law_removed_people_are_gone(
    members: Seq<CohortMemberModel>,
    cohort: Seq<char>,
    people: Seq<Seq<char>>,
    i: int,
)
    requires
        0 <= i < people.len(),
    ensures
        !holds_somewhere(members_without(members, cohort, people), member_is(cohort, people[i])),
    decreases people.len(),
{
    let rest = people.drop_last();
    let before = members_without(members, cohort, rest);
    let left = members_without(members, cohort, people);
    let p = member_is(cohort, people[i]);
    if i < rest.len() {
        law_removed_people_are_gone(members, cohort, rest, i);
        assert(rest[i] == people[i]);
        lemma_index_of(before, p);
    }
    assert forall|j: int| 0 <= j < left.len() implies !p(#[trigger] left[j]) by {
        lemma_removed(before, member_is(cohort, people.last()), left[j]);
        assert(left.contains(left[j]));
        if i < rest.len() {
            let k = choose|k: int| 0 <= k < before.len() && before[k] == left[j];
            assert(!p(before[k]));
        }
    }
    lemma_index_none(left, p);
}

/// Whoever was added to a cohort is in it.
pub proof fn law_added_people_are_members(
    m: CohortsModel,
    cohort: Seq<char>,
    people: Seq<Seq<char>>,
    now: i64,
    i: int,
)
    requires
        0 <= i < people.len(),
        runs(m, people, member_added(cohort, now)).1 is None,
    ensures
        holds_somewhere(
            runs(m, people, member_added(cohort, now)).0.members,
            member_is(cohort, people[i]),
        ),
    decreases people.len(),
{
    let rest = people.drop_last();
    let before = runs(m, rest, member_added(cohort, now)).0;
    let after = runs(m, people, member_added(cohort, now)).0;
    let p = member_is(cohort, people[i]);
    if i < rest.len() {
        law_added_people_are_members(m, cohort, rest, now, i);
        assert(rest[i] == people[i]);
        if after.members != before.members {
            assert(after.members.drop_last() =~= before.members);
        }
    } else if !holds_somewhere(before.members, p) {
        assert(after.members.drop_last() =~= before.members);
    }
}

proof fn lemma_put(
    members: Seq<CohortMemberModel>,
    cohort: Seq<char>,
    people: Seq<Seq<char>>,
    now: i64,
    person: Seq<char>,
)
    ensures
        steps(members, people, member_put(cohort, now)) matches Ok(after) ==> (holds_somewhere(
            after,
            member_is(cohort, person),
        ) <==> holds_somewhere(members, member_is(cohort, person)) || people.contains(person)),
    decreases people.len(),
{
    if people.len() > 0 {
        let rest = people.drop_last();
        lemma_put(members, cohort, rest, now, person);
        assert(people =~= rest.push(people.last()));
        lemma_push_contains(rest, people.last(), person);
        if let Ok(before) = steps(members, rest, member_put(cohort, now)) {
            let row = CohortMemberModel {
                cohort_id: cohort,
                distinct_id: people.last(),
                added_at: now,
            };
            assert(before.push(row).drop_last() =~= before);
        }
    }
}

/// Replacing the members of a cohort leaves exactly the people that were given.
pub proof fn law_members_are_replaced(
    m: CohortsModel,
    cohort: Seq<char>,
    people: Seq<Seq<char>>,
    now: i64,
    person: Seq<char>,
)
    ensures
        members_set(m, cohort, people, now) matches Ok(next) ==> (holds_somewhere(
            next.members,
            member_is(cohort, person),
        ) <==> people.contains(person)),
{
    let left = removed(m.members, member_of(cohort));
    lemma_put(left, cohort, people, now, person);
    assert forall|j: int| 0 <= j < left.len() implies !member_is(cohort, person)(
        #[trigger] left[j],
    ) by {
        lemma_removed(m.members, member_of(cohort), left[j]);
        assert(left.contains(left[j]));
    }
    lemma_index_none(left, member_is(cohort, person));
}

proof fn lemma_put_elsewhere(
    members: Seq<CohortMemberModel>,
    cohort: Seq<char>,
    people: Seq<Seq<char>>,
    now: i64,
    other: Seq<char>,
    person: Seq<char>,
)
    requires
        other != cohort,
    ensures
        steps(members, people, member_put(cohort, now)) matches Ok(after) ==> (holds_somewhere(
            after,
            member_is(other, person),
        ) <==> holds_somewhere(members, member_is(other, person))),
    decreases people.len(),
{
    if people.len() > 0 {
        let rest = people.drop_last();
        lemma_put_elsewhere(members, cohort, rest, now, other, person);
        if let Ok(before) = steps(members, rest, member_put(cohort, now)) {
            let row = CohortMemberModel {
                cohort_id: cohort,
                distinct_id: people.last(),
                added_at: now,
            };
            assert(before.push(row).drop_last() =~= before);
        }
    }
}

/// Replacing the members of a cohort leaves those of every other as they are.
pub proof fn law_other_cohorts_keep_their_members(
    m: CohortsModel,
    cohort: Seq<char>,
    people: Seq<Seq<char>>,
    now: i64,
    other: Seq<char>,
    person: Seq<char>,
)
    requires
        other != cohort,
    ensures
        members_set(m, cohort, people, now) matches Ok(next) ==> (holds_somewhere(
            next.members,
            member_is(other, person),
        ) <==> holds_somewhere(m.members, member_is(other, person))),
{
    let left = removed(m.members, member_of(cohort));
    let p = member_is(other, person);
    lemma_put_elsewhere(left, cohort, people, now, other, person);
    lemma_index_of(left, p);
    lemma_index_of(m.members, p);
    if holds_somewhere(left, p) {
        let i = index_of(left, p)->Some_0;
        assert(left.contains(left[i]));
        lemma_removed(m.members, member_of(cohort), left[i]);
        let k = choose|k: int| 0 <= k < m.members.len() && m.members[k] == left[i];
        assert(p(m.members[k]));
    }
    if holds_somewhere(m.members, p) {
        let i = index_of(m.members, p)->Some_0;
        lemma_removed(m.members, member_of(cohort), m.members[i]);
        assert(left.contains(m.members[i]));
        let k = choose|k: int| 0 <= k < left.len() && left[k] == m.members[i];
        assert(p(left[k]));
    }
}

/// Evaluating behavioral cohorts anew replaces the members of every one of them by the people that were
/// found for it, be they nobody, counts each, and leaves all other cohorts as they are.
pub proof fn law_every_cohort_is_reevaluated(
    m: CohortsModel,
    results: Seq<(Seq<char>, Seq<Seq<char>>)>,
    now: i64,
    cohort: Seq<char>,
    person: Seq<char>,
)
    requires
        forall|i: int, j: int|
            0 <= i < j < results.len() ==> (#[trigger] results[i]).0 != (#[trigger] results[j]).0,
        runs((m, 0nat), results, reevaluated(now)).1 is None,
    ensures
        ({
            let (next, count) = runs((m, 0nat), results, reevaluated(now)).0;
            &&& count == results.len()
            &&& forall|i: int|
                0 <= i < results.len() && (#[trigger] results[i]).0 == cohort ==> (
                holds_somewhere(next.members, member_is(cohort, person))
                    <==> results[i].1.contains(person))
            &&& (forall|i: int| 0 <= i < results.len() ==> (#[trigger] results[i]).0 != cohort)
                ==> (holds_somewhere(next.members, member_is(cohort, person)) <==> holds_somewhere(
                m.members,
                member_is(cohort, person),
            ))
        }),
    decreases results.len(),
{
    if results.len() > 0 {
        let rest = results.drop_last();
        let (id, people) = results.last();
        assert forall|i: int, j: int| 0 <= i < j < rest.len() implies (#[trigger] rest[i]).0 != (
        #[trigger] rest[j]).0 by {
            assert(results[i].0 != results[j].0);
        }
        law_every_cohort_is_reevaluated(m, rest, now, cohort, person);
        let before = runs((m, 0nat), rest, reevaluated(now)).0.0;
        assert forall|i: int| 0 <= i < rest.len() implies rest[i] == #[trigger] results[i] by {}
        assert forall|i: int| 0 <= i < rest.len() implies #[trigger] rest[i] == results[i] by {}
        assert(results[results.len() - 1].0 == id);
        if id == cohort {
            law_members_are_replaced(before, cohort, people, now, person);
            assert forall|i: int| 0 <= i < rest.len() implies (#[trigger] rest[i]).0 != cohort by {
                assert(results[i].0 != results[results.len() - 1].0);
            }
        } else {
            law_other_cohorts_keep_their_members(before, id, people, now, cohort, person);
        }
    }
}

/// A cohort that was deleted has no members.
pub proof fn law_deleted_cohorts_have_no_members(m: CohortsModel, id: Seq<char>, person: Seq<char>)
    ensures
        !holds_somewhere(removed(m.members, member_of(id)), member_is(id, person)),
        !holds_somewhere(removed(m.cohorts, cohort_is(id)), cohort_is(id)),
{
    let left = removed(m.members, member_of(id));
    assert forall|j: int| 0 <= j < left.len() implies !member_is(id, person)(#[trigger] left[j]) by {
        lemma_removed(m.members, member_of(id), left[j]);
        assert(left.contains(left[j]));
    }
    lemma_index_none(left, member_is(id, person));
    let rest = removed(m.cohorts, cohort_is(id));
    assert forall|j: int| 0 <= j < rest.len() implies !cohort_is(id)(#[trigger] rest[j]) by {
        lemma_removed(m.cohorts, cohort_is(id), rest[j]);
        assert(rest.contains(rest[j]));
    }
    lemma_index_none(rest, cohort_is(id));
}

/// A token's list holds no cohort of another token.
pub proof fn law_tokens_list_own_cohorts(m: CohortsModel, token: Seq<char>, i: int)
    requires
        0 <= i < cohorts_listed(m, token).len(),
    ensures
        cohorts_listed(m, token)[i].token == token,
{
    let chosen = selected(m.cohorts, cohort_of(token));
    let all = sorted(chosen, cohort_order());
    lemma_sorted(chosen, cohort_order(), all[i]);
    assert(all.contains(all[i]));
    lemma_selected(m.cohorts, cohort_of(token), all[i]);
}

} // verus!
