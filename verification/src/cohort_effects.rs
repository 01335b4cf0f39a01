//! What cohorts promise of their definitions, their members and their queries.
use vstd::prelude::*;
use vstd::string::*;

use crate::cohort::{
    behavior_queries, behavior_sql, cohort_is, cohort_made, cohort_of, cohort_order, cohorts_listed,
    member_added, member_is, member_of, member_order, members_set, members_without, people_of,
    quotes_doubled, BehaviorModel, CohortFault, CohortKind, CohortMemberModel, CohortModel, CohortOp,
    CohortRowModel, CohortsModel,
};
use crate::rows::{
    found, holds_somewhere, is_order, law_sorting_orders, lemma_index_is, lemma_index_of,
    lemma_push_contains, lemma_removed, lemma_selected, lemma_sorted, removed, runs, selected, sorted,
};
use crate::text::{lemma_text_le_total, lemma_text_le_transitive, text_le};

verus! {

/// Whether a person is a member of a cohort.
pub open spec fn is_in(members: Seq<CohortMemberModel>, cohort: Seq<char>, person: Seq<char>) -> bool {
    exists|i: int|
        0 <= i < members.len() && (#[trigger] members[i]).cohort_id == cohort && members[i].distinct_id
            == person
}

/// A person is a member where there is a row of the cohort and the person.
pub proof fn law_membership_is_a_row(
    members: Seq<CohortMemberModel>,
    cohort: Seq<char>,
    person: Seq<char>,
)
    ensures
        holds_somewhere(members, member_is(cohort, person)) <==> is_in(members, cohort, person),
{
    let p = member_is(cohort, person);
    lemma_index_of(members, p);
    if holds_somewhere(members, p) {
        let i = crate::rows::index_of(members, p)->Some_0;
        assert(p(members[i]));
        assert(members[i].cohort_id == cohort);
    }
    if is_in(members, cohort, person) {
        let i = choose|i: int|
            0 <= i < members.len() && (#[trigger] members[i]).cohort_id == cohort
                && members[i].distinct_id == person;
        assert(p(members[i]));
    }
}

/// A cohort that was made is read back as it was defined, and all others stay. An id that is taken is refused,
/// and nothing changes.
pub proof fn law_made_cohorts_are_read_back(m: CohortsModel, def: CohortModel, now: i64, row: CohortRowModel)
    ensures
        ({
            let (next, r) = cohort_made(m, def, now);
            let taken = exists|i: int| 0 <= i < m.cohorts.len() && (#[trigger] m.cohorts[i]).def.id
                == def.id;
            &&& taken ==> r is Err && next == m
            &&& !taken ==> r == Ok::<CohortModel, CohortFault>(def) && found(
                next.cohorts,
                cohort_is(def.id),
            ) == Some(CohortRowModel { def, created_at: now, updated_at: now })
            &&& next.members == m.members
            &&& m.cohorts.contains(row) ==> next.cohorts.contains(row)
            &&& next.cohorts.contains(row) ==> m.cohorts.contains(row) || row.def == def
        }),
{
    let p = cohort_is(def.id);
    let (next, r) = cohort_made(m, def, now);
    lemma_index_of(m.cohorts, p);
    if holds_somewhere(m.cohorts, p) {
        let i = crate::rows::index_of(m.cohorts, p)->Some_0;
        assert(m.cohorts[i].def.id == def.id);
    } else {
        assert forall|i: int| 0 <= i < m.cohorts.len() implies (#[trigger] m.cohorts[i]).def.id != def.id by {
            assert(!p(m.cohorts[i]));
        }
        let made = CohortRowModel { def, created_at: now, updated_at: now };
        let k = m.cohorts.len() as int;
        assert forall|j: int| 0 <= j < k implies !p(#[trigger] next.cohorts[j]) by {
            assert(next.cohorts[j] == m.cohorts[j]);
        }
        lemma_index_is(next.cohorts, p, k);
        lemma_push_contains(m.cohorts, made, row);
    }
}

/// Adding people to a cohort makes them members of it, and nobody else of anything; no cohort changes. A cohort
/// that is not there takes nobody new.
pub proof fn law_adding_people_adds_only_them(
    m: CohortsModel,
    cohort: Seq<char>,
    people: Seq<Seq<char>>,
    now: i64,
    other: Seq<char>,
    person: Seq<char>,
)
    ensures
        ({
            let (next, fault) = runs(m, people, member_added(cohort, now));
            &&& next.cohorts == m.cohorts
            &&& is_in(m.members, other, person) ==> is_in(next.members, other, person)
            &&& is_in(next.members, other, person) && !is_in(m.members, other, person) ==> other == cohort
                && people.contains(person) && holds_somewhere(m.cohorts, cohort_is(cohort))
            &&& fault is None && people.contains(person) ==> is_in(next.members, cohort, person)
            &&& fault is Some ==> !holds_somewhere(m.cohorts, cohort_is(cohort))
            &&& holds_somewhere(m.cohorts, cohort_is(cohort)) ==> fault is None
        }),
    decreases people.len(),
{
    if people.len() > 0 {
        let rest = people.drop_last();
        law_adding_people_adds_only_them(m, cohort, rest, now, other, person);
        assert(people =~= rest.push(people.last()));
        lemma_push_contains(rest, people.last(), person);
        let (before, fault) = runs(m, rest, member_added(cohort, now));
        let next = runs(m, people, member_added(cohort, now)).0;
        if fault is None {
            law_membership_is_a_row(before.members, cohort, people.last());
            let row = CohortMemberModel {
                cohort_id: cohort,
                distinct_id: people.last(),
                added_at: now,
            };
            lemma_member_pushed(before.members, row, other, person);
            lemma_member_pushed(before.members, row, cohort, person);
        }
    }
}

proof fn lemma_member_pushed(
    members: Seq<CohortMemberModel>,
    row: CohortMemberModel,
    cohort: Seq<char>,
    person: Seq<char>,
)
    ensures
        is_in(members.push(row), cohort, person) <==> is_in(members, cohort, person) || (row.cohort_id
            == cohort && row.distinct_id == person),
{
    let after = members.push(row);
    if is_in(members, cohort, person) {
        let i = choose|i: int|
            0 <= i < members.len() && (#[trigger] members[i]).cohort_id == cohort
                && members[i].distinct_id == person;
        assert(after[i] == members[i]);
    }
    assert(after[members.len() as int] == row);
    if is_in(after, cohort, person) {
        let i = choose|i: int|
            0 <= i < after.len() && (#[trigger] after[i]).cohort_id == cohort && after[i].distinct_id
                == person;
        if i < members.len() {
            assert(members[i] == after[i]);
        }
    }
}

/// Adding people twice adds no second row: a cohort never lists a person twice if it did not before.
pub proof fn law_members_are_listed_once(
    m: CohortsModel,
    cohort: Seq<char>,
    people: Seq<Seq<char>>,
    now: i64,
    i: int,
    j: int,
)
    requires
        forall|a: int, b: int|
            0 <= a < b < m.members.len() ==> (#[trigger] m.members[a]).cohort_id != (
            #[trigger] m.members[b]).cohort_id || m.members[a].distinct_id != m.members[b].distinct_id,
        0 <= i < j < runs(m, people, member_added(cohort, now)).0.members.len(),
    ensures
        ({
            let members = runs(m, people, member_added(cohort, now)).0.members;
            members[i].cohort_id != members[j].cohort_id || members[i].distinct_id
                != members[j].distinct_id
        }),
    decreases people.len(),
{
    if people.len() > 0 {
        let rest = people.drop_last();
        let before = runs(m, rest, member_added(cohort, now)).0;
        let after = runs(m, people, member_added(cohort, now)).0;
        if j < before.members.len() {
            law_members_are_listed_once(m, cohort, rest, now, i, j);
            assert(after.members[i] == before.members[i] && after.members[j] == before.members[j]);
        } else {
            law_membership_is_a_row(before.members, cohort, people.last());
            assert(before.members[i] == after.members[i]);
        }
    }
}

/// Removing people from a cohort ends their membership of it, and no other.
pub proof fn law_removing_people_removes_only_them(
    members: Seq<CohortMemberModel>,
    cohort: Seq<char>,
    people: Seq<Seq<char>>,
    row: CohortMemberModel,
)
    ensures
        members_without(members, cohort, people).contains(row) <==> members.contains(row) && !(
        row.cohort_id == cohort && people.contains(row.distinct_id)),
    decreases people.len(),
{
    if people.len() > 0 {
        let rest = people.drop_last();
        law_removing_people_removes_only_them(members, cohort, rest, row);
        assert(people =~= rest.push(people.last()));
        lemma_push_contains(rest, people.last(), row.distinct_id);
        lemma_removed(
            members_without(members, cohort, rest),
            member_is(cohort, people.last()),
            row,
        );
    }
}

/// Replacing the members of a cohort marks it as changed at that instant, and changes no other cohort, nor any
/// definition.
pub proof fn law_replacing_members_marks_the_cohort(
    m: CohortsModel,
    cohort: Seq<char>,
    people: Seq<Seq<char>>,
    now: i64,
    i: int,
)
    requires
        members_set(m, cohort, people, now) is Ok,
        0 <= i < m.cohorts.len(),
    ensures
        ({
            let next = members_set(m, cohort, people, now)->Ok_0;
            &&& next.cohorts.len() == m.cohorts.len()
            &&& next.cohorts[i].def == m.cohorts[i].def
            &&& next.cohorts[i].created_at == m.cohorts[i].created_at
            &&& m.cohorts[i].def.id == cohort ==> next.cohorts[i].updated_at == now
            &&& m.cohorts[i].def.id != cohort ==> next.cohorts[i].updated_at == m.cohorts[i].updated_at
        }),
{
}

/// Deleting a cohort deletes it and its members, and nothing of another.
pub proof fn law_deleting_a_cohort_deletes_only_it(
    m: CohortsModel,
    id: Seq<char>,
    row: CohortRowModel,
    member: CohortMemberModel,
)
    ensures
        removed(m.cohorts, cohort_is(id)).contains(row) <==> m.cohorts.contains(row) && row.def.id != id,
        removed(m.members, member_of(id)).contains(member) <==> m.members.contains(member)
            && member.cohort_id != id,
{
    lemma_removed(m.cohorts, cohort_is(id), row);
    lemma_removed(m.members, member_of(id), member);
}

// ── Lists ─────────────────────────────────────────────────────────────────────

/// A token lists every cohort of its own and no other.
pub proof fn law_tokens_list_every_cohort(m: CohortsModel, token: Seq<char>, row: CohortRowModel, def: CohortModel)
    ensures
        m.cohorts.contains(row) && row.def.token == token ==> cohorts_listed(m, token).contains(row.def),
        cohorts_listed(m, token).contains(def) ==> def.token == token && exists|r: CohortRowModel| #[trigger]
            m.cohorts.contains(r) && r.def == def,
{
    let p = cohort_of(token);
    let chosen = selected(m.cohorts, p);
    let rows = sorted(chosen, cohort_order());
    let list = cohorts_listed(m, token);
    if m.cohorts.contains(row) && row.def.token == token {
        lemma_selected(m.cohorts, p, row);
        lemma_sorted(chosen, cohort_order(), row);
        let k = choose|k: int| 0 <= k < rows.len() && rows[k] == row;
        assert(list[k] == row.def);
    }
    if list.contains(def) {
        let k = choose|k: int| 0 <= k < list.len() && list[k] == def;
        lemma_sorted(chosen, cohort_order(), rows[k]);
        lemma_selected(m.cohorts, p, rows[k]);
        assert(m.cohorts.contains(rows[k]));
    }
}

/// A token lists its cohorts by name.
pub proof fn law_cohorts_are_listed_by_name(m: CohortsModel, token: Seq<char>, i: int, j: int)
    requires
        0 <= i < j < cohorts_listed(m, token).len(),
    ensures
        text_le(cohorts_listed(m, token)[i].name, cohorts_listed(m, token)[j].name),
{
    let before = cohort_order();
    assert(is_order(before)) by {
        assert forall|a: CohortRowModel, b: CohortRowModel| #[trigger] before(a, b) implies !before(b, a) by {
            lemma_text_le_total(a.def.name, b.def.name);
        }
        assert forall|a: CohortRowModel, b: CohortRowModel, c: CohortRowModel| #[trigger]
            before(a, c) implies #[trigger] before(a, b) || before(b, c) by {
            lemma_text_le_total(a.def.name, b.def.name);
            lemma_text_le_total(b.def.name, c.def.name);
            lemma_text_le_total(a.def.name, c.def.name);
            if !before(a, b) && !before(b, c) {
                lemma_text_le_transitive(c.def.name, b.def.name, a.def.name);
            }
        }
    }
    let rows = sorted(selected(m.cohorts, cohort_of(token)), before);
    law_sorting_orders(selected(m.cohorts, cohort_of(token)), before);
    assert(!before(rows[j], rows[i]));
    lemma_text_le_total(rows[i].def.name, rows[j].def.name);
}

/// A cohort lists exactly its members.
pub proof fn law_cohorts_list_every_member(
    members: Seq<CohortMemberModel>,
    cohort: Seq<char>,
    person: Seq<char>,
)
    ensures
        people_of(sorted(selected(members, member_of(cohort)), member_order())).contains(person) <==> is_in(
            members,
            cohort,
            person,
        ),
{
    let p = member_of(cohort);
    let chosen = selected(members, p);
    let rows = sorted(chosen, member_order());
    let list = people_of(rows);
    if is_in(members, cohort, person) {
        let i = choose|i: int|
            0 <= i < members.len() && (#[trigger] members[i]).cohort_id == cohort
                && members[i].distinct_id == person;
        lemma_selected(members, p, members[i]);
        lemma_sorted(chosen, member_order(), members[i]);
        let k = choose|k: int| 0 <= k < rows.len() && rows[k] == members[i];
        assert(list[k] == person);
    }
    if list.contains(person) {
        let k = choose|k: int| 0 <= k < list.len() && list[k] == person;
        lemma_sorted(chosen, member_order(), rows[k]);
        lemma_selected(members, p, rows[k]);
        let i = choose|i: int| 0 <= i < members.len() && members[i] == rows[k];
        assert(members[i].cohort_id == cohort);
    }
}

/// A cohort lists its members in the order in which they were added.
pub proof fn law_members_are_listed_by_age(
    members: Seq<CohortMemberModel>,
    cohort: Seq<char>,
    i: int,
    j: int,
)
    requires
        0 <= i < j < sorted(selected(members, member_of(cohort)), member_order()).len(),
    ensures
        sorted(selected(members, member_of(cohort)), member_order())[i].added_at <= sorted(
            selected(members, member_of(cohort)),
            member_order(),
        )[j].added_at,
{
    let chosen = selected(members, member_of(cohort));
    assert(is_order(member_order()));
    law_sorting_orders(chosen, member_order());
    let rows = sorted(chosen, member_order());
    assert(!member_order()(rows[j], rows[i]));
}

// ── Behaviour ─────────────────────────────────────────────────────────────────

/// Every cohort of behaviour has one query, in order, for its own event, days, count and comparison; no other
/// cohort has any.
pub proof fn law_behavior_is_queried_in_order(
    before: Seq<CohortModel>,
    cohort: CohortModel,
    glob: Seq<char>,
)
    ensures
        ({
            let r = behavior_queries(before.push(cohort), glob);
            &&& !(cohort.kind == CohortKind::Behavioral && cohort.definition is Behavioral) ==> r
                == behavior_queries(before, glob)
            &&& cohort.kind == CohortKind::Behavioral && cohort.definition is Behavioral ==> {
                &&& r.len() == behavior_queries(before, glob).len() + 1
                &&& r.drop_last() == behavior_queries(before, glob)
                &&& r.last().cohort_id == cohort.id
                &&& r.last().event == cohort.definition->Behavioral_0
                &&& r.last().sql == behavior_sql(glob, cohort.definition->Behavioral_1)
                &&& r.last().count == cohort.definition->Behavioral_2
                &&& r.last().window_days == cohort.definition->Behavioral_3
            }
        }),
        behavior_queries(Seq::empty(), glob) == Seq::<BehaviorModel>::empty(),
{
    assert(before.push(cohort).drop_last() =~= before);
    let r = behavior_queries(before.push(cohort), glob);
    if cohort.kind == CohortKind::Behavioral && cohort.definition is Behavioral {
        assert(r.drop_last() =~= behavior_queries(before, glob));
    }
}

/// Queries of behaviour differ by their comparison alone: at least, at most, or exactly so many.
pub proof fn law_queries_compare_as_asked(glob: Seq<char>)
    ensures
        exists|start: Seq<char>|
            #![trigger start + ">="@ + " ?4"@]
            behavior_sql(glob, CohortOp::Gte) == start + ">="@ + " ?4"@ && behavior_sql(
                glob,
                CohortOp::Lte,
            ) == start + "<="@ + " ?4"@ && behavior_sql(glob, CohortOp::Eq) == start + "="@ + " ?4"@,
{
    let start = "WITH e AS (SELECT * FROM read_parquet('"@ + quotes_doubled(glob)
        + "') WHERE token = ?1 QUALIFY row_number() OVER (PARTITION BY uuid ORDER BY timestamp) = 1)\n                 SELECT distinct_id FROM e\n                 WHERE event = ?2 AND epoch(timestamp) >= epoch(now()) - (?3 * 86400)\n                 GROUP BY distinct_id\n                 HAVING count(*) "@;
    assert(behavior_sql(glob, CohortOp::Gte) == start + ">="@ + " ?4"@);
}

/// Every quotation mark of a path is doubled, and everything else stays as it is.
pub proof fn law_quotes_are_doubled(a: Seq<char>, c: char)
    ensures
        c == '\'' ==> quotes_doubled(a.push(c)) == quotes_doubled(a) + seq!['\'', '\''],
        c != '\'' ==> quotes_doubled(a.push(c)) == quotes_doubled(a).push(c),
        !a.contains('\'') ==> quotes_doubled(a) == a,
    decreases a.len(),
{
    assert(a.push(c).drop_last() =~= a);
    if c == '\'' {
        assert(quotes_doubled(a.push(c)) =~= quotes_doubled(a) + seq!['\'', '\'']);
    }
    if a.len() > 0 {
        let rest = a.drop_last();
        law_quotes_are_doubled(rest, a.last());
        assert(a =~= rest.push(a.last()));
        if !a.contains('\'') {
            assert(a.contains(a.last()));
            if rest.contains('\'') {
                let i = choose|i: int| 0 <= i < rest.len() && rest[i] == '\'';
                assert(a[i] == '\'');
            }
        }
    }
}

} // verus!
