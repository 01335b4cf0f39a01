//! What is promised of stored files and of what opens a store: names, equality, layouts and listings.
use vstd::prelude::*;
use vstd::string::*;

use crate::auth::{membership_is, owned_project_in, project_age, OrgMemberModel, OwnedProjectModel};
use crate::capture::event::{alike_events, EventModel};
use crate::control::access::{
    organization_order, project_order, KeyRowModel, OrganizationRowModel, ProjectRowModel, SessionRowModel,
    UserRowModel,
};
use crate::control::{storage_fault, AccessFault};
use crate::control_resources::{share_at, share_got, ResourceModel};
use crate::event_lake::versions::{
    canonical_columns, database_fault, generation_persisted, legacy_columns, schema_step, LakeModel,
};
use crate::event_lake::PreparedModel;
use crate::json::{alike, JsonValue};
use crate::legacy_import::{
    key_age, legacy_loaded, membership_order, session_age, table_rows, user_age, LegacyTables,
    MembershipModel,
};
use crate::order::views;
use crate::pipeline::layout::padded;
use crate::pipeline::materialize::{all_alike, file_name_of};
use crate::pipeline::wal::WalCursor;
use crate::pipeline::wal_effects::law_padded_numbers_read_back;
use crate::projection_catalog::projection_database;
use crate::projections::apply_fault;
use crate::rows::{found, lemma_index_is, lemma_index_of, lemma_selected, lemma_sorted, selected, sorted};
use crate::text::{blank, decimal, number_of};

verus! {

// ── Files of events ───────────────────────────────────────────────────────────

/// Ten, as many times as is said.
pub open spec fn ten_to(k: nat) -> nat
    decreases k,
{
    if k == 0 {
        1
    } else {
        10 * ten_to((k - 1) as nat)
    }
}

proof fn lemma_digits_needed(n: nat, k: nat)
    requires
        n < ten_to(k),
        k > 0,
    ensures
        decimal(n).len() <= k,
    decreases k,
{
    if n >= 10 {
        if k == 1 {
            assert(ten_to(0) == 1);
        } else {
            lemma_digits_needed(n / 10, (k - 1) as nat);
        }
    }
}

proof fn lemma_padded_width(n: u64)
    ensures
        padded(n as nat, 20).len() == 20,
        number_of(padded(n as nat, 20)) == n,
{
    reveal_with_fuel(ten_to, 21);
    assert(n < ten_to(20));
    lemma_digits_needed(n as nat, 20);
    law_padded_numbers_read_back(n as nat, 20);
}

/// Files of different stretches of the log have different names.
pub proof fn law_file_names_tell_stretches_apart(
    first: WalCursor,
    last: WalCursor,
    other_first: WalCursor,
    other_last: WalCursor,
)
    requires
        file_name_of(first, last) == file_name_of(other_first, other_last),
    ensures
        first == other_first,
        last == other_last,
{
    reveal_strlit("wal-");
    reveal_strlit("-");
    reveal_strlit("-to-");
    reveal_strlit(".parquet");
    let a = file_name_of(first, last);
    let b = file_name_of(other_first, other_last);
    lemma_padded_width(first.segment);
    lemma_padded_width(first.byte_offset);
    lemma_padded_width(last.segment);
    lemma_padded_width(last.byte_offset);
    lemma_padded_width(other_first.segment);
    lemma_padded_width(other_first.byte_offset);
    lemma_padded_width(other_last.segment);
    lemma_padded_width(other_last.byte_offset);
    assert(a.subrange(4, 24) =~= padded(first.segment as nat, 20));
    assert(b.subrange(4, 24) =~= padded(other_first.segment as nat, 20));
    assert(a.subrange(25, 45) =~= padded(first.byte_offset as nat, 20));
    assert(b.subrange(25, 45) =~= padded(other_first.byte_offset as nat, 20));
    assert(a.subrange(49, 69) =~= padded(last.segment as nat, 20));
    assert(b.subrange(49, 69) =~= padded(other_last.segment as nat, 20));
    assert(a.subrange(70, 90) =~= padded(last.byte_offset as nat, 20));
    assert(b.subrange(70, 90) =~= padded(other_last.byte_offset as nat, 20));
}

proof fn lemma_alike_self(a: JsonValue)
    ensures
        alike(a, a),
    decreases a,
{
    match a {
        JsonValue::Array(s) => {
            assert forall|i: int| 0 <= i < s.len() implies alike(#[trigger] s[i], s[i]) by {
                lemma_alike_self(s[i]);
            }
        },
        JsonValue::Object(s) => {
            assert forall|i: int| 0 <= i < s.len() implies (#[trigger] s[i]).0 == s[i].0 && alike(
                s[i].1,
                s[i].1,
            ) by {
                lemma_alike_self(s[i].1);
            }
        },
        _ => {},
    }
}

/// A file holds what it should only where every event of it is the expected one: the same id, name, person,
/// token and instant, and the same properties. A file that holds just what it should is found to do so.
pub proof fn law_files_hold_the_events_expected(
    stored: Seq<EventModel>,
    expected: Seq<EventModel>,
    i: int,
    k: Seq<char>,
)
    ensures
        stored == expected ==> all_alike(stored, expected),
        all_alike(stored, expected) ==> stored.len() == expected.len(),
        all_alike(stored, expected) && 0 <= i < stored.len() ==> {
            let a = stored[i];
            let b = expected[i];
            &&& a.uuid == b.uuid && a.event == b.event && a.distinct_id == b.distinct_id
            &&& a.token == b.token && a.timestamp == b.timestamp
            &&& a.properties.contains_key(k) <==> b.properties.contains_key(k)
            &&& a.properties.contains_key(k) ==> {
                &&& a.properties[k] is Text ==> b.properties[k] == a.properties[k]
                &&& a.properties[k] is Bool ==> b.properties[k] == a.properties[k]
                &&& a.properties[k] is Null ==> b.properties[k] == a.properties[k]
                &&& a.properties[k] is Array <==> b.properties[k] is Array
                &&& a.properties[k] is Object <==> b.properties[k] is Object
                &&& a.properties[k] is Array ==> a.properties[k]->Array_0.len()
                    == b.properties[k]->Array_0.len()
                &&& a.properties[k] is Number && a.properties[k]->Number_0 != "0.0"@
                    && a.properties[k]->Number_0 != "-0.0"@ ==> b.properties[k] == a.properties[k]
            }
        },
{
    if all_alike(stored, expected) && 0 <= i < stored.len() {
        assert(alike_events(stored[i], expected[i]));
    }
    if stored == expected {
        assert forall|j: int| 0 <= j < stored.len() implies alike_events(
            #[trigger] stored[j],
            expected[j],
        ) by {
            assert forall|key: Seq<char>| #[trigger]
                stored[j].properties.contains_key(key) implies expected[j].properties.contains_key(key)
                && alike(stored[j].properties[key], expected[j].properties[key]) by {
                lemma_alike_self(stored[j].properties[key]);
            }
        }
    }
}

// ── Opening stores ────────────────────────────────────────────────────────────

/// A control database is opened only as what it is: a regular file of this application, in the control role of
/// a named pair, and of a layout that is understood.
pub proof fn law_only_control_databases_are_opened(
    is_file: bool,
    application_id: i64,
    expected: i64,
    metadata: Option<(Seq<char>, Seq<char>)>,
    user_version: i64,
)
    ensures
        storage_fault(is_file, application_id, expected, metadata, user_version) is None <==> is_file
            && application_id == expected && metadata is Some && metadata->Some_0.0.len() > 0
            && metadata->Some_0.1 == "control"@ && user_version <= 1,
        storage_fault(is_file, application_id, expected, metadata, user_version) is Some && user_version
            <= 1 ==> storage_fault(is_file, application_id, expected, metadata, user_version) == Some(
            AccessFault::InvalidStorage,
        ),
{
}

/// A projections database is opened only as what it is.
pub proof fn law_only_projection_databases_are_opened(
    application_id: i64,
    expected: i64,
    metadata: Option<(Seq<char>, Seq<char>)>,
    generation_known: bool,
)
    ensures
        database_fault(application_id, expected, metadata, generation_known) is None <==> application_id
            == expected && metadata is Some && !blank(metadata->Some_0.0) && metadata->Some_0.1
            == "projections"@ && generation_known,
        projection_database(Some(application_id), expected, metadata) <==> application_id == expected
            && metadata is Some && metadata->Some_0.0.len() > 0 && metadata->Some_0.1 == "projections"@,
        !projection_database(None, expected, metadata),
{
}

/// Tables of event files are made anew only where they hold nothing; tables of a layout that is not known, or
/// links without files, are refused; what is current, or absent, is left or made.
pub proof fn law_tables_are_never_dropped_with_rows(
    event_files: bool,
    generation_files: bool,
    columns: Seq<Seq<char>>,
    file_count: i64,
    link_count: i64,
)
    ensures
        ({
            let r = schema_step(event_files, generation_files, columns, file_count, link_count);
            &&& r is Ok && r->Ok_0 is Recreate ==> event_files && file_count == 0 && link_count == 0
                && columns == legacy_columns()
            &&& !event_files && generation_files ==> r is Err
            &&& event_files && columns != legacy_columns() && columns != canonical_columns() ==> r is Err
            &&& event_files && columns == canonical_columns() ==> r is Ok && r->Ok_0 is Create
            &&& !event_files && !generation_files ==> r is Ok && r->Ok_0 is Create
            &&& event_files && columns == legacy_columns() && file_count == 0 && link_count == 0 ==> r is Ok
                && r->Ok_0 is Recreate
        }),
{
    reveal_strlit("checksum");
    reveal_strlit("id");
    assert(legacy_columns()[0] == "checksum"@);
    assert(canonical_columns()[0] == "id"@);
    assert("checksum"@.len() != "id"@.len());
}

/// A generation follows the current one, lists its files in order, and keeps every earlier generation.
pub proof fn law_generations_follow_each_other(
    lake: LakeModel,
    current: int,
    files: Seq<PreparedModel>,
    i: int,
)
    ensures
        current < 0 || current >= i64::MAX ==> generation_persisted(lake, current, files) is Err,
        generation_persisted(lake, current, files) is Ok ==> {
            let next = generation_persisted(lake, current, files)->Ok_0;
            let made = next.manifests.last();
            &&& next.manifests.len() == lake.manifests.len() + 1
            &&& 0 <= i < lake.manifests.len() ==> next.manifests[i] == lake.manifests[i]
            &&& made.id == current + 1
            &&& made.parent == current
            &&& made.file_ids.len() == files.len()
            &&& 0 <= i < files.len() ==> made.file_ids[i] == files[i].file_id
        },
{
}

/// An event is projected only for a named project and a place that can be stored.
pub proof fn law_projected_places_are_stored(project: Seq<char>, cursor: WalCursor)
    ensures
        apply_fault(project, cursor) is None <==> !blank(project) && cursor.segment <= i64::MAX
            && cursor.byte_offset <= i64::MAX,
{
}

// ── Listings ──────────────────────────────────────────────────────────────────

/// A share link is found by its project and its id, and under no other.
pub proof fn law_share_links_are_found(m: ResourceModel, project: Seq<char>, id: Seq<char>, i: int)
    ensures
        share_got(m, project, id) is Ok ==> share_got(m, project, id)->Ok_0.project_id == project
            && share_got(m, project, id)->Ok_0.id == id,
        0 <= i < m.shares.len() && m.shares[i].link.project_id == project && m.shares[i].link.id == id && (
        forall|j: int|
            0 <= j < i ==> (#[trigger] m.shares[j]).link.project_id != project || m.shares[j].link.id
                != id) ==> share_got(m, project, id) is Ok && share_got(m, project, id)->Ok_0
            == m.shares[i].link,
        (forall|j: int|
            0 <= j < m.shares.len() ==> (#[trigger] m.shares[j]).link.project_id != project
                || m.shares[j].link.id != id) ==> share_got(m, project, id) is Err,
{
    lemma_index_of(m.shares, share_at(project, id));
    if 0 <= i < m.shares.len() && m.shares[i].link.project_id == project && m.shares[i].link.id == id && (
    forall|j: int|
        0 <= j < i ==> (#[trigger] m.shares[j]).link.project_id != project || m.shares[j].link.id != id) {
        lemma_index_is(m.shares, share_at(project, id), i);
    }
}

/// An organization's projects are those that say so; a role is that of the membership in the organization.
pub proof fn law_organizations_list_their_projects(
    projects: Seq<OwnedProjectModel>,
    members: Seq<OrgMemberModel>,
    org: Seq<char>,
    user: Seq<char>,
    row: OwnedProjectModel,
)
    ensures
        sorted(selected(projects, owned_project_in(org)), project_age()).contains(row)
            <==> projects.contains(row) && row.org_id == org,
        found(members, membership_is(org, user)) is Some ==> {
            let member = found(members, membership_is(org, user))->Some_0;
            members.contains(member) && member.org_id == org && member.user_id == user
        },
        (exists|i: int|
            0 <= i < members.len() && (#[trigger] members[i]).org_id == org && members[i].user_id == user)
            ==> found(members, membership_is(org, user)) is Some,
{
    lemma_selected(projects, owned_project_in(org), row);
    lemma_sorted(selected(projects, owned_project_in(org)), project_age(), row);
    lemma_index_of(members, membership_is(org, user));
}

/// Every row of every table of an earlier installation is loaded, and nothing else is.
pub proof fn law_every_account_is_loaded(
    tables: LegacyTables,
    user: UserRowModel,
    organization: OrganizationRowModel,
    membership: MembershipModel,
    project: ProjectRowModel,
    key: KeyRowModel,
    session: SessionRowModel,
)
    ensures
        ({
            let loaded = legacy_loaded(Some(tables));
            &&& loaded.users.contains(user) <==> tables.users is Some && views(
                tables.users->Some_0@,
            ).contains(user)
            &&& loaded.organizations.contains(organization) <==> tables.organizations is Some && views(
                tables.organizations->Some_0@,
            ).contains(organization)
            &&& loaded.memberships.contains(membership) <==> tables.memberships is Some && views(
                tables.memberships->Some_0@,
            ).contains(membership)
            &&& loaded.projects.contains(project) <==> tables.projects is Some && views(
                tables.projects->Some_0@,
            ).contains(project)
            &&& loaded.personal_keys.contains(key) <==> tables.personal_keys is Some && views(
                tables.personal_keys->Some_0@,
            ).contains(key)
            &&& loaded.sessions.contains(session) <==> tables.sessions is Some && views(
                tables.sessions->Some_0@,
            ).contains(session)
        }),
{
    lemma_sorted(table_rows(tables.users), user_age(), user);
    lemma_sorted(table_rows(tables.organizations), organization_order(), organization);
    lemma_sorted(table_rows(tables.memberships), membership_order(), membership);
    lemma_sorted(table_rows(tables.projects), project_order(), project);
    lemma_sorted(table_rows(tables.personal_keys), key_age(), key);
    lemma_sorted(table_rows(tables.sessions), session_age(), session);
}

} // verus!
