//! What importing the accounts and projects of an earlier installation does to the control state.
use vstd::prelude::*;

use crate::control::access::{
    email_is, hash_is, key_is, member_is, organization_is, project_is, session_is, token_is, user_is,
    ControlModel, KeyRowModel, MemberRowModel, OrganizationRowModel, ProjectRowModel, SessionRowModel,
    UserRowModel,
};
use crate::control::{role_named, Role};
use crate::legacy_import::{
    adopted, all_tokens, auth_imported, control_imported, imported_organization, key_step, lemma_orphans,
    membership_step, organization_prepared, organization_step, orphans, orphans_imported, project_id_of,
    project_step, project_tokens, session_step, user_step, ImportFault, LegacyModel, MembershipModel,
};
use crate::rows::{
    index_of, lemma_index_none, lemma_index_of, lemma_push_contains, lemma_texts_added, steps, texts_added,
};

verus! {

// ── Rows in turn ──────────────────────────────────────────────────────────────

proof fn lemma_last_or_rest<V>(rows: Seq<V>, x: V)
    requires
        rows.len() > 0,
    ensures
        rows.contains(x) <==> rows.drop_last().contains(x) || x == rows.last(),
{
    assert(rows =~= rows.drop_last().push(rows.last()));
    lemma_push_contains(rows.drop_last(), rows.last(), x);
}

proof fn lemma_users(m: ControlModel, rows: Seq<UserRowModel>, x: UserRowModel)
    requires
        steps(m, rows, user_step()) is Ok,
    ensures
        ({
            let n = steps(m, rows, user_step())->Ok_0;
            &&& n == (ControlModel { users: n.users, ..m })
            &&& m.users.contains(x) ==> n.users.contains(x)
            &&& n.users.contains(x) ==> m.users.contains(x) || rows.contains(x)
            &&& rows.contains(x) ==> exists|k: int|
                0 <= k < n.users.len() && ((#[trigger] n.users[k]).id == x.id || n.users[k].email
                    == x.email)
        }),
    decreases rows.len(),
{
    if rows.len() > 0 {
        lemma_users(m, rows.drop_last(), x);
        lemma_last_or_rest(rows, x);
        let row = rows.last();
        let b = steps(m, rows.drop_last(), user_step())->Ok_0;
        let n = steps(m, rows, user_step())->Ok_0;
        lemma_index_of(b.users, user_is(row.id));
        lemma_index_of(b.users, email_is(row.email));
        lemma_push_contains(b.users, row, x);
        if rows.drop_last().contains(x) {
            let k = choose|k: int|
                0 <= k < b.users.len() && ((#[trigger] b.users[k]).id == x.id || b.users[k].email
                    == x.email);
            assert(n.users[k] == b.users[k]);
        }
        if n.users.len() > b.users.len() {
            assert(n.users[n.users.len() - 1] == row);
        }
    }
}

proof fn lemma_organizations(m: ControlModel, rows: Seq<OrganizationRowModel>, x: OrganizationRowModel)
    requires
        steps(m, rows, organization_step()) is Ok,
    ensures
        ({
            let n = steps(m, rows, organization_step())->Ok_0;
            &&& n == (ControlModel { organizations: n.organizations, ..m })
            &&& m.organizations.contains(x) ==> n.organizations.contains(x)
            &&& n.organizations.contains(x) ==> m.organizations.contains(x) || exists|j: int|
                0 <= j < rows.len() && x == (OrganizationRowModel {
                    imported: false,
                    ..(#[trigger] rows[j])
                })
            &&& rows.contains(x) ==> exists|k: int|
                0 <= k < n.organizations.len() && (#[trigger] n.organizations[k]).id == x.id
        }),
    decreases rows.len(),
{
    if rows.len() > 0 {
        let rest = rows.drop_last();
        lemma_organizations(m, rest, x);
        lemma_last_or_rest(rows, x);
        let row = rows.last();
        let b = steps(m, rest, organization_step())->Ok_0;
        let n = steps(m, rows, organization_step())->Ok_0;
        lemma_index_of(b.organizations, organization_is(row.id));
        lemma_push_contains(b.organizations, OrganizationRowModel { imported: false, ..row }, x);
        if rest.contains(x) {
            let k = choose|k: int|
                0 <= k < b.organizations.len() && (#[trigger] b.organizations[k]).id == x.id;
            assert(n.organizations[k] == b.organizations[k]);
        }
        if n.organizations.len() > b.organizations.len() {
            assert(n.organizations[n.organizations.len() - 1].id == row.id);
            if x == n.organizations.last() {
                assert(x == (OrganizationRowModel { imported: false, ..rows[rows.len() - 1] }));
            }
        }
        if b.organizations.contains(x) && !m.organizations.contains(x) {
            let j = choose|j: int|
                0 <= j < rest.len() && x == (OrganizationRowModel {
                    imported: false,
                    ..(#[trigger] rest[j])
                });
            assert(x == (OrganizationRowModel { imported: false, ..rows[j] }));
        }
    }
}

proof fn lemma_memberships(m: ControlModel, rows: Seq<MembershipModel>, row: MembershipModel, x: MemberRowModel)
    requires
        steps(m, rows, membership_step()) is Ok,
    ensures
        ({
            let n = steps(m, rows, membership_step())->Ok_0;
            &&& n == (ControlModel { members: n.members, ..m })
            &&& m.members.contains(x) ==> n.members.contains(x)
            &&& n.members.contains(x) ==> m.members.contains(x) || exists|j: int|
                0 <= j < rows.len() && (#[trigger] rows[j]).organization_id == x.organization_id
                    && rows[j].user_id == x.user_id && role_named(rows[j].role) == Some(x.role)
            &&& rows.contains(row) && role_named(row.role) is Some ==> exists|k: int|
                0 <= k < n.members.len() && (#[trigger] n.members[k]).organization_id
                    == row.organization_id && n.members[k].user_id == row.user_id
        }),
    decreases rows.len(),
{
    if rows.len() > 0 {
        let rest = rows.drop_last();
        lemma_memberships(m, rest, row, x);
        lemma_last_or_rest(rows, row);
        let last = rows.last();
        let b = steps(m, rest, membership_step())->Ok_0;
        let n = steps(m, rows, membership_step())->Ok_0;
        lemma_index_of(b.members, member_is(last.organization_id, last.user_id));
        if n.members.len() > b.members.len() {
            lemma_push_contains(b.members, n.members.last(), x);
            assert(n.members[n.members.len() - 1].user_id == last.user_id);
            assert(rows[rows.len() - 1] == last);
        }
        if rest.contains(row) && role_named(row.role) is Some {
            let k = choose|k: int|
                0 <= k < b.members.len() && (#[trigger] b.members[k]).organization_id
                    == row.organization_id && b.members[k].user_id == row.user_id;
            assert(n.members[k] == b.members[k]);
        }
        if b.members.contains(x) && !m.members.contains(x) {
            let j = choose|j: int|
                0 <= j < rest.len() && (#[trigger] rest[j]).organization_id == x.organization_id
                    && rest[j].user_id == x.user_id && role_named(rest[j].role) == Some(x.role);
            assert(rows[j] == rest[j]);
        }
    }
}

proof fn lemma_keys(m: ControlModel, rows: Seq<KeyRowModel>, x: KeyRowModel)
    requires
        steps(m, rows, key_step()) is Ok,
    ensures
        ({
            let n = steps(m, rows, key_step())->Ok_0;
            &&& n == (ControlModel { keys: n.keys, ..m })
            &&& m.keys.contains(x) ==> n.keys.contains(x)
            &&& n.keys.contains(x) ==> m.keys.contains(x) || rows.contains(x)
            &&& rows.contains(x) ==> exists|k: int|
                0 <= k < n.keys.len() && ((#[trigger] n.keys[k]).id == x.id || n.keys[k].key_hash
                    == x.key_hash)
        }),
    decreases rows.len(),
{
    if rows.len() > 0 {
        lemma_keys(m, rows.drop_last(), x);
        lemma_last_or_rest(rows, x);
        let row = rows.last();
        let b = steps(m, rows.drop_last(), key_step())->Ok_0;
        let n = steps(m, rows, key_step())->Ok_0;
        lemma_index_of(b.keys, key_is(row.id));
        lemma_index_of(b.keys, hash_is(row.key_hash));
        lemma_push_contains(b.keys, row, x);
        if rows.drop_last().contains(x) {
            let k = choose|k: int|
                0 <= k < b.keys.len() && ((#[trigger] b.keys[k]).id == x.id || b.keys[k].key_hash
                    == x.key_hash);
            assert(n.keys[k] == b.keys[k]);
        }
        if n.keys.len() > b.keys.len() {
            assert(n.keys[n.keys.len() - 1] == row);
        }
    }
}

proof fn lemma_sessions(m: ControlModel, rows: Seq<SessionRowModel>, x: SessionRowModel)
    requires
        steps(m, rows, session_step()) is Ok,
    ensures
        ({
            let n = steps(m, rows, session_step())->Ok_0;
            &&& n == (ControlModel { sessions: n.sessions, ..m })
            &&& m.sessions.contains(x) ==> n.sessions.contains(x)
            &&& n.sessions.contains(x) ==> m.sessions.contains(x) || rows.contains(x)
            &&& rows.contains(x) ==> exists|k: int|
                0 <= k < n.sessions.len() && (#[trigger] n.sessions[k]).id == x.id
        }),
    decreases rows.len(),
{
    if rows.len() > 0 {
        lemma_sessions(m, rows.drop_last(), x);
        lemma_last_or_rest(rows, x);
        let row = rows.last();
        let b = steps(m, rows.drop_last(), session_step())->Ok_0;
        let n = steps(m, rows, session_step())->Ok_0;
        lemma_index_of(b.sessions, session_is(row.id));
        lemma_push_contains(b.sessions, row, x);
        if rows.drop_last().contains(x) {
            let k = choose|k: int| 0 <= k < b.sessions.len() && (#[trigger] b.sessions[k]).id == x.id;
            assert(n.sessions[k] == b.sessions[k]);
        }
        if n.sessions.len() > b.sessions.len() {
            assert(n.sessions[n.sessions.len() - 1] == row);
        }
    }
}

/// Whether a project with a capture token is among some.
pub open spec fn token_in(projects: Seq<ProjectRowModel>, token: Seq<char>) -> bool {
    exists|k: int| 0 <= k < projects.len() && (#[trigger] projects[k]).capture_token == token
}

proof fn lemma_projects(m: ControlModel, rows: Seq<ProjectRowModel>, row: ProjectRowModel)
    requires
        steps(m, rows, project_step()) is Ok,
    ensures
        ({
            let n = steps(m, rows, project_step())->Ok_0;
            &&& n == (ControlModel { projects: n.projects, ..m })
            &&& token_in(n.projects, row.capture_token) ==> token_in(m.projects, row.capture_token)
                || token_in(rows, row.capture_token)
            &&& rows.contains(row) && (forall|j: int|
                0 <= j < rows.len() && (#[trigger] rows[j]).capture_token == row.capture_token
                    ==> rows[j] == row) ==> exists|k: int|
                0 <= k < n.projects.len() && (#[trigger] n.projects[k]) == (ProjectRowModel {
                    id: n.projects[k].id,
                    imported: false,
                    ..row
                }) && (!token_in(m.projects, row.capture_token) ==> n.projects[k].id == row.id)
        }),
    decreases rows.len(),
{
    if rows.len() > 0 {
        let rest = rows.drop_last();
        let last = rows.last();
        let token = row.capture_token;
        lemma_projects(m, rest, row);
        lemma_last_or_rest(rows, row);
        let b = steps(m, rest, project_step())->Ok_0;
        let n = steps(m, rows, project_step())->Ok_0;
        lemma_index_of(b.projects, token_is(last.capture_token));
        assert(rows[rows.len() - 1] == last);
        if token_in(n.projects, token) {
            let k = choose|k: int|
                0 <= k < n.projects.len() && (#[trigger] n.projects[k]).capture_token == token;
            if last.capture_token != token {
                assert(k < b.projects.len());
                assert(b.projects[k].capture_token == token);
            }
        }
        if token_in(rest, token) {
            let j = choose|j: int| 0 <= j < rest.len() && (#[trigger] rest[j]).capture_token == token;
            assert(rows[j].capture_token == token);
        }
        if rows.contains(row) && (forall|j: int|
            0 <= j < rows.len() && (#[trigger] rows[j]).capture_token == token ==> rows[j] == row) {
            assert forall|j: int|
                0 <= j < rest.len() && (#[trigger] rest[j]).capture_token == token implies rest[j] == row by {
                assert(rows[j] == rest[j]);
            }
            if last.capture_token != token {
                let k = choose|k: int|
                    0 <= k < b.projects.len() && (#[trigger] b.projects[k]) == (ProjectRowModel {
                        id: b.projects[k].id,
                        imported: false,
                        ..row
                    }) && (!token_in(m.projects, token) ==> b.projects[k].id == row.id);
                assert(n.projects[k] == b.projects[k]);
            } else {
                assert(last == row);
                match index_of(b.projects, token_is(token)) {
                    Some(i) => {
                        assert(b.projects[i].capture_token == token);
                        assert(n.projects[i] == (ProjectRowModel {
                            id: b.projects[i].id,
                            imported: false,
                            ..row
                        }));
                        if !token_in(m.projects, token) {
                            assert(token_in(b.projects, token));
                            let j = choose|j: int|
                                0 <= j < rest.len() && (#[trigger] rest[j]).capture_token == token;
                            assert(rest[j] == row);
                            assert(rest.contains(row));
                            let k = choose|k: int|
                                0 <= k < b.projects.len() && (#[trigger] b.projects[k]) == (
                                ProjectRowModel { id: b.projects[k].id, imported: false, ..row })
                                    && (!token_in(m.projects, token) ==> b.projects[k].id == row.id);
                            if k != i {
                                assert(n.projects[k] == b.projects[k]);
                            }
                        }
                    },
                    None => {
                        assert(n.projects[n.projects.len() - 1] == (ProjectRowModel {
                            imported: false,
                            ..row
                        }));
                    },
                }
            }
        }
    }
}

proof fn lemma_adopted_adds(
    m: ControlModel,
    tokens: Seq<Seq<char>>,
    registry: Map<Seq<char>, Seq<char>>,
    x: ProjectRowModel,
)
    ensures
        ({
            let n = adopted(m, tokens, registry);
            &&& n == (ControlModel { projects: n.projects, ..m })
            &&& m.projects.contains(x) ==> n.projects.contains(x)
        }),
    decreases tokens.len(),
{
    if tokens.len() > 0 {
        lemma_adopted_adds(m, tokens.drop_last(), registry, x);
        let b = adopted(m, tokens.drop_last(), registry);
        let n = adopted(m, tokens, registry);
        if n.projects.len() > b.projects.len() {
            lemma_push_contains(b.projects, n.projects.last(), x);
        }
    }
}

proof fn lemma_orphans_add(
    m: ControlModel,
    tokens: Seq<Seq<char>>,
    registry: Map<Seq<char>, Seq<char>>,
    x: ProjectRowModel,
    o: OrganizationRowModel,
    u: MemberRowModel,
)
    ensures
        ({
            let n = orphans_imported(m, tokens, registry);
            &&& n.users == m.users
            &&& n.keys == m.keys
            &&& n.sessions == m.sessions
            &&& m.projects.contains(x) ==> n.projects.contains(x)
            &&& m.organizations.contains(o) ==> n.organizations.contains(o)
            &&& m.members.contains(u) ==> n.members.contains(u)
        }),
{
    let missing = orphans(m, tokens);
    let p = organization_prepared(m);
    lemma_adopted_adds(p, missing, registry, x);
    if p.organizations.len() > m.organizations.len() {
        lemma_push_contains(m.organizations, p.organizations.last(), o);
    }
    if p.members.len() > m.members.len() {
        lemma_push_contains(m.members, p.members.last(), u);
    }
}

/// The states between the parts of an import.
proof fn lemma_parts(
    m: ControlModel,
    path: Seq<char>,
    legacy: LegacyModel,
    discovered: Seq<Seq<char>>,
    extra: Seq<Seq<char>>,
    registry: Map<Seq<char>, Seq<char>>,
    valid: Seq<Seq<char>>,
) -> (s: (ControlModel, ControlModel, ControlModel, ControlModel, ControlModel, ControlModel))
    requires
        control_imported(m, path, legacy, discovered, extra, registry, valid) is Ok,
    ensures
        steps(m, legacy.users, user_step()) == Ok::<ControlModel, Seq<char>>(s.0),
        steps(s.0, legacy.organizations, organization_step()) == Ok::<ControlModel, Seq<char>>(s.1),
        steps(s.1, legacy.memberships, membership_step()) == Ok::<ControlModel, Seq<char>>(s.2),
        steps(s.2, legacy.projects, project_step()) == Ok::<ControlModel, Seq<char>>(s.3),
        steps(s.3, legacy.personal_keys, key_step()) == Ok::<ControlModel, Seq<char>>(s.4),
        steps(s.4, legacy.sessions, session_step()) == Ok::<ControlModel, Seq<char>>(s.5),
        control_imported(m, path, legacy, discovered, extra, registry, valid) == Ok::<
            ControlModel,
            ImportFault,
        >(orphans_imported(s.5, all_tokens(legacy, discovered, extra), registry)),
        s.0 == (ControlModel { users: s.0.users, ..m }),
        s.1 == (ControlModel { organizations: s.1.organizations, ..s.0 }),
        s.2 == (ControlModel { members: s.2.members, ..s.1 }),
        s.3 == (ControlModel { projects: s.3.projects, ..s.2 }),
        s.4 == (ControlModel { keys: s.4.keys, ..s.3 }),
        s.5 == (ControlModel { sessions: s.5.sessions, ..s.4 }),
{
    let m1 = steps(m, legacy.users, user_step())->Ok_0;
    let m2 = steps(m1, legacy.organizations, organization_step())->Ok_0;
    let m3 = steps(m2, legacy.memberships, membership_step())->Ok_0;
    let m4 = steps(m3, legacy.projects, project_step())->Ok_0;
    let m5 = steps(m4, legacy.personal_keys, key_step())->Ok_0;
    let m6 = steps(m5, legacy.sessions, session_step())->Ok_0;
    assert(auth_imported(m, legacy) is Ok);
    lemma_users(m, legacy.users, arbitrary());
    lemma_organizations(m1, legacy.organizations, arbitrary());
    lemma_memberships(m2, legacy.memberships, arbitrary(), arbitrary());
    lemma_projects(m3, legacy.projects, arbitrary());
    lemma_keys(m4, legacy.personal_keys, arbitrary());
    lemma_sessions(m5, legacy.sessions, arbitrary());
    (m1, m2, m3, m4, m5, m6)
}

// ── What is taken over ────────────────────────────────────────────────────────

/// A user is taken over as they were, unless someone has their id or their address already.
pub proof fn law_users_are_taken_over(
    m: ControlModel,
    path: Seq<char>,
    legacy: LegacyModel,
    discovered: Seq<Seq<char>>,
    extra: Seq<Seq<char>>,
    registry: Map<Seq<char>, Seq<char>>,
    valid: Seq<Seq<char>>,
    row: UserRowModel,
)
    requires
        control_imported(m, path, legacy, discovered, extra, registry, valid) is Ok,
    ensures
        ({
            let n = control_imported(m, path, legacy, discovered, extra, registry, valid)->Ok_0;
            &&& m.users.contains(row) ==> n.users.contains(row)
            &&& n.users.contains(row) ==> m.users.contains(row) || legacy.users.contains(row)
            &&& legacy.users.contains(row) && (forall|i: int|
                0 <= i < m.users.len() ==> (#[trigger] m.users[i]).id != row.id && m.users[i].email
                    != row.email) && (forall|i: int|
                0 <= i < legacy.users.len() ==> (#[trigger] legacy.users[i]) == row || (
                legacy.users[i].id != row.id && legacy.users[i].email != row.email))
                ==> n.users.contains(row)
        }),
{
    let s = lemma_parts(m, path, legacy, discovered, extra, registry, valid);
    lemma_users(m, legacy.users, row);
    lemma_orphans_add(
        s.5,
        all_tokens(legacy, discovered, extra),
        registry,
        arbitrary(),
        arbitrary(),
        arbitrary(),
    );
    if legacy.users.contains(row) {
        let k = choose|k: int|
            0 <= k < s.0.users.len() && ((#[trigger] s.0.users[k]).id == row.id || s.0.users[k].email
                == row.email);
        assert(s.0.users.contains(s.0.users[k]));
        lemma_users(m, legacy.users, s.0.users[k]);
    }
}

/// An organization is taken over as it was, unless one with its id is there already.
pub proof fn law_organizations_are_taken_over(
    m: ControlModel,
    path: Seq<char>,
    legacy: LegacyModel,
    discovered: Seq<Seq<char>>,
    extra: Seq<Seq<char>>,
    registry: Map<Seq<char>, Seq<char>>,
    valid: Seq<Seq<char>>,
    row: OrganizationRowModel,
)
    requires
        control_imported(m, path, legacy, discovered, extra, registry, valid) is Ok,
        legacy.organizations.contains(row),
        forall|i: int| 0 <= i < m.organizations.len() ==> (#[trigger] m.organizations[i]).id != row.id,
        forall|i: int|
            0 <= i < legacy.organizations.len() && (#[trigger] legacy.organizations[i]).id == row.id
                ==> legacy.organizations[i] == row,
    ensures
        control_imported(
            m,
            path,
            legacy,
            discovered,
            extra,
            registry,
            valid,
        )->Ok_0.organizations.contains(OrganizationRowModel { imported: false, ..row }),
{
    let s = lemma_parts(m, path, legacy, discovered, extra, registry, valid);
    lemma_organizations(s.0, legacy.organizations, row);
    let k = choose|k: int|
        0 <= k < s.1.organizations.len() && (#[trigger] s.1.organizations[k]).id == row.id;
    let found = s.1.organizations[k];
    assert(s.1.organizations.contains(found));
    lemma_organizations(s.0, legacy.organizations, found);
    if m.organizations.contains(found) {
        let i = choose|i: int| 0 <= i < m.organizations.len() && m.organizations[i] == found;
        assert(m.organizations[i].id != row.id);
    }
    lemma_orphans_add(
        s.5,
        all_tokens(legacy, discovered, extra),
        registry,
        arbitrary(),
        found,
        arbitrary(),
    );
}

/// A membership is taken over with its role, unless the user is a member already.
pub proof fn law_memberships_are_taken_over(
    m: ControlModel,
    path: Seq<char>,
    legacy: LegacyModel,
    discovered: Seq<Seq<char>>,
    extra: Seq<Seq<char>>,
    registry: Map<Seq<char>, Seq<char>>,
    valid: Seq<Seq<char>>,
    row: MembershipModel,
    role: Role,
)
    requires
        control_imported(m, path, legacy, discovered, extra, registry, valid) is Ok,
        legacy.memberships.contains(row),
        row.role == (match role {
            Role::Owner => "owner"@,
            Role::Admin => "admin"@,
            Role::Member => "member"@,
        }),
        forall|i: int|
            0 <= i < m.members.len() ==> (#[trigger] m.members[i]).organization_id
                != row.organization_id || m.members[i].user_id != row.user_id,
        forall|i: int|
            0 <= i < legacy.memberships.len() ==> (#[trigger] legacy.memberships[i]) == row
                || legacy.memberships[i].organization_id != row.organization_id
                || legacy.memberships[i].user_id != row.user_id,
    ensures
        control_imported(
            m,
            path,
            legacy,
            discovered,
            extra,
            registry,
            valid,
        )->Ok_0.members.contains(
            MemberRowModel { organization_id: row.organization_id, user_id: row.user_id, role },
        ),
{
    reveal_strlit("owner");
    reveal_strlit("admin");
    reveal_strlit("member");
    assert("owner"@[0] != "admin"@[0]);
    assert("owner"@[0] != "member"@[0]);
    assert("admin"@[0] != "member"@[0]);
    assert(role_named(row.role) == Some(role));
    let s = lemma_parts(m, path, legacy, discovered, extra, registry, valid);
    lemma_memberships(s.1, legacy.memberships, row, arbitrary());
    let k = choose|k: int|
        0 <= k < s.2.members.len() && (#[trigger] s.2.members[k]).organization_id
            == row.organization_id && s.2.members[k].user_id == row.user_id;
    let found = s.2.members[k];
    assert(s.2.members.contains(found));
    lemma_memberships(s.1, legacy.memberships, row, found);
    if m.members.contains(found) {
        let i = choose|i: int| 0 <= i < m.members.len() && m.members[i] == found;
        assert(m.members[i].user_id == row.user_id);
    }
    lemma_orphans_add(
        s.5,
        all_tokens(legacy, discovered, extra),
        registry,
        arbitrary(),
        arbitrary(),
        found,
    );
}

/// A personal key is taken over as it was, unless its id or its secret is there already; a session likewise.
pub proof fn law_keys_and_sessions_are_taken_over(
    m: ControlModel,
    path: Seq<char>,
    legacy: LegacyModel,
    discovered: Seq<Seq<char>>,
    extra: Seq<Seq<char>>,
    registry: Map<Seq<char>, Seq<char>>,
    valid: Seq<Seq<char>>,
    key: KeyRowModel,
    session: SessionRowModel,
)
    requires
        control_imported(m, path, legacy, discovered, extra, registry, valid) is Ok,
    ensures
        ({
            let n = control_imported(m, path, legacy, discovered, extra, registry, valid)->Ok_0;
            &&& legacy.personal_keys.contains(key) && (forall|i: int|
                0 <= i < m.keys.len() ==> (#[trigger] m.keys[i]).id != key.id && m.keys[i].key_hash
                    != key.key_hash) && (forall|i: int|
                0 <= i < legacy.personal_keys.len() ==> (#[trigger] legacy.personal_keys[i]) == key || (
                legacy.personal_keys[i].id != key.id && legacy.personal_keys[i].key_hash
                    != key.key_hash)) ==> n.keys.contains(key)
            &&& n.keys.contains(key) ==> m.keys.contains(key) || legacy.personal_keys.contains(key)
            &&& legacy.sessions.contains(session) && (forall|i: int|
                0 <= i < m.sessions.len() ==> (#[trigger] m.sessions[i]).id != session.id) && (forall|
                i: int,
            |
                0 <= i < legacy.sessions.len() ==> (#[trigger] legacy.sessions[i]) == session
                    || legacy.sessions[i].id != session.id) ==> n.sessions.contains(session)
            &&& n.sessions.contains(session) ==> m.sessions.contains(session)
                || legacy.sessions.contains(session)
        }),
{
    let s = lemma_parts(m, path, legacy, discovered, extra, registry, valid);
    lemma_keys(s.3, legacy.personal_keys, key);
    lemma_sessions(s.4, legacy.sessions, session);
    if legacy.personal_keys.contains(key) {
        let k = choose|k: int|
            0 <= k < s.4.keys.len() && ((#[trigger] s.4.keys[k]).id == key.id || s.4.keys[k].key_hash
                == key.key_hash);
        assert(s.4.keys.contains(s.4.keys[k]));
        lemma_keys(s.3, legacy.personal_keys, s.4.keys[k]);
    }
    if legacy.sessions.contains(session) {
        let k = choose|k: int|
            0 <= k < s.5.sessions.len() && (#[trigger] s.5.sessions[k]).id == session.id;
        assert(s.5.sessions.contains(s.5.sessions[k]));
        lemma_sessions(s.4, legacy.sessions, s.5.sessions[k]);
    }
    lemma_orphans_add(
        s.5,
        all_tokens(legacy, discovered, extra),
        registry,
        arbitrary(),
        arbitrary(),
        arbitrary(),
    );
}

/// A project is taken over with its name, its organization and its capture token; it keeps its id where no
/// project has that token yet.
pub proof fn law_projects_are_taken_over(
    m: ControlModel,
    path: Seq<char>,
    legacy: LegacyModel,
    discovered: Seq<Seq<char>>,
    extra: Seq<Seq<char>>,
    registry: Map<Seq<char>, Seq<char>>,
    valid: Seq<Seq<char>>,
    row: ProjectRowModel,
) -> (id: Seq<char>)
    requires
        control_imported(m, path, legacy, discovered, extra, registry, valid) is Ok,
        legacy.projects.contains(row),
        forall|i: int|
            0 <= i < legacy.projects.len() && (#[trigger] legacy.projects[i]).capture_token
                == row.capture_token ==> legacy.projects[i] == row,
    ensures
        control_imported(
            m,
            path,
            legacy,
            discovered,
            extra,
            registry,
            valid,
        )->Ok_0.projects.contains(ProjectRowModel { id, imported: false, ..row }),
        (forall|i: int|
            0 <= i < m.projects.len() ==> (#[trigger] m.projects[i]).capture_token
                != row.capture_token) ==> id == row.id,
{
    let s = lemma_parts(m, path, legacy, discovered, extra, registry, valid);
    lemma_projects(s.2, legacy.projects, row);
    let k = choose|k: int|
        0 <= k < s.3.projects.len() && (#[trigger] s.3.projects[k]) == (ProjectRowModel {
            id: s.3.projects[k].id,
            imported: false,
            ..row
        }) && (!token_in(s.2.projects, row.capture_token) ==> s.3.projects[k].id == row.id);
    assert(s.3.projects.contains(s.3.projects[k]));
    lemma_orphans_add(
        s.5,
        all_tokens(legacy, discovered, extra),
        registry,
        s.3.projects[k],
        arbitrary(),
        arbitrary(),
    );
    s.3.projects[k].id
}

// ── Projects without a record ─────────────────────────────────────────────────

/// Whether no project has an id or a capture token.
pub open spec fn unclaimed(projects: Seq<ProjectRowModel>, id: Seq<char>, token: Seq<char>) -> bool {
    forall|k: int|
        0 <= k < projects.len() ==> (#[trigger] projects[k]).id != id && projects[k].capture_token
            != token
}

proof fn lemma_unclaimed(m: ControlModel, rows: Seq<ProjectRowModel>, id: Seq<char>, token: Seq<char>)
    requires
        steps(m, rows, project_step()) is Ok,
        unclaimed(m.projects, id, token),
        unclaimed(rows, id, token),
    ensures
        unclaimed(steps(m, rows, project_step())->Ok_0.projects, id, token),
    decreases rows.len(),
{
    if rows.len() > 0 {
        let rest = rows.drop_last();
        let last = rows.last();
        assert forall|k: int| 0 <= k < rest.len() implies (#[trigger] rest[k]).id != id
            && rest[k].capture_token != token by {
            assert(rows[k] == rest[k]);
        }
        lemma_unclaimed(m, rest, id, token);
        let b = steps(m, rest, project_step())->Ok_0;
        let n = steps(m, rows, project_step())->Ok_0;
        lemma_index_of(b.projects, token_is(last.capture_token));
        assert(rows[rows.len() - 1] == last);
        assert forall|k: int| 0 <= k < n.projects.len() implies (#[trigger] n.projects[k]).id != id
            && n.projects[k].capture_token != token by {
            if k < b.projects.len() {
                assert(b.projects[k].id != id);
            }
        }
    }
}

/// Whether an organization with an id is among some.
pub open spec fn organization_in(organizations: Seq<OrganizationRowModel>, id: Seq<char>) -> bool {
    exists|i: int| 0 <= i < organizations.len() && (#[trigger] organizations[i]).id == id
}

/// The project that stands for a capture token of which nothing else is known.
pub open spec fn stand_in(token: Seq<char>, name: Seq<char>) -> ProjectRowModel {
    ProjectRowModel {
        id: project_id_of(token),
        organization_id: imported_organization(),
        name,
        capture_token: token,
        created_at: 0,
        imported: true,
    }
}

proof fn lemma_adopted_makes(
    m: ControlModel,
    tokens: Seq<Seq<char>>,
    registry: Map<Seq<char>, Seq<char>>,
    token: Seq<char>,
    name: Seq<char>,
)
    requires
        unclaimed(m.projects, project_id_of(token), token),
        forall|i: int|
            0 <= i < tokens.len() && project_id_of(#[trigger] tokens[i]) == project_id_of(token)
                ==> tokens[i] == token,
        registry.contains_key(token) ==> name == registry[token],
        !registry.contains_key(token) ==> name == "Imported Project"@,
    ensures
        tokens.contains(token) ==> adopted(m, tokens, registry).projects.contains(
            stand_in(token, name),
        ),
        !tokens.contains(token) ==> unclaimed(
            adopted(m, tokens, registry).projects,
            project_id_of(token),
            token,
        ),
    decreases tokens.len(),
{
    if tokens.len() > 0 {
        let rest = tokens.drop_last();
        let last = tokens.last();
        assert forall|i: int|
            0 <= i < rest.len() && project_id_of(#[trigger] rest[i]) == project_id_of(
                token,
            ) implies rest[i] == token by {
            assert(tokens[i] == rest[i]);
        }
        lemma_adopted_makes(m, rest, registry, token, name);
        lemma_last_or_rest(tokens, token);
        let b = adopted(m, rest, registry);
        let n = adopted(m, tokens, registry);
        lemma_index_of(b.projects, project_is(project_id_of(last)));
        lemma_index_of(b.projects, token_is(last));
        assert(tokens[tokens.len() - 1] == last);
        if n.projects.len() > b.projects.len() {
            lemma_push_contains(b.projects, n.projects.last(), stand_in(token, name));
            if !tokens.contains(token) {
                assert forall|k: int| 0 <= k < n.projects.len() implies (#[trigger] n.projects[k]).id
                    != project_id_of(token) && n.projects[k].capture_token != token by {
                    if k < b.projects.len() {
                        assert(n.projects[k] == b.projects[k]);
                    } else {
                        assert(n.projects[k].capture_token == last);
                    }
                }
            }
        }
        if last == token && !rest.contains(token) {
            lemma_index_none(b.projects, project_is(project_id_of(token)));
            lemma_index_none(b.projects, token_is(token));
        }
    }
}

/// A capture token that no project has gets one, named as in the registry, in the organization for such projects.
pub proof fn law_every_orphan_gets_a_project(
    m: ControlModel,
    path: Seq<char>,
    legacy: LegacyModel,
    discovered: Seq<Seq<char>>,
    extra: Seq<Seq<char>>,
    registry: Map<Seq<char>, Seq<char>>,
    valid: Seq<Seq<char>>,
    token: Seq<char>,
    name: Seq<char>,
)
    requires
        control_imported(m, path, legacy, discovered, extra, registry, valid) is Ok,
        discovered.contains(token) || extra.contains(token),
        unclaimed(m.projects, project_id_of(token), token),
        unclaimed(legacy.projects, project_id_of(token), token),
        forall|t: Seq<char>|
            (discovered.contains(t) || extra.contains(t) || project_tokens(legacy.projects).contains(t))
                && #[trigger] project_id_of(t) == project_id_of(token) ==> t == token,
        registry.contains_key(token) ==> name == registry[token],
        !registry.contains_key(token) ==> name == "Imported Project"@,
    ensures
        control_imported(
            m,
            path,
            legacy,
            discovered,
            extra,
            registry,
            valid,
        )->Ok_0.projects.contains(
            ProjectRowModel {
                id: project_id_of(token),
                organization_id: imported_organization(),
                name,
                capture_token: token,
                created_at: 0,
                imported: true,
            },
        ),
        organization_in(
            control_imported(
                m,
                path,
                legacy,
                discovered,
                extra,
                registry,
                valid,
            )->Ok_0.organizations,
            imported_organization(),
        ),
{
    let s = lemma_parts(m, path, legacy, discovered, extra, registry, valid);
    let tokens = all_tokens(legacy, discovered, extra);
    lemma_unclaimed(s.2, legacy.projects, project_id_of(token), token);
    lemma_all_tokens(legacy, discovered, extra, token);
    lemma_index_none(s.5.projects, token_is(token));
    lemma_orphans(s.5, tokens, token);
    let missing = orphans(s.5, tokens);
    assert forall|i: int|
        0 <= i < missing.len() && project_id_of(#[trigger] missing[i]) == project_id_of(
            token,
        ) implies missing[i] == token by {
        let t = missing[i];
        assert(missing.contains(t));
        lemma_orphans(s.5, tokens, t);
        lemma_all_tokens(legacy, discovered, extra, t);
    }
    let prepared = organization_prepared(s.5);
    lemma_adopted_makes(prepared, missing, registry, token, name);
    lemma_adopted_adds(prepared, missing, registry, arbitrary());
    lemma_index_of(s.5.organizations, organization_is(imported_organization()));
    let i = match index_of(s.5.organizations, organization_is(imported_organization())) {
        Some(i) => i,
        None => s.5.organizations.len() as int,
    };
    assert(missing.contains(token));
    assert(missing.len() > 0);
    let n = orphans_imported(s.5, tokens, registry);
    assert(n == adopted(prepared, missing, registry));
    assert(n.projects.contains(stand_in(token, name)));
    assert(n.organizations == prepared.organizations);
    assert(n.organizations[i].id == imported_organization());
}

proof fn lemma_all_tokens(
    legacy: LegacyModel,
    discovered: Seq<Seq<char>>,
    extra: Seq<Seq<char>>,
    t: Seq<char>,
)
    ensures
        all_tokens(legacy, discovered, extra).contains(t) <==> discovered.contains(t)
            || project_tokens(legacy.projects).contains(t) || extra.contains(t),
{
    let one = texts_added(Seq::empty(), discovered);
    let two = texts_added(one, project_tokens(legacy.projects));
    lemma_texts_added(Seq::empty(), discovered, t);
    lemma_texts_added(one, project_tokens(legacy.projects), t);
    lemma_texts_added(two, extra, t);
}

} // verus!
