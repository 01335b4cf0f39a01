//! What the control store promises: who is let in, what they may see and make, and which project a token is for.
use vstd::prelude::*;
use vstd::string::*;
use vstd::utf8::encode_utf8;

use crate::control::access::{
    email_is, imported_owned, key_of, key_order, login_done, member_is, organization_order, own_key, password_matches,
    project_in, project_is, project_order, session_checked, session_expired, session_live, session_stale,
    setup_done, token_is, user_is, workspace_of, joined_by, ControlModel, Fresh, KeyRowModel,
    MemberRowModel, OrganizationRowModel, ProjectRowModel, SessionRowModel,
};
use crate::control::grants::{
    capture_authorized, key_made, key_revoked, keys_listed, latest, organization_instants,
    organization_made, project_authorized, project_made, secret_checked, secret_of,
};
use crate::control::{
    email_ok, name_ok, password_ok, AccessFault, Authentication, AuthorizedModel, CaptureModel,
    LoginRequest, PersonalKeyModel, PrincipalModel, ProjectModel, Role, SetupModel, SetupRequest,
};
use crate::digest::{sha256_text, uuid_text_of};
use crate::rows::{
    found, holds_somewhere, index_of, lemma_index_is, lemma_index_of, lemma_push_contains, lemma_removed, lemma_selected, lemma_sorted,
    removed, selected, sorted,
};
use crate::text::{
    has_prefix, lemma_trim_end_nonempty, lemma_trim_start_blank, lowered, trim_start, trimmed,
};

verus! {

// ── Logging in ────────────────────────────────────────────────────────────────

/// Whoever names no account, or none with that password, is refused, and nothing changes.
pub proof fn law_wrong_passwords_are_refused(
    m: ControlModel,
    request: LoginRequest,
    now: i64,
    fresh: Fresh,
)
    requires
        forall|i: int|
            0 <= i < m.users.len() && (#[trigger] m.users[i]).email == lowered(trimmed(request.email@))
                ==> !password_matches(m.users[i].password_hash, request.password@),
    ensures
        login_done(m, request, now, fresh) == (m, Err::<SetupModel, AccessFault>(
            AccessFault::InvalidCredentials,
        )),
{
    lemma_index_of(m.users, email_is(lowered(trimmed(request.email@))));
}

/// Logging in opens a session of the account's own user, for as many seconds as seven days have. Of the other
/// sessions those that are over go, and all others stay.
pub proof fn law_logging_in_opens_a_session(
    m: ControlModel,
    request: LoginRequest,
    now: i64,
    fresh: Fresh,
    row: SessionRowModel,
)
    requires
        now <= i64::MAX - 604_800,
        login_done(m, request, now, fresh).1 is Ok,
    ensures
        ({
            let (next, r) = login_done(m, request, now, fresh);
            let opened = next.sessions.last();
            &&& next.sessions.len() > 0
            &&& opened.id == r->Ok_0.session_id
            &&& opened.user_id == r->Ok_0.workspace.user.id
            &&& opened.expires_at == now + 604_800
            &&& exists|i: int|
                0 <= i < m.users.len() && (#[trigger] m.users[i]).id == opened.user_id && m.users[i].email
                    == lowered(trimmed(request.email@)) && password_matches(
                    m.users[i].password_hash,
                    request.password@,
                )
            &&& next.sessions.drop_last().contains(row) <==> m.sessions.contains(row) && row.expires_at > now
            &&& next.users == m.users && next.keys == m.keys && next.organizations == m.organizations
            &&& next.members == m.members && next.projects == m.projects
        }),
{
    let p = email_is(lowered(trimmed(request.email@)));
    lemma_index_of(m.users, p);
    let i = crate::rows::index_of(m.users, p)->Some_0;
    assert(p(m.users[i]));
    let (next, r) = login_done(m, request, now, fresh);
    let kept = removed(m.sessions, session_expired(now));
    assert(next.sessions.drop_last() =~= kept);
    lemma_removed(m.sessions, session_expired(now), row);
    let q = user_is(m.users[i].id);
    lemma_index_of(next.users, q);
    assert(q(found(next.users, q)->Some_0));
    assert(m.users[i].id == next.sessions.last().user_id);
}

/// A session that was never opened, or is over, lets nobody in, and only such a one goes. One that is open lets in
/// the user who opened it.
pub proof fn law_only_open_sessions_let_in(
    m: ControlModel,
    session: Seq<char>,
    now: i64,
    row: SessionRowModel,
)
    ensures
        ({
            let (next, r) = session_checked(m, session, now);
            &&& (forall|i: int|
                0 <= i < m.sessions.len() && (#[trigger] m.sessions[i]).id == session
                    ==> m.sessions[i].expires_at <= now) ==> r == Err::<PrincipalModel, AccessFault>(
                AccessFault::Unauthorized,
            )
            &&& r is Ok ==> r->Ok_0.authentication == Authentication::Session && next == m && exists|i: int|
                0 <= i < m.sessions.len() && (#[trigger] m.sessions[i]).id == session
                    && m.sessions[i].expires_at > now && m.sessions[i].user_id == r->Ok_0.user_id
            &&& r is Err ==> (next.sessions.contains(row) <==> m.sessions.contains(row) && !(row.id
                == session && row.expires_at <= now))
            &&& (exists|i: int|
                0 <= i < m.sessions.len() && (#[trigger] m.sessions[i]).id == session
                    && m.sessions[i].expires_at > now) ==> r is Ok
            &&& next.users == m.users && next.keys == m.keys && next.projects == m.projects
            &&& next.members == m.members && next.organizations == m.organizations
        }),
{
    let p = session_live(session, now);
    lemma_index_of(m.sessions, p);
    lemma_removed(m.sessions, session_stale(session, now), row);
    if holds_somewhere(m.sessions, p) {
        let i = crate::rows::index_of(m.sessions, p)->Some_0;
        assert(p(m.sessions[i]));
    } else {
        assert forall|i: int| 0 <= i < m.sessions.len() && (#[trigger] m.sessions[i]).id == session implies m.sessions[i].expires_at
            <= now by {
            assert(!p(m.sessions[i]));
        }
    }
}

// ── Keys ──────────────────────────────────────────────────────────────────────

/// A secret that no key was made with lets nobody in, and neither does what is no secret; nothing changes.
pub proof fn law_unknown_secrets_are_refused(m: ControlModel, secret: Seq<char>, now: i64)
    requires
        (forall|i: int|
            0 <= i < m.keys.len() ==> (#[trigger] m.keys[i]).key_hash != sha256_text(encode_utf8(secret)))
            || !has_prefix(secret, "phx_"@) || encode_utf8(secret).len() != 36,
    ensures
        secret_checked(m, secret, now) == (m, Err::<PrincipalModel, AccessFault>(
            AccessFault::Unauthorized,
        )),
{
    lemma_index_of(m.keys, crate::control::access::hash_is(sha256_text(encode_utf8(secret))));
}

/// A secret lets in the owner of a key that was made with it, and marks that key as used; nothing else changes.
pub proof fn law_secrets_let_their_owner_in(m: ControlModel, secret: Seq<char>, now: i64, j: int)
    requires
        secret_checked(m, secret, now).1 is Ok,
        0 <= j < m.keys.len(),
    ensures
        ({
            let (next, r) = secret_checked(m, secret, now);
            &&& r->Ok_0.authentication == Authentication::PersonalKey
            &&& exists|i: int|
                0 <= i < m.keys.len() && (#[trigger] m.keys[i]).key_hash == sha256_text(
                    encode_utf8(secret),
                ) && m.keys[i].user_id == r->Ok_0.user_id && next.keys[i] == (KeyRowModel {
                    last_used: Some(now),
                    ..m.keys[i]
                })
            &&& next.keys.len() == m.keys.len()
            &&& m.keys[j].key_hash != sha256_text(encode_utf8(secret)) ==> next.keys[j] == m.keys[j]
            &&& next.keys[j].user_id == m.keys[j].user_id && next.keys[j].key_hash == m.keys[j].key_hash
            &&& next.users == m.users && next.sessions == m.sessions && next.projects == m.projects
        }),
{
    let p = crate::control::access::hash_is(sha256_text(encode_utf8(secret)));
    lemma_index_of(m.keys, p);
    let i = crate::rows::index_of(m.keys, p)->Some_0;
    assert(p(m.keys[i]));
}

/// A new key is its maker's own, under the name that they gave, and is shown with its secret once.
pub proof fn law_keys_belong_to_their_maker(
    m: ControlModel,
    principal: PrincipalModel,
    name: Seq<char>,
    now: i64,
    fresh: Fresh,
)
    requires
        key_made(m, principal, name, now, fresh).1 is Ok,
    ensures
        ({
            let (next, r) = key_made(m, principal, name, now, fresh);
            let row = next.keys.last();
            &&& next.keys == m.keys.push(row)
            &&& row.user_id == principal.user_id
            &&& row.name == trimmed(name)
            &&& row.key_hash == sha256_text(encode_utf8(r->Ok_0.secret))
            &&& row.last_used is None
            &&& row.created_at == now
            &&& has_prefix(r->Ok_0.secret, "phx_"@)
            &&& has_prefix(r->Ok_0.secret, row.key_prefix) && row.key_prefix.len() <= 12
            &&& r->Ok_0.key.id == row.id && r->Ok_0.key.name == row.name
            &&& principal.authentication == Authentication::Session
            &&& name_ok(trimmed(name))
        }),
{
    reveal_strlit("phx_");
    let (next, r) = key_made(m, principal, name, now, fresh);
    assert(secret_of(fresh.first).take(4) =~= "phx_"@);
    let secret = secret_of(fresh.first);
    let row = next.keys.last();
    assert(secret.take(row.key_prefix.len() as int) =~= row.key_prefix);
    assert(next.keys =~= m.keys.push(row));
}

/// A user lists own keys only, all of them.
pub proof fn law_users_list_own_keys(
    m: ControlModel,
    principal: PrincipalModel,
    row: KeyRowModel,
    shown: PersonalKeyModel,
)
    requires
        principal.authentication == Authentication::Session,
    ensures
        ({
            let r = keys_listed(m, principal);
            &&& r is Ok
            &&& m.keys.contains(row) && row.user_id == principal.user_id ==> exists|k: PersonalKeyModel| #[trigger]
                r->Ok_0.contains(k) && k.id == row.id && k.name == row.name && k.key_prefix == row.key_prefix
                    && k.last_used == row.last_used && k.created_at == row.created_at
            &&& r->Ok_0.contains(shown) ==> exists|k: KeyRowModel| #[trigger]
                m.keys.contains(k) && k.user_id == principal.user_id && k.id == shown.id
        }),
{
    let p = key_of(principal.user_id);
    let chosen = selected(m.keys, p);
    let rows = sorted(chosen, key_order());
    let list = keys_listed(m, principal)->Ok_0;
    if m.keys.contains(row) && row.user_id == principal.user_id {
        lemma_selected(m.keys, p, row);
        lemma_sorted(chosen, key_order(), row);
        let k = choose|k: int| 0 <= k < rows.len() && rows[k] == row;
        assert(list[k].id == row.id);
        assert(list.contains(list[k]));
    }
    if list.contains(shown) {
        let k = choose|k: int| 0 <= k < list.len() && list[k] == shown;
        lemma_sorted(chosen, key_order(), rows[k]);
        lemma_selected(m.keys, p, rows[k]);
        assert(m.keys.contains(rows[k]));
    }
}

/// A user revokes keys of their own and nobody else's; all other keys stay.
pub proof fn law_users_revoke_own_keys(
    m: ControlModel,
    principal: PrincipalModel,
    key: Seq<char>,
    row: KeyRowModel,
)
    requires
        principal.authentication == Authentication::Session,
    ensures
        ({
            let (next, r) = key_revoked(m, principal, key);
            let owned = exists|i: int|
                0 <= i < m.keys.len() && (#[trigger] m.keys[i]).id == key && m.keys[i].user_id
                    == principal.user_id;
            &&& owned ==> r is Ok && (next.keys.contains(row) <==> m.keys.contains(row) && !(row.id == key
                && row.user_id == principal.user_id))
            &&& !owned ==> r == Err::<(), AccessFault>(AccessFault::NotFound) && next == m
            &&& next.users == m.users && next.sessions == m.sessions && next.projects == m.projects
        }),
{
    let p = own_key(key, principal.user_id);
    lemma_index_of(m.keys, p);
    lemma_removed(m.keys, p, row);
    if holds_somewhere(m.keys, p) {
        let i = crate::rows::index_of(m.keys, p)->Some_0;
        assert(p(m.keys[i]));
        assert(m.keys[i].id == key);
    } else {
        assert forall|i: int| 0 <= i < m.keys.len() implies !((#[trigger] m.keys[i]).id == key
            && m.keys[i].user_id == principal.user_id) by {
            assert(!p(m.keys[i]));
        }
    }
}

// ── Organizations and projects ────────────────────────────────────────────────

proof fn lemma_latest(instants: Seq<i64>, i: int)
    requires
        0 <= i < instants.len(),
    ensures
        latest(instants) is Some,
        instants[i] <= latest(instants)->Some_0,
    decreases instants.len(),
{
    if i < instants.len() - 1 {
        lemma_latest(instants.drop_last(), i);
        assert(instants.drop_last()[i] == instants[i]);
    }
}

/// Whoever makes an organization owns it. It is younger than all there are.
pub proof fn law_makers_own_their_organization(
    m: ControlModel,
    principal: PrincipalModel,
    name: Seq<char>,
    now: i64,
    fresh: Fresh,
    i: int,
)
    requires
        organization_made(m, principal, name, now, fresh).1 is Ok,
    ensures
        ({
            let (next, r) = organization_made(m, principal, name, now, fresh);
            let row = next.organizations.last();
            let member = next.members.last();
            &&& next.organizations == m.organizations.push(row)
            &&& row.name == trimmed(name) && !row.imported
            &&& r->Ok_0.id == row.id && r->Ok_0.name == row.name && r->Ok_0.role == Role::Owner
            &&& next.members == m.members.push(member)
            &&& member.organization_id == row.id
            &&& member.user_id == principal.user_id
            &&& member.role == Role::Owner
            &&& row.created_at >= now
            &&& 0 <= i < m.organizations.len() && m.organizations[i].created_at < i64::MAX
                && latest(organization_instants(m.organizations))->Some_0 < i64::MAX ==> row.created_at
                > m.organizations[i].created_at
            &&& next.projects == m.projects && next.users == m.users && next.sessions == m.sessions
        }),
{
    let (next, r) = organization_made(m, principal, name, now, fresh);
    assert(next.organizations =~= m.organizations.push(next.organizations.last()));
    assert(next.members =~= m.members.push(next.members.last()));
    if 0 <= i < m.organizations.len() {
        lemma_latest(organization_instants(m.organizations), i);
    }
}

/// Whether a user is an owner or an administrator of an organization, by the first row of theirs.
pub open spec fn first_role(m: ControlModel, organization: Seq<char>, user: Seq<char>, i: int) -> bool {
    &&& 0 <= i < m.members.len()
    &&& m.members[i].organization_id == organization && m.members[i].user_id == user
    &&& forall|j: int|
        0 <= j < i ==> (#[trigger] m.members[j]).organization_id != organization || m.members[j].user_id
            != user
}

/// Only owners and administrators of an organization make projects in it. A new project has a capture token of
/// its own.
pub proof fn law_managers_make_projects(
    m: ControlModel,
    principal: PrincipalModel,
    organization: Seq<char>,
    name: Seq<char>,
    now: i64,
    fresh: Fresh,
    i: int,
)
    ensures
        ({
            let (next, r) = project_made(m, principal, organization, name, now, fresh);
            &&& (forall|j: int|
                0 <= j < m.members.len() ==> (#[trigger] m.members[j]).organization_id != organization
                    || m.members[j].user_id != principal.user_id) ==> r is Err
            &&& first_role(m, organization, principal.user_id, i) && m.members[i].role == Role::Member
                ==> r is Err
            &&& first_role(m, organization, principal.user_id, i) && m.members[i].role == Role::Member
                && principal.authentication == Authentication::Session && name_ok(trimmed(name)) ==> r
                == Err::<ProjectModel, AccessFault>(AccessFault::Forbidden)
            &&& r is Ok ==> {
                let row = next.projects.last();
                &&& next.projects == m.projects.push(row)
                &&& row.organization_id == organization
                &&& row.name == trimmed(name)
                &&& row.capture_token == r->Ok_0.token
                &&& row.id == r->Ok_0.id
                &&& has_prefix(row.capture_token, "phc_"@)
                &&& forall|j: int|
                    0 <= j < m.projects.len() ==> (#[trigger] m.projects[j]).capture_token
                        != row.capture_token
                &&& next.members == m.members && next.organizations == m.organizations
            }
        }),
{
    reveal_strlit("phc_");
    let (next, r) = project_made(m, principal, organization, name, now, fresh);
    let p = member_is(organization, principal.user_id);
    lemma_index_of(m.members, p);
    if first_role(m, organization, principal.user_id, i) {
        assert forall|j: int| 0 <= j < i implies !p(#[trigger] m.members[j]) by {}
        lemma_index_is(m.members, p, i);
    }
    if r is Ok {
        let row = next.projects.last();
        assert(next.projects =~= m.projects.push(row));
        assert(row.capture_token.take(4) =~= "phc_"@);
        lemma_index_of(m.projects, token_is(row.capture_token));
        assert forall|j: int| 0 <= j < m.projects.len() implies (#[trigger] m.projects[j]).capture_token
            != row.capture_token by {
            assert(!token_is(row.capture_token)(m.projects[j]));
        }
    }
}

/// Owners and administrators are not refused for want of a role.
pub proof fn law_managers_are_not_forbidden(
    m: ControlModel,
    principal: PrincipalModel,
    organization: Seq<char>,
    name: Seq<char>,
    now: i64,
    fresh: Fresh,
    i: int,
)
    requires
        first_role(m, organization, principal.user_id, i),
        m.members[i].role == Role::Owner || m.members[i].role == Role::Admin,
        principal.authentication == Authentication::Session,
        name_ok(trimmed(name)),
    ensures
        project_made(m, principal, organization, name, now, fresh).1 != Err::<ProjectModel, AccessFault>(
            AccessFault::Forbidden,
        ),
{
    let p = member_is(organization, principal.user_id);
    assert forall|j: int| 0 <= j < i implies !p(#[trigger] m.members[j]) by {}
    lemma_index_is(m.members, p, i);
}

/// A capture token is for the project that carries it. A token that no project carries is refused.
pub proof fn law_tokens_are_for_their_project(m: ControlModel, token: Seq<char>, valid: bool, i: int)
    ensures
        !valid ==> capture_authorized(m, token, valid) == Err::<CaptureModel, AccessFault>(
            AccessFault::InvalidToken,
        ),
        valid && (forall|j: int|
            0 <= j < m.projects.len() ==> (#[trigger] m.projects[j]).capture_token != token)
            ==> capture_authorized(m, token, valid) == Err::<CaptureModel, AccessFault>(
            AccessFault::Unauthorized,
        ),
        valid && 0 <= i < m.projects.len() && m.projects[i].capture_token == token && (forall|j: int|
            0 <= j < i ==> (#[trigger] m.projects[j]).capture_token != token) ==> capture_authorized(
            m,
            token,
            valid,
        ) == Ok::<CaptureModel, AccessFault>(
            CaptureModel { project_id: Some(m.projects[i].id), token },
        ),
{
    let p = token_is(token);
    lemma_index_of(m.projects, p);
    if 0 <= i < m.projects.len() && m.projects[i].capture_token == token && (forall|j: int|
        0 <= j < i ==> (#[trigger] m.projects[j]).capture_token != token) {
        assert forall|j: int| 0 <= j < i implies !p(#[trigger] m.projects[j]) by {}
        lemma_index_is(m.projects, p, i);
    }
}

/// A member of an organization is let into each of its projects, in their role.
pub proof fn law_members_enter_their_projects(
    m: ControlModel,
    principal: PrincipalModel,
    i: int,
    k: int,
)
    requires
        0 <= i < m.projects.len(),
        forall|j: int| 0 <= j < i ==> (#[trigger] m.projects[j]).id != m.projects[i].id,
        first_role(m, m.projects[i].organization_id, principal.user_id, k),
    ensures
        project_authorized(m, principal, m.projects[i].id) == Ok::<AuthorizedModel, AccessFault>(
            AuthorizedModel {
                project_id: m.projects[i].id,
                organization_id: m.projects[i].organization_id,
                capture_token: m.projects[i].capture_token,
                role: m.members[k].role,
                principal,
            },
        ),
{
    let p = project_is(m.projects[i].id);
    assert forall|j: int| 0 <= j < i implies !p(#[trigger] m.projects[j]) by {}
    lemma_index_is(m.projects, p, i);
    let q = member_is(m.projects[i].organization_id, principal.user_id);
    assert forall|j: int| 0 <= j < k implies !q(#[trigger] m.members[j]) by {}
    lemma_index_is(m.members, q, k);
}

/// A workspace shows every organization that the user is a member of, in their role, and every project of it.
pub proof fn law_workspaces_show_everything_of_theirs(
    m: ControlModel,
    user: Seq<char>,
    row: OrganizationRowModel,
    project: ProjectRowModel,
    k: int,
)
    requires
        workspace_of(m, user) is Ok,
        m.organizations.contains(row),
        first_role(m, row.id, user, k),
    ensures
        exists|i: int|
            0 <= i < workspace_of(m, user)->Ok_0.organizations.len() && (#[trigger] workspace_of(
                m,
                user,
            )->Ok_0.organizations[i]).id == row.id && workspace_of(m, user)->Ok_0.organizations[i].name
                == row.name && workspace_of(m, user)->Ok_0.organizations[i].role == m.members[k].role && (
            m.projects.contains(project) && project.organization_id == row.id ==> workspace_of(
                m,
                user,
            )->Ok_0.organizations[i].projects.contains(
                ProjectModel { id: project.id, name: project.name, token: project.capture_token },
            )),
{
    let p = joined_by(m.members, user);
    let q = member_is(row.id, user);
    assert forall|j: int| 0 <= j < k implies !q(#[trigger] m.members[j]) by {}
    lemma_index_is(m.members, q, k);
    lemma_selected(m.organizations, p, row);
    lemma_sorted(selected(m.organizations, p), organization_order(), row);
    let rows = sorted(selected(m.organizations, p), organization_order());
    let i = choose|i: int| 0 <= i < rows.len() && rows[i] == row;
    let shown = workspace_of(m, user)->Ok_0.organizations[i];
    if m.projects.contains(project) && project.organization_id == row.id {
        let own = project_in(row.id);
        lemma_selected(m.projects, own, project);
        lemma_sorted(selected(m.projects, own), project_order(), project);
        let list = sorted(selected(m.projects, own), project_order());
        let j = choose|j: int| 0 <= j < list.len() && list[j] == project;
        assert(shown.projects[j] == (ProjectModel {
            id: project.id,
            name: project.name,
            token: project.capture_token,
        }));
    }
    assert(shown.id == row.id);
}

/// A workspace shows no project of another organization under one of its own.
pub proof fn law_workspaces_show_own_projects(m: ControlModel, user: Seq<char>, i: int, j: int)
    requires
        workspace_of(m, user) is Ok,
        0 <= i < workspace_of(m, user)->Ok_0.organizations.len(),
        0 <= j < workspace_of(m, user)->Ok_0.organizations[i].projects.len(),
    ensures
        exists|row: ProjectRowModel| #[trigger]
            m.projects.contains(row) && row.organization_id == workspace_of(
                m,
                user,
            )->Ok_0.organizations[i].id && row.id == workspace_of(
                m,
                user,
            )->Ok_0.organizations[i].projects[j].id && row.capture_token == workspace_of(
                m,
                user,
            )->Ok_0.organizations[i].projects[j].token,
{
    let rows = sorted(selected(m.organizations, joined_by(m.members, user)), organization_order());
    let own = project_in(rows[i].id);
    let chosen = selected(m.projects, own);
    let list = sorted(chosen, project_order());
    lemma_sorted(chosen, project_order(), list[j]);
    lemma_selected(m.projects, own, list[j]);
    assert(m.projects.contains(list[j]));
}

/// Setting up leaves one user with that address, in lower case and without blanks around it, who owns an
/// organization, and opens a session of theirs.
pub proof fn law_setup_makes_an_owner(
    m: ControlModel,
    request: SetupRequest,
    token_valid: bool,
    now: i64,
    created_at: i64,
    fresh: Fresh,
    hash: Option<Seq<char>>,
)
    requires
        setup_done(m, request, token_valid, now, created_at, fresh, hash).1 is Ok,
        now <= i64::MAX - 604_800,
    ensures
        ({
            let (next, r) = setup_done(m, request, token_valid, now, created_at, fresh, hash);
            let user = next.users.last();
            &&& next.users.len() == 1
            &&& user.email == lowered(trimmed(request.email@))
            &&& Some(user.password_hash) == hash
            &&& r->Ok_0.workspace.user.id == user.id
            &&& next.sessions == m.sessions.push(next.sessions.last())
            &&& next.sessions.last().id == r->Ok_0.session_id
            &&& next.sessions.last().user_id == user.id
            &&& next.sessions.last().expires_at == now + 604_800
            &&& next.members.len() > m.members.len()
            &&& next.members[m.members.len() as int].user_id == user.id
            &&& next.members[m.members.len() as int].role == Role::Owner
            &&& request.existing_project_token is None ==> {
                let project = next.projects.last();
                let organization = next.organizations.last();
                &&& next.projects == m.projects.push(project)
                &&& next.organizations == m.organizations.push(organization)
                &&& organization.name == request.organization_name@
                &&& project.name == request.project_name@
                &&& project.organization_id == organization.id
                &&& has_prefix(project.capture_token, "phc_"@)
                &&& next.members[m.members.len() as int].organization_id == organization.id
            }
        }),
{
    reveal_strlit("phc_");
    let (next, r) = setup_done(m, request, token_valid, now, created_at, fresh, hash);
    let owned = crate::control::access::owner_added(m, request, created_at, fresh, hash->Some_0)->Ok_0;
    let user = uuid_text_of(fresh.first);
    lemma_imported_prefix(owned.organizations, owned.members, user);
    assert(next.sessions =~= m.sessions.push(next.sessions.last()));
    lemma_index_of(next.users, user_is(user));
    assert(owned.members[m.members.len() as int] == owned.members.last());
    if request.existing_project_token is None {
        assert(next.projects =~= m.projects.push(next.projects.last()));
        assert(next.organizations =~= m.organizations.push(next.organizations.last()));
        assert(next.projects.last().capture_token.take(4) =~= "phc_"@);
    }
}

proof fn lemma_imported_prefix(
    organizations: Seq<OrganizationRowModel>,
    members: Seq<MemberRowModel>,
    user: Seq<char>,
)
    ensures
        crate::control::access::imported_owned(organizations, members, user).len() >= members.len(),
        crate::control::access::imported_owned(organizations, members, user).take(members.len() as int)
            == members,
    decreases organizations.len(),
{
    let after = crate::control::access::imported_owned(organizations, members, user);
    if organizations.len() > 0 {
        lemma_imported_prefix(organizations.drop_last(), members, user);
        let before = crate::control::access::imported_owned(organizations.drop_last(), members, user);
        assert(after.take(members.len() as int) =~= before.take(members.len() as int));
    } else {
        assert(after.take(members.len() as int) =~= members);
    }
}

/// Names, addresses and passwords have their bounds: a name says something in at most 128 bytes, an address has an
/// at sign and at most 254, and a password has 12 to 1024.
pub proof fn law_requests_have_bounds(text: Seq<char>)
    ensures
        name_ok(text) ==> encode_utf8(text).len() <= 128 && trimmed(text).len() > 0,
        email_ok(text) <==> trimmed(text).contains('@') && encode_utf8(trimmed(text)).len() <= 254,
        password_ok(text) <==> 12 <= encode_utf8(text).len() && encode_utf8(text).len() <= 1024,
{
    if trimmed(text).contains('@') {
        assert(trimmed(text).len() > 0);
    }
    lemma_trim_start_blank(text);
    if trim_start(text).len() > 0 {
        lemma_trim_end_nonempty(trim_start(text));
    }
}

proof fn lemma_imported_owned(
    organizations: Seq<OrganizationRowModel>,
    members: Seq<MemberRowModel>,
    user: Seq<char>,
    o: int,
    x: MemberRowModel,
)
    ensures
        ({
            let all = imported_owned(organizations, members, user);
            &&& 0 <= o < organizations.len() && organizations[o].imported ==> exists|k: int|
                0 <= k < all.len() && (#[trigger] all[k]).organization_id == organizations[o].id
                    && all[k].user_id == user
            &&& members.contains(x) ==> all.contains(x)
            &&& all.contains(x) ==> members.contains(x) || x.user_id == user && x.role == Role::Owner
                && exists|j: int|
                0 <= j < organizations.len() && (#[trigger] organizations[j]).imported
                    && organizations[j].id == x.organization_id
        }),
    decreases organizations.len(),
{
    if organizations.len() > 0 {
        let rest = organizations.drop_last();
        let last = organizations.last();
        lemma_imported_owned(rest, members, user, o, x);
        let before = imported_owned(rest, members, user);
        let all = imported_owned(organizations, members, user);
        lemma_index_of(before, member_is(last.id, user));
        assert(organizations[organizations.len() - 1] == last);
        let made = MemberRowModel { organization_id: last.id, user_id: user, role: Role::Owner };
        lemma_push_contains(before, made, x);
        if 0 <= o < rest.len() && rest[o].imported {
            let k = choose|k: int|
                0 <= k < before.len() && (#[trigger] before[k]).organization_id == rest[o].id
                    && before[k].user_id == user;
            assert(all[k] == before[k]);
        }
        if o == rest.len() && last.imported {
            if all.len() > before.len() {
                assert(all[before.len() as int] == made);
            } else {
                let k = index_of(before, member_is(last.id, user))->Some_0;
                assert(all[k].organization_id == last.id);
            }
        }
        if before.contains(x) && !members.contains(x) {
            let j = choose|j: int|
                0 <= j < rest.len() && (#[trigger] rest[j]).imported && rest[j].id == x.organization_id;
            assert(organizations[j] == rest[j]);
        }
    }
}

/// Whoever sets up with the token of a project that is there joins its organization as owner, and nothing is made
/// besides; whoever sets up becomes a member of every organization that was imported, and of no other.
pub proof fn law_setup_claims_what_is_there(
    m: ControlModel,
    request: SetupRequest,
    token_valid: bool,
    now: i64,
    created_at: i64,
    fresh: Fresh,
    hash: Option<Seq<char>>,
    i: int,
    o: int,
    x: MemberRowModel,
)
    requires
        setup_done(m, request, token_valid, now, created_at, fresh, hash).1 is Ok,
        request.existing_project_token is Some,
        0 <= i < m.projects.len(),
        m.projects[i].capture_token == request.existing_project_token->Some_0@,
        forall|j: int| 0 <= j < i ==> (#[trigger] m.projects[j]).capture_token != m.projects[i].capture_token,
    ensures
        ({
            let next = setup_done(m, request, token_valid, now, created_at, fresh, hash).0;
            let user = next.users.last().id;
            &&& next.projects == m.projects
            &&& next.organizations == m.organizations
            &&& next.members.contains(
                MemberRowModel {
                    organization_id: m.projects[i].organization_id,
                    user_id: user,
                    role: Role::Owner,
                },
            )
            &&& 0 <= o < m.organizations.len() && m.organizations[o].imported ==> exists|k: int|
                0 <= k < next.members.len() && (#[trigger] next.members[k]).organization_id
                    == m.organizations[o].id && next.members[k].user_id == user
            &&& m.members.contains(x) ==> next.members.contains(x)
            &&& next.members.contains(x) && !m.members.contains(x) ==> x.user_id == user && x.role
                == Role::Owner && (x.organization_id == m.projects[i].organization_id || exists|j: int|
                0 <= j < m.organizations.len() && (#[trigger] m.organizations[j]).imported
                    && m.organizations[j].id == x.organization_id)
        }),
{
    let next = setup_done(m, request, token_valid, now, created_at, fresh, hash).0;
    let user = uuid_text_of(fresh.first);
    lemma_index_is(m.projects, token_is(request.existing_project_token->Some_0@), i);
    let own = MemberRowModel {
        organization_id: m.projects[i].organization_id,
        user_id: user,
        role: Role::Owner,
    };
    let members = m.members.push(own);
    assert(members[m.members.len() as int] == own);
    assert(next.members == imported_owned(m.organizations, members, user));
    lemma_imported_owned(m.organizations, members, user, o, x);
    lemma_imported_owned(m.organizations, members, user, o, own);
    lemma_push_contains(m.members, own, x);
}

} // verus!
