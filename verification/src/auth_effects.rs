//! What accounts promise: who is let in, for how long, and who may see and revoke what.
use vstd::prelude::*;
use vstd::string::*;
use vstd::utf8::encode_utf8;

use crate::auth::{
    capture_token_of, key_revoked, login_led, newest_key, org_age, org_made, org_of, owned_project_in,
    project_age, project_led, secret_led, session_user, setup_led, AuthFault, AuthModel, OrgMemberModel,
    OrgModel, OrgRowModel, OwnedProjectModel, UserModel,
};
use crate::control::access::{
    email_is, key_of, own_key, password_matches, session_is, session_live, user_is, Fresh, KeyRowModel,
    SessionRowModel,
};
use crate::digest::{sha256_text, uuid_text_of};
use crate::rows::{
    found, holds_somewhere, is_order, law_sorting_orders, lemma_index_is, lemma_index_none, lemma_index_of,
    lemma_removed, lemma_selected, lemma_sorted, removed, selected, sorted,
};
use crate::text::has_prefix;

verus! {

// ── Logging in ────────────────────────────────────────────────────────────────

/// Whoever names no account, or none with that password, is refused, and nothing changes.
pub proof fn law_wrong_passwords_are_refused(
    m: AuthModel,
    email: Seq<char>,
    password: Seq<char>,
    now: i64,
    number: u128,
)
    requires
        forall|i: int|
            0 <= i < m.users.len() && (#[trigger] m.users[i]).email == email ==> !password_matches(
                m.users[i].password_hash,
                password,
            ),
    ensures
        login_led(m, email, password, now, number) == (m, Err::<(UserModel, Seq<char>), AuthFault>(
            AuthFault::InvalidPassword,
        )),
{
    lemma_index_of(m.users, email_is(email));
}

/// Whoever knows the password of an account gets a session of their own, for seven days; nothing else changes.
pub proof fn law_logging_in_opens_a_session(
    m: AuthModel,
    email: Seq<char>,
    password: Seq<char>,
    now: i64,
    number: u128,
    i: int,
)
    requires
        now <= i64::MAX - 604_800,
        0 <= i < m.users.len(),
        m.users[i].email == email,
        forall|j: int| 0 <= j < i ==> (#[trigger] m.users[j]).email != email,
        password_matches(m.users[i].password_hash, password),
        forall|j: int|
            0 <= j < m.sessions.len() ==> (#[trigger] m.sessions[j]).id
                != uuid_text_of(number),
    ensures
        ({
            let (next, r) = login_led(m, email, password, now, number);
            let session = uuid_text_of(number);
            &&& r is Ok
            &&& r->Ok_0.0.id == m.users[i].id
            &&& r->Ok_0.0.email == m.users[i].email
            &&& r->Ok_0.0.name == m.users[i].name
            &&& r->Ok_0.1 == session
            &&& next.sessions == m.sessions.push(
                SessionRowModel {
                    id: session,
                    user_id: m.users[i].id,
                    created_at: now,
                    expires_at: (now + 604_800) as i64,
                },
            )
            &&& next.users == m.users
            &&& next.keys == m.keys
            &&& next.orgs == m.orgs
            &&& next.members == m.members
            &&& next.projects == m.projects
        }),
{
    lemma_index_is(m.users, email_is(email), i);
    lemma_index_none(m.sessions, session_is(uuid_text_of(number)));
    lemma_index_of(m.users, user_is(m.users[i].id));
    if !holds_somewhere(m.users, user_is(m.users[i].id)) {
        assert(!user_is(m.users[i].id)(m.users[i]));
    }
}

/// A session that was never opened, or is over, lets nobody in; one that is open lets in the user who opened it.
pub proof fn law_only_open_sessions_let_in(m: AuthModel, session: Seq<char>, now: i64)
    ensures
        (forall|i: int|
            0 <= i < m.sessions.len() && (#[trigger] m.sessions[i]).id == session
                ==> m.sessions[i].expires_at <= now) ==> session_user(m, session, now) == Err::<
            UserModel,
            AuthFault,
        >(AuthFault::Unauthorized),
        session_user(m, session, now) is Ok ==> exists|i: int, j: int|
            0 <= i < m.sessions.len() && 0 <= j < m.users.len() && (#[trigger] m.sessions[i]).id == session
                && m.sessions[i].expires_at > now && (#[trigger] m.users[j]).id == m.sessions[i].user_id
                && session_user(m, session, now)->Ok_0.id == m.users[j].id && session_user(
                m,
                session,
                now,
            )->Ok_0.email == m.users[j].email,
{
    let p = session_live(session, now);
    lemma_index_of(m.sessions, p);
    if let Some(row) = found(m.sessions, p) {
        let i = crate::rows::index_of(m.sessions, p)->Some_0;
        assert(p(m.sessions[i]));
        lemma_index_of(m.users, user_is(row.user_id));
        if let Some(user) = found(m.users, user_is(row.user_id)) {
            let j = crate::rows::index_of(m.users, user_is(row.user_id))->Some_0;
            assert(user_is(row.user_id)(m.users[j]));
            assert(m.sessions[i].id == session && m.users[j].id == m.sessions[i].user_id);
        }
    }
}

/// Logging out closes that session, and no other.
pub proof fn law_logging_out_closes_one_session(m: AuthModel, session: Seq<char>, row: SessionRowModel)
    ensures
        removed(m.sessions, session_is(session)).contains(row) <==> m.sessions.contains(row) && row.id
            != session,
{
    lemma_removed(m.sessions, session_is(session), row);
}

// ── Keys ──────────────────────────────────────────────────────────────────────

/// A secret that no key was made with lets nobody in, and neither does what is no secret.
pub proof fn law_unknown_secrets_are_refused(m: AuthModel, secret: Seq<char>, now: i64)
    ensures
        (forall|i: int|
            0 <= i < m.keys.len() ==> (#[trigger] m.keys[i]).key_hash != sha256_text(
                encode_utf8(secret),
            )) ==> secret_led(m, secret, now).1 == Err::<UserModel, AuthFault>(AuthFault::Unauthorized)
            && secret_led(m, secret, now).0 == m,
        !has_prefix(secret, "phx_"@) || encode_utf8(secret).len() < 20 ==> secret_led(m, secret, now) == (
            m,
            Err::<UserModel, AuthFault>(AuthFault::Unauthorized),
        ),
{
    let hash = sha256_text(encode_utf8(secret));
    if forall|i: int| 0 <= i < m.keys.len() ==> (#[trigger] m.keys[i]).key_hash != hash {
        let next = secret_led(m, secret, now).0;
        assert(next.keys =~= m.keys);
        lemma_index_of(m.keys, crate::auth::owned_key(m.users, hash));
    }
}

/// Using a secret marks the keys that were made with it as used at that instant, and changes nothing else.
pub proof fn law_used_keys_are_marked(m: AuthModel, secret: Seq<char>, now: i64, i: int)
    requires
        has_prefix(secret, "phx_"@),
        encode_utf8(secret).len() >= 20,
        0 <= i < m.keys.len(),
    ensures
        ({
            let next = secret_led(m, secret, now).0;
            &&& next.keys.len() == m.keys.len()
            &&& m.keys[i].key_hash == sha256_text(encode_utf8(secret)) ==> next.keys[i]
                == (KeyRowModel { last_used: Some(now), ..m.keys[i] })
            &&& m.keys[i].key_hash != sha256_text(encode_utf8(secret)) ==> next.keys[i] == m.keys[i]
            &&& next.users == m.users
            &&& next.sessions == m.sessions
            &&& next.orgs == m.orgs
            &&& next.members == m.members
            &&& next.projects == m.projects
        }),
{
}

/// Whoever a secret lets in owns a key that was made with it.
pub proof fn law_secrets_let_their_owner_in(m: AuthModel, secret: Seq<char>, now: i64)
    requires
        secret_led(m, secret, now).1 is Ok,
    ensures
        exists|i: int, j: int|
            0 <= i < m.keys.len() && 0 <= j < m.users.len() && (#[trigger] m.keys[i]).key_hash
                == sha256_text(encode_utf8(secret)) && (#[trigger] m.users[j]).id == m.keys[i].user_id
                && secret_led(m, secret, now).1->Ok_0.id == m.users[j].id,
{
    let hash = sha256_text(encode_utf8(secret));
    let next = secret_led(m, secret, now).0;
    let p = crate::auth::owned_key(m.users, hash);
    lemma_index_of(next.keys, p);
    let i = crate::rows::index_of(next.keys, p)->Some_0;
    assert(p(next.keys[i]));
    assert(next.keys[i].user_id == m.keys[i].user_id && next.keys[i].key_hash == m.keys[i].key_hash);
    let q = user_is(m.keys[i].user_id);
    lemma_index_of(m.users, q);
    let j = crate::rows::index_of(m.users, q)->Some_0;
    assert(q(m.users[j]));
    assert(m.users[j].id == m.keys[i].user_id && m.keys[i].key_hash == hash);
}

/// A user revokes keys of their own and nobody else's; all other keys stay.
pub proof fn law_users_revoke_own_keys(m: AuthModel, user: Seq<char>, key: Seq<char>, row: KeyRowModel)
    ensures
        ({
            let (next, r) = key_revoked(m, user, key);
            let owned = exists|i: int|
                0 <= i < m.keys.len() && (#[trigger] m.keys[i]).id == key && m.keys[i].user_id == user;
            &&& owned ==> r is Ok && (next.keys.contains(row) <==> m.keys.contains(row) && !(row.id == key
                && row.user_id == user))
            &&& !owned ==> r == Err::<(), AuthFault>(AuthFault::NotFound) && next == m
            &&& next.users == m.users && next.sessions == m.sessions
        }),
{
    let p = own_key(key, user);
    lemma_index_of(m.keys, p);
    lemma_removed(m.keys, p, row);
    if holds_somewhere(m.keys, p) {
        let i = crate::rows::index_of(m.keys, p)->Some_0;
        assert(p(m.keys[i]));
        assert(m.keys[i].id == key);
    } else {
        assert forall|i: int| 0 <= i < m.keys.len() implies !((#[trigger] m.keys[i]).id == key
            && m.keys[i].user_id == user) by {
            assert(!p(m.keys[i]));
        }
    }
}

/// A user lists own keys only, all of them, without their secrets.
pub proof fn law_users_list_own_keys(m: AuthModel, user: Seq<char>, row: KeyRowModel)
    ensures
        sorted(selected(m.keys, key_of(user)), newest_key()).contains(row) <==> m.keys.contains(row)
            && row.user_id == user,
{
    lemma_selected(m.keys, key_of(user), row);
    lemma_sorted(selected(m.keys, key_of(user)), newest_key(), row);
}

/// A user lists keys from the newest to the oldest.
pub proof fn law_newest_keys_come_first(m: AuthModel, user: Seq<char>, i: int, j: int)
    requires
        0 <= i < j < sorted(selected(m.keys, key_of(user)), newest_key()).len(),
    ensures
        sorted(selected(m.keys, key_of(user)), newest_key())[i].created_at >= sorted(
            selected(m.keys, key_of(user)),
            newest_key(),
        )[j].created_at,
{
    let chosen = selected(m.keys, key_of(user));
    assert(is_order(newest_key()));
    law_sorting_orders(chosen, newest_key());
    let rows = sorted(chosen, newest_key());
    assert(!newest_key()(rows[j], rows[i]));
}

// ── Organizations and projects ────────────────────────────────────────────────

/// Setting up leaves one user with that address, who owns one new organization with one project in it, whose
/// token is a capture token.
pub proof fn law_setup_makes_an_owner(
    m: AuthModel,
    email: Seq<char>,
    org_name: Seq<char>,
    now: i64,
    fresh: Fresh,
    hash: Seq<char>,
)
    requires
        setup_led(m, email, org_name, now, fresh, hash).1 is Ok,
    ensures
        ({
            let (next, r) = setup_led(m, email, org_name, now, fresh, hash);
            let user = next.users.last();
            let org = next.orgs.last();
            let project = next.projects.last();
            &&& next.users.len() == 1
            &&& user.email == email
            &&& user.password_hash == hash
            &&& next.orgs == m.orgs.push(org)
            &&& org.name == org_name
            &&& next.members == m.members.push(next.members.last())
            &&& next.members.last().org_id == org.id
            &&& next.members.last().user_id == user.id
            &&& next.members.last().role == "owner"@
            &&& next.projects == m.projects.push(project)
            &&& project.org_id == org.id
            &&& project.name == "Default"@
            &&& project.token.len() >= 4 && project.token.take(4) == "phc_"@
            &&& r->Ok_0.0.id == user.id && r->Ok_0.0.email == email
            &&& r->Ok_0.1.id == org.id && r->Ok_0.1.name == org_name
            &&& r->Ok_0.2.id == project.id && r->Ok_0.2.token == project.token && r->Ok_0.2.org_id == org.id
            &&& next.sessions == m.sessions && next.keys == m.keys
        }),
{
    reveal_strlit("phc_");
    let (next, r) = setup_led(m, email, org_name, now, fresh, hash);
    assert(m.users.len() == 0);
    assert(capture_token_of(fresh.fourth).take(4) =~= "phc_"@);
    assert(next.orgs =~= m.orgs.push(next.orgs.last()));
    assert(next.members =~= m.members.push(next.members.last()));
    assert(next.projects =~= m.projects.push(next.projects.last()));
}

/// Whoever makes an organization owns it.
pub proof fn law_makers_own_their_organization(
    m: AuthModel,
    user: Seq<char>,
    name: Seq<char>,
    now: i64,
    id: Seq<char>,
)
    requires
        org_made(m, user, name, now, id).1 is Ok,
    ensures
        ({
            let (next, r) = org_made(m, user, name, now, id);
            &&& r == Ok::<OrgModel, AuthFault>(OrgModel { id, name })
            &&& next.orgs == m.orgs.push(OrgRowModel { id, name, created_at: now })
            &&& next.members == m.members.push(
                OrgMemberModel { org_id: id, user_id: user, role: "owner"@ },
            )
            &&& next.users == m.users && next.projects == m.projects && next.keys == m.keys
            &&& next.sessions == m.sessions
        }),
{
}

/// A project is made in an organization that is there, under a new token; else nothing changes.
pub proof fn law_projects_are_made_in_organizations(
    m: AuthModel,
    org: Seq<char>,
    name: Seq<char>,
    now: i64,
    fresh: Fresh,
)
    ensures
        ({
            let (next, r) = project_led(m, org, name, now, fresh);
            &&& (forall|i: int| 0 <= i < m.orgs.len() ==> (#[trigger] m.orgs[i]).id != org) ==> r is Err
            &&& r is Err ==> next == m
            &&& r is Ok ==> {
                &&& next.projects == m.projects.push(next.projects.last())
                &&& next.projects.last().org_id == org
                &&& next.projects.last().name == name
                &&& next.projects.last().token == r->Ok_0.token
                &&& r->Ok_0.token.len() >= 4 && r->Ok_0.token.take(4) == "phc_"@
                &&& r->Ok_0.name == name && r->Ok_0.org_id == org
                &&& forall|i: int|
                    0 <= i < m.projects.len() ==> (#[trigger] m.projects[i]).token != r->Ok_0.token
            }
        }),
{
    reveal_strlit("phc_");
    let (next, r) = project_led(m, org, name, now, fresh);
    lemma_index_of(m.orgs, crate::auth::org_is(org));
    lemma_index_of(m.projects, crate::auth::owned_token_is(capture_token_of(fresh.second)));
    assert(capture_token_of(fresh.second).take(4) =~= "phc_"@);
    if r is Ok {
        assert(next.projects =~= m.projects.push(next.projects.last()));
        assert forall|i: int| 0 <= i < m.projects.len() implies (#[trigger] m.projects[i]).token
            != r->Ok_0.token by {
            assert(!crate::auth::owned_token_is(capture_token_of(fresh.second))(m.projects[i]));
        }
    }
}

/// A user lists the organizations that they are a member of, and an organization its projects, all of them and no
/// other.
pub proof fn law_users_list_their_organizations(
    m: AuthModel,
    user: Seq<char>,
    org: Seq<char>,
    row: OrgRowModel,
    project: OwnedProjectModel,
)
    ensures
        sorted(selected(m.orgs, org_of(m.members, user)), org_age()).contains(row) <==> m.orgs.contains(row)
            && exists|i: int|
            0 <= i < m.members.len() && (#[trigger] m.members[i]).org_id == row.id && m.members[i].user_id
                == user,
        sorted(selected(m.projects, owned_project_in(org)), project_age()).contains(project)
            <==> m.projects.contains(project) && project.org_id == org,
{
    lemma_selected(m.orgs, org_of(m.members, user), row);
    lemma_sorted(selected(m.orgs, org_of(m.members, user)), org_age(), row);
    lemma_selected(m.projects, owned_project_in(org), project);
    lemma_sorted(selected(m.projects, owned_project_in(org)), project_age(), project);
    let p = crate::auth::membership_is(row.id, user);
    lemma_index_of(m.members, p);
    if holds_somewhere(m.members, p) {
        let i = crate::rows::index_of(m.members, p)->Some_0;
        assert(p(m.members[i]));
        assert(m.members[i].org_id == row.id);
    }
    if exists|i: int|
        0 <= i < m.members.len() && (#[trigger] m.members[i]).org_id == row.id && m.members[i].user_id
            == user {
        let i = choose|i: int|
            0 <= i < m.members.len() && (#[trigger] m.members[i]).org_id == row.id && m.members[i].user_id
                == user;
        assert(p(m.members[i]));
    }
}

} // verus!
