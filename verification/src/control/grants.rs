//! Personal keys, organizations and projects, and who may use them.
use vstd::prelude::*;
use vstd::string::*;
use vstd::utf8::encode_utf8;

use crate::control::access::{
    draw, hash_is, key_is, key_of, key_order, member_is, organization_is, own_key,
    project_in, project_is, taken, token_is, user_is, ControlModel, Fresh, KeyByHash, KeyById,
    KeyOfUser, KeyOrder, KeyRow, KeyRowModel, MemberOf, MemberRow, MemberRowModel,
    OrganizationById, OrganizationRow, OrganizationRowModel, OwnKey, ProjectAccess, ProjectById,
    ProjectByToken, ProjectRow, ProjectRowModel, UserById,
};
use crate::control::{
    name_ok, require_session, validate_name, AccessError, AccessFault, Authentication,
    AuthorizedModel, AuthorizedProject, CaptureModel, CaptureProject, CreatedKeyModel,
    CreatedPersonalApiKey, Organization, OrganizationModel, PersonalApiKey, PersonalKeyModel,
    Principal, PrincipalModel, Project, ProjectModel, Role,
};
use crate::digest::{sha256_hex, sha256_text, simple_text, simple_text_of, uuid_text, uuid_text_of};
use crate::order::{outcome, views};
use crate::rows::{
    append, find, found, holds_somewhere, index_of, remove, removed, replace, select_sorted,
    selected, sorted, Row,
};
use crate::text::{byte_len, first_chars, has_prefix, joined, starts_with, trim, trimmed};

verus! {

/// The fault of a row that names something that is not there.
pub open spec fn dangling() -> AccessFault {
    AccessFault::Database("FOREIGN KEY constraint failed"@)
}

/// The fault of a request that needs a session and a name, if any.
pub open spec fn named_fault(principal: PrincipalModel, name: Seq<char>) -> Option<AccessFault> {
    if principal.authentication != Authentication::Session {
        Some(AccessFault::Forbidden)
    } else if !name_ok(trimmed(name)) {
        Some(AccessFault::InvalidRequest)
    } else {
        None
    }
}

fn check_named(principal: &Principal, name: &str) -> (r: Result<String, AccessError>)
    ensures
        match named_fault(principal@, name@) {
            Some(fault) => r matches Err(e) && e@ == fault,
            None => r matches Ok(s) && s@ == trimmed(name@),
        },
{
    match require_session(principal) {
        Ok(()) => {},
        Err(e) => {
            return Err(e);
        },
    }
    let name = trim(name);
    match validate_name(name.as_str()) {
        Ok(()) => Ok(name),
        Err(e) => Err(e),
    }
}

// ── Personal keys ─────────────────────────────────────────────────────────────

/// The secret of a personal key, of a number drawn.
pub open spec fn secret_of(number: u128) -> Seq<char> {
    "phx_"@ + simple_text_of(number)
}

/// A key without its secret.
pub open spec fn key_shown(row: KeyRowModel) -> PersonalKeyModel {
    PersonalKeyModel {
        id: row.id,
        name: row.name,
        key_prefix: row.key_prefix,
        last_used: row.last_used,
        created_at: row.created_at,
    }
}

/// The first twelve characters of a text.
pub open spec fn prefix_of(s: Seq<char>) -> Seq<char> {
    if s.len() <= 12 {
        s
    } else {
        s.take(12)
    }
}

/// What making a personal key leads to, given the numbers drawn.
pub open spec fn key_made(
    m: ControlModel,
    principal: PrincipalModel,
    name: Seq<char>,
    now: i64,
    fresh: Fresh,
) -> (ControlModel, Result<CreatedKeyModel, AccessFault>) {
    let secret = secret_of(fresh.first);
    let row = KeyRowModel {
        id: uuid_text_of(fresh.second),
        user_id: principal.user_id,
        name: trimmed(name),
        key_hash: sha256_text(encode_utf8(secret)),
        key_prefix: prefix_of(secret),
        last_used: None,
        created_at: now,
    };
    match named_fault(principal, name) {
        Some(fault) => (m, Err(fault)),
        None => if holds_somewhere(m.keys, key_is(row.id)) {
            (m, Err(taken("personal_api_keys.id"@)))
        } else if holds_somewhere(m.keys, hash_is(row.key_hash)) {
            (m, Err(taken("personal_api_keys.key_hash"@)))
        } else if !holds_somewhere(m.users, user_is(principal.user_id)) {
            (m, Err(dangling()))
        } else {
            (
                ControlModel { keys: m.keys.push(row), ..m },
                Ok(CreatedKeyModel { key: key_shown(row), secret }),
            )
        },
    }
}

/// Whether a text has the form of a secret.
pub open spec fn secret_form(secret: Seq<char>) -> bool {
    has_prefix(secret, "phx_"@) && encode_utf8(secret).len() == 36
}

/// What presenting a secret leads to: the key's owner, and the key marked as used.
pub open spec fn secret_checked(m: ControlModel, secret: Seq<char>, now: i64) -> (
    ControlModel,
    Result<PrincipalModel, AccessFault>,
) {
    if !secret_form(secret) {
        (m, Err(AccessFault::Unauthorized))
    } else {
        match index_of(m.keys, hash_is(sha256_text(encode_utf8(secret)))) {
            None => (m, Err(AccessFault::Unauthorized)),
            Some(i) => (
                ControlModel {
                    keys: m.keys.update(i, KeyRowModel { last_used: Some(now), ..m.keys[i] }),
                    ..m
                },
                Ok(
                    PrincipalModel {
                        user_id: m.keys[i].user_id,
                        authentication: Authentication::PersonalKey,
                    },
                ),
            ),
        }
    }
}

proof fn lemma_secret_form(number: u128)
    ensures
        secret_form(secret_of(number)),
{
    let digits = simple_text_of(number);
    let secret = secret_of(number);
    reveal_strlit("phx_");
    assert(secret.subrange(0, 4) =~= "phx_"@);
    assert(has_prefix(secret, "phx_"@));
    assert(digits.len() == 32);
    assert forall|i: int| 0 <= i < secret.len() implies '\0' <= #[trigger] secret[i] <= '\u{7f}' by {
        if i >= 4 {
            assert(secret[i] == digits[i - 4]);
        }
    }
    assert(vstd::utf8::is_ascii_chars(secret));
    vstd::utf8::is_ascii_chars_encode_utf8(secret);
}

/// A key that was just made lets its owner in.
pub proof fn law_new_keys_authenticate(
    m: ControlModel,
    principal: PrincipalModel,
    name: Seq<char>,
    now: i64,
    fresh: Fresh,
    later: i64,
)
    requires
        key_made(m, principal, name, now, fresh).1 is Ok,
    ensures
        secret_checked(key_made(m, principal, name, now, fresh).0, secret_of(fresh.first), later).1
            == Ok::<PrincipalModel, AccessFault>(
            PrincipalModel {
                user_id: principal.user_id,
                authentication: Authentication::PersonalKey,
            },
        ),
{
    let (next, _) = key_made(m, principal, name, now, fresh);
    lemma_secret_form(fresh.first);
    assert(next.keys.drop_last() =~= m.keys);
}

/// The keys of a principal, the newest first.
pub open spec fn keys_listed(m: ControlModel, principal: PrincipalModel) -> Result<
    Seq<PersonalKeyModel>,
    AccessFault,
> {
    if principal.authentication != Authentication::Session {
        Err(AccessFault::Forbidden)
    } else {
        Ok(
            sorted(selected(m.keys, key_of(principal.user_id)), key_order()).map_values(
                |k: KeyRowModel| key_shown(k),
            ),
        )
    }
}

/// What revoking a key leads to. A principal revokes own keys only.
pub open spec fn key_revoked(m: ControlModel, principal: PrincipalModel, key: Seq<char>) -> (
    ControlModel,
    Result<(), AccessFault>,
) {
    if principal.authentication != Authentication::Session {
        (m, Err(AccessFault::Forbidden))
    } else if !holds_somewhere(m.keys, own_key(key, principal.user_id)) {
        (m, Err(AccessFault::NotFound))
    } else {
        (ControlModel { keys: removed(m.keys, own_key(key, principal.user_id)), ..m }, Ok(()))
    }
}

// ── Organizations and projects ────────────────────────────────────────────────

/// The latest of some instants.
pub open spec fn latest(instants: Seq<i64>) -> Option<i64>
    decreases instants.len(),
{
    if instants.len() == 0 {
        None
    } else {
        match latest(instants.drop_last()) {
            Some(t) => if t >= instants.last() {
                Some(t)
            } else {
                Some(instants.last())
            },
            None => Some(instants.last()),
        }
    }
}

/// An instant that is not before now and, unless the clock has run out, after the latest.
pub open spec fn after_latest(latest: Option<i64>, now: i64) -> i64 {
    match latest {
        Some(t) => if t < i64::MAX && t + 1 > now {
            (t + 1) as i64
        } else {
            now
        },
        None => now,
    }
}

/// When the organizations were made.
pub open spec fn organization_instants(rows: Seq<OrganizationRowModel>) -> Seq<i64> {
    rows.map_values(|o: OrganizationRowModel| o.created_at)
}

/// When the projects of an organization were made.
pub open spec fn project_instants(rows: Seq<ProjectRowModel>, organization: Seq<char>) -> Seq<i64> {
    selected(rows, project_in(organization)).map_values(|p: ProjectRowModel| p.created_at)
}

/// What making an organization leads to, given the number drawn. Its maker owns it.
pub open spec fn organization_made(
    m: ControlModel,
    principal: PrincipalModel,
    name: Seq<char>,
    now_millis: i64,
    fresh: Fresh,
) -> (ControlModel, Result<OrganizationModel, AccessFault>) {
    let id = uuid_text_of(fresh.first);
    match named_fault(principal, name) {
        Some(fault) => (m, Err(fault)),
        None => if holds_somewhere(m.organizations, organization_is(id)) {
            (m, Err(taken("organizations.id"@)))
        } else if !holds_somewhere(m.users, user_is(principal.user_id)) {
            (m, Err(dangling()))
        } else {
            (
                ControlModel {
                    organizations: m.organizations.push(
                        OrganizationRowModel {
                            id,
                            name: trimmed(name),
                            created_at: after_latest(
                                latest(organization_instants(m.organizations)),
                                now_millis,
                            ),
                            imported: false,
                        },
                    ),
                    members: m.members.push(
                        MemberRowModel {
                            organization_id: id,
                            user_id: principal.user_id,
                            role: Role::Owner,
                        },
                    ),
                    ..m
                },
                Ok(
                    OrganizationModel {
                        id,
                        name: trimmed(name),
                        role: Role::Owner,
                        projects: Seq::empty(),
                    },
                ),
            )
        },
    }
}

/// Whether a user may manage the projects of an organization.
pub open spec fn manages(m: ControlModel, organization: Seq<char>, user: Seq<char>) -> bool {
    match found(m.members, member_is(organization, user)) {
        Some(row) => row.role == Role::Owner || row.role == Role::Admin,
        None => false,
    }
}

/// What making a project leads to, given the numbers drawn. Owners and admins may.
pub open spec fn project_made(
    m: ControlModel,
    principal: PrincipalModel,
    organization: Seq<char>,
    name: Seq<char>,
    now_millis: i64,
    fresh: Fresh,
) -> (ControlModel, Result<ProjectModel, AccessFault>) {
    let id = uuid_text_of(fresh.first);
    let token = "phc_"@ + simple_text_of(fresh.second);
    match named_fault(principal, name) {
        Some(fault) => (m, Err(fault)),
        None => if !manages(m, organization, principal.user_id) {
            (m, Err(AccessFault::Forbidden))
        } else if holds_somewhere(m.projects, project_is(id)) {
            (m, Err(taken("projects.id"@)))
        } else if holds_somewhere(m.projects, token_is(token)) {
            (m, Err(taken("projects.capture_token"@)))
        } else {
            (
                ControlModel {
                    projects: m.projects.push(
                        ProjectRowModel {
                            id,
                            organization_id: organization,
                            name: trimmed(name),
                            capture_token: token,
                            created_at: after_latest(
                                latest(project_instants(m.projects, organization)),
                                now_millis,
                            ),
                            imported: false,
                        },
                    ),
                    ..m
                },
                Ok(ProjectModel { id, name: trimmed(name), token }),
            )
        },
    }
}

// ── Authorization ─────────────────────────────────────────────────────────────

/// The project that a capture token belongs to.
pub open spec fn capture_authorized(m: ControlModel, token: Seq<char>, token_valid: bool) -> Result<
    CaptureModel,
    AccessFault,
> {
    if !token_valid {
        Err(AccessFault::InvalidToken)
    } else {
        match found(m.projects, token_is(token)) {
            Some(row) => Ok(CaptureModel { project_id: Some(row.id), token }),
            None => Err(AccessFault::Unauthorized),
        }
    }
}

/// The project, if the principal is a member of its organization.
pub open spec fn project_authorized(
    m: ControlModel,
    principal: PrincipalModel,
    project: Seq<char>,
) -> Result<AuthorizedModel, AccessFault> {
    match found(m.projects, project_is(project)) {
        None => Err(AccessFault::Forbidden),
        Some(row) => match found(m.members, member_is(row.organization_id, principal.user_id)) {
            None => Err(AccessFault::Forbidden),
            Some(member) => Ok(
                AuthorizedModel {
                    project_id: project,
                    organization_id: row.organization_id,
                    capture_token: row.capture_token,
                    role: member.role,
                    principal,
                },
            ),
        },
    }
}

/// Nobody is let into a project of an organization that they are no member of.
pub proof fn law_strangers_are_forbidden(
    m: ControlModel,
    principal: PrincipalModel,
    project: Seq<char>,
)
    requires
        found(m.projects, project_is(project)) matches Some(row) ==> !holds_somewhere(
            m.members,
            member_is(row.organization_id, principal.user_id),
        ),
    ensures
        project_authorized(m, principal, project) == Err::<AuthorizedModel, _>(
            AccessFault::Forbidden,
        ),
{
}

/// A personal key manages no keys, organizations or projects, whatever is asked of it.
pub proof fn law_personal_keys_manage_nothing(
    m: ControlModel,
    principal: PrincipalModel,
    name: Seq<char>,
    id: Seq<char>,
    now: i64,
    fresh: Fresh,
)
    requires
        principal.authentication == Authentication::PersonalKey,
    ensures
        key_made(m, principal, name, now, fresh) == (m, Err::<CreatedKeyModel, _>(
            AccessFault::Forbidden,
        )),
        keys_listed(m, principal) == Err::<Seq<PersonalKeyModel>, _>(AccessFault::Forbidden),
        key_revoked(m, principal, id) == (m, Err::<(), _>(AccessFault::Forbidden)),
        organization_made(m, principal, name, now, fresh) == (m, Err::<OrganizationModel, _>(
            AccessFault::Forbidden,
        )),
        project_made(m, principal, id, name, now, fresh) == (m, Err::<ProjectModel, _>(
            AccessFault::Forbidden,
        )),
{
}

/// A request that is refused leaves no trace.
pub proof fn law_refused_requests_leave_no_trace(
    m: ControlModel,
    principal: PrincipalModel,
    name: Seq<char>,
    id: Seq<char>,
    now: i64,
    fresh: Fresh,
)
    ensures
        key_made(m, principal, name, now, fresh).1 is Err ==> key_made(
            m,
            principal,
            name,
            now,
            fresh,
        ).0 == m,
        key_revoked(m, principal, id).1 is Err ==> key_revoked(m, principal, id).0 == m,
        organization_made(m, principal, name, now, fresh).1 is Err ==> organization_made(
            m,
            principal,
            name,
            now,
            fresh,
        ).0 == m,
        project_made(m, principal, id, name, now, fresh).1 is Err ==> project_made(
            m,
            principal,
            id,
            name,
            now,
            fresh,
        ).0 == m,
{
}

fn missing() -> (r: AccessError)
    ensures
        r@ == dangling(),
{
    AccessError::Database("FOREIGN KEY constraint failed".to_owned())
}

fn after(latest: Option<i64>, now: i64) -> (r: i64)
    ensures
        r == after_latest(latest, now),
{
    match latest {
        Some(t) => if t < i64::MAX && t + 1 > now {
            t + 1
        } else {
            now
        },
        None => now,
    }
}

impl ProjectAccess {
    /// Makes a personal key, given the numbers drawn.
    pub fn create_personal_key_with(
        &mut self,
        principal: &Principal,
        name: &str,
        now: i64,
        fresh: Fresh,
    ) -> (r: Result<CreatedPersonalApiKey, AccessError>)
        ensures
            (final(self)@, outcome(r)) == key_made(old(self)@, principal@, name@, now, fresh),
    {
        let name = match check_named(principal, name) {
            Ok(name) => name,
            Err(e) => {
                return Err(e);
            },
        };
        let secret = joined("phx_", simple_text(fresh.first).as_str());
        let key_hash = sha256_hex(secret.as_str().as_bytes());
        let id = uuid_text(fresh.second);
        if find(&self.keys, &KeyById { id: id.as_str() }).is_some() {
            return Err(
                AccessError::Database(
                    joined("UNIQUE constraint failed: ", "personal_api_keys.id"),
                ),
            );
        }
        if find(&self.keys, &KeyByHash { hash: key_hash.as_str() }).is_some() {
            return Err(
                AccessError::Database(
                    joined("UNIQUE constraint failed: ", "personal_api_keys.key_hash"),
                ),
            );
        }
        if find(&self.users, &UserById { id: principal.user_id.as_str() }).is_none() {
            return Err(missing());
        }
        let key_prefix = first_chars(secret.as_str(), 12);
        append(
            &mut self.keys,
            KeyRow {
                id: id.clone(),
                user_id: principal.user_id.clone(),
                name: name.clone(),
                key_hash,
                key_prefix: key_prefix.clone(),
                last_used: None,
                created_at: now,
            },
        );
        Ok(
            CreatedPersonalApiKey {
                key: PersonalApiKey { id, name, key_prefix, last_used: None, created_at: now },
                secret,
            },
        )
    }

    /// Makes a personal key.
    pub fn create_personal_key(&mut self, principal: &Principal, name: &str, now: i64) -> (r: Result<
        CreatedPersonalApiKey,
        AccessError,
    >)
        ensures
            exists|fresh: Fresh|
                (final(self)@, outcome(r)) == #[trigger] key_made(
                    old(self)@,
                    principal@,
                    name@,
                    now,
                    fresh,
                ),
    {
        let fresh = draw();
        let r = self.create_personal_key_with(principal, name, now, fresh);
        assert((self@, outcome(r)) == key_made(old(self)@, principal@, name@, now, fresh));
        r
    }

    /// Checks the secret of a personal key, and marks the key as used.
    pub fn validate_personal_key(&mut self, secret: &str, now: i64) -> (r: Result<
        Principal,
        AccessError,
    >)
        ensures
            (final(self)@, outcome(r)) == secret_checked(old(self)@, secret@, now),
    {
        if !starts_with(secret, "phx_") || byte_len(secret) != 36 {
            return Err(AccessError::Unauthorized);
        }
        let key_hash = sha256_hex(secret.as_bytes());
        match find(&self.keys, &KeyByHash { hash: key_hash.as_str() }) {
            None => Err(AccessError::Unauthorized),
            Some(i) => {
                let mut row = self.keys[i].duplicate();
                let user_id = row.user_id.clone();
                row.last_used = Some(now);
                replace(&mut self.keys, i, row);
                Ok(Principal { user_id, authentication: Authentication::PersonalKey })
            },
        }
    }

    /// Lists the personal keys of a principal, the newest first.
    pub fn list_personal_keys(&self, principal: &Principal) -> (r: Result<
        Vec<PersonalApiKey>,
        AccessError,
    >)
        ensures
            match keys_listed(self@, principal@) {
                Ok(keys) => r matches Ok(v) && views(v@) == keys,
                Err(fault) => r matches Err(e) && e@ == fault,
            },
    {
        match require_session(principal) {
            Ok(()) => {},
            Err(e) => {
                return Err(e);
            },
        }
        let rows = select_sorted(
            &self.keys,
            &KeyOfUser { user: principal.user_id.as_str() },
            &KeyOrder,
        );
        let mut out: Vec<PersonalApiKey> = Vec::new();
        let mut i: usize = 0;
        while i < rows.len()
            invariant
                i <= rows.len(),
                out@.len() == i,
                forall|j: int| 0 <= j < i ==> (#[trigger] out@[j])@ == key_shown(rows@[j]@),
            decreases rows.len() - i,
        {
            out.push(
                PersonalApiKey {
                    id: rows[i].id.clone(),
                    name: rows[i].name.clone(),
                    key_prefix: rows[i].key_prefix.clone(),
                    last_used: rows[i].last_used,
                    created_at: rows[i].created_at,
                },
            );
            i += 1;
        }
        assert(views(out@) =~= views(rows@).map_values(|k: KeyRowModel| key_shown(k)));
        Ok(out)
    }

    /// Revokes a personal key of the principal.
    pub fn revoke_personal_key(&mut self, principal: &Principal, key_id: &str) -> (r: Result<
        (),
        AccessError,
    >)
        ensures
            (final(self)@, outcome(r)) == key_revoked(old(self)@, principal@, key_id@),
    {
        match require_session(principal) {
            Ok(()) => {},
            Err(e) => {
                return Err(e);
            },
        }
        let query = OwnKey { id: key_id, user: principal.user_id.as_str() };
        if find(&self.keys, &query).is_none() {
            return Err(AccessError::NotFound);
        }
        remove(&mut self.keys, &query);
        Ok(())
    }

    fn latest_organization(&self) -> (r: Option<i64>)
        ensures
            r == latest(organization_instants(self@.organizations)),
    {
        let ghost all = organization_instants(self@.organizations);
        let mut out: Option<i64> = None;
        let mut i: usize = 0;
        assert(all.take(0) =~= Seq::<i64>::empty());
        while i < self.organizations.len()
            invariant
                i <= self.organizations.len(),
                all == organization_instants(self@.organizations),
                out == latest(all.take(i as int)),
            decreases self.organizations.len() - i,
        {
            assert(all.take(i + 1).drop_last() =~= all.take(i as int));
            assert(all.take(i + 1).last() == self.organizations@[i as int].created_at);
            let t: i64 = self.organizations[i].created_at;
            out = match out {
                Some(known) => if known >= t {
                    Some(known)
                } else {
                    Some(t)
                },
                None => Some(t),
            };
            i += 1;
        }
        assert(all.take(all.len() as int) =~= all);
        out
    }

    fn latest_project(&self, organization: &str) -> (r: Option<i64>)
        ensures
            r == latest(project_instants(self@.projects, organization@)),
    {
        let rows = crate::rows::select(
            &self.projects,
            &crate::control::access::ProjectIn { organization },
        );
        let ghost all = project_instants(self@.projects, organization@);
        assert(all =~= views(rows@).map_values(|p: ProjectRowModel| p.created_at));
        let mut out: Option<i64> = None;
        let mut i: usize = 0;
        assert(all.take(0) =~= Seq::<i64>::empty());
        while i < rows.len()
            invariant
                i <= rows.len(),
                all == views(rows@).map_values(|p: ProjectRowModel| p.created_at),
                out == latest(all.take(i as int)),
            decreases rows.len() - i,
        {
            assert(all.take(i + 1).drop_last() =~= all.take(i as int));
            assert(all.take(i + 1).last() == rows@[i as int].created_at);
            let t: i64 = rows[i].created_at;
            out = match out {
                Some(known) => if known >= t {
                    Some(known)
                } else {
                    Some(t)
                },
                None => Some(t),
            };
            i += 1;
        }
        assert(all.take(all.len() as int) =~= all);
        out
    }

    /// Makes an organization that the principal owns, given the number drawn.
    pub fn create_organization_with(
        &mut self,
        principal: &Principal,
        name: &str,
        now_millis: i64,
        fresh: Fresh,
    ) -> (r: Result<Organization, AccessError>)
        ensures
            (final(self)@, outcome(r)) == organization_made(
                old(self)@,
                principal@,
                name@,
                now_millis,
                fresh,
            ),
    {
        let name = match check_named(principal, name) {
            Ok(name) => name,
            Err(e) => {
                return Err(e);
            },
        };
        let id = uuid_text(fresh.first);
        if find(&self.organizations, &OrganizationById { id: id.as_str() }).is_some() {
            return Err(
                AccessError::Database(joined("UNIQUE constraint failed: ", "organizations.id")),
            );
        }
        if find(&self.users, &UserById { id: principal.user_id.as_str() }).is_none() {
            return Err(missing());
        }
        let created_at: i64 = after(self.latest_organization(), now_millis);
        append(
            &mut self.organizations,
            OrganizationRow { id: id.clone(), name: name.clone(), created_at, imported: false },
        );
        append(
            &mut self.members,
            MemberRow {
                organization_id: id.clone(),
                user_id: principal.user_id.clone(),
                role: Role::Owner,
            },
        );
        let projects: Vec<Project> = Vec::new();
        assert(views(projects@) =~= Seq::<ProjectModel>::empty());
        Ok(Organization { id, name, role: Role::Owner, projects })
    }

    /// Makes an organization that the principal owns.
    pub fn create_organization(&mut self, principal: &Principal, name: &str, now_millis: i64) -> (r:
        Result<Organization, AccessError>)
        ensures
            exists|fresh: Fresh|
                (final(self)@, outcome(r)) == #[trigger] organization_made(
                    old(self)@,
                    principal@,
                    name@,
                    now_millis,
                    fresh,
                ),
    {
        let fresh = draw();
        let r = self.create_organization_with(principal, name, now_millis, fresh);
        assert((self@, outcome(r)) == organization_made(
            old(self)@,
            principal@,
            name@,
            now_millis,
            fresh,
        ));
        r
    }

    /// Makes a project in an organization, given the numbers drawn.
    pub fn create_project_with(
        &mut self,
        principal: &Principal,
        organization_id: &str,
        name: &str,
        now_millis: i64,
        fresh: Fresh,
    ) -> (r: Result<Project, AccessError>)
        ensures
            (final(self)@, outcome(r)) == project_made(
                old(self)@,
                principal@,
                organization_id@,
                name@,
                now_millis,
                fresh,
            ),
    {
        let name = match check_named(principal, name) {
            Ok(name) => name,
            Err(e) => {
                return Err(e);
            },
        };
        match find(
            &self.members,
            &MemberOf { organization: organization_id, user: principal.user_id.as_str() },
        ) {
            Some(i) => {
                if self.members[i].role == Role::Member {
                    return Err(AccessError::Forbidden);
                }
            },
            None => {
                return Err(AccessError::Forbidden);
            },
        }
        let id = uuid_text(fresh.first);
        let token = joined("phc_", simple_text(fresh.second).as_str());
        if find(&self.projects, &ProjectById { id: id.as_str() }).is_some() {
            return Err(
                AccessError::Database(joined("UNIQUE constraint failed: ", "projects.id")),
            );
        }
        if find(&self.projects, &ProjectByToken { token: token.as_str() }).is_some() {
            return Err(
                AccessError::Database(
                    joined("UNIQUE constraint failed: ", "projects.capture_token"),
                ),
            );
        }
        let created_at: i64 = after(self.latest_project(organization_id), now_millis);
        append(
            &mut self.projects,
            ProjectRow {
                id: id.clone(),
                organization_id: organization_id.to_owned(),
                name: name.clone(),
                capture_token: token.clone(),
                created_at,
                imported: false,
            },
        );
        Ok(Project { id, name, token })
    }

    /// Makes a project in an organization.
    pub fn create_project(
        &mut self,
        principal: &Principal,
        organization_id: &str,
        name: &str,
        now_millis: i64,
    ) -> (r: Result<Project, AccessError>)
        ensures
            exists|fresh: Fresh|
                (final(self)@, outcome(r)) == #[trigger] project_made(
                    old(self)@,
                    principal@,
                    organization_id@,
                    name@,
                    now_millis,
                    fresh,
                ),
    {
        let fresh = draw();
        let r = self.create_project_with(principal, organization_id, name, now_millis, fresh);
        assert((self@, outcome(r)) == project_made(
            old(self)@,
            principal@,
            organization_id@,
            name@,
            now_millis,
            fresh,
        ));
        r
    }

    /// Finds the project of a capture token. Whether the token is valid as a token is given.
    pub fn authorize_capture(&self, token: &str, token_valid: bool) -> (r: Result<
        CaptureProject,
        AccessError,
    >)
        ensures
            outcome(r) == capture_authorized(self@, token@, token_valid),
    {
        if !token_valid {
            return Err(AccessError::InvalidToken);
        }
        match find(&self.projects, &ProjectByToken { token }) {
            Some(i) => Ok(
                CaptureProject {
                    project_id: Some(self.projects[i].id.clone()),
                    token: token.to_owned(),
                },
            ),
            None => Err(AccessError::Unauthorized),
        }
    }

    /// Lets a member of its organization into a project.
    pub fn authorize_project(&self, principal: Principal, project_id: &str) -> (r: Result<
        AuthorizedProject,
        AccessError,
    >)
        ensures
            outcome(r) == project_authorized(self@, principal@, project_id@),
    {
        let i: usize = match find(&self.projects, &ProjectById { id: project_id }) {
            Some(i) => i,
            None => {
                return Err(AccessError::Forbidden);
            },
        };
        match find(
            &self.members,
            &MemberOf {
                organization: self.projects[i].organization_id.as_str(),
                user: principal.user_id.as_str(),
            },
        ) {
            Some(k) => Ok(
                AuthorizedProject {
                    project_id: project_id.to_owned(),
                    organization_id: self.projects[i].organization_id.clone(),
                    capture_token: self.projects[i].capture_token.clone(),
                    role: self.members[k].role,
                    principal,
                },
            ),
            None => Err(AccessError::Forbidden),
        }
    }
}

} // verus!
