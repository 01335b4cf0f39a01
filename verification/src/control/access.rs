//! The state of project access: users, organizations, members, projects, sessions and personal keys.
use vstd::prelude::*;
use vstd::string::*;
use vstd::utf8::encode_utf8;

use crate::capture::event::{option_view, uuid_version};
use crate::control::{
    email_ok, name_ok, password_ok, validate_email, validate_name, validate_password, AccessError,
    AccessFault, Authentication, LoginRequest, Organization, OrganizationModel, Principal,
    PrincipalModel, Project, ProjectModel, Role, SetupModel, SetupRequest, SetupResult, User,
    UserModel, Workspace, WorkspaceModel, SESSION_TTL_SECONDS,
};
use crate::digest::{fresh_v4, simple_text, simple_text_of, uuid_text, uuid_text_of};
use crate::order::{outcome, views};
use crate::rows::{
    append, find, found, holds_somewhere, index_of, lemma_index_of, lemma_removed, lemma_selected,
    lemma_sorted, remove, removed, select_sorted, selected, sorted, Query, Row, Sort,
};
use crate::text::{joined, lower, lowered, same, text_at_most, text_le, trim, trimmed};

verus! {

// ── Passwords ─────────────────────────────────────────────────────────────────

/// Whether a password hash is of a password, as `argon2` decides it.
pub uninterp spec fn password_matches(hash: Seq<char>, password: Seq<char>) -> bool;

/// What hashing a password gives: a hash of it, unless it is longer than `argon2` takes.
pub open spec fn hash_drawn(hash: Option<Seq<char>>, password: Seq<char>) -> bool {
    &&& hash is Some <==> encode_utf8(password).len() <= 0xffff_ffff
    &&& hash matches Some(h) ==> password_matches(h, password)
}

/// `argon2::Argon2::hash_password` under a random salt: for a password of at most `argon2::MAX_PWD_LEN`
/// bytes a hash that matches it, and none for a longer one.
#[verifier::external_body]
pub(crate) fn hash_password(password: &str) -> (r: Option<String>)
    ensures
        hash_drawn(option_view(r), password@),
{
    let salt = argon2::password_hash::SaltString::generate(&mut rand::rngs::OsRng);
    let argon = argon2::Argon2::default();
    argon2::PasswordHasher::hash_password(&argon, password.as_bytes(), &salt)
        .map(|hash| hash.to_string())
        .ok()
}

/// `argon2::Argon2::verify_password`: whether a hash can be read and is of a password.
#[verifier::external_body]
pub(crate) fn verify_password(hash: &str, password: &str) -> (r: bool)
    ensures
        r == password_matches(hash@, password@),
{
    let argon = argon2::Argon2::default();
    match argon2::PasswordHash::new(hash) {
        Ok(parsed) => {
            argon2::PasswordVerifier::verify_password(&argon, password.as_bytes(), &parsed).is_ok()
        }
        Err(_) => false,
    }
}

// ── Rows ──────────────────────────────────────────────────────────────────────

/// A stored user.
pub struct UserRow {
    pub id: String,
    pub email: String,
    pub password_hash: String,
    pub name: String,
    pub created_at: i64,
}

/// The mathematical value of a [`UserRow`].
pub struct UserRowModel {
    pub id: Seq<char>,
    pub email: Seq<char>,
    pub password_hash: Seq<char>,
    pub name: Seq<char>,
    pub created_at: i64,
}

impl View for UserRow {
    type V = UserRowModel;

    open spec fn view(&self) -> UserRowModel {
        UserRowModel {
            id: self.id@,
            email: self.email@,
            password_hash: self.password_hash@,
            name: self.name@,
            created_at: self.created_at,
        }
    }
}

impl Row for UserRow {
    fn duplicate(&self) -> (r: Self) {
        UserRow {
            id: self.id.clone(),
            email: self.email.clone(),
            password_hash: self.password_hash.clone(),
            name: self.name.clone(),
            created_at: self.created_at,
        }
    }
}

/// A stored organization.
pub struct OrganizationRow {
    pub id: String,
    pub name: String,
    pub created_at: i64,
    /// Whether it was taken over from an earlier installation.
    pub imported: bool,
}

/// The mathematical value of a [`OrganizationRow`].
pub struct OrganizationRowModel {
    pub id: Seq<char>,
    pub name: Seq<char>,
    pub created_at: i64,
    pub imported: bool,
}

impl View for OrganizationRow {
    type V = OrganizationRowModel;

    open spec fn view(&self) -> OrganizationRowModel {
        OrganizationRowModel {
            id: self.id@,
            name: self.name@,
            created_at: self.created_at,
            imported: self.imported,
        }
    }
}

impl Row for OrganizationRow {
    fn duplicate(&self) -> (r: Self) {
        OrganizationRow {
            id: self.id.clone(),
            name: self.name.clone(),
            created_at: self.created_at,
            imported: self.imported,
        }
    }
}

/// A stored membership.
pub struct MemberRow {
    pub organization_id: String,
    pub user_id: String,
    pub role: Role,
}

/// The mathematical value of a [`MemberRow`].
pub struct MemberRowModel {
    pub organization_id: Seq<char>,
    pub user_id: Seq<char>,
    pub role: Role,
}

impl View for MemberRow {
    type V = MemberRowModel;

    open spec fn view(&self) -> MemberRowModel {
        MemberRowModel {
            organization_id: self.organization_id@,
            user_id: self.user_id@,
            role: self.role,
        }
    }
}

impl Row for MemberRow {
    fn duplicate(&self) -> (r: Self) {
        MemberRow {
            organization_id: self.organization_id.clone(),
            user_id: self.user_id.clone(),
            role: self.role,
        }
    }
}

/// A stored project.
pub struct ProjectRow {
    pub id: String,
    pub organization_id: String,
    pub name: String,
    pub capture_token: String,
    pub created_at: i64,
    pub imported: bool,
}

/// The mathematical value of a [`ProjectRow`].
pub struct ProjectRowModel {
    pub id: Seq<char>,
    pub organization_id: Seq<char>,
    pub name: Seq<char>,
    pub capture_token: Seq<char>,
    pub created_at: i64,
    pub imported: bool,
}

impl View for ProjectRow {
    type V = ProjectRowModel;

    open spec fn view(&self) -> ProjectRowModel {
        ProjectRowModel {
            id: self.id@,
            organization_id: self.organization_id@,
            name: self.name@,
            capture_token: self.capture_token@,
            created_at: self.created_at,
            imported: self.imported,
        }
    }
}

impl Row for ProjectRow {
    fn duplicate(&self) -> (r: Self) {
        ProjectRow {
            id: self.id.clone(),
            organization_id: self.organization_id.clone(),
            name: self.name.clone(),
            capture_token: self.capture_token.clone(),
            created_at: self.created_at,
            imported: self.imported,
        }
    }
}

/// A stored session.
pub struct SessionRow {
    pub id: String,
    pub user_id: String,
    pub created_at: i64,
    pub expires_at: i64,
}

/// The mathematical value of a [`SessionRow`].
pub struct SessionRowModel {
    pub id: Seq<char>,
    pub user_id: Seq<char>,
    pub created_at: i64,
    pub expires_at: i64,
}

impl View for SessionRow {
    type V = SessionRowModel;

    open spec fn view(&self) -> SessionRowModel {
        SessionRowModel {
            id: self.id@,
            user_id: self.user_id@,
            created_at: self.created_at,
            expires_at: self.expires_at,
        }
    }
}

impl Row for SessionRow {
    fn duplicate(&self) -> (r: Self) {
        SessionRow {
            id: self.id.clone(),
            user_id: self.user_id.clone(),
            created_at: self.created_at,
            expires_at: self.expires_at,
        }
    }
}

/// A stored personal key. Only the digest of the secret is kept.
pub struct KeyRow {
    pub id: String,
    pub user_id: String,
    pub name: String,
    pub key_hash: String,
    pub key_prefix: String,
    pub last_used: Option<i64>,
    pub created_at: i64,
}

/// The mathematical value of a [`KeyRow`].
pub struct KeyRowModel {
    pub id: Seq<char>,
    pub user_id: Seq<char>,
    pub name: Seq<char>,
    pub key_hash: Seq<char>,
    pub key_prefix: Seq<char>,
    pub last_used: Option<i64>,
    pub created_at: i64,
}

impl View for KeyRow {
    type V = KeyRowModel;

    open spec fn view(&self) -> KeyRowModel {
        KeyRowModel {
            id: self.id@,
            user_id: self.user_id@,
            name: self.name@,
            key_hash: self.key_hash@,
            key_prefix: self.key_prefix@,
            last_used: self.last_used,
            created_at: self.created_at,
        }
    }
}

impl Row for KeyRow {
    fn duplicate(&self) -> (r: Self) {
        KeyRow {
            id: self.id.clone(),
            user_id: self.user_id.clone(),
            name: self.name.clone(),
            key_hash: self.key_hash.clone(),
            key_prefix: self.key_prefix.clone(),
            last_used: self.last_used,
            created_at: self.created_at,
        }
    }
}

/// The state of project access.
pub struct ProjectAccess {
    pub users: Vec<UserRow>,
    pub organizations: Vec<OrganizationRow>,
    pub members: Vec<MemberRow>,
    pub projects: Vec<ProjectRow>,
    pub sessions: Vec<SessionRow>,
    pub keys: Vec<KeyRow>,
}

/// The mathematical value of the state.
pub struct ControlModel {
    pub users: Seq<UserRowModel>,
    pub organizations: Seq<OrganizationRowModel>,
    pub members: Seq<MemberRowModel>,
    pub projects: Seq<ProjectRowModel>,
    pub sessions: Seq<SessionRowModel>,
    pub keys: Seq<KeyRowModel>,
}

impl View for ProjectAccess {
    type V = ControlModel;

    open spec fn view(&self) -> ControlModel {
        ControlModel {
            users: views(self.users@),
            organizations: views(self.organizations@),
            members: views(self.members@),
            projects: views(self.projects@),
            sessions: views(self.sessions@),
            keys: views(self.keys@),
        }
    }
}

// ── Conditions and orders ─────────────────────────────────────────────────────

/// The user with an id.
pub open spec fn user_is(id: Seq<char>) -> spec_fn(UserRowModel) -> bool {
    |row: UserRowModel| row.id == id
}

/// Tests [`user_is`].
pub struct UserById<'a> {
    pub id: &'a str,
}

impl<'a> Query<UserRow> for UserById<'a> {
    open spec fn pred(&self) -> spec_fn(UserRowModel) -> bool {
        user_is(self.id@)
    }

    fn test(&self, row: &UserRow) -> (r: bool) {
        same(row.id.as_str(), self.id)
    }
}

/// The user with an email address.
pub open spec fn email_is(email: Seq<char>) -> spec_fn(UserRowModel) -> bool {
    |row: UserRowModel| row.email == email
}

/// Tests [`email_is`].
pub struct UserByEmail<'a> {
    pub email: &'a str,
}

impl<'a> Query<UserRow> for UserByEmail<'a> {
    open spec fn pred(&self) -> spec_fn(UserRowModel) -> bool {
        email_is(self.email@)
    }

    fn test(&self, row: &UserRow) -> (r: bool) {
        same(row.email.as_str(), self.email)
    }
}

/// The organization with an id.
pub open spec fn organization_is(id: Seq<char>) -> spec_fn(OrganizationRowModel) -> bool {
    |row: OrganizationRowModel| row.id == id
}

/// Tests [`organization_is`].
pub struct OrganizationById<'a> {
    pub id: &'a str,
}

impl<'a> Query<OrganizationRow> for OrganizationById<'a> {
    open spec fn pred(&self) -> spec_fn(OrganizationRowModel) -> bool {
        organization_is(self.id@)
    }

    fn test(&self, row: &OrganizationRow) -> (r: bool) {
        same(row.id.as_str(), self.id)
    }
}

/// The membership of a user in an organization.
pub open spec fn member_is(organization: Seq<char>, user: Seq<char>) -> spec_fn(MemberRowModel) -> bool {
    |row: MemberRowModel| row.organization_id == organization && row.user_id == user
}

/// Tests [`member_is`].
pub struct MemberOf<'a> {
    pub organization: &'a str,
    pub user: &'a str,
}

impl<'a> Query<MemberRow> for MemberOf<'a> {
    open spec fn pred(&self) -> spec_fn(MemberRowModel) -> bool {
        member_is(self.organization@, self.user@)
    }

    fn test(&self, row: &MemberRow) -> (r: bool) {
        same(row.organization_id.as_str(), self.organization) && same(row.user_id.as_str(), self.user)
    }
}

/// The project with an id.
pub open spec fn project_is(id: Seq<char>) -> spec_fn(ProjectRowModel) -> bool {
    |row: ProjectRowModel| row.id == id
}

/// Tests [`project_is`].
pub struct ProjectById<'a> {
    pub id: &'a str,
}

impl<'a> Query<ProjectRow> for ProjectById<'a> {
    open spec fn pred(&self) -> spec_fn(ProjectRowModel) -> bool {
        project_is(self.id@)
    }

    fn test(&self, row: &ProjectRow) -> (r: bool) {
        same(row.id.as_str(), self.id)
    }
}

/// The project with a capture token.
pub open spec fn token_is(token: Seq<char>) -> spec_fn(ProjectRowModel) -> bool {
    |row: ProjectRowModel| row.capture_token == token
}

/// Tests [`token_is`].
pub struct ProjectByToken<'a> {
    pub token: &'a str,
}

impl<'a> Query<ProjectRow> for ProjectByToken<'a> {
    open spec fn pred(&self) -> spec_fn(ProjectRowModel) -> bool {
        token_is(self.token@)
    }

    fn test(&self, row: &ProjectRow) -> (r: bool) {
        same(row.capture_token.as_str(), self.token)
    }
}

/// The projects of an organization.
pub open spec fn project_in(organization: Seq<char>) -> spec_fn(ProjectRowModel) -> bool {
    |row: ProjectRowModel| row.organization_id == organization
}

/// Tests [`project_in`].
pub struct ProjectIn<'a> {
    pub organization: &'a str,
}

impl<'a> Query<ProjectRow> for ProjectIn<'a> {
    open spec fn pred(&self) -> spec_fn(ProjectRowModel) -> bool {
        project_in(self.organization@)
    }

    fn test(&self, row: &ProjectRow) -> (r: bool) {
        same(row.organization_id.as_str(), self.organization)
    }
}

/// The session with an id.
pub open spec fn session_is(id: Seq<char>) -> spec_fn(SessionRowModel) -> bool {
    |row: SessionRowModel| row.id == id
}

/// Tests [`session_is`].
pub struct SessionById<'a> {
    pub id: &'a str,
}

impl<'a> Query<SessionRow> for SessionById<'a> {
    open spec fn pred(&self) -> spec_fn(SessionRowModel) -> bool {
        session_is(self.id@)
    }

    fn test(&self, row: &SessionRow) -> (r: bool) {
        same(row.id.as_str(), self.id)
    }
}

/// The session with an id that has not expired.
pub open spec fn session_live(id: Seq<char>, now: i64) -> spec_fn(SessionRowModel) -> bool {
    |row: SessionRowModel| row.id == id && row.expires_at > now
}

/// Tests [`session_live`].
pub struct LiveSession<'a> {
    pub id: &'a str,
    pub now: i64,
}

impl<'a> Query<SessionRow> for LiveSession<'a> {
    open spec fn pred(&self) -> spec_fn(SessionRowModel) -> bool {
        session_live(self.id@, self.now)
    }

    fn test(&self, row: &SessionRow) -> (r: bool) {
        same(row.id.as_str(), self.id) && row.expires_at > self.now
    }
}

/// The session with an id that has expired.
pub open spec fn session_stale(id: Seq<char>, now: i64) -> spec_fn(SessionRowModel) -> bool {
    |row: SessionRowModel| row.id == id && row.expires_at <= now
}

/// Tests [`session_stale`].
pub struct StaleSession<'a> {
    pub id: &'a str,
    pub now: i64,
}

impl<'a> Query<SessionRow> for StaleSession<'a> {
    open spec fn pred(&self) -> spec_fn(SessionRowModel) -> bool {
        session_stale(self.id@, self.now)
    }

    fn test(&self, row: &SessionRow) -> (r: bool) {
        same(row.id.as_str(), self.id) && row.expires_at <= self.now
    }
}

/// The sessions that have expired.
pub open spec fn session_expired(now: i64) -> spec_fn(SessionRowModel) -> bool {
    |row: SessionRowModel| row.expires_at <= now
}

/// Tests [`session_expired`].
pub struct ExpiredSession {
    pub now: i64,
}

impl Query<SessionRow> for ExpiredSession {
    open spec fn pred(&self) -> spec_fn(SessionRowModel) -> bool {
        session_expired(self.now)
    }

    fn test(&self, row: &SessionRow) -> (r: bool) {
        row.expires_at <= self.now
    }
}

/// The personal key with an id.
pub open spec fn key_is(id: Seq<char>) -> spec_fn(KeyRowModel) -> bool {
    |row: KeyRowModel| row.id == id
}

/// Tests [`key_is`].
pub struct KeyById<'a> {
    pub id: &'a str,
}

impl<'a> Query<KeyRow> for KeyById<'a> {
    open spec fn pred(&self) -> spec_fn(KeyRowModel) -> bool {
        key_is(self.id@)
    }

    fn test(&self, row: &KeyRow) -> (r: bool) {
        same(row.id.as_str(), self.id)
    }
}

/// The personal key with a digest.
pub open spec fn hash_is(hash: Seq<char>) -> spec_fn(KeyRowModel) -> bool {
    |row: KeyRowModel| row.key_hash == hash
}

/// Tests [`hash_is`].
pub struct KeyByHash<'a> {
    pub hash: &'a str,
}

impl<'a> Query<KeyRow> for KeyByHash<'a> {
    open spec fn pred(&self) -> spec_fn(KeyRowModel) -> bool {
        hash_is(self.hash@)
    }

    fn test(&self, row: &KeyRow) -> (r: bool) {
        same(row.key_hash.as_str(), self.hash)
    }
}

/// The personal keys of a user.
pub open spec fn key_of(user: Seq<char>) -> spec_fn(KeyRowModel) -> bool {
    |row: KeyRowModel| row.user_id == user
}

/// Tests [`key_of`].
pub struct KeyOfUser<'a> {
    pub user: &'a str,
}

impl<'a> Query<KeyRow> for KeyOfUser<'a> {
    open spec fn pred(&self) -> spec_fn(KeyRowModel) -> bool {
        key_of(self.user@)
    }

    fn test(&self, row: &KeyRow) -> (r: bool) {
        same(row.user_id.as_str(), self.user)
    }
}

/// The personal key with an id that belongs to a user.
pub open spec fn own_key(id: Seq<char>, user: Seq<char>) -> spec_fn(KeyRowModel) -> bool {
    |row: KeyRowModel| row.id == id && row.user_id == user
}

/// Tests [`own_key`].
pub struct OwnKey<'a> {
    pub id: &'a str,
    pub user: &'a str,
}

impl<'a> Query<KeyRow> for OwnKey<'a> {
    open spec fn pred(&self) -> spec_fn(KeyRowModel) -> bool {
        own_key(self.id@, self.user@)
    }

    fn test(&self, row: &KeyRow) -> (r: bool) {
        same(row.id.as_str(), self.id) && same(row.user_id.as_str(), self.user)
    }
}

/// The organizations that a user is a member of.
pub open spec fn joined_by(members: Seq<MemberRowModel>, user: Seq<char>) -> spec_fn(
    OrganizationRowModel,
) -> bool {
    |row: OrganizationRowModel| holds_somewhere(members, member_is(row.id, user))
}

/// Tests [`joined_by`].
pub struct JoinedBy<'a> {
    pub members: &'a Vec<MemberRow>,
    pub user: &'a str,
}

impl<'a> Query<OrganizationRow> for JoinedBy<'a> {
    open spec fn pred(&self) -> spec_fn(OrganizationRowModel) -> bool {
        joined_by(views(self.members@), self.user@)
    }

    fn test(&self, row: &OrganizationRow) -> (r: bool) {
        find(self.members, &MemberOf { organization: row.id.as_str(), user: self.user }).is_some()
    }
}

/// Organizations by age, then by id.
pub open spec fn organization_order() -> spec_fn(OrganizationRowModel, OrganizationRowModel) -> bool {
    |a: OrganizationRowModel, b: OrganizationRowModel|
        a.created_at < b.created_at || a.created_at == b.created_at && a.id != b.id && text_le(
            a.id,
            b.id,
        )
}

/// Decides [`organization_order`].
pub struct OrganizationOrder;

impl Sort<OrganizationRow> for OrganizationOrder {
    open spec fn before(&self) -> spec_fn(OrganizationRowModel, OrganizationRowModel) -> bool {
        organization_order()
    }

    fn is_before(&self, a: &OrganizationRow, b: &OrganizationRow) -> (r: bool) {
        a.created_at < b.created_at || a.created_at == b.created_at && !same(
            a.id.as_str(),
            b.id.as_str(),
        ) && text_at_most(a.id.as_str(), b.id.as_str())
    }
}

/// Projects by age, then by id.
pub open spec fn project_order() -> spec_fn(ProjectRowModel, ProjectRowModel) -> bool {
    |a: ProjectRowModel, b: ProjectRowModel|
        a.created_at < b.created_at || a.created_at == b.created_at && a.id != b.id && text_le(
            a.id,
            b.id,
        )
}

/// Decides [`project_order`].
pub struct ProjectOrder;

impl Sort<ProjectRow> for ProjectOrder {
    open spec fn before(&self) -> spec_fn(ProjectRowModel, ProjectRowModel) -> bool {
        project_order()
    }

    fn is_before(&self, a: &ProjectRow, b: &ProjectRow) -> (r: bool) {
        a.created_at < b.created_at || a.created_at == b.created_at && !same(
            a.id.as_str(),
            b.id.as_str(),
        ) && text_at_most(a.id.as_str(), b.id.as_str())
    }
}

/// Personal keys, the newest first, then by id.
pub open spec fn key_order() -> spec_fn(KeyRowModel, KeyRowModel) -> bool {
    |a: KeyRowModel, b: KeyRowModel|
        a.created_at > b.created_at || a.created_at == b.created_at && a.id != b.id && text_le(
            a.id,
            b.id,
        )
}

/// Decides [`key_order`].
pub struct KeyOrder;

impl Sort<KeyRow> for KeyOrder {
    open spec fn before(&self) -> spec_fn(KeyRowModel, KeyRowModel) -> bool {
        key_order()
    }

    fn is_before(&self, a: &KeyRow, b: &KeyRow) -> (r: bool) {
        a.created_at > b.created_at || a.created_at == b.created_at && !same(
            a.id.as_str(),
            b.id.as_str(),
        ) && text_at_most(a.id.as_str(), b.id.as_str())
    }
}

// ── Workspaces ────────────────────────────────────────────────────────────────

/// A project as a member sees it.
pub open spec fn project_seen(row: ProjectRowModel) -> ProjectModel {
    ProjectModel { id: row.id, name: row.name, token: row.capture_token }
}

/// An organization as a member sees it.
pub open spec fn organization_seen(
    m: ControlModel,
    row: OrganizationRowModel,
    user: Seq<char>,
) -> OrganizationModel {
    OrganizationModel {
        id: row.id,
        name: row.name,
        role: found(m.members, member_is(row.id, user))->Some_0.role,
        projects: sorted(selected(m.projects, project_in(row.id)), project_order()).map_values(
            |p: ProjectRowModel| project_seen(p),
        ),
    }
}

/// What a user sees: their organizations by age, each with its projects by age.
pub open spec fn workspace_of(m: ControlModel, user: Seq<char>) -> Result<
    WorkspaceModel,
    AccessFault,
> {
    match found(m.users, user_is(user)) {
        None => Err(AccessFault::Unauthorized),
        Some(row) => Ok(
            WorkspaceModel {
                user: UserModel { id: row.id, email: row.email, name: row.name },
                organizations: sorted(
                    selected(m.organizations, joined_by(m.members, user)),
                    organization_order(),
                ).map_values(|o: OrganizationRowModel| organization_seen(m, o, user)),
            },
        ),
    }
}

/// A user's workspace holds an organization only if the user is a member of it.
pub proof fn law_workspaces_show_own_organizations(m: ControlModel, user: Seq<char>, i: int)
    ensures
        workspace_of(m, user) matches Ok(w) ==> (0 <= i < w.organizations.len()
            ==> holds_somewhere(m.members, member_is(w.organizations[i].id, user))),
{
    let chosen = selected(m.organizations, joined_by(m.members, user));
    let all = sorted(chosen, organization_order());
    if let Ok(w) = workspace_of(m, user) {
        if 0 <= i < w.organizations.len() {
            lemma_sorted(chosen, organization_order(), all[i]);
            assert(all.contains(all[i]));
            lemma_selected(m.organizations, joined_by(m.members, user), all[i]);
        }
    }
}

// ── Setup and login ───────────────────────────────────────────────────────────

/// The conflict of a new row with one that is there.
pub open spec fn taken(column: Seq<char>) -> AccessFault {
    AccessFault::Database("UNIQUE constraint failed: "@ + column)
}

fn conflict(column: &str) -> (r: AccessError)
    ensures
        r@ == taken(column@),
{
    AccessError::Database(joined("UNIQUE constraint failed: ", column))
}

/// Numbers that are drawn at random for new rows.
#[derive(Debug, Clone, Copy, PartialEq, Eq, Structural)]
pub struct Fresh {
    pub first: u128,
    pub second: u128,
    pub third: u128,
    pub fourth: u128,
    pub fifth: u128,
}

/// Whether numbers are those of random uuids.
pub open spec fn drawn(fresh: Fresh) -> bool {
    &&& uuid_version(fresh.first) == 4
    &&& uuid_version(fresh.second) == 4
    &&& uuid_version(fresh.third) == 4
    &&& uuid_version(fresh.fourth) == 4
    &&& uuid_version(fresh.fifth) == 4
}

/// Draws numbers for new rows.
pub fn draw() -> (r: Fresh)
    ensures
        drawn(r),
{
    Fresh {
        first: fresh_v4(),
        second: fresh_v4(),
        third: fresh_v4(),
        fourth: fresh_v4(),
        fifth: fresh_v4(),
    }
}

/// What is wrong with a setup request, if anything.
pub open spec fn setup_fault(request: SetupRequest, token_valid: bool) -> Option<AccessFault> {
    if request.existing_project_token is Some && !token_valid {
        Some(AccessFault::InvalidToken)
    } else if !email_ok(request.email@) || !password_ok(request.password@) || !name_ok(
        request.organization_name@,
    ) || !name_ok(request.project_name@) {
        Some(AccessFault::InvalidRequest)
    } else {
        None
    }
}

/// The members once a user owns every imported organization.
pub open spec fn imported_owned(
    organizations: Seq<OrganizationRowModel>,
    members: Seq<MemberRowModel>,
    user: Seq<char>,
) -> Seq<MemberRowModel>
    decreases organizations.len(),
{
    if organizations.len() == 0 {
        members
    } else {
        let before = imported_owned(organizations.drop_last(), members, user);
        let last = organizations.last();
        if last.imported && !holds_somewhere(before, member_is(last.id, user)) {
            before.push(
                MemberRowModel { organization_id: last.id, user_id: user, role: Role::Owner },
            )
        } else {
            before
        }
    }
}

/// The state with the first user, who owns the project that is claimed, or a new organization with a new
/// project.
pub open spec fn owner_added(
    m: ControlModel,
    request: SetupRequest,
    created_at: i64,
    fresh: Fresh,
    hash: Seq<char>,
) -> Result<ControlModel, AccessFault> {
    let email = lowered(trimmed(request.email@));
    let user = uuid_text_of(fresh.first);
    let with_user = ControlModel {
        users: m.users.push(
            UserRowModel { id: user, email, password_hash: hash, name: email, created_at },
        ),
        ..m
    };
    let claimed = match request.existing_project_token {
        Some(token) => found(m.projects, token_is(token@)),
        None => None,
    };
    match claimed {
        Some(project) => Ok(
            ControlModel {
                members: m.members.push(
                    MemberRowModel {
                        organization_id: project.organization_id,
                        user_id: user,
                        role: Role::Owner,
                    },
                ),
                ..with_user
            },
        ),
        None => {
            let organization = uuid_text_of(fresh.third);
            let project = uuid_text_of(fresh.fourth);
            let token = match request.existing_project_token {
                Some(token) => token@,
                None => "phc_"@ + simple_text_of(fresh.fifth),
            };
            if request.existing_project_token is Some && m.projects.len() > 0 {
                Err(AccessFault::NotFound)
            } else if holds_somewhere(m.organizations, organization_is(organization)) {
                Err(taken("organizations.id"@))
            } else if holds_somewhere(m.projects, project_is(project)) {
                Err(taken("projects.id"@))
            } else if holds_somewhere(m.projects, token_is(token)) {
                Err(taken("projects.capture_token"@))
            } else {
                Ok(
                    ControlModel {
                        organizations: m.organizations.push(
                            OrganizationRowModel {
                                id: organization,
                                name: request.organization_name@,
                                created_at,
                                imported: false,
                            },
                        ),
                        members: m.members.push(
                            MemberRowModel {
                                organization_id: organization,
                                user_id: user,
                                role: Role::Owner,
                            },
                        ),
                        projects: m.projects.push(
                            ProjectRowModel {
                                id: project,
                                organization_id: organization,
                                name: request.project_name@,
                                capture_token: token,
                                created_at,
                                imported: false,
                            },
                        ),
                        ..with_user
                    },
                )
            }
        },
    }
}

/// The state with one more session.
pub open spec fn session_added(
    m: ControlModel,
    session: Seq<char>,
    user: Seq<char>,
    now: i64,
) -> ControlModel {
    ControlModel {
        sessions: m.sessions.push(
            SessionRowModel {
                id: session,
                user_id: user,
                created_at: now,
                expires_at: (now + SESSION_TTL_SECONDS) as i64,
            },
        ),
        ..m
    }
}

/// What a setup leads to, given the password's hash and the numbers drawn. Without a user that is new to
/// the state it changes nothing.
pub open spec fn setup_done(
    m: ControlModel,
    request: SetupRequest,
    token_valid: bool,
    now: i64,
    created_at: i64,
    fresh: Fresh,
    hash: Option<Seq<char>>,
) -> (ControlModel, Result<SetupModel, AccessFault>) {
    match setup_fault(request, token_valid) {
        Some(fault) => (m, Err(fault)),
        None => match hash {
            None => (m, Err(AccessFault::InvalidCredentials)),
            Some(hash) => if m.users.len() > 0 {
                (m, Err(AccessFault::SetupComplete))
            } else {
                match owner_added(m, request, created_at, fresh, hash) {
                    Err(fault) => (m, Err(fault)),
                    Ok(owned) => {
                        let user = uuid_text_of(fresh.first);
                        let session = uuid_text_of(fresh.second);
                        if holds_somewhere(m.sessions, session_is(session)) {
                            (m, Err(taken("auth_sessions.id"@)))
                        } else {
                            let next = session_added(
                                ControlModel {
                                    members: imported_owned(
                                        owned.organizations,
                                        owned.members,
                                        user,
                                    ),
                                    ..owned
                                },
                                session,
                                user,
                                now,
                            );
                            match workspace_of(next, user) {
                                Ok(workspace) => (
                                    next,
                                    Ok(SetupModel { workspace, session_id: session }),
                                ),
                                Err(fault) => (next, Err(fault)),
                            }
                        }
                    },
                }
            },
        },
    }
}

/// What a login leads to, given the number drawn for the session.
pub open spec fn login_done(
    m: ControlModel,
    request: LoginRequest,
    now: i64,
    fresh: Fresh,
) -> (ControlModel, Result<SetupModel, AccessFault>) {
    if !email_ok(request.email@) || !password_ok(request.password@) {
        (m, Err(AccessFault::InvalidCredentials))
    } else {
        match found(m.users, email_is(lowered(trimmed(request.email@)))) {
            None => (m, Err(AccessFault::InvalidCredentials)),
            Some(user) => if !password_matches(user.password_hash, request.password@) {
                (m, Err(AccessFault::InvalidCredentials))
            } else {
                let session = uuid_text_of(fresh.first);
                let pruned = ControlModel {
                    sessions: removed(m.sessions, session_expired(now)),
                    ..m
                };
                if holds_somewhere(pruned.sessions, session_is(session)) {
                    (m, Err(taken("auth_sessions.id"@)))
                } else {
                    let next = session_added(pruned, session, user.id, now);
                    match workspace_of(next, user.id) {
                        Ok(workspace) => (next, Ok(SetupModel { workspace, session_id: session })),
                        Err(fault) => (next, Err(fault)),
                    }
                }
            },
        }
    }
}

/// The state without a session.
pub open spec fn removed_session(m: ControlModel, session: Seq<char>) -> ControlModel {
    ControlModel { sessions: removed(m.sessions, session_is(session)), ..m }
}

/// A session that was closed lets nobody in any more.
pub proof fn law_closed_sessions_are_refused(m: ControlModel, session: Seq<char>, now: i64)
    ensures
        session_checked(removed_session(m, session), session, now).1 == Err::<PrincipalModel, _>(
            AccessFault::Unauthorized,
        ),
{
    let left = removed(m.sessions, session_is(session));
    lemma_index_of(left, session_live(session, now));
    if let Some(i) = index_of(left, session_live(session, now)) {
        assert(left.contains(left[i]));
        lemma_removed(m.sessions, session_is(session), left[i]);
    }
}

/// After setup no second setup succeeds, whatever is asked.
pub proof fn law_setup_happens_once(
    m: ControlModel,
    request: SetupRequest,
    token_valid: bool,
    now: i64,
    created_at: i64,
    fresh: Fresh,
    hash: Option<Seq<char>>,
)
    requires
        m.users.len() > 0,
    ensures
        setup_done(m, request, token_valid, now, created_at, fresh, hash).0 == m,
        setup_done(m, request, token_valid, now, created_at, fresh, hash).1 is Err,
{
}

/// Whoever set up can log in with the same address and password.
pub proof fn law_setup_allows_login(
    m: ControlModel,
    request: SetupRequest,
    token_valid: bool,
    now: i64,
    created_at: i64,
    fresh: Fresh,
    hash: Seq<char>,
    login: LoginRequest,
    later: i64,
    drawn: Fresh,
)
    requires
        setup_done(m, request, token_valid, now, created_at, fresh, Some(hash)).1 is Ok,
        password_matches(hash, request.password@),
        login.email@ == request.email@,
        login.password@ == request.password@,
        !holds_somewhere(
            removed(
                setup_done(m, request, token_valid, now, created_at, fresh, Some(hash)).0.sessions,
                session_expired(later),
            ),
            session_is(uuid_text_of(drawn.first)),
        ),
    ensures
        login_done(
            setup_done(m, request, token_valid, now, created_at, fresh, Some(hash)).0,
            login,
            later,
            drawn,
        ).1 is Ok,
{
    let next = setup_done(m, request, token_valid, now, created_at, fresh, Some(hash)).0;
    let email = lowered(trimmed(request.email@));
    let user = uuid_text_of(fresh.first);
    assert(next.users.drop_last() =~= m.users);
    assert(m.users.len() == 0);
    assert(next.users.len() == 1);
    assert(index_of(next.users.drop_last(), email_is(email)) is None);
    assert(index_of(next.users, email_is(email)) == Some(0int));
    assert(index_of(next.users.drop_last(), user_is(user)) is None);
    assert(index_of(next.users, user_is(user)) == Some(0int));
}

/// A setup that is refused leaves no trace.
pub proof fn law_refused_setup_leaves_no_trace(
    m: ControlModel,
    request: SetupRequest,
    token_valid: bool,
    now: i64,
    created_at: i64,
    fresh: Fresh,
    hash: Option<Seq<char>>,
)
    ensures
        setup_done(m, request, token_valid, now, created_at, fresh, hash).1 is Err ==> setup_done(
            m,
            request,
            token_valid,
            now,
            created_at,
            fresh,
            hash,
        ).0 == m,
{
    let next = setup_done(m, request, token_valid, now, created_at, fresh, hash).0;
    if next.users.len() > m.users.len() {
        let user = uuid_text_of(fresh.first);
        assert(next.users.drop_last() =~= m.users);
        assert(index_of(next.users, user_is(user)) is Some);
    }
}

/// What presenting a session leads to. One that has expired is dropped.
pub open spec fn session_checked(m: ControlModel, session: Seq<char>, now: i64) -> (
    ControlModel,
    Result<PrincipalModel, AccessFault>,
) {
    match found(m.sessions, session_live(session, now)) {
        Some(row) => (
            m,
            Ok(
                PrincipalModel { user_id: row.user_id, authentication: Authentication::Session },
            ),
        ),
        None => (
            ControlModel { sessions: removed(m.sessions, session_stale(session, now)), ..m },
            Err(AccessFault::Unauthorized),
        ),
    }
}

impl ProjectAccess {
    /// No user, no project.
    pub fn new() -> (r: ProjectAccess)
        ensures
            r@ == (ControlModel {
                users: Seq::empty(),
                organizations: Seq::empty(),
                members: Seq::empty(),
                projects: Seq::empty(),
                sessions: Seq::empty(),
                keys: Seq::empty(),
            }),
    {
        let r = ProjectAccess {
            users: Vec::new(),
            organizations: Vec::new(),
            members: Vec::new(),
            projects: Vec::new(),
            sessions: Vec::new(),
            keys: Vec::new(),
        };
        assert(r@.users =~= Seq::<UserRowModel>::empty());
        assert(r@.organizations =~= Seq::<OrganizationRowModel>::empty());
        assert(r@.members =~= Seq::<MemberRowModel>::empty());
        assert(r@.projects =~= Seq::<ProjectRowModel>::empty());
        assert(r@.sessions =~= Seq::<SessionRowModel>::empty());
        assert(r@.keys =~= Seq::<KeyRowModel>::empty());
        r
    }

    /// Whether there is no user yet.
    pub fn setup_required(&self) -> (r: bool)
        ensures
            r == (self@.users.len() == 0),
    {
        self.users.len() == 0
    }

    /// What a user sees.
    pub fn workspace(&self, user_id: &str) -> (r: Result<Workspace, AccessError>)
        ensures
            outcome(r) == workspace_of(self@, user_id@),
    {
        let user = match find(&self.users, &UserById { id: user_id }) {
            Some(i) => User {
                id: self.users[i].id.clone(),
                email: self.users[i].email.clone(),
                name: self.users[i].name.clone(),
            },
            None => {
                return Err(AccessError::Unauthorized);
            },
        };
        let rows = select_sorted(
            &self.organizations,
            &JoinedBy { members: &self.members, user: user_id },
            &OrganizationOrder,
        );
        let ghost all = views(rows@);
        let ghost seen = all.map_values(
            |o: OrganizationRowModel| organization_seen(self@, o, user_id@),
        );
        let mut organizations: Vec<Organization> = Vec::new();
        let mut i: usize = 0;
        while i < rows.len()
            invariant
                i <= rows.len(),
                all == views(rows@),
                all == sorted(
                    selected(self@.organizations, joined_by(self@.members, user_id@)),
                    organization_order(),
                ),
                organizations@.len() == i,
                forall|j: int|
                    0 <= j < i ==> (#[trigger] organizations@[j])@ == organization_seen(
                        self@,
                        all[j],
                        user_id@,
                    ),
            decreases rows.len() - i,
        {
            assert(all[i as int] == rows@[i as int]@);
            proof {
                let chosen = selected(self@.organizations, joined_by(self@.members, user_id@));
                lemma_sorted(chosen, organization_order(), all[i as int]);
                assert(all.contains(all[i as int]));
                lemma_selected(
                    self@.organizations,
                    joined_by(self@.members, user_id@),
                    all[i as int],
                );
            }
            let role = match find(
                &self.members,
                &MemberOf { organization: rows[i].id.as_str(), user: user_id },
            ) {
                Some(k) => self.members[k].role,
                None => Role::Member,
            };
            let projects = self.projects_seen(rows[i].id.as_str());
            organizations.push(
                Organization {
                    id: rows[i].id.clone(),
                    name: rows[i].name.clone(),
                    role,
                    projects,
                },
            );
            i += 1;
        }
        assert(views(organizations@) =~= seen);
        Ok(Workspace { user, organizations })
    }

    fn projects_seen(&self, organization: &str) -> (r: Vec<Project>)
        ensures
            views(r@) == sorted(
                selected(self@.projects, project_in(organization@)),
                project_order(),
            ).map_values(|p: ProjectRowModel| project_seen(p)),
    {
        let rows = select_sorted(&self.projects, &ProjectIn { organization }, &ProjectOrder);
        let mut out: Vec<Project> = Vec::new();
        let mut i: usize = 0;
        while i < rows.len()
            invariant
                i <= rows.len(),
                out@.len() == i,
                forall|j: int| 0 <= j < i ==> (#[trigger] out@[j])@ == project_seen(rows@[j]@),
            decreases rows.len() - i,
        {
            out.push(
                Project {
                    id: rows[i].id.clone(),
                    name: rows[i].name.clone(),
                    token: rows[i].capture_token.clone(),
                },
            );
            i += 1;
        }
        assert(views(out@) =~= views(rows@).map_values(|p: ProjectRowModel| project_seen(p)));
        out
    }

    fn own_imported(&mut self, user_id: &str)
        ensures
            final(self)@ == (ControlModel {
                members: imported_owned(old(self)@.organizations, old(self)@.members, user_id@),
                ..old(self)@
            }),
    {
        let ghost all = self@.organizations;
        let ghost start = self@.members;
        let mut i: usize = 0;
        assert(all.take(0) =~= Seq::<OrganizationRowModel>::empty());
        while i < self.organizations.len()
            invariant
                i <= self.organizations.len(),
                all == self@.organizations,
                start == old(self)@.members,
                self@ == (ControlModel {
                    members: imported_owned(all.take(i as int), start, user_id@),
                    ..old(self)@
                }),
            decreases self.organizations.len() - i,
        {
            assert(all.take(i + 1).drop_last() =~= all.take(i as int));
            assert(all.take(i + 1).last() == self.organizations@[i as int]@);
            if self.organizations[i].imported && find(
                &self.members,
                &MemberOf { organization: self.organizations[i].id.as_str(), user: user_id },
            ).is_none() {
                let organization_id = self.organizations[i].id.clone();
                append(
                    &mut self.members,
                    MemberRow { organization_id, user_id: user_id.to_owned(), role: Role::Owner },
                );
            }
            i += 1;
        }
        assert(all.take(all.len() as int) =~= all);
    }

    fn add_session(&mut self, session_id: &str, user_id: &str, now: i64)
        requires
            now <= i64::MAX - SESSION_TTL_SECONDS,
        ensures
            final(self)@ == session_added(old(self)@, session_id@, user_id@, now),
    {
        append(
            &mut self.sessions,
            SessionRow {
                id: session_id.to_owned(),
                user_id: user_id.to_owned(),
                created_at: now,
                expires_at: now + SESSION_TTL_SECONDS,
            },
        );
    }

    fn check_new(
        &self,
        organization: &str,
        project: &str,
        token: &str,
    ) -> (r: Result<(), AccessError>)
        ensures
            match r {
                Ok(()) => !holds_somewhere(self@.organizations, organization_is(organization@))
                    && !holds_somewhere(self@.projects, project_is(project@)) && !holds_somewhere(
                    self@.projects,
                    token_is(token@),
                ),
                Err(e) => e@ == (if holds_somewhere(
                    self@.organizations,
                    organization_is(organization@),
                ) {
                    taken("organizations.id"@)
                } else if holds_somewhere(self@.projects, project_is(project@)) {
                    taken("projects.id"@)
                } else {
                    taken("projects.capture_token"@)
                }) && (holds_somewhere(self@.organizations, organization_is(organization@))
                    || holds_somewhere(self@.projects, project_is(project@)) || holds_somewhere(
                    self@.projects,
                    token_is(token@),
                )),
            },
    {
        if find(&self.organizations, &OrganizationById { id: organization }).is_some() {
            return Err(conflict("organizations.id"));
        }
        if find(&self.projects, &ProjectById { id: project }).is_some() {
            return Err(conflict("projects.id"));
        }
        if find(&self.projects, &ProjectByToken { token }).is_some() {
            return Err(conflict("projects.capture_token"));
        }
        Ok(())
    }

    fn add_owner(
        &mut self,
        request: &SetupRequest,
        created_at: i64,
        fresh: Fresh,
        hash: String,
    ) -> (r: Result<(), AccessError>)
        ensures
            match owner_added(old(self)@, *request, created_at, fresh, hash@) {
                Ok(next) => r is Ok && final(self)@ == next,
                Err(fault) => r matches Err(e) && e@ == fault && final(self)@ == old(self)@,
            },
    {
        let email = lower(trim(request.email.as_str()).as_str());
        let user_id = uuid_text(fresh.first);
        let user = UserRow {
            id: user_id.clone(),
            email: email.clone(),
            password_hash: hash,
            name: email,
            created_at,
        };
        let claimed = match &request.existing_project_token {
            Some(token) => find(&self.projects, &ProjectByToken { token: token.as_str() }),
            None => None,
        };
        match claimed {
            Some(i) => {
                let organization_id = self.projects[i].organization_id.clone();
                append(&mut self.users, user);
                append(
                    &mut self.members,
                    MemberRow { organization_id, user_id, role: Role::Owner },
                );
                Ok(())
            },
            None => {
                if request.existing_project_token.is_some() && self.projects.len() > 0 {
                    return Err(AccessError::NotFound);
                }
                let organization_id = uuid_text(fresh.third);
                let project_id = uuid_text(fresh.fourth);
                let token = match &request.existing_project_token {
                    Some(token) => token.clone(),
                    None => joined("phc_", simple_text(fresh.fifth).as_str()),
                };
                match self.check_new(
                    organization_id.as_str(),
                    project_id.as_str(),
                    token.as_str(),
                ) {
                    Ok(()) => {},
                    Err(e) => {
                        return Err(e);
                    },
                }
                append(&mut self.users, user);
                append(
                    &mut self.organizations,
                    OrganizationRow {
                        id: organization_id.clone(),
                        name: request.organization_name.clone(),
                        created_at,
                        imported: false,
                    },
                );
                append(
                    &mut self.members,
                    MemberRow {
                        organization_id: organization_id.clone(),
                        user_id,
                        role: Role::Owner,
                    },
                );
                append(
                    &mut self.projects,
                    ProjectRow {
                        id: project_id,
                        organization_id,
                        name: request.project_name.clone(),
                        capture_token: token,
                        created_at,
                        imported: false,
                    },
                );
                Ok(())
            },
        }
    }

    /// Creates the first user, given the password's hash and the numbers drawn.
    pub fn setup_with(
        &mut self,
        request: &SetupRequest,
        token_valid: bool,
        now: i64,
        created_at: i64,
        fresh: Fresh,
        hash: Option<String>,
    ) -> (r: Result<SetupResult, AccessError>)
        requires
            now <= i64::MAX - SESSION_TTL_SECONDS,
        ensures
            (final(self)@, outcome(r)) == setup_done(
                old(self)@,
                *request,
                token_valid,
                now,
                created_at,
                fresh,
                option_view(hash),
            ),
    {
        if request.existing_project_token.is_some() && !token_valid {
            return Err(AccessError::InvalidToken);
        }
        if validate_email(request.email.as_str()).is_err() || validate_password(
            request.password.as_str(),
        ).is_err() || validate_name(request.organization_name.as_str()).is_err() || validate_name(
            request.project_name.as_str(),
        ).is_err() {
            return Err(AccessError::InvalidRequest);
        }
        let hash = match hash {
            Some(hash) => hash,
            None => {
                return Err(AccessError::InvalidCredentials);
            },
        };
        if self.users.len() > 0 {
            return Err(AccessError::SetupComplete);
        }
        let user_id = uuid_text(fresh.first);
        let session_id = uuid_text(fresh.second);
        let session_taken = find(
            &self.sessions,
            &SessionById { id: session_id.as_str() },
        ).is_some();
        if session_taken {
            return self.setup_conflict(request, fresh);
        }
        match self.add_owner(request, created_at, fresh, hash) {
            Ok(()) => {},
            Err(e) => {
                return Err(e);
            },
        }
        self.own_imported(user_id.as_str());
        self.add_session(session_id.as_str(), user_id.as_str(), now);
        match self.workspace(user_id.as_str()) {
            Ok(workspace) => Ok(SetupResult { workspace, session_id }),
            Err(e) => Err(e),
        }
    }

    fn setup_conflict(&self, request: &SetupRequest, fresh: Fresh) -> (r: Result<
        SetupResult,
        AccessError,
    >)
        ensures
            forall|created_at: i64, hash: Seq<char>|
                match #[trigger] owner_added(self@, *request, created_at, fresh, hash) {
                    Ok(_) => r matches Err(e) && e@ == taken("auth_sessions.id"@),
                    Err(fault) => r matches Err(e) && e@ == fault,
                },
    {
        let claimed = match &request.existing_project_token {
            Some(token) => find(&self.projects, &ProjectByToken { token: token.as_str() }),
            None => None,
        };
        if claimed.is_none() {
            if request.existing_project_token.is_some() && self.projects.len() > 0 {
                return Err(AccessError::NotFound);
            }
            let organization_id = uuid_text(fresh.third);
            let project_id = uuid_text(fresh.fourth);
            let token = match &request.existing_project_token {
                Some(token) => token.clone(),
                None => joined("phc_", simple_text(fresh.fifth).as_str()),
            };
            match self.check_new(organization_id.as_str(), project_id.as_str(), token.as_str()) {
                Ok(()) => {},
                Err(e) => {
                    return Err(e);
                },
            }
        }
        Err(conflict("auth_sessions.id"))
    }

    /// Creates the first user.
    pub fn setup(&mut self, request: &SetupRequest, token_valid: bool, now: i64, created_at: i64) -> (r:
        Result<SetupResult, AccessError>)
        requires
            now <= i64::MAX - SESSION_TTL_SECONDS,
        ensures
            exists|fresh: Fresh, hash: Option<Seq<char>>|
                drawn(fresh) && hash_drawn(hash, request.password@) && (final(self)@, outcome(r))
                    == #[trigger] setup_done(
                    old(self)@,
                    *request,
                    token_valid,
                    now,
                    created_at,
                    fresh,
                    hash,
                ),
    {
        let hash = hash_password(request.password.as_str());
        let fresh = draw();
        let ghost view = option_view(hash);
        let r = self.setup_with(request, token_valid, now, created_at, fresh, hash);
        assert((self@, outcome(r)) == setup_done(
            old(self)@,
            *request,
            token_valid,
            now,
            created_at,
            fresh,
            view,
        ));
        r
    }

    /// Opens a session for a user, given the number drawn.
    pub fn login_with(&mut self, request: &LoginRequest, now: i64, fresh: Fresh) -> (r: Result<
        SetupResult,
        AccessError,
    >)
        requires
            now <= i64::MAX - SESSION_TTL_SECONDS,
        ensures
            (final(self)@, outcome(r)) == login_done(old(self)@, *request, now, fresh),
    {
        if validate_email(request.email.as_str()).is_err() || validate_password(
            request.password.as_str(),
        ).is_err() {
            return Err(AccessError::InvalidCredentials);
        }
        let email = lower(trim(request.email.as_str()).as_str());
        let user_id = match find(&self.users, &UserByEmail { email: email.as_str() }) {
            Some(i) => {
                if !verify_password(
                    self.users[i].password_hash.as_str(),
                    request.password.as_str(),
                ) {
                    return Err(AccessError::InvalidCredentials);
                }
                self.users[i].id.clone()
            },
            None => {
                return Err(AccessError::InvalidCredentials);
            },
        };
        let session_id = uuid_text(fresh.first);
        if self.live_session_taken(session_id.as_str(), now) {
            return Err(conflict("auth_sessions.id"));
        }
        remove(&mut self.sessions, &ExpiredSession { now });
        self.add_session(session_id.as_str(), user_id.as_str(), now);
        match self.workspace(user_id.as_str()) {
            Ok(workspace) => Ok(SetupResult { workspace, session_id }),
            Err(e) => Err(e),
        }
    }

    fn live_session_taken(&self, session_id: &str, now: i64) -> (r: bool)
        ensures
            r == holds_somewhere(
                removed(self@.sessions, session_expired(now)),
                session_is(session_id@),
            ),
    {
        let there = find(&self.sessions, &LiveSession { id: session_id, now });
        proof {
            let all = self@.sessions;
            let left = removed(all, session_expired(now));
            lemma_index_of(left, session_is(session_id@));
            lemma_index_of(all, session_live(session_id@, now));
            match there {
                Some(i) => {
                    lemma_removed(all, session_expired(now), all[i as int]);
                    assert(all.contains(all[i as int]));
                    let k = choose|k: int| 0 <= k < left.len() && left[k] == all[i as int];
                    assert(session_is(session_id@)(left[k]));
                },
                None => {
                    if let Some(k) = index_of(left, session_is(session_id@)) {
                        lemma_removed(all, session_expired(now), left[k]);
                        assert(left.contains(left[k]));
                        let i = choose|i: int| 0 <= i < all.len() && all[i] == left[k];
                        assert(session_live(session_id@, now)(all[i]));
                    }
                },
            }
        }
        there.is_some()
    }

    /// Opens a session for a user.
    pub fn login(&mut self, request: &LoginRequest, now: i64) -> (r: Result<
        SetupResult,
        AccessError,
    >)
        requires
            now <= i64::MAX - SESSION_TTL_SECONDS,
        ensures
            exists|fresh: Fresh|
                drawn(fresh) && (final(self)@, outcome(r)) == #[trigger] login_done(
                    old(self)@,
                    *request,
                    now,
                    fresh,
                ),
    {
        let fresh = draw();
        let r = self.login_with(request, now, fresh);
        assert((self@, outcome(r)) == login_done(old(self)@, *request, now, fresh));
        r
    }

    /// Closes a session.
    pub fn logout(&mut self, session_id: &str)
        ensures
            final(self)@ == removed_session(old(self)@, session_id@),
    {
        remove(&mut self.sessions, &SessionById { id: session_id });
    }

    /// Checks a session. One that has expired is dropped.
    pub fn validate_session(&mut self, session_id: &str, now: i64) -> (r: Result<
        Principal,
        AccessError,
    >)
        ensures
            (final(self)@, outcome(r)) == session_checked(old(self)@, session_id@, now),
    {
        match find(&self.sessions, &LiveSession { id: session_id, now }) {
            Some(i) => Ok(
                Principal {
                    user_id: self.sessions[i].user_id.clone(),
                    authentication: Authentication::Session,
                },
            ),
            None => {
                remove(&mut self.sessions, &StaleSession { id: session_id, now });
                Err(AccessError::Unauthorized)
            },
        }
    }
}

} // verus!
