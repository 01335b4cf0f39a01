//! Accounts: users, organizations, projects, sessions and personal keys, in one store.
use vstd::prelude::*;
use vstd::string::*;
use vstd::utf8::encode_utf8;

use crate::capture::event::uuid_version;
use crate::control::access::{
    draw, drawn, email_is, hash_is, hash_password, key_is, key_of, own_key, password_matches, session_is,
    session_live, user_is, verify_password, Fresh, KeyById, KeyOfUser, KeyRow, KeyRowModel,
    LiveSession, OwnKey, SessionById, SessionRow, SessionRowModel, UserByEmail, UserById, UserRow,
    UserRowModel,
};
use crate::control::grants::{prefix_of, secret_of};
use crate::digest::{sha256_hex, sha256_text, simple_text, simple_text_of, uuid_text, uuid_text_of};
use crate::order::{outcome, views};
use crate::rows::{
    append, find, found, holds_somewhere, lemma_index_is, lemma_index_none, lemma_index_of,
    lemma_removed, remove, removed, replace, select_sorted, selected, sorted, Query, Row, Sort,
};
use crate::text::{byte_len, first_chars, has_prefix, joined, same, starts_with};

verus! {

/// How long a session lives, in seconds.
pub const SESSION_TTL_SECONDS: i64 = 604_800;

// ── Types ─────────────────────────────────────────────────────────────────────

/// A user as others see them.
pub struct User {
    pub id: String,
    pub email: String,
    pub name: String,
}

/// The mathematical value of a [`User`].
pub struct UserModel {
    pub id: Seq<char>,
    pub email: Seq<char>,
    pub name: Seq<char>,
}

impl View for User {
    type V = UserModel;

    open spec fn view(&self) -> UserModel {
        UserModel {
            id: self.id@,
            email: self.email@,
            name: self.name@,
        }
    }
}

impl Row for User {
    fn duplicate(&self) -> (r: Self) {
        User {
            id: self.id.clone(),
            email: self.email.clone(),
            name: self.name.clone(),
        }
    }
}

/// An organization.
pub struct Org {
    pub id: String,
    pub name: String,
}

/// The mathematical value of a [`Org`].
pub struct OrgModel {
    pub id: Seq<char>,
    pub name: Seq<char>,
}

impl View for Org {
    type V = OrgModel;

    open spec fn view(&self) -> OrgModel {
        OrgModel {
            id: self.id@,
            name: self.name@,
        }
    }
}

impl Row for Org {
    fn duplicate(&self) -> (r: Self) {
        Org {
            id: self.id.clone(),
            name: self.name.clone(),
        }
    }
}

/// The membership of a user in an organization.
pub struct OrgMember {
    pub org_id: String,
    pub user_id: String,
    pub role: String,
}

/// The mathematical value of a [`OrgMember`].
pub struct OrgMemberModel {
    pub org_id: Seq<char>,
    pub user_id: Seq<char>,
    pub role: Seq<char>,
}

impl View for OrgMember {
    type V = OrgMemberModel;

    open spec fn view(&self) -> OrgMemberModel {
        OrgMemberModel {
            org_id: self.org_id@,
            user_id: self.user_id@,
            role: self.role@,
        }
    }
}

impl Row for OrgMember {
    fn duplicate(&self) -> (r: Self) {
        OrgMember {
            org_id: self.org_id.clone(),
            user_id: self.user_id.clone(),
            role: self.role.clone(),
        }
    }
}

/// A project with its capture token.
pub struct Project {
    pub id: String,
    pub org_id: String,
    pub name: String,
    pub token: String,
}

/// The mathematical value of a [`Project`].
pub struct ProjectModel {
    pub id: Seq<char>,
    pub org_id: Seq<char>,
    pub name: Seq<char>,
    pub token: Seq<char>,
}

impl View for Project {
    type V = ProjectModel;

    open spec fn view(&self) -> ProjectModel {
        ProjectModel {
            id: self.id@,
            org_id: self.org_id@,
            name: self.name@,
            token: self.token@,
        }
    }
}

impl Row for Project {
    fn duplicate(&self) -> (r: Self) {
        Project {
            id: self.id.clone(),
            org_id: self.org_id.clone(),
            name: self.name.clone(),
            token: self.token.clone(),
        }
    }
}

/// A personal key without its secret.
pub struct PersonalApiKey {
    pub id: String,
    pub name: String,
    pub key_prefix: String,
    pub last_used: Option<i64>,
    pub created_at: i64,
}

/// The mathematical value of a [`PersonalApiKey`].
pub struct PersonalKeyModel {
    pub id: Seq<char>,
    pub name: Seq<char>,
    pub key_prefix: Seq<char>,
    pub last_used: Option<i64>,
    pub created_at: i64,
}

impl View for PersonalApiKey {
    type V = PersonalKeyModel;

    open spec fn view(&self) -> PersonalKeyModel {
        PersonalKeyModel {
            id: self.id@,
            name: self.name@,
            key_prefix: self.key_prefix@,
            last_used: self.last_used,
            created_at: self.created_at,
        }
    }
}

impl Row for PersonalApiKey {
    fn duplicate(&self) -> (r: Self) {
        PersonalApiKey {
            id: self.id.clone(),
            name: self.name.clone(),
            key_prefix: self.key_prefix.clone(),
            last_used: self.last_used,
            created_at: self.created_at,
        }
    }
}

/// A session.
pub struct Session {
    pub id: String,
    pub user_id: String,
    pub expires_at: i64,
}

/// The mathematical value of a [`Session`].
pub struct SessionModel {
    pub id: Seq<char>,
    pub user_id: Seq<char>,
    pub expires_at: i64,
}

impl View for Session {
    type V = SessionModel;

    open spec fn view(&self) -> SessionModel {
        SessionModel {
            id: self.id@,
            user_id: self.user_id@,
            expires_at: self.expires_at,
        }
    }
}

impl Row for Session {
    fn duplicate(&self) -> (r: Self) {
        Session {
            id: self.id.clone(),
            user_id: self.user_id.clone(),
            expires_at: self.expires_at,
        }
    }
}

/// Who is asking: the user, if there is one, and their organizations.
pub struct MeResponse {
    pub user: Option<User>,
    pub orgs: Vec<Org>,
}

/// Why a request fails.
#[derive(Debug)]
pub enum AuthError {
    Db(String),
    InvalidPassword,
    UserNotFound,
    EmailTaken,
    Unauthorized,
    NotFound,
    Forbidden,
}

/// The mathematical value of an [`AuthError`].
pub enum AuthFault {
    Db(Seq<char>),
    InvalidPassword,
    UserNotFound,
    EmailTaken,
    Unauthorized,
    NotFound,
    Forbidden,
}

impl View for AuthError {
    type V = AuthFault;

    open spec fn view(&self) -> AuthFault {
        match self {
            AuthError::Db(s) => AuthFault::Db(s@),
            AuthError::InvalidPassword => AuthFault::InvalidPassword,
            AuthError::UserNotFound => AuthFault::UserNotFound,
            AuthError::EmailTaken => AuthFault::EmailTaken,
            AuthError::Unauthorized => AuthFault::Unauthorized,
            AuthError::NotFound => AuthFault::NotFound,
            AuthError::Forbidden => AuthFault::Forbidden,
        }
    }
}

/// The conflict of a new row with one that is there.
pub open spec fn taken(columns: Seq<char>) -> AuthFault {
    AuthFault::Db("UNIQUE constraint failed: "@ + columns)
}

fn conflict(columns: &str) -> (r: AuthError)
    ensures
        r@ == taken(columns@),
{
    AuthError::Db(joined("UNIQUE constraint failed: ", columns))
}

/// The fault of a row that names something that is not there.
pub open spec fn dangling() -> AuthFault {
    AuthFault::Db("FOREIGN KEY constraint failed"@)
}

fn dangling_error() -> (r: AuthError)
    ensures
        r@ == dangling(),
{
    AuthError::Db("FOREIGN KEY constraint failed".to_owned())
}

// ── Rows ──────────────────────────────────────────────────────────────────────

/// A stored organization.
pub struct OrgRow {
    pub id: String,
    pub name: String,
    pub created_at: i64,
}

/// The mathematical value of a [`OrgRow`].
pub struct OrgRowModel {
    pub id: Seq<char>,
    pub name: Seq<char>,
    pub created_at: i64,
}

impl View for OrgRow {
    type V = OrgRowModel;

    open spec fn view(&self) -> OrgRowModel {
        OrgRowModel {
            id: self.id@,
            name: self.name@,
            created_at: self.created_at,
        }
    }
}

impl Row for OrgRow {
    fn duplicate(&self) -> (r: Self) {
        OrgRow {
            id: self.id.clone(),
            name: self.name.clone(),
            created_at: self.created_at,
        }
    }
}

/// A stored project.
pub struct OwnedProjectRow {
    pub id: String,
    pub org_id: String,
    pub name: String,
    pub token: String,
    pub created_at: i64,
}

/// The mathematical value of a [`OwnedProjectRow`].
pub struct OwnedProjectModel {
    pub id: Seq<char>,
    pub org_id: Seq<char>,
    pub name: Seq<char>,
    pub token: Seq<char>,
    pub created_at: i64,
}

impl View for OwnedProjectRow {
    type V = OwnedProjectModel;

    open spec fn view(&self) -> OwnedProjectModel {
        OwnedProjectModel {
            id: self.id@,
            org_id: self.org_id@,
            name: self.name@,
            token: self.token@,
            created_at: self.created_at,
        }
    }
}

impl Row for OwnedProjectRow {
    fn duplicate(&self) -> (r: Self) {
        OwnedProjectRow {
            id: self.id.clone(),
            org_id: self.org_id.clone(),
            name: self.name.clone(),
            token: self.token.clone(),
            created_at: self.created_at,
        }
    }
}

/// The organization with an id.
pub open spec fn org_is(id: Seq<char>) -> spec_fn(OrgRowModel) -> bool {
    |row: OrgRowModel| row.id == id
}

/// Tests [`org_is`].
pub struct OrgById<'a> {
    pub id: &'a str,
}

impl<'a> Query<OrgRow> for OrgById<'a> {
    open spec fn pred(&self) -> spec_fn(OrgRowModel) -> bool {
        org_is(self.id@)
    }

    fn test(&self, row: &OrgRow) -> (r: bool) {
        same(row.id.as_str(), self.id)
    }
}

/// The membership of a user in an organization.
pub open spec fn membership_is(org: Seq<char>, user: Seq<char>) -> spec_fn(OrgMemberModel) -> bool {
    |row: OrgMemberModel| row.org_id == org && row.user_id == user
}

/// Tests [`membership_is`].
pub struct MembershipOf<'a> {
    pub org: &'a str,
    pub user: &'a str,
}

impl<'a> Query<OrgMember> for MembershipOf<'a> {
    open spec fn pred(&self) -> spec_fn(OrgMemberModel) -> bool {
        membership_is(self.org@, self.user@)
    }

    fn test(&self, row: &OrgMember) -> (r: bool) {
        same(row.org_id.as_str(), self.org) && same(row.user_id.as_str(), self.user)
    }
}

/// The project with an id.
pub open spec fn owned_project_is(id: Seq<char>) -> spec_fn(OwnedProjectModel) -> bool {
    |row: OwnedProjectModel| row.id == id
}

/// Tests [`owned_project_is`].
pub struct OwnedProjectById<'a> {
    pub id: &'a str,
}

impl<'a> Query<OwnedProjectRow> for OwnedProjectById<'a> {
    open spec fn pred(&self) -> spec_fn(OwnedProjectModel) -> bool {
        owned_project_is(self.id@)
    }

    fn test(&self, row: &OwnedProjectRow) -> (r: bool) {
        same(row.id.as_str(), self.id)
    }
}

/// The project with a token.
pub open spec fn owned_token_is(token: Seq<char>) -> spec_fn(OwnedProjectModel) -> bool {
    |row: OwnedProjectModel| row.token == token
}

/// Tests [`owned_token_is`].
pub struct OwnedProjectByToken<'a> {
    pub token: &'a str,
}

impl<'a> Query<OwnedProjectRow> for OwnedProjectByToken<'a> {
    open spec fn pred(&self) -> spec_fn(OwnedProjectModel) -> bool {
        owned_token_is(self.token@)
    }

    fn test(&self, row: &OwnedProjectRow) -> (r: bool) {
        same(row.token.as_str(), self.token)
    }
}

/// The projects of an organization.
pub open spec fn owned_project_in(org: Seq<char>) -> spec_fn(OwnedProjectModel) -> bool {
    |row: OwnedProjectModel| row.org_id == org
}

/// Tests [`owned_project_in`].
pub struct OwnedProjectIn<'a> {
    pub org: &'a str,
}

impl<'a> Query<OwnedProjectRow> for OwnedProjectIn<'a> {
    open spec fn pred(&self) -> spec_fn(OwnedProjectModel) -> bool {
        owned_project_in(self.org@)
    }

    fn test(&self, row: &OwnedProjectRow) -> (r: bool) {
        same(row.org_id.as_str(), self.org)
    }
}

/// The organizations that a user is a member of.
pub open spec fn org_of(members: Seq<OrgMemberModel>, user: Seq<char>) -> spec_fn(OrgRowModel) -> bool {
    |row: OrgRowModel| holds_somewhere(members, membership_is(row.id, user))
}

/// Tests [`org_of`].
pub struct OrgOf<'a> {
    pub members: &'a Vec<OrgMember>,
    pub user: &'a str,
}

impl<'a> Query<OrgRow> for OrgOf<'a> {
    open spec fn pred(&self) -> spec_fn(OrgRowModel) -> bool {
        org_of(views(self.members@), self.user@)
    }

    fn test(&self, row: &OrgRow) -> (r: bool) {
        find(self.members, &MembershipOf { org: row.id.as_str(), user: self.user }).is_some()
    }
}

/// The keys with a digest whose user is there.
pub open spec fn owned_key(users: Seq<UserRowModel>, hash: Seq<char>) -> spec_fn(KeyRowModel) -> bool {
    |row: KeyRowModel| row.key_hash == hash && holds_somewhere(users, user_is(row.user_id))
}

/// Tests [`owned_key`].
pub struct OwnedKey<'a> {
    pub users: &'a Vec<UserRow>,
    pub hash: &'a str,
}

impl<'a> Query<KeyRow> for OwnedKey<'a> {
    open spec fn pred(&self) -> spec_fn(KeyRowModel) -> bool {
        owned_key(views(self.users@), self.hash@)
    }

    fn test(&self, row: &KeyRow) -> (r: bool) {
        same(row.key_hash.as_str(), self.hash) && find(
            self.users,
            &UserById { id: row.user_id.as_str() },
        ).is_some()
    }
}

/// Organizations by age.
pub open spec fn org_age() -> spec_fn(OrgRowModel, OrgRowModel) -> bool {
    |a: OrgRowModel, b: OrgRowModel| a.created_at < b.created_at
}

/// Decides [`org_age`].
pub struct OrgAge;

impl Sort<OrgRow> for OrgAge {
    open spec fn before(&self) -> spec_fn(OrgRowModel, OrgRowModel) -> bool {
        org_age()
    }

    fn is_before(&self, a: &OrgRow, b: &OrgRow) -> (r: bool) {
        a.created_at < b.created_at
    }
}

/// Projects by age.
pub open spec fn project_age() -> spec_fn(OwnedProjectModel, OwnedProjectModel) -> bool {
    |a: OwnedProjectModel, b: OwnedProjectModel| a.created_at < b.created_at
}

/// Decides [`project_age`].
pub struct ProjectAge;

impl Sort<OwnedProjectRow> for ProjectAge {
    open spec fn before(&self) -> spec_fn(OwnedProjectModel, OwnedProjectModel) -> bool {
        project_age()
    }

    fn is_before(&self, a: &OwnedProjectRow, b: &OwnedProjectRow) -> (r: bool) {
        a.created_at < b.created_at
    }
}

/// Keys, the newest first.
pub open spec fn newest_key() -> spec_fn(KeyRowModel, KeyRowModel) -> bool {
    |a: KeyRowModel, b: KeyRowModel| a.created_at > b.created_at
}

/// Decides [`newest_key`].
pub struct NewestKey;

impl Sort<KeyRow> for NewestKey {
    open spec fn before(&self) -> spec_fn(KeyRowModel, KeyRowModel) -> bool {
        newest_key()
    }

    fn is_before(&self, a: &KeyRow, b: &KeyRow) -> (r: bool) {
        a.created_at > b.created_at
    }
}

/// The store of accounts.
pub struct AuthStore {
    pub users: Vec<UserRow>,
    pub orgs: Vec<OrgRow>,
    pub members: Vec<OrgMember>,
    pub projects: Vec<OwnedProjectRow>,
    pub keys: Vec<KeyRow>,
    pub sessions: Vec<SessionRow>,
}

/// The mathematical value of the store.
pub struct AuthModel {
    pub users: Seq<UserRowModel>,
    pub orgs: Seq<OrgRowModel>,
    pub members: Seq<OrgMemberModel>,
    pub projects: Seq<OwnedProjectModel>,
    pub keys: Seq<KeyRowModel>,
    pub sessions: Seq<SessionRowModel>,
}

impl View for AuthStore {
    type V = AuthModel;

    open spec fn view(&self) -> AuthModel {
        AuthModel {
            users: views(self.users@),
            orgs: views(self.orgs@),
            members: views(self.members@),
            projects: views(self.projects@),
            keys: views(self.keys@),
            sessions: views(self.sessions@),
        }
    }
}

// ── What requests lead to ─────────────────────────────────────────────────────

/// A user as others see them.
pub open spec fn user_seen(row: UserRowModel) -> UserModel {
    UserModel { id: row.id, email: row.email, name: row.name }
}

/// A key without its secret.
pub open spec fn key_seen(row: KeyRowModel) -> PersonalKeyModel {
    PersonalKeyModel {
        id: row.id,
        name: row.name,
        key_prefix: row.key_prefix,
        last_used: row.last_used,
        created_at: row.created_at,
    }
}

/// A project as its organization sees it.
pub open spec fn owned_seen(row: OwnedProjectModel) -> ProjectModel {
    ProjectModel { id: row.id, org_id: row.org_id, name: row.name, token: row.token }
}

/// An organization without its age.
pub open spec fn org_seen(row: OrgRowModel) -> OrgModel {
    OrgModel { id: row.id, name: row.name }
}

/// The capture token of a number drawn.
pub open spec fn capture_token_of(number: u128) -> Seq<char> {
    "phc_"@ + simple_text_of(number)
}

/// The store with a project, or the conflict that keeps it out.
pub open spec fn project_added(m: AuthModel, row: OwnedProjectModel) -> Result<AuthModel, AuthFault> {
    if holds_somewhere(m.projects, owned_project_is(row.id)) {
        Err(taken("projects.id"@))
    } else if holds_somewhere(m.projects, owned_token_is(row.token)) {
        Err(taken("projects.token"@))
    } else if !holds_somewhere(m.orgs, org_is(row.org_id)) {
        Err(dangling())
    } else {
        Ok(AuthModel { projects: m.projects.push(row), ..m })
    }
}

/// The store with the owner of an organization, or the conflict that keeps them out.
pub open spec fn owner_added(m: AuthModel, org: Seq<char>, user: Seq<char>) -> Result<
    AuthModel,
    AuthFault,
> {
    if holds_somewhere(m.members, membership_is(org, user)) {
        Err(taken("org_members.org_id, org_members.user_id"@))
    } else if !holds_somewhere(m.orgs, org_is(org)) || !holds_somewhere(m.users, user_is(user)) {
        Err(dangling())
    } else {
        Ok(
            AuthModel {
                members: m.members.push(
                    OrgMemberModel { org_id: org, user_id: user, role: "owner"@ },
                ),
                ..m
            },
        )
    }
}

/// What making an organization leads to. One that could not get its owner stays.
pub open spec fn org_made(
    m: AuthModel,
    user: Seq<char>,
    name: Seq<char>,
    now: i64,
    id: Seq<char>,
) -> (AuthModel, Result<OrgModel, AuthFault>) {
    if holds_somewhere(m.orgs, org_is(id)) {
        (m, Err(taken("orgs.id"@)))
    } else {
        let with_org = AuthModel {
            orgs: m.orgs.push(OrgRowModel { id, name, created_at: now }),
            ..m
        };
        match owner_added(with_org, id, user) {
            Ok(next) => (next, Ok(OrgModel { id, name })),
            Err(fault) => (with_org, Err(fault)),
        }
    }
}

/// What the first setup leads to, given the numbers drawn and the hash of the password.
pub open spec fn setup_led(
    m: AuthModel,
    email: Seq<char>,
    org_name: Seq<char>,
    now: i64,
    fresh: Fresh,
    hash: Seq<char>,
) -> (AuthModel, Result<(UserModel, OrgModel, ProjectModel), AuthFault>) {
    if m.users.len() > 0 {
        (m, Err(AuthFault::Forbidden))
    } else {
        let user = UserRowModel {
            id: uuid_text_of(fresh.first),
            email,
            password_hash: hash,
            name: email,
            created_at: now,
        };
        let with_user = AuthModel { users: m.users.push(user), ..m };
        let (with_org, org) = org_made(with_user, user.id, org_name, now, uuid_text_of(fresh.second));
        match org {
            Err(fault) => (with_org, Err(fault)),
            Ok(org) => {
                let project = OwnedProjectModel {
                    id: uuid_text_of(fresh.third),
                    org_id: org.id,
                    name: "Default"@,
                    token: capture_token_of(fresh.fourth),
                    created_at: now,
                };
                match project_added(with_org, project) {
                    Err(fault) => (with_org, Err(fault)),
                    Ok(next) => (next, Ok((user_seen(user), org, owned_seen(project)))),
                }
            },
        }
    }
}

/// What a login leads to, given the number drawn for the session.
pub open spec fn login_led(
    m: AuthModel,
    email: Seq<char>,
    password: Seq<char>,
    now: i64,
    number: u128,
) -> (AuthModel, Result<(UserModel, Seq<char>), AuthFault>) {
    match found(m.users, email_is(email)) {
        None => (m, Err(AuthFault::InvalidPassword)),
        Some(user) => if !password_matches(user.password_hash, password) {
            (m, Err(AuthFault::InvalidPassword))
        } else {
            let session = uuid_text_of(number);
            if holds_somewhere(m.sessions, session_is(session)) {
                (m, Err(taken("sessions.id"@)))
            } else if !holds_somewhere(m.users, user_is(user.id)) {
                (m, Err(dangling()))
            } else {
                (
                    AuthModel {
                        sessions: m.sessions.push(
                            SessionRowModel {
                                id: session,
                                user_id: user.id,
                                created_at: now,
                                expires_at: (now + SESSION_TTL_SECONDS) as i64,
                            },
                        ),
                        ..m
                    },
                    Ok((user_seen(user), session)),
                )
            }
        },
    }
}

/// Whose session it is, if it has not expired.
pub open spec fn session_user(m: AuthModel, session: Seq<char>, now: i64) -> Result<
    UserModel,
    AuthFault,
> {
    match found(m.sessions, session_live(session, now)) {
        None => Err(AuthFault::Unauthorized),
        Some(row) => match found(m.users, user_is(row.user_id)) {
            None => Err(AuthFault::Unauthorized),
            Some(user) => Ok(user_seen(user)),
        },
    }
}

/// What making a personal key leads to, given the numbers drawn.
pub open spec fn key_led(m: AuthModel, user: Seq<char>, name: Seq<char>, now: i64, fresh: Fresh) -> (
    AuthModel,
    Result<(PersonalKeyModel, Seq<char>), AuthFault>,
) {
    let secret = secret_of(fresh.first);
    let row = KeyRowModel {
        id: uuid_text_of(fresh.second),
        user_id: user,
        name,
        key_hash: sha256_text(encode_utf8(secret)),
        key_prefix: prefix_of(secret),
        last_used: None,
        created_at: now,
    };
    if holds_somewhere(m.keys, key_is(row.id)) {
        (m, Err(taken("personal_api_keys.id"@)))
    } else if !holds_somewhere(m.users, user_is(user)) {
        (m, Err(dangling()))
    } else {
        (AuthModel { keys: m.keys.push(row), ..m }, Ok((key_seen(row), secret)))
    }
}

/// Whether a text has the form of a secret.
pub open spec fn secret_shape(secret: Seq<char>) -> bool {
    has_prefix(secret, "phx_"@) && encode_utf8(secret).len() >= 20
}

/// A key that was used now, if it has a digest.
pub open spec fn key_marked(row: KeyRowModel, hash: Seq<char>, now: i64) -> KeyRowModel {
    if row.key_hash == hash {
        KeyRowModel { last_used: Some(now), ..row }
    } else {
        row
    }
}

/// The keys once those with a digest were used.
pub open spec fn keys_marked(keys: Seq<KeyRowModel>, hash: Seq<char>, now: i64) -> Seq<KeyRowModel> {
    keys.map_values(|row: KeyRowModel| key_marked(row, hash, now))
}

/// Whose secret it is.
pub open spec fn secret_led(m: AuthModel, secret: Seq<char>, now: i64) -> (
    AuthModel,
    Result<UserModel, AuthFault>,
) {
    if !secret_shape(secret) {
        (m, Err(AuthFault::Unauthorized))
    } else {
        let hash = sha256_text(encode_utf8(secret));
        let next = AuthModel { keys: keys_marked(m.keys, hash, now), ..m };
        match found(next.keys, owned_key(m.users, hash)) {
            None => (next, Err(AuthFault::Unauthorized)),
            Some(row) => (next, Ok(user_seen(found(m.users, user_is(row.user_id))->Some_0))),
        }
    }
}

/// What revoking a key leads to. A user revokes own keys only.
pub open spec fn key_revoked(m: AuthModel, user: Seq<char>, key: Seq<char>) -> (
    AuthModel,
    Result<(), AuthFault>,
) {
    if holds_somewhere(m.keys, own_key(key, user)) {
        (AuthModel { keys: removed(m.keys, own_key(key, user)), ..m }, Ok(()))
    } else {
        (m, Err(AuthFault::NotFound))
    }
}

// ── Store ─────────────────────────────────────────────────────────────────────

fn show_user(row: &UserRow) -> (r: User)
    ensures
        r@ == user_seen(row@),
{
    User { id: row.id.clone(), email: row.email.clone(), name: row.name.clone() }
}

/// The value of a setup.
pub open spec fn setup_view(r: Result<(User, Org, Project), AuthError>) -> Result<
    (UserModel, OrgModel, ProjectModel),
    AuthFault,
> {
    match r {
        Ok(x) => Ok((x.0@, x.1@, x.2@)),
        Err(e) => Err(e@),
    }
}

/// The value of a login.
pub open spec fn login_view(r: Result<(User, String), AuthError>) -> Result<
    (UserModel, Seq<char>),
    AuthFault,
> {
    match r {
        Ok(x) => Ok((x.0@, x.1@)),
        Err(e) => Err(e@),
    }
}

/// The value of a new key.
pub open spec fn key_view(r: Result<(PersonalApiKey, String), AuthError>) -> Result<
    (PersonalKeyModel, Seq<char>),
    AuthFault,
> {
    match r {
        Ok(x) => Ok((x.0@, x.1@)),
        Err(e) => Err(e@),
    }
}

impl AuthStore {
    /// An empty store.
    pub fn open_in_memory() -> (r: Result<AuthStore, AuthError>)
        ensures
            r matches Ok(store) && store@ == (AuthModel {
                users: Seq::empty(),
                orgs: Seq::empty(),
                members: Seq::empty(),
                projects: Seq::empty(),
                keys: Seq::empty(),
                sessions: Seq::empty(),
            }),
    {
        let store = AuthStore {
            users: Vec::new(),
            orgs: Vec::new(),
            members: Vec::new(),
            projects: Vec::new(),
            keys: Vec::new(),
            sessions: Vec::new(),
        };
        assert(store@.users =~= Seq::empty());
        assert(store@.orgs =~= Seq::empty());
        assert(store@.members =~= Seq::empty());
        assert(store@.projects =~= Seq::empty());
        assert(store@.keys =~= Seq::empty());
        assert(store@.sessions =~= Seq::empty());
        Ok(store)
    }

    /// Whether there is no user yet.
    pub fn is_empty(&self) -> (r: Result<bool, AuthError>)
        ensures
            r == Ok::<bool, AuthError>(self@.users.len() == 0),
    {
        assert(self.users@.len() == views(self.users@).len());
        Ok(self.users.len() == 0)
    }

    fn add_project(&mut self, row: OwnedProjectRow) -> (r: Result<(), AuthError>)
        ensures
            match project_added(old(self)@, row@) {
                Ok(next) => r is Ok && final(self)@ == next,
                Err(fault) => r matches Err(e) && e@ == fault && final(self)@ == old(self)@,
            },
    {
        if find(&self.projects, &OwnedProjectById { id: row.id.as_str() }).is_some() {
            return Err(conflict("projects.id"));
        }
        if find(&self.projects, &OwnedProjectByToken { token: row.token.as_str() }).is_some() {
            return Err(conflict("projects.token"));
        }
        if find(&self.orgs, &OrgById { id: row.org_id.as_str() }).is_none() {
            return Err(dangling_error());
        }
        append(&mut self.projects, row);
        Ok(())
    }

    /// Makes an organization with its owner, given its id.
    pub fn create_org_with(&mut self, user_id: &str, name: &str, now: i64, id: &str) -> (r: Result<
        Org,
        AuthError,
    >)
        ensures
            (final(self)@, outcome(r)) == org_made(old(self)@, user_id@, name@, now, id@),
    {
        if find(&self.orgs, &OrgById { id }).is_some() {
            return Err(conflict("orgs.id"));
        }
        append(
            &mut self.orgs,
            OrgRow { id: id.to_owned(), name: name.to_owned(), created_at: now },
        );
        if find(&self.members, &MembershipOf { org: id, user: user_id }).is_some() {
            return Err(conflict("org_members.org_id, org_members.user_id"));
        }
        if find(&self.orgs, &OrgById { id }).is_none() || find(
            &self.users,
            &UserById { id: user_id },
        ).is_none() {
            return Err(dangling_error());
        }
        append(
            &mut self.members,
            OrgMember {
                org_id: id.to_owned(),
                user_id: user_id.to_owned(),
                role: "owner".to_owned(),
            },
        );
        Ok(Org { id: id.to_owned(), name: name.to_owned() })
    }

    /// Makes an organization; its maker owns it.
    pub fn create_org(&mut self, user_id: &str, name: &str, now: i64) -> (r: Result<Org, AuthError>)
        ensures
            exists|number: u128|
                uuid_version(number) == 4 && (final(self)@, outcome(r)) == org_made(
                    old(self)@,
                    user_id@,
                    name@,
                    now,
                    #[trigger] uuid_text_of(number),
                ),
    {
        let number: u128 = crate::digest::fresh_v4();
        let id = uuid_text(number);
        self.create_org_with(user_id, name, now, id.as_str())
    }

    /// Makes the first user, with an organization and a project, given the numbers drawn and the hash of
    /// the password.
    pub fn setup_with(
        &mut self,
        email: &str,
        org_name: &str,
        now: i64,
        fresh: Fresh,
        hash: &str,
    ) -> (r: Result<(User, Org, Project), AuthError>)
        ensures
            (final(self)@, setup_view(r)) == setup_led(
                old(self)@,
                email@,
                org_name@,
                now,
                fresh,
                hash@,
            ),
    {
        assert(self.users@.len() == views(self.users@).len());
        if self.users.len() > 0 {
            return Err(AuthError::Forbidden);
        }
        let user = UserRow {
            id: uuid_text(fresh.first),
            email: email.to_owned(),
            password_hash: hash.to_owned(),
            name: email.to_owned(),
            created_at: now,
        };
        let shown = show_user(&user);
        append(&mut self.users, user);
        let org_id = uuid_text(fresh.second);
        let org = match self.create_org_with(shown.id.as_str(), org_name, now, org_id.as_str()) {
            Ok(org) => org,
            Err(e) => {
                return Err(e);
            },
        };
        let id = uuid_text(fresh.third);
        let token = joined("phc_", simple_text(fresh.fourth).as_str());
        match self.add_project(
            OwnedProjectRow {
                id: id.clone(),
                org_id: org.id.clone(),
                name: "Default".to_owned(),
                token: token.clone(),
                created_at: now,
            },
        ) {
            Ok(()) => {
                let project = Project {
                    id,
                    org_id: org.id.clone(),
                    name: "Default".to_owned(),
                    token,
                };
                Ok((shown, org, project))
            },
            Err(e) => Err(e),
        }
    }

    /// Makes the first user, with an organization and a project.
    pub fn setup(&mut self, email: &str, password: &str, org_name: &str, now: i64) -> (r: Result<
        (User, Org, Project),
        AuthError,
    >)
        requires
            encode_utf8(password@).len() <= 0xffff_ffff,
        ensures
            exists|fresh: Fresh, hash: Seq<char>|
                drawn(fresh) && password_matches(hash, password@) && (final(self)@, setup_view(r))
                    == #[trigger] setup_led(old(self)@, email@, org_name@, now, fresh, hash),
    {
        let fresh = draw();
        let hash = match hash_password(password) {
            Some(hash) => hash,
            None => String::new(),
        };
        self.setup_with(email, org_name, now, fresh, hash.as_str())
    }

    /// Opens a session for a user, given the number drawn.
    pub fn login_with(&mut self, email: &str, password: &str, now: i64, number: u128) -> (r: Result<
        (User, String),
        AuthError,
    >)
        requires
            now <= i64::MAX - SESSION_TTL_SECONDS,
        ensures
            (final(self)@, login_view(r)) == login_led(
                old(self)@,
                email@,
                password@,
                now,
                number,
            ),
    {
        let i: usize = match find(&self.users, &UserByEmail { email }) {
            Some(i) => i,
            None => {
                return Err(AuthError::InvalidPassword);
            },
        };
        if !verify_password(self.users[i].password_hash.as_str(), password) {
            return Err(AuthError::InvalidPassword);
        }
        let user = show_user(&self.users[i]);
        let session = uuid_text(number);
        if find(&self.sessions, &SessionById { id: session.as_str() }).is_some() {
            return Err(conflict("sessions.id"));
        }
        if find(&self.users, &UserById { id: user.id.as_str() }).is_none() {
            return Err(dangling_error());
        }
        append(
            &mut self.sessions,
            SessionRow {
                id: session.clone(),
                user_id: user.id.clone(),
                created_at: now,
                expires_at: now + SESSION_TTL_SECONDS,
            },
        );
        Ok((user, session))
    }

    /// Opens a session for a user.
    pub fn login(&mut self, email: &str, password: &str, now: i64) -> (r: Result<
        (User, String),
        AuthError,
    >)
        requires
            now <= i64::MAX - SESSION_TTL_SECONDS,
        ensures
            exists|number: u128|
                uuid_version(number) == 4 && (final(self)@, login_view(r)) == #[trigger] login_led(
                    old(self)@,
                    email@,
                    password@,
                    now,
                    number,
                ),
    {
        let number: u128 = crate::digest::fresh_v4();
        self.login_with(email, password, now, number)
    }

    /// Whose session it is, if it has not expired.
    pub fn validate_session(&self, session_id: &str, now: i64) -> (r: Result<User, AuthError>)
        ensures
            outcome(r) == session_user(self@, session_id@, now),
    {
        let i: usize = match find(&self.sessions, &LiveSession { id: session_id, now }) {
            Some(i) => i,
            None => {
                return Err(AuthError::Unauthorized);
            },
        };
        match find(&self.users, &UserById { id: self.sessions[i].user_id.as_str() }) {
            Some(k) => Ok(show_user(&self.users[k])),
            None => Err(AuthError::Unauthorized),
        }
    }

    /// Closes a session.
    pub fn logout(&mut self, session_id: &str) -> (r: Result<(), AuthError>)
        ensures
            r is Ok,
            final(self)@ == (AuthModel {
                sessions: removed(old(self)@.sessions, session_is(session_id@)),
                ..old(self)@
            }),
    {
        remove(&mut self.sessions, &SessionById { id: session_id });
        Ok(())
    }

    /// Makes a personal key, given the numbers drawn.
    pub fn create_api_key_with(&mut self, user_id: &str, name: &str, now: i64, fresh: Fresh) -> (r:
        Result<(PersonalApiKey, String), AuthError>)
        ensures
            (final(self)@, key_view(r)) == key_led(old(self)@, user_id@, name@, now, fresh),
    {
        let secret = joined("phx_", simple_text(fresh.first).as_str());
        let key_prefix = first_chars(secret.as_str(), 12);
        let id = uuid_text(fresh.second);
        if find(&self.keys, &KeyById { id: id.as_str() }).is_some() {
            return Err(conflict("personal_api_keys.id"));
        }
        if find(&self.users, &UserById { id: user_id }).is_none() {
            return Err(dangling_error());
        }
        let key = PersonalApiKey {
            id: id.clone(),
            name: name.to_owned(),
            key_prefix: key_prefix.clone(),
            last_used: None,
            created_at: now,
        };
        append(
            &mut self.keys,
            KeyRow {
                id,
                user_id: user_id.to_owned(),
                name: name.to_owned(),
                key_hash: sha256_hex(secret.as_str().as_bytes()),
                key_prefix,
                last_used: None,
                created_at: now,
            },
        );
        Ok((key, secret))
    }

    /// Makes a personal key. Its secret is shown this once.
    pub fn create_api_key(&mut self, user_id: &str, name: &str, now: i64) -> (r: Result<
        (PersonalApiKey, String),
        AuthError,
    >)
        ensures
            exists|fresh: Fresh|
                drawn(fresh) && (final(self)@, key_view(r)) == #[trigger] key_led(
                    old(self)@,
                    user_id@,
                    name@,
                    now,
                    fresh,
                ),
    {
        let fresh = draw();
        self.create_api_key_with(user_id, name, now, fresh)
    }

    fn mark_keys(&mut self, hash: &str, now: i64)
        ensures
            final(self)@ == (AuthModel {
                keys: keys_marked(old(self)@.keys, hash@, now),
                ..old(self)@
            }),
    {
        let ghost before = self@.keys;
        let ghost after = keys_marked(before, hash@, now);
        let mut i: usize = 0;
        assert(self@.keys.len() == self.keys@.len());
        while i < self.keys.len()
            invariant
                i <= self.keys.len(),
                before == old(self)@.keys,
                after == keys_marked(before, hash@, now),
                self@.keys.len() == before.len(),
                self@ == (AuthModel { keys: self@.keys, ..old(self)@ }),
                forall|j: int| 0 <= j < i ==> #[trigger] self@.keys[j] == after[j],
                forall|j: int| i <= j < before.len() ==> #[trigger] self@.keys[j] == before[j],
            decreases self.keys.len() - i,
        {
            assert(self@.keys[i as int] == self.keys@[i as int]@);
            if same(self.keys[i].key_hash.as_str(), hash) {
                let mut row = self.keys[i].duplicate();
                row.last_used = Some(now);
                replace(&mut self.keys, i, row);
            }
            i += 1;
            assert(self@.keys.len() == self.keys@.len());
        }
        assert(self@.keys =~= after);
    }

    /// Whose secret it is. The key is marked as used.
    pub fn validate_api_key(&mut self, key: &str, now: i64) -> (r: Result<User, AuthError>)
        ensures
            (final(self)@, outcome(r)) == secret_led(old(self)@, key@, now),
    {
        if !starts_with(key, "phx_") || byte_len(key) < 20 {
            return Err(AuthError::Unauthorized);
        }
        let hash = sha256_hex(key.as_bytes());
        self.mark_keys(hash.as_str(), now);
        let i: usize = match find(
            &self.keys,
            &OwnedKey { users: &self.users, hash: hash.as_str() },
        ) {
            Some(i) => i,
            None => {
                return Err(AuthError::Unauthorized);
            },
        };
        match find(&self.users, &UserById { id: self.keys[i].user_id.as_str() }) {
            Some(k) => Ok(show_user(&self.users[k])),
            None => Err(AuthError::Unauthorized),
        }
    }

    /// The keys of a user, the newest first.
    pub fn list_api_keys(&self, user_id: &str) -> (r: Result<Vec<PersonalApiKey>, AuthError>)
        ensures
            r matches Ok(keys) && views(keys@) == sorted(
                selected(self@.keys, key_of(user_id@)),
                newest_key(),
            ).map_values(|row: KeyRowModel| key_seen(row)),
    {
        let rows = select_sorted(&self.keys, &KeyOfUser { user: user_id }, &NewestKey);
        let mut out: Vec<PersonalApiKey> = Vec::new();
        let mut i: usize = 0;
        while i < rows.len()
            invariant
                i <= rows.len(),
                out@.len() == i,
                forall|j: int| 0 <= j < i ==> (#[trigger] out@[j])@ == key_seen(rows@[j]@),
            decreases rows.len() - i,
        {
            out.push(
                PersonalApiKey {
                    id: rows[i].id.clone(),
                    name: rows[i].name.clone(),
                    key_prefix: rows[i].key_prefix.clone(),
                    last_used: rows[i].last_used,
                    created_at: rows[i].created_at,
                },
            );
            i += 1;
        }
        assert(views(out@) =~= views(rows@).map_values(|row: KeyRowModel| key_seen(row)));
        Ok(out)
    }

    /// Revokes a key of a user.
    pub fn revoke_api_key(&mut self, user_id: &str, key_id: &str) -> (r: Result<(), AuthError>)
        ensures
            match key_revoked(old(self)@, user_id@, key_id@) {
                (next, Ok(())) => r is Ok && final(self)@ == next,
                (next, Err(fault)) => r matches Err(e) && e@ == fault && final(self)@ == next,
            },
    {
        if find(&self.keys, &OwnKey { id: key_id, user: user_id }).is_none() {
            return Err(AuthError::NotFound);
        }
        remove(&mut self.keys, &OwnKey { id: key_id, user: user_id });
        Ok(())
    }

    /// The organizations of a user by age.
    pub fn list_orgs(&self, user_id: &str) -> (r: Result<Vec<Org>, AuthError>)
        ensures
            r matches Ok(orgs) && views(orgs@) == sorted(
                selected(self@.orgs, org_of(self@.members, user_id@)),
                org_age(),
            ).map_values(|row: OrgRowModel| org_seen(row)),
    {
        let rows = select_sorted(
            &self.orgs,
            &OrgOf { members: &self.members, user: user_id },
            &OrgAge,
        );
        let mut out: Vec<Org> = Vec::new();
        let mut i: usize = 0;
        while i < rows.len()
            invariant
                i <= rows.len(),
                out@.len() == i,
                forall|j: int| 0 <= j < i ==> (#[trigger] out@[j])@ == org_seen(rows@[j]@),
            decreases rows.len() - i,
        {
            out.push(Org { id: rows[i].id.clone(), name: rows[i].name.clone() });
            i += 1;
        }
        assert(views(out@) =~= views(rows@).map_values(|row: OrgRowModel| org_seen(row)));
        Ok(out)
    }

    /// The projects of an organization by age.
    pub fn list_projects(&self, org_id: &str) -> (r: Result<Vec<Project>, AuthError>)
        ensures
            r matches Ok(projects) && views(projects@) == sorted(
                selected(self@.projects, owned_project_in(org_id@)),
                project_age(),
            ).map_values(|row: OwnedProjectModel| owned_seen(row)),
    {
        let rows = select_sorted(&self.projects, &OwnedProjectIn { org: org_id }, &ProjectAge);
        let mut out: Vec<Project> = Vec::new();
        let mut i: usize = 0;
        while i < rows.len()
            invariant
                i <= rows.len(),
                out@.len() == i,
                forall|j: int| 0 <= j < i ==> (#[trigger] out@[j])@ == owned_seen(rows@[j]@),
            decreases rows.len() - i,
        {
            out.push(
                Project {
                    id: rows[i].id.clone(),
                    org_id: rows[i].org_id.clone(),
                    name: rows[i].name.clone(),
                    token: rows[i].token.clone(),
                },
            );
            i += 1;
        }
        assert(views(out@) =~= views(rows@).map_values(
            |row: OwnedProjectModel| owned_seen(row),
        ));
        Ok(out)
    }

    /// Makes a project, given the numbers drawn.
    pub fn create_project_with(&mut self, org_id: &str, name: &str, now: i64, fresh: Fresh) -> (r:
        Result<Project, AuthError>)
        ensures
            (final(self)@, outcome(r)) == project_led(old(self)@, org_id@, name@, now, fresh),
    {
        let id = uuid_text(fresh.first);
        let token = joined("phc_", simple_text(fresh.second).as_str());
        let project = Project {
            id: id.clone(),
            org_id: org_id.to_owned(),
            name: name.to_owned(),
            token: token.clone(),
        };
        match self.add_project(
            OwnedProjectRow {
                id,
                org_id: org_id.to_owned(),
                name: name.to_owned(),
                token,
                created_at: now,
            },
        ) {
            Ok(()) => Ok(project),
            Err(e) => Err(e),
        }
    }

    /// Makes a project.
    pub fn create_project(&mut self, org_id: &str, name: &str, now: i64) -> (r: Result<
        Project,
        AuthError,
    >)
        ensures
            exists|fresh: Fresh|
                drawn(fresh) && (final(self)@, outcome(r)) == #[trigger] project_led(
                    old(self)@,
                    org_id@,
                    name@,
                    now,
                    fresh,
                ),
    {
        let fresh = draw();
        self.create_project_with(org_id, name, now, fresh)
    }

    /// The role of a user in an organization.
    pub fn get_user_role(&self, user_id: &str, org_id: &str) -> (r: Result<String, AuthError>)
        ensures
            match found(self@.members, membership_is(org_id@, user_id@)) {
                Some(row) => r matches Ok(role) && role@ == row.role,
                None => r matches Err(e) && e@ == AuthFault::Forbidden,
            },
    {
        match find(&self.members, &MembershipOf { org: org_id, user: user_id }) {
            Some(i) => Ok(self.members[i].role.clone()),
            None => Err(AuthError::Forbidden),
        }
    }
}

/// What making a project leads to, given the numbers drawn.
pub open spec fn project_led(m: AuthModel, org: Seq<char>, name: Seq<char>, now: i64, fresh: Fresh) -> (
    AuthModel,
    Result<ProjectModel, AuthFault>,
) {
    let row = OwnedProjectModel {
        id: uuid_text_of(fresh.first),
        org_id: org,
        name,
        token: capture_token_of(fresh.second),
        created_at: now,
    };
    match project_added(m, row) {
        Ok(next) => (next, Ok(owned_seen(row))),
        Err(fault) => (m, Err(fault)),
    }
}

// ── Laws ──────────────────────────────────────────────────────────────────────

/// Setup works once: with a user there it is refused and changes nothing.
pub proof fn law_setup_happens_once(
    m: AuthModel,
    email: Seq<char>,
    org_name: Seq<char>,
    now: i64,
    fresh: Fresh,
    hash: Seq<char>,
)
    requires
        m.users.len() > 0,
    ensures
        setup_led(m, email, org_name, now, fresh, hash) == (
            m,
            Err::<(UserModel, OrgModel, ProjectModel), AuthFault>(AuthFault::Forbidden),
        ),
{
}

/// After setup there is a user, so that it does not work again.
pub proof fn law_setup_leaves_a_user(
    m: AuthModel,
    email: Seq<char>,
    org_name: Seq<char>,
    now: i64,
    fresh: Fresh,
    hash: Seq<char>,
)
    ensures
        setup_led(m, email, org_name, now, fresh, hash).0.users.len() > 0,
{
}

/// Whoever was set up logs in with the same email address and password.
pub proof fn law_setup_allows_login(
    m: AuthModel,
    email: Seq<char>,
    password: Seq<char>,
    org_name: Seq<char>,
    now: i64,
    fresh: Fresh,
    hash: Seq<char>,
    later: i64,
    number: u128,
)
    requires
        setup_led(m, email, org_name, now, fresh, hash).1 is Ok,
        password_matches(hash, password),
        !holds_somewhere(m.sessions, session_is(uuid_text_of(number))),
    ensures
        ({
            let (next, set) = setup_led(m, email, org_name, now, fresh, hash);
            login_led(next, email, password, later, number).1 == Ok::<
                (UserModel, Seq<char>),
                AuthFault,
            >((set->Ok_0.0, uuid_text_of(number)))
        }),
{
    let (next, _) = setup_led(m, email, org_name, now, fresh, hash);
    let user = UserRowModel {
        id: uuid_text_of(fresh.first),
        email,
        password_hash: hash,
        name: email,
        created_at: now,
    };
    assert(next.users =~= seq![user]);
    lemma_index_is(next.users, email_is(email), 0);
    lemma_index_is(next.users, user_is(user.id), 0);
}

/// A session lets its user in until it expires, and not from then on.
pub proof fn law_sessions_last_until_they_expire(
    m: AuthModel,
    email: Seq<char>,
    password: Seq<char>,
    now: i64,
    number: u128,
    later: i64,
)
    requires
        now <= i64::MAX - SESSION_TTL_SECONDS,
        login_led(m, email, password, now, number).1 is Ok,
    ensures
        ({
            let (next, opened) = login_led(m, email, password, now, number);
            later < now + SESSION_TTL_SECONDS ==> (session_user(
                next,
                uuid_text_of(number),
                later,
            ) matches Ok(user) && user.id == opened->Ok_0.0.id)
        }),
        later >= now + SESSION_TTL_SECONDS ==> session_user(
            login_led(m, email, password, now, number).0,
            uuid_text_of(number),
            later,
        ) == Err::<UserModel, AuthFault>(AuthFault::Unauthorized),
{
    let (next, opened) = login_led(m, email, password, now, number);
    let session = uuid_text_of(number);
    let p = session_live(session, later);
    lemma_index_of(m.sessions, session_is(session));
    assert(next.sessions.drop_last() =~= m.sessions);
    assert forall|j: int| 0 <= j < m.sessions.len() implies !p(#[trigger] next.sessions[j]) by {
        assert(!session_is(session)(m.sessions[j]));
        assert(next.sessions[j] == m.sessions[j]);
    }
    if later < now + SESSION_TTL_SECONDS {
        lemma_index_is(next.sessions, p, m.sessions.len() as int);
        lemma_index_of(m.users, user_is(opened->Ok_0.0.id));
    } else {
        lemma_index_none(next.sessions, p);
    }
}

/// A session that was closed lets no one in.
pub proof fn law_closed_sessions_are_refused(m: AuthModel, session: Seq<char>, now: i64)
    ensures
        session_user(
            (AuthModel { sessions: removed(m.sessions, session_is(session)), ..m }),
            session,
            now,
        ) == Err::<UserModel, AuthFault>(AuthFault::Unauthorized),
{
    let left = removed(m.sessions, session_is(session));
    assert forall|j: int| 0 <= j < left.len() implies !session_live(session, now)(
        #[trigger] left[j],
    ) by {
        lemma_removed(m.sessions, session_is(session), left[j]);
        assert(left.contains(left[j]));
    }
    lemma_index_none(left, session_live(session, now));
}

proof fn lemma_secret_shape(number: u128)
    ensures
        secret_shape(secret_of(number)),
{
    let digits = simple_text_of(number);
    let secret = secret_of(number);
    reveal_strlit("phx_");
    assert(secret.subrange(0, 4) =~= "phx_"@);
    assert(digits.len() == 32);
    assert forall|i: int| 0 <= i < secret.len() implies '\0' <= #[trigger] secret[i] <= '\u{7f}' by {
        if i >= 4 {
            assert(secret[i] == digits[i - 4]);
        }
    }
    assert(vstd::utf8::is_ascii_chars(secret));
    vstd::utf8::is_ascii_chars_encode_utf8(secret);
}

/// A key that was just made lets its owner in, if no key has its digest already.
pub proof fn law_new_keys_authenticate(
    m: AuthModel,
    user: Seq<char>,
    name: Seq<char>,
    now: i64,
    fresh: Fresh,
    later: i64,
)
    requires
        key_led(m, user, name, now, fresh).1 is Ok,
        !holds_somewhere(m.keys, hash_is(sha256_text(encode_utf8(secret_of(fresh.first))))),
    ensures
        secret_led(key_led(m, user, name, now, fresh).0, secret_of(fresh.first), later).1
            matches Ok(found_user) && found_user.id == user,
{
    let (next, _) = key_led(m, user, name, now, fresh);
    let hash = sha256_text(encode_utf8(secret_of(fresh.first)));
    lemma_secret_shape(fresh.first);
    let marked = keys_marked(next.keys, hash, later);
    let p = owned_key(next.users, hash);
    lemma_index_of(m.keys, hash_is(hash));
    lemma_index_of(m.users, user_is(user));
    let n = m.keys.len() as int;
    assert forall|j: int| 0 <= j < n implies !p(#[trigger] marked[j]) by {
        assert(next.keys[j] == m.keys[j]);
        assert(!hash_is(hash)(m.keys[j]));
    }
    assert(marked[n].user_id == user);
    lemma_index_is(marked, p, n);
}

/// A key that was revoked lets no one in, if no other key has its digest.
pub proof fn law_revoked_keys_are_refused(
    m: AuthModel,
    user: Seq<char>,
    name: Seq<char>,
    now: i64,
    fresh: Fresh,
    later: i64,
)
    requires
        key_led(m, user, name, now, fresh).1 is Ok,
        !holds_somewhere(m.keys, hash_is(sha256_text(encode_utf8(secret_of(fresh.first))))),
    ensures
        ({
            let (next, made) = key_led(m, user, name, now, fresh);
            secret_led(
                key_revoked(next, user, made->Ok_0.0.id).0,
                secret_of(fresh.first),
                later,
            ).1 == Err::<UserModel, AuthFault>(AuthFault::Unauthorized)
        }),
{
    let (next, made) = key_led(m, user, name, now, fresh);
    let id = made->Ok_0.0.id;
    let hash = sha256_text(encode_utf8(secret_of(fresh.first)));
    lemma_secret_shape(fresh.first);
    lemma_index_of(m.keys, hash_is(hash));
    lemma_index_of(next.keys, own_key(id, user));
    let n = m.keys.len() as int;
    assert(own_key(id, user)(next.keys[n]));
    let (left, _) = key_revoked(next, user, id);
    let marked = keys_marked(left.keys, hash, later);
    assert forall|j: int| 0 <= j < marked.len() implies !owned_key(left.users, hash)(
        #[trigger] marked[j],
    ) by {
        let row = left.keys[j];
        lemma_removed(next.keys, own_key(id, user), row);
        assert(left.keys.contains(row));
        let k = choose|k: int| 0 <= k < next.keys.len() && next.keys[k] == row;
        if k < n {
            assert(m.keys[k] == row);
            assert(!hash_is(hash)(m.keys[k]));
        }
    }
    lemma_index_none(marked, owned_key(left.users, hash));
}

} // verus!
