//! Project access and workspaces: the values that callers receive, the errors, and the rules on requests.
pub mod access;
pub mod access_effects;
pub mod grants;
pub mod worker;


use vstd::prelude::*;
use vstd::string::*;
use vstd::utf8::encode_utf8;

use crate::order::views;
use crate::text::{
    blank, byte_len, contains_char, is_blank, joined, same, signed_decimal, signed_text, trim,
    trimmed,
};

verus! {

/// How long a session lasts.
pub const SESSION_TTL_SECONDS: i64 = 604_800;

/// The newest layout of the control database that is understood.
pub const SCHEMA_VERSION: i64 = 1;

// ── Errors ────────────────────────────────────────────────────────────────────

/// Why access is refused.
#[derive(Debug)]
pub enum AccessError {
    Database(String),
    InvalidToken,
    InvalidRequest,
    InvalidCredentials,
    SetupComplete,
    Unauthorized,
    Forbidden,
    NotFound,
    Unavailable,
    InvalidStorage,
    Incompatible { found: i64, supported: i64 },
}

/// The mathematical value of an [`AccessError`].
pub enum AccessFault {
    Database(Seq<char>),
    InvalidToken,
    InvalidRequest,
    InvalidCredentials,
    SetupComplete,
    Unauthorized,
    Forbidden,
    NotFound,
    Unavailable,
    InvalidStorage,
    Incompatible(int, int),
}

impl View for AccessError {
    type V = AccessFault;

    open spec fn view(&self) -> AccessFault {
        match self {
            AccessError::Database(s) => AccessFault::Database(s@),
            AccessError::InvalidToken => AccessFault::InvalidToken,
            AccessError::InvalidRequest => AccessFault::InvalidRequest,
            AccessError::InvalidCredentials => AccessFault::InvalidCredentials,
            AccessError::SetupComplete => AccessFault::SetupComplete,
            AccessError::Unauthorized => AccessFault::Unauthorized,
            AccessError::Forbidden => AccessFault::Forbidden,
            AccessError::NotFound => AccessFault::NotFound,
            AccessError::Unavailable => AccessFault::Unavailable,
            AccessError::InvalidStorage => AccessFault::InvalidStorage,
            AccessError::Incompatible { found, supported } => AccessFault::Incompatible(
                *found as int,
                *supported as int,
            ),
        }
    }
}

/// The message of an error.
pub open spec fn access_message(fault: AccessFault) -> Seq<char> {
    match fault {
        AccessFault::Database(s) => "control database error: "@ + s,
        AccessFault::InvalidToken => "invalid project token"@,
        AccessFault::InvalidRequest => "invalid request"@,
        AccessFault::InvalidCredentials => "invalid credentials"@,
        AccessFault::SetupComplete => "setup already completed"@,
        AccessFault::Unauthorized => "unauthorized"@,
        AccessFault::Forbidden => "forbidden"@,
        AccessFault::NotFound => "not found"@,
        AccessFault::Unavailable => "project access unavailable"@,
        AccessFault::InvalidStorage => "not a validated Hoglet control database"@,
        AccessFault::Incompatible(found, supported) => "control schema "@ + signed_decimal(found)
            + " is newer than supported "@ + signed_decimal(supported),
    }
}

impl AccessError {
    /// What the error says.
    pub fn message(&self) -> (r: String)
        ensures
            r@ == access_message(self@),
    {
        match self {
            AccessError::Database(s) => joined("control database error: ", s.as_str()),
            AccessError::InvalidToken => "invalid project token".to_owned(),
            AccessError::InvalidRequest => "invalid request".to_owned(),
            AccessError::InvalidCredentials => "invalid credentials".to_owned(),
            AccessError::SetupComplete => "setup already completed".to_owned(),
            AccessError::Unauthorized => "unauthorized".to_owned(),
            AccessError::Forbidden => "forbidden".to_owned(),
            AccessError::NotFound => "not found".to_owned(),
            AccessError::Unavailable => "project access unavailable".to_owned(),
            AccessError::InvalidStorage => "not a validated Hoglet control database".to_owned(),
            AccessError::Incompatible { found, supported } => {
                let mut out = joined("control schema ", signed_text(*found).as_str());
                out.append(" is newer than supported ");
                out.append(signed_text(*supported).as_str());
                out
            },
        }
    }
}

// ── Requests and results ──────────────────────────────────────────────────────

/// What the first user asks for.
pub struct SetupRequest {
    pub email: String,
    pub password: String,
    pub organization_name: String,
    pub project_name: String,
    pub existing_project_token: Option<String>,
}

/// What a user logs in with.
pub struct LoginRequest {
    pub email: String,
    pub password: String,
}

/// A user.
pub struct User {
    pub id: String,
    pub email: String,
    pub name: String,
}

/// The mathematical value of a [`User`].
pub struct UserModel {
    pub id: Seq<char>,
    pub email: Seq<char>,
    pub name: Seq<char>,
}

impl View for User {
    type V = UserModel;

    open spec fn view(&self) -> UserModel {
        UserModel { id: self.id@, email: self.email@, name: self.name@ }
    }
}

/// A project.
pub struct Project {
    pub id: String,
    pub name: String,
    pub token: String,
}

/// The mathematical value of a [`Project`].
pub struct ProjectModel {
    pub id: Seq<char>,
    pub name: Seq<char>,
    pub token: Seq<char>,
}

impl View for Project {
    type V = ProjectModel;

    open spec fn view(&self) -> ProjectModel {
        ProjectModel { id: self.id@, name: self.name@, token: self.token@ }
    }
}

/// An organization as one of its members sees it.
pub struct Organization {
    pub id: String,
    pub name: String,
    pub role: Role,
    pub projects: Vec<Project>,
}

/// The mathematical value of an [`Organization`].
pub struct OrganizationModel {
    pub id: Seq<char>,
    pub name: Seq<char>,
    pub role: Role,
    pub projects: Seq<ProjectModel>,
}

impl View for Organization {
    type V = OrganizationModel;

    open spec fn view(&self) -> OrganizationModel {
        OrganizationModel {
            id: self.id@,
            name: self.name@,
            role: self.role,
            projects: views(self.projects@),
        }
    }
}

/// Everything that a user sees.
pub struct Workspace {
    pub user: User,
    pub organizations: Vec<Organization>,
}

/// The mathematical value of a [`Workspace`].
pub struct WorkspaceModel {
    pub user: UserModel,
    pub organizations: Seq<OrganizationModel>,
}

impl View for Workspace {
    type V = WorkspaceModel;

    open spec fn view(&self) -> WorkspaceModel {
        WorkspaceModel { user: self.user@, organizations: views(self.organizations@) }
    }
}

/// A workspace and the session that was opened for it.
pub struct SetupResult {
    pub workspace: Workspace,
    pub session_id: String,
}

/// The mathematical value of a [`SetupResult`].
pub struct SetupModel {
    pub workspace: WorkspaceModel,
    pub session_id: Seq<char>,
}

impl View for SetupResult {
    type V = SetupModel;

    open spec fn view(&self) -> SetupModel {
        SetupModel { workspace: self.workspace@, session_id: self.session_id@ }
    }
}

/// A personal key, without its secret.
pub struct PersonalApiKey {
    pub id: String,
    pub name: String,
    pub key_prefix: String,
    pub last_used: Option<i64>,
    pub created_at: i64,
}

/// The mathematical value of a [`PersonalApiKey`].
pub struct PersonalKeyModel {
    pub id: Seq<char>,
    pub name: Seq<char>,
    pub key_prefix: Seq<char>,
    pub last_used: Option<i64>,
    pub created_at: i64,
}

impl View for PersonalApiKey {
    type V = PersonalKeyModel;

    open spec fn view(&self) -> PersonalKeyModel {
        PersonalKeyModel {
            id: self.id@,
            name: self.name@,
            key_prefix: self.key_prefix@,
            last_used: self.last_used,
            created_at: self.created_at,
        }
    }
}

/// A new personal key with its secret, which is shown this once.
pub struct CreatedPersonalApiKey {
    pub key: PersonalApiKey,
    pub secret: String,
}

/// The mathematical value of a [`CreatedPersonalApiKey`].
pub struct CreatedKeyModel {
    pub key: PersonalKeyModel,
    pub secret: Seq<char>,
}

impl View for CreatedPersonalApiKey {
    type V = CreatedKeyModel;

    open spec fn view(&self) -> CreatedKeyModel {
        CreatedKeyModel { key: self.key@, secret: self.secret@ }
    }
}

/// What a member may do in an organization.
#[derive(Debug, Clone, Copy, PartialEq, Eq, Structural)]
pub enum Role {
    Owner,
    Admin,
    Member,
}

/// A role as it is written.
pub open spec fn role_text(role: Role) -> Seq<char> {
    match role {
        Role::Owner => "owner"@,
        Role::Admin => "admin"@,
        Role::Member => "member"@,
    }
}

/// The role that a text names.
pub open spec fn role_named(text: Seq<char>) -> Option<Role> {
    if text == "owner"@ {
        Some(Role::Owner)
    } else if text == "admin"@ {
        Some(Role::Admin)
    } else if text == "member"@ {
        Some(Role::Member)
    } else {
        None
    }
}

impl Role {
    /// The role as it is written.
    pub fn as_str(self) -> (r: &'static str)
        ensures
            r@ == role_text(self),
    {
        match self {
            Role::Owner => "owner",
            Role::Admin => "admin",
            Role::Member => "member",
        }
    }

    /// Reads a role. A text that names none is forbidden.
    pub fn parse(value: &str) -> (r: Result<Role, AccessError>)
        ensures
            match role_named(value@) {
                Some(role) => r matches Ok(x) && x == role,
                None => r matches Err(e) && e@ == AccessFault::Forbidden,
            },
    {
        if same(value, "owner") {
            Ok(Role::Owner)
        } else if same(value, "admin") {
            Ok(Role::Admin)
        } else if same(value, "member") {
            Ok(Role::Member)
        } else {
            Err(AccessError::Forbidden)
        }
    }
}

/// A role is read back from how it is written.
pub proof fn law_roles_read_back(role: Role)
    ensures
        role_named(role_text(role)) == Some(role),
{
    reveal_strlit("owner");
    reveal_strlit("admin");
    reveal_strlit("member");
    assert("owner"@[0] == 'o');
    assert("admin"@[0] == 'a');
    assert("member"@[0] == 'm');
}

/// How a principal has proven who they are.
#[derive(Debug, Clone, Copy, PartialEq, Eq, Structural)]
pub enum Authentication {
    Session,
    PersonalKey,
}

/// Someone who has proven who they are.
pub struct Principal {
    pub user_id: String,
    pub authentication: Authentication,
}

/// The mathematical value of a [`Principal`].
pub struct PrincipalModel {
    pub user_id: Seq<char>,
    pub authentication: Authentication,
}

impl View for Principal {
    type V = PrincipalModel;

    open spec fn view(&self) -> PrincipalModel {
        PrincipalModel { user_id: self.user_id@, authentication: self.authentication }
    }
}

/// A project that a principal may work in.
pub struct AuthorizedProject {
    pub project_id: String,
    pub organization_id: String,
    pub capture_token: String,
    pub role: Role,
    pub principal: Principal,
}

/// The mathematical value of an [`AuthorizedProject`].
pub struct AuthorizedModel {
    pub project_id: Seq<char>,
    pub organization_id: Seq<char>,
    pub capture_token: Seq<char>,
    pub role: Role,
    pub principal: PrincipalModel,
}

impl View for AuthorizedProject {
    type V = AuthorizedModel;

    open spec fn view(&self) -> AuthorizedModel {
        AuthorizedModel {
            project_id: self.project_id@,
            organization_id: self.organization_id@,
            capture_token: self.capture_token@,
            role: self.role,
            principal: self.principal@,
        }
    }
}

/// The project that a capture token belongs to.
pub struct CaptureProject {
    pub project_id: Option<String>,
    pub token: String,
}

/// The mathematical value of a [`CaptureProject`].
pub struct CaptureModel {
    pub project_id: Option<Seq<char>>,
    pub token: Seq<char>,
}

impl View for CaptureProject {
    type V = CaptureModel;

    open spec fn view(&self) -> CaptureModel {
        CaptureModel {
            project_id: crate::capture::event::option_view(self.project_id),
            token: self.token@,
        }
    }
}

// ── Rules ─────────────────────────────────────────────────────────────────────

/// Whether a text can be an email address.
pub open spec fn email_ok(email: Seq<char>) -> bool {
    let address = trimmed(email);
    address.len() > 0 && encode_utf8(address).len() <= 254 && address.contains('@')
}

/// Checks an email address.
pub fn validate_email(email: &str) -> (r: Result<(), AccessError>)
    ensures
        email_ok(email@) ==> r is Ok,
        !email_ok(email@) ==> (r matches Err(e) && e@ == AccessFault::InvalidRequest),
{
    let address = trim(email);
    if address.as_str().is_empty() || byte_len(address.as_str()) > 254 || !contains_char(
        address.as_str(),
        '@',
    ) {
        return Err(AccessError::InvalidRequest);
    }
    Ok(())
}

/// Whether a text can be a password: 12 to 1024 bytes.
pub open spec fn password_ok(password: Seq<char>) -> bool {
    12 <= encode_utf8(password).len() <= 1024
}

/// Checks a password.
pub fn validate_password(password: &str) -> (r: Result<(), AccessError>)
    ensures
        password_ok(password@) ==> r is Ok,
        !password_ok(password@) ==> (r matches Err(e) && e@ == AccessFault::InvalidRequest),
{
    let n: usize = byte_len(password);
    if n < 12 || n > 1024 {
        return Err(AccessError::InvalidRequest);
    }
    Ok(())
}

/// Whether a text can be a name: not blank, and at most 128 bytes.
pub open spec fn name_ok(name: Seq<char>) -> bool {
    !blank(name) && encode_utf8(name).len() <= 128
}

/// Checks a name.
pub fn validate_name(name: &str) -> (r: Result<(), AccessError>)
    ensures
        name_ok(name@) ==> r is Ok,
        !name_ok(name@) ==> (r matches Err(e) && e@ == AccessFault::InvalidRequest),
{
    if is_blank(name) || byte_len(name) > 128 {
        return Err(AccessError::InvalidRequest);
    }
    Ok(())
}

/// Checks that a principal came with a session. A personal key cannot manage keys and organizations.
pub fn require_session(principal: &Principal) -> (r: Result<(), AccessError>)
    ensures
        principal.authentication == Authentication::Session ==> r is Ok,
        principal.authentication != Authentication::Session ==> (r matches Err(e) && e@
            == AccessFault::Forbidden),
{
    if principal.authentication != Authentication::Session {
        return Err(AccessError::Forbidden);
    }
    Ok(())
}

/// What is wrong with a control database, if anything.
pub open spec fn storage_fault(
    is_file: bool,
    application_id: i64,
    expected: i64,
    metadata: Option<(Seq<char>, Seq<char>)>,
    user_version: i64,
) -> Option<AccessFault> {
    if !is_file || application_id != expected {
        Some(AccessFault::InvalidStorage)
    } else {
        match metadata {
            Some((pair, role)) => if pair.len() > 0 && role == "control"@ {
                if user_version > SCHEMA_VERSION {
                    Some(AccessFault::Incompatible(user_version as int, SCHEMA_VERSION as int))
                } else {
                    None
                }
            } else {
                Some(AccessFault::InvalidStorage)
            },
            None => Some(AccessFault::InvalidStorage),
        }
    }
}

/// Checks that a file is the control database of a pair and of a layout that is understood.
pub fn validate_control_database(
    is_file: bool,
    application_id: i64,
    expected: i64,
    metadata: &Option<(String, String)>,
    user_version: i64,
) -> (r: Result<(), AccessError>)
    ensures
        match storage_fault(
            is_file,
            application_id,
            expected,
            match metadata {
                Some(m) => Some((m.0@, m.1@)),
                None => None,
            },
            user_version,
        ) {
            Some(fault) => r matches Err(e) && e@ == fault,
            None => r is Ok,
        },
{
    if !is_file || application_id != expected {
        return Err(AccessError::InvalidStorage);
    }
    match metadata {
        Some((pair, role)) => {
            if pair.as_str().is_empty() || !same(role.as_str(), "control") {
                return Err(AccessError::InvalidStorage);
            }
        },
        None => {
            return Err(AccessError::InvalidStorage);
        },
    }
    if user_version > SCHEMA_VERSION {
        return Err(
            AccessError::Incompatible { found: user_version, supported: SCHEMA_VERSION },
        );
    }
    Ok(())
}

} // verus!
