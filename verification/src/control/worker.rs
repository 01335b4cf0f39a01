//! The one worker that owns project access: it takes commands in turn and answers each.
use vstd::prelude::*;

use crate::control::access::{
    login_done, hash_drawn, removed_session, session_checked, setup_done, workspace_of,
    ControlModel, Fresh, ProjectAccess,
};
use crate::control::grants::{
    capture_authorized, key_made, key_revoked, keys_listed, organization_made,
    project_authorized, project_made, secret_checked,
};
use crate::control::{
    AccessError, AccessFault, AuthorizedModel, AuthorizedProject, CaptureModel, CaptureProject,
    CreatedKeyModel, CreatedPersonalApiKey, LoginRequest, Organization, OrganizationModel,
    PersonalApiKey, PersonalKeyModel, Principal, PrincipalModel, Project, ProjectModel,
    SetupModel, SetupRequest, SetupResult, Workspace, WorkspaceModel, SESSION_TTL_SECONDS,
};
use crate::order::{outcome, views};

verus! {

/// What the worker is asked.
pub enum Command {
    Shutdown,
    SetupRequired,
    Setup(SetupRequest),
    Login(LoginRequest),
    Logout(String),
    CreatePersonalKey(Principal, String),
    ValidatePersonalKey(String),
    ListPersonalKeys(Principal),
    RevokePersonalKey(Principal, String),
    CreateOrganization(Principal, String),
    CreateProject { principal: Principal, organization_id: String, name: String },
    ValidateSession(String),
    Workspace(Principal),
    AuthorizeProject(Principal, String),
    AuthorizeCapture(String),
}

/// What the worker answers.
pub enum Reply {
    Shutdown,
    SetupRequired(bool),
    Setup(Result<SetupResult, AccessError>),
    Done,
    CreatedKey(Result<CreatedPersonalApiKey, AccessError>),
    Principal(Result<Principal, AccessError>),
    Keys(Result<Vec<PersonalApiKey>, AccessError>),
    Revoked(Result<(), AccessError>),
    Organization(Result<Organization, AccessError>),
    Project(Result<Project, AccessError>),
    Workspace(Result<Workspace, AccessError>),
    Authorized(Result<AuthorizedProject, AccessError>),
    Capture(Result<CaptureProject, AccessError>),
}

/// The mathematical value of a [`Reply`].
pub enum ReplyModel {
    Shutdown,
    SetupRequired(bool),
    Setup(Result<SetupModel, AccessFault>),
    Done,
    CreatedKey(Result<CreatedKeyModel, AccessFault>),
    Principal(Result<PrincipalModel, AccessFault>),
    Keys(Result<Seq<PersonalKeyModel>, AccessFault>),
    Revoked(Result<(), AccessFault>),
    Organization(Result<OrganizationModel, AccessFault>),
    Project(Result<ProjectModel, AccessFault>),
    Workspace(Result<WorkspaceModel, AccessFault>),
    Authorized(Result<AuthorizedModel, AccessFault>),
    Capture(Result<CaptureModel, AccessFault>),
}

impl View for Reply {
    type V = ReplyModel;

    open spec fn view(&self) -> ReplyModel {
        match self {
            Reply::Shutdown => ReplyModel::Shutdown,
            Reply::SetupRequired(b) => ReplyModel::SetupRequired(*b),
            Reply::Setup(r) => ReplyModel::Setup(outcome(*r)),
            Reply::Done => ReplyModel::Done,
            Reply::CreatedKey(r) => ReplyModel::CreatedKey(outcome(*r)),
            Reply::Principal(r) => ReplyModel::Principal(outcome(*r)),
            Reply::Keys(r) => ReplyModel::Keys(
                match r {
                    Ok(keys) => Ok(views(keys@)),
                    Err(e) => Err(e@),
                },
            ),
            Reply::Revoked(r) => ReplyModel::Revoked(outcome(*r)),
            Reply::Organization(r) => ReplyModel::Organization(outcome(*r)),
            Reply::Project(r) => ReplyModel::Project(outcome(*r)),
            Reply::Workspace(r) => ReplyModel::Workspace(outcome(*r)),
            Reply::Authorized(r) => ReplyModel::Authorized(outcome(*r)),
            Reply::Capture(r) => ReplyModel::Capture(outcome(*r)),
        }
    }
}

/// The time at which a command is handled, and whether the token that it holds is valid as a token.
#[derive(Debug, Clone, Copy, PartialEq, Eq, Structural)]
pub struct Moment {
    pub seconds: i64,
    pub millis: i64,
    pub token_valid: bool,
}

/// What a command leads to, given the numbers drawn and the hash of a new password.
pub open spec fn handled(
    m: ControlModel,
    command: Command,
    moment: Moment,
    fresh: Fresh,
    hash: Option<Seq<char>>,
) -> (ControlModel, ReplyModel) {
    match command {
        Command::Shutdown => (m, ReplyModel::Shutdown),
        Command::SetupRequired => (m, ReplyModel::SetupRequired(m.users.len() == 0)),
        Command::Setup(request) => {
            let (next, r) = setup_done(
                m,
                request,
                moment.token_valid,
                moment.seconds,
                moment.millis,
                fresh,
                hash,
            );
            (next, ReplyModel::Setup(r))
        },
        Command::Login(request) => {
            let (next, r) = login_done(m, request, moment.seconds, fresh);
            (next, ReplyModel::Setup(r))
        },
        Command::Logout(session) => (removed_session(m, session@), ReplyModel::Done),
        Command::CreatePersonalKey(principal, name) => {
            let (next, r) = key_made(m, principal@, name@, moment.seconds, fresh);
            (next, ReplyModel::CreatedKey(r))
        },
        Command::ValidatePersonalKey(secret) => {
            let (next, r) = secret_checked(m, secret@, moment.seconds);
            (next, ReplyModel::Principal(r))
        },
        Command::ListPersonalKeys(principal) => (m, ReplyModel::Keys(keys_listed(m, principal@))),
        Command::RevokePersonalKey(principal, key) => {
            let (next, r) = key_revoked(m, principal@, key@);
            (next, ReplyModel::Revoked(r))
        },
        Command::CreateOrganization(principal, name) => {
            let (next, r) = organization_made(m, principal@, name@, moment.millis, fresh);
            (next, ReplyModel::Organization(r))
        },
        Command::CreateProject { principal, organization_id, name } => {
            let (next, r) = project_made(
                m,
                principal@,
                organization_id@,
                name@,
                moment.millis,
                fresh,
            );
            (next, ReplyModel::Project(r))
        },
        Command::ValidateSession(session) => {
            let (next, r) = session_checked(m, session@, moment.seconds);
            (next, ReplyModel::Principal(r))
        },
        Command::Workspace(principal) => (
            m,
            ReplyModel::Workspace(workspace_of(m, principal@.user_id)),
        ),
        Command::AuthorizeProject(principal, project) => (
            m,
            ReplyModel::Authorized(project_authorized(m, principal@, project@)),
        ),
        Command::AuthorizeCapture(token) => (
            m,
            ReplyModel::Capture(capture_authorized(m, token@, moment.token_valid)),
        ),
    }
}

/// Whether a hash is of the password of a command, where it has one.
pub open spec fn hash_fits(hash: Option<Seq<char>>, command: Command) -> bool {
    match command {
        Command::Setup(request) => hash_drawn(hash, request.password@),
        _ => true,
    }
}

impl ProjectAccess {
    /// Handles one command.
    pub fn handle(&mut self, command: Command, moment: Moment) -> (r: Reply)
        requires
            moment.seconds <= i64::MAX - SESSION_TTL_SECONDS,
        ensures
            exists|fresh: Fresh, hash: Option<Seq<char>>|
                hash_fits(hash, command) && (final(self)@, r@) == #[trigger] handled(
                    old(self)@,
                    command,
                    moment,
                    fresh,
                    hash,
                ),
    {
        let ghost start = self@;
        let ghost none: Option<Seq<char>> = None;
        let ghost any = Fresh { first: 0, second: 0, third: 0, fourth: 0, fifth: 0 };
        match command {
            Command::Shutdown => {
                assert((self@, Reply::Shutdown@) == handled(start, command, moment, any, none));
                Reply::Shutdown
            },
            Command::SetupRequired => {
                let r = Reply::SetupRequired(self.setup_required());
                assert((self@, r@) == handled(start, command, moment, any, none));
                r
            },
            Command::Setup(request) => {
                let result = self.setup(
                    &request,
                    moment.token_valid,
                    moment.seconds,
                    moment.millis,
                );
                let r = Reply::Setup(result);
                proof {
                    let (fresh, hash) = choose|fresh: Fresh, hash: Option<Seq<char>>|
                        hash_drawn(hash, request.password@) && (
                        self@,
                        outcome(result),
                        ) == #[trigger] setup_done(
                            start,
                            request,
                            moment.token_valid,
                            moment.seconds,
                            moment.millis,
                            fresh,
                            hash,
                        );
                    assert((self@, r@) == handled(start, command, moment, fresh, hash));
                }
                r
            },
            Command::Login(request) => {
                let result = self.login(&request, moment.seconds);
                let r = Reply::Setup(result);
                proof {
                    let fresh = choose|fresh: Fresh|
                        (self@, outcome(result)) == #[trigger] login_done(
                            start,
                            request,
                            moment.seconds,
                            fresh,
                        );
                    assert((self@, r@) == handled(start, command, moment, fresh, none));
                }
                r
            },
            Command::Logout(session_id) => {
                self.logout(session_id.as_str());
                assert((self@, Reply::Done@) == handled(start, command, moment, any, none));
                Reply::Done
            },
            Command::CreatePersonalKey(principal, name) => {
                let result = self.create_personal_key(&principal, name.as_str(), moment.seconds);
                let r = Reply::CreatedKey(result);
                proof {
                    let fresh = choose|fresh: Fresh|
                        (self@, outcome(result)) == #[trigger] key_made(
                            start,
                            principal@,
                            name@,
                            moment.seconds,
                            fresh,
                        );
                    assert((self@, r@) == handled(start, command, moment, fresh, none));
                }
                r
            },
            Command::ValidatePersonalKey(secret) => {
                let r = Reply::Principal(
                    self.validate_personal_key(secret.as_str(), moment.seconds),
                );
                assert((self@, r@) == handled(start, command, moment, any, none));
                r
            },
            Command::ListPersonalKeys(principal) => {
                let r = Reply::Keys(self.list_personal_keys(&principal));
                assert((self@, r@) == handled(start, command, moment, any, none));
                r
            },
            Command::RevokePersonalKey(principal, key_id) => {
                let r = Reply::Revoked(self.revoke_personal_key(&principal, key_id.as_str()));
                assert((self@, r@) == handled(start, command, moment, any, none));
                r
            },
            Command::CreateOrganization(principal, name) => {
                let result = self.create_organization(&principal, name.as_str(), moment.millis);
                let r = Reply::Organization(result);
                proof {
                    let fresh = choose|fresh: Fresh|
                        (self@, outcome(result)) == #[trigger] organization_made(
                            start,
                            principal@,
                            name@,
                            moment.millis,
                            fresh,
                        );
                    assert((self@, r@) == handled(start, command, moment, fresh, none));
                }
                r
            },
            Command::CreateProject { principal, organization_id, name } => {
                let result = self.create_project(
                    &principal,
                    organization_id.as_str(),
                    name.as_str(),
                    moment.millis,
                );
                let r = Reply::Project(result);
                proof {
                    let fresh = choose|fresh: Fresh|
                        (self@, outcome(result)) == #[trigger] project_made(
                            start,
                            principal@,
                            organization_id@,
                            name@,
                            moment.millis,
                            fresh,
                        );
                    assert((self@, r@) == handled(start, command, moment, fresh, none));
                }
                r
            },
            Command::ValidateSession(session_id) => {
                let r = Reply::Principal(
                    self.validate_session(session_id.as_str(), moment.seconds),
                );
                assert((self@, r@) == handled(start, command, moment, any, none));
                r
            },
            Command::Workspace(principal) => {
                let r = Reply::Workspace(self.workspace(principal.user_id.as_str()));
                assert((self@, r@) == handled(start, command, moment, any, none));
                r
            },
            Command::AuthorizeProject(principal, project_id) => {
                let r = Reply::Authorized(self.authorize_project(principal, project_id.as_str()));
                assert((self@, r@) == handled(start, command, moment, any, none));
                r
            },
            Command::AuthorizeCapture(token) => {
                let r = Reply::Capture(
                    self.authorize_capture(token.as_str(), moment.token_valid),
                );
                assert((self@, r@) == handled(start, command, moment, any, none));
                r
            },
        }
    }
}

} // verus!
