use hoglet::control::access::ProjectAccess;
use hoglet::control::worker::{Command, Moment, Reply};
use hoglet::control::{
    validate_email, validate_name, validate_password, AccessError, Authentication, LoginRequest,
    Principal, Role, SetupRequest, SetupResult, SESSION_TTL_SECONDS,
};

const NOW: i64 = 1_784_635_200;
const PASSWORD: &str = "correct horse battery";

fn request() -> SetupRequest {
    SetupRequest {
        email: " Owner@Example.com ".into(),
        password: PASSWORD.into(),
        organization_name: "Acme".into(),
        project_name: "Site".into(),
        existing_project_token: None,
    }
}

fn session_of(result: &SetupResult) -> Principal {
    Principal {
        user_id: result.workspace.user.id.clone(),
        authentication: Authentication::Session,
    }
}

fn set_up() -> (ProjectAccess, SetupResult) {
    let mut access = ProjectAccess::new();
    let result = access.setup(&request(), true, NOW, NOW * 1000).unwrap();
    (access, result)
}

#[test]
fn setup_makes_a_workspace_once() {
    let mut access = ProjectAccess::new();
    assert!(access.setup_required());
    let result = access.setup(&request(), true, NOW, NOW * 1000).unwrap();
    assert!(!access.setup_required());
    assert_eq!(result.workspace.user.email, "owner@example.com");
    assert_eq!(result.workspace.organizations.len(), 1);
    let organization = &result.workspace.organizations[0];
    assert_eq!(organization.name, "Acme");
    assert_eq!(organization.role, Role::Owner);
    assert_eq!(organization.projects[0].name, "Site");
    assert!(organization.projects[0].token.starts_with("phc_"));
    assert!(matches!(
        access.setup(&request(), true, NOW, NOW * 1000),
        Err(AccessError::SetupComplete)
    ));
}

#[test]
fn setup_can_take_over_a_token() {
    let mut access = ProjectAccess::new();
    let mut wanted = request();
    wanted.existing_project_token = Some("phc_mine".into());
    assert!(matches!(
        access.setup(&wanted, false, NOW, NOW * 1000),
        Err(AccessError::InvalidToken)
    ));
    let result = access.setup(&wanted, true, NOW, NOW * 1000).unwrap();
    assert_eq!(result.workspace.organizations[0].projects[0].token, "phc_mine");
    assert!(access.authorize_capture("phc_mine", true).is_ok());
}

#[test]
fn setup_refuses_what_is_out_of_bounds() {
    let mut access = ProjectAccess::new();
    let mut short = request();
    short.password = "elevenchars".into();
    let mut nowhere = request();
    nowhere.email = "owner".into();
    let mut blank = request();
    blank.project_name = "  ".into();
    for bad in [short, nowhere, blank] {
        assert!(matches!(
            access.setup(&bad, true, NOW, NOW * 1000),
            Err(AccessError::InvalidRequest)
        ));
    }
    assert!(access.setup_required());
}

#[test]
fn the_bounds_of_names_and_passwords() {
    assert!(validate_password("twelve chars").is_ok());
    assert!(validate_password("eleven char").is_err());
    assert!(validate_password(&"x".repeat(1024)).is_ok());
    assert!(validate_password(&"x".repeat(1025)).is_err());
    assert!(validate_name(&"x".repeat(128)).is_ok());
    assert!(validate_name(&"x".repeat(129)).is_err());
    assert!(validate_email(&format!("{}@b", "x".repeat(252))).is_ok());
    assert!(validate_email(&format!("{}@b", "x".repeat(253))).is_err());
}

#[test]
fn login_opens_a_session_that_logout_closes() {
    let (mut access, first) = set_up();
    let login = |password: &str| LoginRequest {
        email: "OWNER@example.com".into(),
        password: password.into(),
    };
    assert!(matches!(
        access.login(&login("wrong horse battery"), NOW),
        Err(AccessError::InvalidCredentials)
    ));
    let result = access.login(&login(PASSWORD), NOW).unwrap();
    assert_ne!(result.session_id, first.session_id);
    let principal = access.validate_session(&result.session_id, NOW).unwrap();
    assert_eq!(principal.user_id, first.workspace.user.id);
    access.logout(&result.session_id);
    assert!(matches!(
        access.validate_session(&result.session_id, NOW),
        Err(AccessError::Unauthorized)
    ));
}

#[test]
fn control_sessions_expire() {
    let (mut access, result) = set_up();
    assert!(access.validate_session(&result.session_id, NOW + SESSION_TTL_SECONDS - 1).is_ok());
    assert!(access.validate_session(&result.session_id, NOW + SESSION_TTL_SECONDS).is_err());
}

#[test]
fn personal_keys_authenticate_until_they_are_revoked() {
    let (mut access, result) = set_up();
    let owner = session_of(&result);
    let created = access.create_personal_key(&owner, "ci", NOW).unwrap();
    assert!(created.secret.starts_with("phx_"));
    assert!(created.secret.starts_with(&created.key.key_prefix));
    let principal = access.validate_personal_key(&created.secret, NOW + 1).unwrap();
    assert_eq!(principal.user_id, owner.user_id);
    assert_eq!(principal.authentication, Authentication::PersonalKey);
    let listed = access.list_personal_keys(&owner).unwrap();
    assert_eq!(listed.len(), 1);
    assert_eq!(listed[0].last_used, Some(NOW + 1));
    assert!(matches!(
        access.create_personal_key(&principal, "more", NOW),
        Err(AccessError::Forbidden)
    ));
    assert!(matches!(
        access.revoke_personal_key(&owner, "nothing"),
        Err(AccessError::NotFound)
    ));
    access.revoke_personal_key(&owner, &created.key.id).unwrap();
    assert!(matches!(
        access.validate_personal_key(&created.secret, NOW + 2),
        Err(AccessError::Unauthorized)
    ));
}

#[test]
fn projects_are_open_to_their_members() {
    let (mut access, result) = set_up();
    let owner = session_of(&result);
    let organization = access.create_organization(&owner, "Second", NOW * 1000).unwrap();
    let project = access.create_project(&owner, &organization.id, "App", NOW * 1000).unwrap();
    let authorized = access.authorize_project(session_of(&result), &project.id).unwrap();
    assert_eq!(authorized.organization_id, organization.id);
    assert_eq!(authorized.capture_token, project.token);
    assert_eq!(authorized.role, Role::Owner);
    let stranger = Principal { user_id: "x".into(), authentication: Authentication::Session };
    assert!(matches!(
        access.authorize_project(stranger, &project.id),
        Err(AccessError::Forbidden)
    ));
    assert_eq!(access.workspace(&owner.user_id).unwrap().organizations.len(), 2);
}

#[test]
fn capture_is_open_to_known_tokens() {
    let (access, result) = set_up();
    let project = &result.workspace.organizations[0].projects[0];
    let authorized = access.authorize_capture(&project.token, true).unwrap();
    assert_eq!(authorized.project_id, Some(project.id.clone()));
    assert!(matches!(
        access.authorize_capture(&project.token, false),
        Err(AccessError::InvalidToken)
    ));
    assert!(matches!(
        access.authorize_capture("phc_unknown", true),
        Err(AccessError::Unauthorized)
    ));
}

#[test]
fn the_worker_answers_its_commands() {
    let mut access = ProjectAccess::new();
    let moment = Moment { seconds: NOW, millis: NOW * 1000, token_valid: true };
    assert!(matches!(access.handle(Command::SetupRequired, moment), Reply::SetupRequired(true)));
    let result = match access.handle(Command::Setup(request()), moment) {
        Reply::Setup(Ok(result)) => result,
        _ => panic!("setup was refused"),
    };
    assert!(matches!(
        access.handle(Command::ValidateSession(result.session_id.clone()), moment),
        Reply::Principal(Ok(_))
    ));
    assert!(matches!(
        access.handle(Command::Workspace(session_of(&result)), moment),
        Reply::Workspace(Ok(_))
    ));
    assert!(matches!(
        access.handle(Command::Logout(result.session_id.clone()), moment),
        Reply::Done
    ));
    assert!(matches!(
        access.handle(Command::ValidateSession(result.session_id), moment),
        Reply::Principal(Err(AccessError::Unauthorized))
    ));
    assert!(matches!(access.handle(Command::Shutdown, moment), Reply::Shutdown));
}

#[test]
fn refused_requests_leave_no_trace() {
    let mut access = ProjectAccess::new();
    let mut short = request();
    short.password = "short".into();
    assert!(access.setup(&short, true, NOW, NOW * 1000).is_err());
    assert!(access.setup_required());
    let result = access.setup(&request(), true, NOW, NOW * 1000).unwrap();
    let owner = session_of(&result);
    assert!(access.create_organization(&owner, " ", NOW * 1000).is_err());
    assert!(access.create_project(&owner, "nowhere", "App", NOW * 1000).is_err());
    assert!(access.create_personal_key(&owner, " ", NOW).is_err());
    assert!(access.revoke_personal_key(&owner, "nothing").is_err());
    let workspace = access.workspace(&owner.user_id).unwrap();
    assert_eq!(workspace.organizations.len(), 1);
    assert_eq!(workspace.organizations[0].projects.len(), 1);
    assert!(access.list_personal_keys(&owner).unwrap().is_empty());
}
