use hoglet::auth::{AuthError, AuthStore, SESSION_TTL_SECONDS};

const NOW: i64 = 1_784_635_200;

#[test]
fn setup_creates_user_org_project() {
    let mut store = AuthStore::open_in_memory().unwrap();
    assert!(store.is_empty().unwrap());
    let (user, org, project) = store.setup("a@b.com", "pass123", "MyOrg", NOW).unwrap();
    assert_eq!(user.email, "a@b.com");
    assert_eq!(org.name, "MyOrg");
    assert!(project.token.starts_with("phc_"));
    assert!(!store.is_empty().unwrap());
}

#[test]
fn setup_fails_when_users_exist() {
    let mut store = AuthStore::open_in_memory().unwrap();
    store.setup("a@b.com", "p", "O", NOW).unwrap();
    assert!(store.setup("b@c.com", "p", "O", NOW).is_err());
}

#[test]
fn login_creates_session() {
    let mut store = AuthStore::open_in_memory().unwrap();
    store.setup("a@b.com", "pass123", "O", NOW).unwrap();
    let (user, sid) = store.login("a@b.com", "pass123", NOW).unwrap();
    assert_eq!(user.email, "a@b.com");

    let me = store.validate_session(&sid, NOW).unwrap();
    assert_eq!(me.email, "a@b.com");

    store.logout(&sid).unwrap();
    assert!(store.validate_session(&sid, NOW).is_err());
}

#[test]
fn bad_password_rejected() {
    let mut store = AuthStore::open_in_memory().unwrap();
    store.setup("a@b.com", "pass123", "O", NOW).unwrap();
    assert!(store.login("a@b.com", "wrong", NOW).is_err());
}

#[test]
fn api_key_roundtrip() {
    let mut store = AuthStore::open_in_memory().unwrap();
    let (user, _, _) = store.setup("a@b.com", "p", "O", NOW).unwrap();
    let (_pk, full_key) = store.create_api_key(&user.id, "my key", NOW).unwrap();
    assert!(full_key.starts_with("phx_"));

    let me = store.validate_api_key(&full_key, NOW).unwrap();
    assert_eq!(me.email, "a@b.com");

    let keys = store.list_api_keys(&user.id).unwrap();
    assert_eq!(keys.len(), 1);
    assert_eq!(keys[0].key_prefix, full_key[..12]);

    store.revoke_api_key(&user.id, &keys[0].id).unwrap();
    assert!(store.validate_api_key(&full_key, NOW).is_err());
}

#[test]
fn orgs_and_projects() {
    let mut store = AuthStore::open_in_memory().unwrap();
    let (user, _, _) = store.setup("a@b.com", "p", "O", NOW).unwrap();

    let orgs = store.list_orgs(&user.id).unwrap();
    assert_eq!(orgs.len(), 1);

    let org2 = store.create_org(&user.id, "Org2", NOW).unwrap();
    assert_eq!(org2.name, "Org2");

    let proj = store.create_project(&org2.id, "MyProject", NOW).unwrap();
    assert!(proj.token.starts_with("phc_"));

    let projects = store.list_projects(&org2.id).unwrap();
    assert_eq!(projects.len(), 1);
}

#[test]
fn setup_leaves_the_owner_in_the_organization() {
    let mut store = AuthStore::open_in_memory().unwrap();
    let (user, org, project) = store.setup("a@b.com", "p", "O", NOW).unwrap();
    assert_eq!(store.get_user_role(&user.id, &org.id).unwrap(), "owner");
    assert!(matches!(store.get_user_role("stranger", &org.id), Err(AuthError::Forbidden)));
    assert_eq!(project.name, "Default");
    assert_eq!(project.org_id, org.id);
    assert_eq!(project.token.len(), 36);
    assert!(matches!(store.setup("b@c.com", "p", "O", NOW), Err(AuthError::Forbidden)));
}

#[test]
fn a_session_expires_after_a_week() {
    let mut store = AuthStore::open_in_memory().unwrap();
    store.setup("a@b.com", "pass123", "O", NOW).unwrap();
    let (_, sid) = store.login("a@b.com", "pass123", NOW).unwrap();
    assert!(store.validate_session(&sid, NOW + SESSION_TTL_SECONDS - 1).is_ok());
    assert!(matches!(
        store.validate_session(&sid, NOW + SESSION_TTL_SECONDS),
        Err(AuthError::Unauthorized)
    ));
}

#[test]
fn an_unknown_address_and_a_wrong_password_look_alike() {
    let mut store = AuthStore::open_in_memory().unwrap();
    store.setup("a@b.com", "pass123", "O", NOW).unwrap();
    assert!(matches!(store.login("x@y.com", "pass123", NOW), Err(AuthError::InvalidPassword)));
    assert!(matches!(store.login("a@b.com", "pass124", NOW), Err(AuthError::InvalidPassword)));
}

#[test]
fn a_key_that_is_used_says_when() {
    let mut store = AuthStore::open_in_memory().unwrap();
    let (user, _, _) = store.setup("a@b.com", "p", "O", NOW).unwrap();
    let (_, full_key) = store.create_api_key(&user.id, "my key", NOW).unwrap();
    assert_eq!(store.list_api_keys(&user.id).unwrap()[0].last_used, None);
    store.validate_api_key(&full_key, NOW + 5).unwrap();
    assert_eq!(store.list_api_keys(&user.id).unwrap()[0].last_used, Some(NOW + 5));
}

#[test]
fn keys_are_refused_by_their_form() {
    let mut store = AuthStore::open_in_memory().unwrap();
    store.setup("a@b.com", "p", "O", NOW).unwrap();
    for key in ["", "phx_short", "phc_0123456789abcdef0123456789abcdef", "phx_0123456789abcdef"] {
        assert!(matches!(store.validate_api_key(key, NOW), Err(AuthError::Unauthorized)));
    }
}

#[test]
fn a_user_revokes_only_own_keys() {
    let mut store = AuthStore::open_in_memory().unwrap();
    let (user, _, _) = store.setup("a@b.com", "p", "O", NOW).unwrap();
    let (key, full_key) = store.create_api_key(&user.id, "my key", NOW).unwrap();
    assert!(matches!(store.revoke_api_key("stranger", &key.id), Err(AuthError::NotFound)));
    assert!(store.validate_api_key(&full_key, NOW).is_ok());
}

#[test]
fn rows_that_name_what_is_not_there_are_refused() {
    let mut store = AuthStore::open_in_memory().unwrap();
    match store.create_project("nowhere", "P", NOW) {
        Err(AuthError::Db(message)) => assert_eq!(message, "FOREIGN KEY constraint failed"),
        _ => panic!("a project without an organization"),
    }
    assert!(matches!(store.create_api_key("nobody", "k", NOW), Err(AuthError::Db(_))));
    assert!(matches!(store.create_org("nobody", "O", NOW), Err(AuthError::Db(_))));
}

#[test]
fn lists_are_by_age() {
    let mut store = AuthStore::open_in_memory().unwrap();
    let (user, org, _) = store.setup("a@b.com", "p", "first", NOW).unwrap();
    store.create_org(&user.id, "second", NOW + 1).unwrap();
    let names: Vec<String> =
        store.list_orgs(&user.id).unwrap().into_iter().map(|o| o.name).collect();
    assert_eq!(names, ["first", "second"]);
    store.create_project(&org.id, "later", NOW + 2).unwrap();
    let names: Vec<String> =
        store.list_projects(&org.id).unwrap().into_iter().map(|p| p.name).collect();
    assert_eq!(names, ["Default", "later"]);
    store.create_api_key(&user.id, "old", NOW).unwrap();
    store.create_api_key(&user.id, "new", NOW + 1).unwrap();
    let names: Vec<String> =
        store.list_api_keys(&user.id).unwrap().into_iter().map(|k| k.name).collect();
    assert_eq!(names, ["new", "old"]);
}
