use hoglet::control::access::{KeyRow, OrganizationRow, ProjectAccess, ProjectRow, SessionRow, UserRow};
use hoglet::control::Role;
use hoglet::control_resources::{
    ControlResources, DashboardTileInput, QueryVerdict,
};
use hoglet::flags::{Conditions, Percentage, PropertyFilter, Share, Variant};
use hoglet::json::Json;
use hoglet::legacy_import::{
    deterministic_project_id, import_legacy_control, import_legacy_control_with_tokens,
    load_legacy_auth, LegacyAuth, LegacyImportError, LegacyMembership, LegacyTables,
};
use hoglet::legacy_resources::{
    import_legacy_resources, load_dashboards, load_flags, project_for_token, require_tables,
    DashboardTables, LegacyFlagRow, LegacyResourceImportError, RawDashboard, RawInsight,
    RawShare, RawTile,
};
use hoglet::text_map::TextMap;

fn texts(items: &[&str]) -> Vec<String> {
    items.iter().map(|s| s.to_string()).collect()
}

fn legacy() -> LegacyAuth {
    load_legacy_auth(Some(LegacyTables {
        users: Some(vec![UserRow {
            id: "u1".into(),
            email: "a@b.com".into(),
            password_hash: "h".into(),
            name: "A".into(),
            created_at: 1,
        }]),
        organizations: Some(vec![OrganizationRow {
            id: "o1".into(),
            name: "O".into(),
            created_at: 1,
            imported: true,
        }]),
        memberships: Some(vec![LegacyMembership {
            organization_id: "o1".into(),
            user_id: "u1".into(),
            role: "owner".into(),
        }]),
        projects: Some(vec![ProjectRow {
            id: "p1".into(),
            organization_id: "o1".into(),
            name: "P".into(),
            capture_token: "phc_a".into(),
            created_at: 1,
            imported: true,
        }]),
        personal_keys: Some(vec![KeyRow {
            id: "k1".into(),
            user_id: "u1".into(),
            name: "k".into(),
            key_hash: "kh".into(),
            key_prefix: "phx_12345678".into(),
            last_used: None,
            created_at: 1,
        }]),
        sessions: Some(vec![SessionRow {
            id: "s1".into(),
            user_id: "u1".into(),
            created_at: 1,
            expires_at: 2,
        }]),
    }))
}

fn imported() -> ProjectAccess {
    let mut access = ProjectAccess::new();
    let mut registry = TextMap::new();
    registry.insert("phc_b", "Registered");
    import_legacy_control(
        &mut access,
        "/d/control.db",
        &legacy(),
        &texts(&["phc_a", "phc_b"]),
        &registry,
        &texts(&["phc_a", "phc_b"]),
    )
    .unwrap();
    access
}

#[test]
fn accounts_and_discovered_tokens_are_imported() {
    let access = imported();
    assert_eq!(access.users.len(), 1);
    assert_eq!(access.keys.len(), 1);
    assert_eq!(access.sessions.len(), 1);
    assert_eq!(access.projects.len(), 2);
    let orphan = access.projects.iter().find(|p| p.capture_token == "phc_b").unwrap();
    assert_eq!(orphan.name, "Registered");
    assert_eq!(orphan.id, deterministic_project_id("phc_b"));
    let workspace = access.workspace("u1").unwrap();
    assert!(workspace.organizations.iter().any(|o| o.role == Role::Owner));
}

#[test]
fn importing_again_changes_nothing() {
    let mut access = imported();
    let before = (access.users.len(), access.organizations.len(), access.projects.len());
    let report = import_legacy_control_with_tokens(
        &mut access,
        "/d/control.db",
        &legacy(),
        &texts(&["phc_a"]),
        &texts(&["phc_b"]),
        &TextMap::new(),
        &texts(&["phc_a", "phc_b"]),
    )
    .unwrap();
    assert_eq!(before, (access.users.len(), access.organizations.len(), access.projects.len()));
    assert_eq!(report.projects, 2);
    assert_eq!((report.users, report.personal_keys, report.sessions), (1, 1, 1));
}

#[test]
fn an_invalid_token_stops_the_import() {
    let mut access = ProjectAccess::new();
    match import_legacy_control(
        &mut access,
        "/d/control.db",
        &legacy(),
        &texts(&["bad token"]),
        &TextMap::new(),
        &texts(&["phc_a"]),
    ) {
        Err(LegacyImportError::InvalidToken(t)) => assert_eq!(t, "bad token"),
        _ => panic!("a bad token was taken"),
    }
    assert!(access.users.is_empty());
}

#[test]
fn project_ids_follow_from_tokens() {
    let id = deterministic_project_id("phc_a");
    assert_eq!(id, deterministic_project_id("phc_a"));
    assert_ne!(id, deterministic_project_id("phc_b"));
    assert_ne!(id, "phc_a");
    assert!(id.len() >= 36);
}

#[test]
fn missing_tables_are_empty_or_refused() {
    assert!(load_legacy_auth(None).users.is_empty());
    assert!(require_tables("/f", &texts(&["flags"]), &texts(&["flags"])).is_ok());
    match require_tables("/f", &texts(&["flags"]), &texts(&["tiles"])) {
        Err(LegacyResourceImportError::Invalid { detail, .. }) => {
            assert_eq!(detail, "required table \"tiles\" is absent")
        }
        _ => panic!("a table is missing"),
    }
}

fn share(p: f64) -> Share {
    Share { bits: p.to_bits(), below: (p * (1u64 << 60) as f64).ceil() as u128 }
}

fn flag_row(token: &str, conditions: Option<Conditions>) -> LegacyFlagRow {
    LegacyFlagRow {
        token: token.into(),
        key: "f".into(),
        active: true,
        rollout: Percentage { bits: f64::to_bits(20.0) },
        variants: Ok(vec![Variant { key: "v".into(), rollout: share(100.0) }]),
        conditions: Ok(conditions),
    }
}

fn insight(token: &str) -> RawInsight {
    let query = || Json::parse("{\"kind\":\"Trends\"}").unwrap();
    RawInsight {
        id: "i1".into(),
        token: token.into(),
        name: "I".into(),
        description: "".into(),
        query_ir: Ok(query()),
        created_by: "u1".into(),
        created_at: 1,
        updated_at: 2,
        verdict: QueryVerdict::Supported(query()),
    }
}

fn tables() -> DashboardTables {
    DashboardTables {
        present: texts(&["saved_insights", "dashboards", "dashboard_tiles", "share_links"]),
        insights: vec![insight("phc_a")],
        dashboards: vec![RawDashboard {
            id: "d1".into(),
            token: "phc_a".into(),
            name: "D".into(),
            created_by: "u1".into(),
            created_at: 1,
            updated_at: 2,
        }],
        tiles: vec![RawTile {
            id: "t1".into(),
            dashboard_id: "d1".into(),
            tile: DashboardTileInput { insight_id: "i1".into(), x: 0, y: 0, w: 4, h: 3 },
        }],
        shares: vec![RawShare {
            id: "s1".into(),
            object_type: "insight".into(),
            object_id: "i1".into(),
            token: "tok".into(),
            created_by: "u1".into(),
            created_at: 1,
            expires_at: None,
        }],
    }
}

#[test]
fn resources_are_imported_into_their_projects() {
    let access = imported();
    let flags = load_flags("/f", &texts(&["feature_flags"]), Some(vec![flag_row("phc_a", None)])).unwrap();
    let data = load_dashboards("/h", Some(tables())).unwrap();
    assert_eq!(data.tile_count, 1);
    let mut resources = ControlResources::new();
    let report =
        import_legacy_resources(&mut resources, &access, "/f", "/h", &flags, &data).unwrap();
    assert_eq!(
        (report.flags, report.insights, report.dashboards, report.tiles, report.shares),
        (1, 1, 1, 1, 1)
    );
    let project = project_for_token(&access, "/f", "phc_a").unwrap();
    assert_eq!(project, "p1");
    assert_eq!(resources.list_flags(&project)[0].key, "f");
    assert_eq!(resources.get_dashboard(&project, "d1").unwrap().tiles.len(), 1);
    assert!(resources.authorize_share_token("tok", 100).is_ok());
    assert!(project_for_token(&access, "/f", "phc_none").is_err());
}

#[test]
fn flags_that_cannot_be_carried_over_are_refused() {
    let targeted = Conditions {
        properties: vec![PropertyFilter {
            key: "plan".into(),
            operator: "exact".into(),
            value: Json::text("pro"),
        }],
        cohort_ids: vec![],
        payload: None,
    };
    assert!(matches!(
        load_flags("/f", &texts(&["feature_flags"]), Some(vec![flag_row("phc_a", Some(targeted))])),
        Err(LegacyResourceImportError::Invalid { .. })
    ));
    let mut broken = flag_row("phc_a", None);
    broken.variants = Err("bad json".into());
    assert!(load_flags("/f", &texts(&["feature_flags"]), Some(vec![broken])).is_err());
    assert!(load_flags("/f", &vec![], None).unwrap().is_empty());
}

#[test]
fn stray_tiles_and_shares_are_refused() {
    let mut stray = tables();
    stray.tiles[0].dashboard_id = "nowhere".into();
    assert!(load_dashboards("/h", Some(stray)).is_err());
    let mut odd = tables();
    odd.shares[0].object_type = "cohort".into();
    match load_dashboards("/h", Some(odd)) {
        Err(e) => assert!(!e.message().is_empty()),
        Ok(_) => panic!("a share of something else"),
    }
    assert!(load_dashboards("/h", None).unwrap().insights.is_empty());
}

#[test]
fn a_query_that_cannot_be_read_stops_the_import() {
    let mut broken = tables();
    let mut second = insight("phc_a");
    second.id = "i0".into();
    second.query_ir = Err("Conversion error".into());
    broken.insights.push(second);
    match load_dashboards("/h", Some(broken)) {
        Err(LegacyResourceImportError::Database { path, message }) => {
            assert_eq!((path.as_str(), message.as_str()), ("/h", "Conversion error"))
        }
        _ => panic!("a query that is none was taken"),
    }
}

#[test]
fn resources_are_in_place_when_they_are_imported_again() {
    let access = imported();
    let flags = load_flags("/f", &texts(&["feature_flags"]), Some(vec![flag_row("phc_a", None)])).unwrap();
    let mut stored = tables();
    stored.dashboards.push(RawDashboard {
        id: "d0".into(),
        token: "phc_a".into(),
        name: "E".into(),
        created_by: "u1".into(),
        created_at: 3,
        updated_at: 4,
    });
    let data = load_dashboards("/h", Some(stored)).unwrap();
    let mut resources = ControlResources::new();
    let first = import_legacy_resources(&mut resources, &access, "/f", "/h", &flags, &data).unwrap();
    let seen = |r: &ControlResources| {
        let tiles: Vec<_> = r.tiles.iter().map(|t| (t.dashboard_id.clone(), t.position)).collect();
        let dashboards: Vec<_> = r.dashboards.iter().map(|d| d.id.clone()).collect();
        let flag = r.list_flags("p1").remove(0);
        let share = r.authorize_share_token("tok", 100).is_ok();
        (tiles, dashboards, flag.key, flag.rollout_percentage, r.insights.len(), share)
    };
    let before = seen(&resources);
    let second = import_legacy_resources(&mut resources, &access, "/f", "/h", &flags, &data).unwrap();
    assert_eq!(first, second);
    assert_eq!(before, seen(&resources));
}

#[test]
fn every_token_has_one_project() {
    let mut access = ProjectAccess::new();
    let known = texts(&["phc_a", "phc_b", "phc_c"]);
    import_legacy_control_with_tokens(
        &mut access,
        "/d/control.db",
        &legacy(),
        &texts(&["phc_b", "phc_a"]),
        &texts(&["phc_c", "phc_b"]),
        &TextMap::new(),
        &known,
    )
    .unwrap();
    for token in &known {
        assert_eq!(access.projects.iter().filter(|p| p.capture_token == *token).count(), 1);
    }
    assert_eq!(access.projects.len(), 3);
}

#[test]
fn a_token_whose_project_id_is_taken_gets_none() {
    let mut access = ProjectAccess::new();
    let mut accounts = legacy();
    accounts.projects[0].id = deterministic_project_id("phc_b");
    let all = texts(&["phc_a", "phc_b"]);
    import_legacy_control(&mut access, "/d/control.db", &accounts, &all, &TextMap::new(), &all)
        .unwrap();
    assert_eq!(access.projects.len(), 1);
    assert_eq!(access.projects[0].capture_token, "phc_a");
}
