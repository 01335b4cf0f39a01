use hoglet::control::access::ProjectAccess;
use hoglet::control::{Authentication, Principal, SetupRequest};
use hoglet::control_resources::{
    default_tile_height, default_tile_width, imported_query_json, share_target,
    supported_query_json, validate_control_database, validate_required, ControlResourceError,
    ControlResources, DashboardDraft, DashboardTileInput, FeatureFlag, ImportedFeatureFlag,
    InsightDraft, QueryVerdict, ShareTarget,
};
use hoglet::flags::{Percentage, Share, Variant};
use hoglet::json::Json;

const NOW: i64 = 1_784_635_200;

fn percent(p: f64) -> Percentage {
    Percentage { bits: p.to_bits() }
}

fn part(p: f64, end: f64) -> Share {
    Share { bits: p.to_bits(), below: (end * (1u64 << 60) as f64).ceil() as u128 }
}

/// A workspace with its project, and its owner.
fn workspace() -> (ProjectAccess, String, String) {
    let mut access = ProjectAccess::new();
    let request = SetupRequest {
        email: "a@b.com".into(),
        password: "correct horse battery".into(),
        organization_name: "Acme".into(),
        project_name: "Site".into(),
        existing_project_token: None,
    };
    let result = access.setup(&request, true, NOW, NOW).unwrap();
    let project = result.workspace.organizations[0].projects[0].id.clone();
    (access, project, result.workspace.user.id)
}

fn flag(key: &str, rollout: f64) -> FeatureFlag {
    FeatureFlag {
        key: key.into(),
        active: true,
        rollout_percentage: percent(rollout),
        variants: vec![],
        payload: None,
    }
}

fn query() -> Json {
    Json::parse("{\"kind\":\"Trends\"}").unwrap()
}

fn draft(name: &str) -> InsightDraft {
    InsightDraft { name: name.into(), description: "d".into(), query_ir: query() }
}

#[test]
fn flags_are_kept_for_their_project() {
    let (access, project, _) = workspace();
    let mut resources = ControlResources::new();
    resources.create_flag(&access, &project, &flag("new-ui", 25.0), NOW).unwrap();
    assert!(matches!(
        resources.create_flag(&access, &project, &flag("new-ui", 30.0), NOW),
        Err(ControlResourceError::Conflict)
    ));
    assert_eq!(resources.get_flag(&project, "new-ui").unwrap().rollout_percentage, percent(25.0));
    resources.update_flag(&project, "new-ui", &flag("new-ui", 50.0), NOW).unwrap();
    assert_eq!(resources.list_flags(&project)[0].rollout_percentage, percent(50.0));
    assert!(resources.list_flags("elsewhere").is_empty());
    resources.delete_flag(&project, "new-ui").unwrap();
    assert!(matches!(
        resources.get_flag(&project, "new-ui"),
        Err(ControlResourceError::NotFound)
    ));
    assert!(matches!(
        resources.delete_flag(&project, "new-ui"),
        Err(ControlResourceError::NotFound)
    ));
}

#[test]
fn flags_are_checked() {
    let (access, project, _) = workspace();
    let mut resources = ControlResources::new();
    for bad in [flag("", 10.0), flag("over", 100.5), flag("under", -1.0), flag("nan", f64::NAN)] {
        assert!(matches!(
            resources.create_flag(&access, &project, &bad, NOW),
            Err(ControlResourceError::InvalidResource { .. })
        ));
    }
    let mut twice = flag("f", 100.0);
    twice.variants = vec![
        Variant { key: "a".into(), rollout: part(50.0, 50.0) },
        Variant { key: "a".into(), rollout: part(50.0, 100.0) },
    ];
    assert!(matches!(
        resources.create_flag(&access, &project, &twice, NOW),
        Err(ControlResourceError::InvalidResource { .. })
    ));
    assert!(resources.list_flags(&project).is_empty());
}

#[test]
fn importing_a_flag_twice_changes_nothing() {
    let (access, project, _) = workspace();
    let mut resources = ControlResources::new();
    let imported = ImportedFeatureFlag { flag: flag("f", 10.0), created_at: 1, updated_at: 2 };
    resources.import_flag(&access, &project, &imported).unwrap();
    resources.import_flag(&access, &project, &imported).unwrap();
    assert_eq!(resources.list_flags(&project).len(), 1);
}

#[test]
fn insights_read_back_and_leave() {
    let (access, project, user) = workspace();
    let mut resources = ControlResources::new();
    let saved = resources
        .create_insight(&access, &project, &user, &draft("A"), QueryVerdict::Supported(query()), NOW)
        .unwrap();
    assert_eq!(saved.id.len(), 36);
    assert_eq!(saved.query_ir.render(), "{\"kind\":\"Trends\"}");
    let read = resources.get_insight(&project, &saved.id).unwrap();
    assert_eq!(read.name, "A");
    assert_eq!(read.created_by, user);
    let updated = resources
        .update_insight(&project, &saved.id, &draft("B"), QueryVerdict::Supported(query()), NOW + 1)
        .unwrap();
    assert_eq!((updated.name.as_str(), updated.updated_at), ("B", NOW + 1));
    assert!(matches!(
        resources.create_insight(
            &access,
            &project,
            &user,
            &draft("C"),
            QueryVerdict::Invalid("no".into()),
            NOW
        ),
        Err(ControlResourceError::InvalidQuery { .. })
    ));
    resources.delete_insight(&project, &saved.id).unwrap();
    assert!(resources.list_insights(&project).is_empty());
}

#[test]
fn dashboards_hold_tiles_of_their_project() {
    let (access, project, user) = workspace();
    let mut resources = ControlResources::new();
    let insight = resources
        .create_insight(&access, &project, &user, &draft("A"), QueryVerdict::Supported(query()), NOW)
        .unwrap();
    let dashboard = resources
        .create_dashboard(&access, &project, &user, &DashboardDraft { name: "D".into() }, NOW)
        .unwrap();
    assert!(dashboard.tiles.is_empty());
    let tile = |id: &str, w: i32| DashboardTileInput { insight_id: id.into(), x: 0, y: 0, w, h: 3 };
    let filled = resources
        .replace_dashboard_tiles(&project, &dashboard.id, &vec![tile(&insight.id, 4)], NOW)
        .unwrap();
    assert_eq!(filled.tiles.len(), 1);
    assert_eq!(filled.tiles[0].insight.as_ref().unwrap().name, "A");
    assert!(matches!(
        resources.replace_dashboard_tiles(&project, &dashboard.id, &vec![tile(&insight.id, 0)], NOW),
        Err(ControlResourceError::InvalidResource { .. })
    ));
    assert!(resources
        .replace_dashboard_tiles(&project, &dashboard.id, &vec![tile("nowhere", 4)], NOW)
        .is_err());
    assert_eq!(resources.get_dashboard(&project, &dashboard.id).unwrap().tiles.len(), 1);
    resources.delete_insight(&project, &insight.id).unwrap();
    assert!(resources.get_dashboard(&project, &dashboard.id).unwrap().tiles.is_empty());
    resources.update_dashboard(&project, &dashboard.id, &DashboardDraft { name: "E".into() }, NOW).unwrap();
    assert_eq!(resources.list_dashboards(&project)[0].name, "E");
    resources.delete_dashboard(&project, &dashboard.id).unwrap();
    assert!(matches!(
        resources.get_dashboard(&project, &dashboard.id),
        Err(ControlResourceError::NotFound)
    ));
}

#[test]
fn shares_open_until_they_expire() {
    let (access, project, user) = workspace();
    let mut resources = ControlResources::new();
    let insight = resources
        .create_insight(&access, &project, &user, &draft("A"), QueryVerdict::Supported(query()), NOW)
        .unwrap();
    let share = resources
        .create_share(&project, ShareTarget::Insight, &insight.id, &user, Some(NOW + 10), NOW)
        .unwrap();
    assert!(resources.authorize_share_token(&share.token, NOW + 9).is_ok());
    assert!(matches!(
        resources.authorize_share_token(&share.token, NOW + 10),
        Err(ControlResourceError::NotFound)
    ));
    resources.update_share_expiry(&project, &share.id, None).unwrap();
    assert!(resources.authorize_share_token(&share.token, NOW + 1000).is_ok());
    assert_eq!(resources.list_shares(&project).len(), 1);
    assert_eq!(resources.get_share(&project, &share.id).unwrap().object_id, insight.id);
    resources.delete_insight(&project, &insight.id).unwrap();
    assert!(resources.authorize_share_token(&share.token, NOW).is_err());
    assert!(matches!(
        resources.create_share(&project, ShareTarget::Dashboard, "nowhere", &user, None, NOW),
        Err(ControlResourceError::NotFound)
    ));
}

#[test]
fn queries_are_taken_as_they_are_judged() {
    assert!(supported_query_json(QueryVerdict::Supported(query())).is_ok());
    let unsupported = || QueryVerdict::Unsupported {
        query: query(),
        field: "series".into(),
        message: "none".into(),
    };
    assert!(matches!(
        supported_query_json(unsupported()),
        Err(ControlResourceError::InvalidQuery { .. })
    ));
    assert!(matches!(imported_query_json(unsupported()), Ok((_, false))));
    assert!(matches!(imported_query_json(QueryVerdict::Supported(query())), Ok((_, true))));
    assert!(imported_query_json(QueryVerdict::Invalid("x".into())).is_err());
}

#[test]
fn a_share_has_one_target() {
    assert!(matches!(
        share_target(Some("i".into()), None),
        Some((ShareTarget::Insight, id)) if id == "i"
    ));
    assert!(matches!(
        share_target(None, Some("d".into())),
        Some((ShareTarget::Dashboard, id)) if id == "d"
    ));
    assert!(share_target(None, None).is_none());
}

#[test]
fn required_texts_have_bounds() {
    assert!(validate_required("name", "x", 1).is_ok());
    assert!(validate_required("name", " ", 4).is_err());
    assert!(validate_required("name", "xy", 1).is_err());
    assert_eq!((default_tile_width(), default_tile_height()), (4, 3));
}

#[test]
fn foreign_databases_are_refused() {
    assert!(matches!(
        validate_control_database(Some(1), 2, &None),
        Err(ControlResourceError::InvalidStorage)
    ));
    assert!(validate_control_database(None, 2, &None).is_err());
    assert!(!ControlResourceError::NotFound.message().is_empty());
    assert_ne!(
        ControlResourceError::NotFound.message(),
        ControlResourceError::Conflict.message()
    );
}

#[test]
fn tiles_are_shown_in_the_order_given() {
    let (access, project, user) = workspace();
    let mut resources = ControlResources::new();
    let mut ids: Vec<String> = vec![];
    for name in ["A", "B", "C"] {
        let saved = resources
            .create_insight(&access, &project, &user, &draft(name), QueryVerdict::Supported(query()), NOW)
            .unwrap();
        ids.push(saved.id);
    }
    let dashboard = resources
        .create_dashboard(&access, &project, &user, &DashboardDraft { name: "D".into() }, NOW)
        .unwrap();
    let tile = |i: usize| DashboardTileInput {
        insight_id: ids[i].clone(),
        x: i as i32,
        y: 1,
        w: 4,
        h: 3,
    };
    resources
        .replace_dashboard_tiles(&project, &dashboard.id, &vec![tile(0)], NOW)
        .unwrap();
    let filled = resources
        .replace_dashboard_tiles(&project, &dashboard.id, &vec![tile(2), tile(0), tile(1)], NOW)
        .unwrap();
    let names: Vec<String> =
        filled.tiles.iter().map(|t| t.insight.as_ref().unwrap().name.clone()).collect();
    assert_eq!(names, vec!["C", "A", "B"]);
    let places: Vec<i32> = filled.tiles.iter().map(|t| t.x).collect();
    assert_eq!(places, vec![2, 0, 1]);
}

#[test]
fn insights_of_other_projects_stay() {
    let (mut access, project, user) = workspace();
    let owner = Principal { user_id: user.clone(), authentication: Authentication::Session };
    let organization = access.create_organization(&owner, "Second", NOW).unwrap();
    let other = access.create_project(&owner, &organization.id, "App", NOW).unwrap().id;
    let mut resources = ControlResources::new();
    let here = resources
        .create_insight(&access, &project, &user, &draft("A"), QueryVerdict::Supported(query()), NOW)
        .unwrap();
    let there = resources
        .create_insight(&access, &other, &user, &draft("B"), QueryVerdict::Supported(query()), NOW)
        .unwrap();
    resources
        .update_insight(&project, &here.id, &draft("C"), QueryVerdict::Supported(query()), NOW + 1)
        .unwrap();
    assert!(resources.delete_insight(&project, &there.id).is_err());
    resources.delete_insight(&project, &here.id).unwrap();
    assert_eq!(resources.get_insight(&other, &there.id).unwrap().name, "B");
    assert!(resources.get_insight(&project, &there.id).is_err());
}

#[test]
fn refused_changes_leave_no_trace() {
    let (access, project, user) = workspace();
    let mut resources = ControlResources::new();
    let insight = resources
        .create_insight(&access, &project, &user, &draft("A"), QueryVerdict::Supported(query()), NOW)
        .unwrap();
    assert!(resources
        .update_insight(&project, &insight.id, &draft(""), QueryVerdict::Supported(query()), NOW + 1)
        .is_err());
    assert!(resources.create_flag(&access, "nowhere", &flag("f", 10.0), NOW).is_err());
    assert!(resources
        .create_dashboard(&access, &project, &user, &DashboardDraft { name: " ".into() }, NOW)
        .is_err());
    assert!(resources
        .create_share(&project, ShareTarget::Insight, "nowhere", &user, None, NOW)
        .is_err());
    let read = resources.get_insight(&project, &insight.id).unwrap();
    assert_eq!((read.name.as_str(), read.updated_at), ("A", NOW));
    assert!(resources.list_flags("nowhere").is_empty());
    assert!(resources.list_dashboards(&project).is_empty());
    assert!(resources.list_shares(&project).is_empty());
}
