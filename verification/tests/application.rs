use hoglet::application::{
    check_startup, data_directory, listen_address, read_command, recoverable_fresh_bootstrap,
    ApplicationConfig, ApplicationError, Command, PairFiles, DEFAULT_MAX_EVENTS_PER_SECOND,
};
use hoglet::auth::AuthStore;
use hoglet::dashboard_store::DashboardStore;
use hoglet::demo::{
    make_event, seed_dashboard, seed_events, seed_flags, should_seed, DemoDraw, DEMO_EVENTS,
};
use hoglet::flags::FlagStore;
use hoglet::middleware::auth::{extract_session, is_gated, AuthLayerState, Verdict};
use hoglet::migration::{StorageDisposition, StorageMetadata};

const NOW: i64 = 1_784_635_200;
const NOON: i128 = 1_784_635_200_000_000_000;

#[test]
fn settings_have_defaults() {
    let mut config = ApplicationConfig::new("/d");
    assert_eq!(config.max_events_per_second, DEFAULT_MAX_EVENTS_PER_SECOND);
    config.set_limit(&Some("250".into()));
    assert_eq!(config.max_events_per_second, 250);
    config.set_limit(&Some("many".into()));
    config.set_limit(&None);
    assert_eq!(config.max_events_per_second, 250);
    assert_eq!(listen_address(&None), "0.0.0.0:8000");
    assert_eq!(listen_address(&Some("127.0.0.1:9".into())), "127.0.0.1:9");
    assert_eq!(data_directory(&None), "hoglet-data");
    assert_eq!(data_directory(&Some("/x".into())), "/x");
}

#[test]
fn there_is_one_command() {
    assert!(matches!(read_command(&None), Ok(Command::Serve)));
    assert!(matches!(read_command(&Some("migrate".into())), Ok(Command::Migrate)));
    match read_command(&Some("go\n".into())) {
        Err(m) => assert_eq!(m, "unknown command \"go\\n\"; expected `migrate`"),
        Ok(_) => panic!("an unknown command"),
    }
}

#[test]
fn startup_keeps_off_legacy_storage() {
    let none = PairFiles {
        control_exists: false,
        projections_is_file: false,
        control_migrating_is_file: false,
        projections_migrating_exists: false,
    };
    let cut = PairFiles { projections_is_file: true, control_migrating_is_file: true, ..none };
    assert!(recoverable_fresh_bootstrap(cut));
    assert!(!recoverable_fresh_bootstrap(none));
    let incomplete = StorageDisposition::MigrationIncomplete;
    assert!(check_startup(&StorageDisposition::Fresh, none, false, "/d").is_ok());
    assert!(check_startup(&incomplete, cut, false, "/d").is_ok());
    assert!(matches!(
        check_startup(&incomplete, cut, true, "/d"),
        Err(ApplicationError::MigrationIncomplete { .. })
    ));
    match check_startup(&StorageDisposition::LegacyOnly, none, true, "/d") {
        Err(e) => assert!(e.message().contains("/d")),
        Ok(()) => panic!("legacy storage was taken"),
    }
    let metadata =
        StorageMetadata { pair_id: "p".into(), current_generation_id: 1, data_epoch: 1 };
    assert!(check_startup(&StorageDisposition::ReadyV2(metadata), none, true, "/d").is_ok());
}

#[test]
fn sessions_are_found_among_cookies() {
    assert_eq!(extract_session("a=b; hoglet_sid=xyz; c=d"), Some("xyz".to_string()));
    assert_eq!(extract_session("a=b"), None);
}

#[test]
fn paths_are_gated() {
    for open in ["/e", "/batch/", "/api/auth/login", "/shared/x", "/login.html", "/static/a.js"] {
        assert!(!is_gated(open), "{open}");
    }
    for closed in ["/", "/dashboard", "/api/query"] {
        assert!(is_gated(closed), "{closed}");
    }
}

#[test]
fn gated_requests_need_credentials() {
    let mut layer = AuthLayerState { store: Some(AuthStore::open_in_memory().unwrap()) };
    assert_eq!(layer.require_auth("/", None, None, NOW).location(), Some("/setup.html"));
    let (user, sid, key) = {
        let store = layer.store.as_mut().unwrap();
        let (user, _, _) = store.setup("a@b.com", "pass123", "O", NOW).unwrap();
        let (_, sid) = store.login("a@b.com", "pass123", NOW).unwrap();
        let (_, key) = store.create_api_key(&user.id, "k", NOW).unwrap();
        (user, sid, key)
    };
    assert_eq!(layer.require_auth("/", None, None, NOW).location(), Some("/login.html"));
    assert!(matches!(layer.require_auth("/api/query", None, None, NOW), Verdict::Unauthorized));
    let cookie = format!("hoglet_sid={sid}");
    assert!(matches!(layer.require_auth("/", Some(&cookie), None, NOW), Verdict::Pass));
    let bearer = format!("Bearer {key}");
    match layer.require_auth("/api/query", None, Some(&bearer), NOW) {
        Verdict::PassAs(found) => assert_eq!(found.id, user.id),
        _ => panic!("a key was refused"),
    }
    assert!(matches!(layer.require_auth("/e", None, None, NOW), Verdict::Pass));
    let mut open = AuthLayerState { store: None };
    assert!(matches!(open.require_auth("/", None, None, NOW), Verdict::Pass));
}

#[test]
fn the_sample_is_seeded_on_demand() {
    assert!(should_seed("1", Some(0)));
    assert!(should_seed("1", None));
    assert!(!should_seed("1", Some(2)));
    assert!(!should_seed("0", Some(0)));
}

#[test]
fn sample_events_are_recent() {
    let events = seed_events(NOON);
    assert_eq!(events.len(), DEMO_EVENTS);
    for e in &events {
        assert!(e.timestamp <= NOON + 86_400_000_000_000);
        assert!(e.timestamp >= NOON - 91 * 86_400_000_000_000);
    }
    let uuids: std::collections::HashSet<u128> = events.iter().map(|e| e.uuid).collect();
    assert_eq!(uuids.len(), events.len());
}

#[test]
fn a_sample_event_follows_its_draw() {
    let draw = DemoDraw {
        uuid: 5,
        person: 0,
        kind: 0,
        hour: 0,
        minute: 0,
        browser: 0,
        country: 0,
        target: 0,
    };
    let a = make_event(NOON, 0, draw);
    assert_eq!(a.uuid, 5);
    let b = make_event(NOON, 1, draw);
    assert_eq!(b.timestamp - a.timestamp, 86_400_000_000_000);
    assert_eq!(a.token, b.token);
}

#[test]
fn the_sample_has_flags_and_a_dashboard() {
    let mut flags = FlagStore::in_memory();
    seed_flags(&mut flags);
    assert!(!flags.flags.is_empty());
    let mut store = DashboardStore::open_in_memory().unwrap();
    seed_dashboard(&mut store, NOW);
    assert_eq!(store.insights.len(), 2);
    assert_eq!(store.dashboards.len(), 1);
    let dashboard = store.get_dashboard(&store.dashboards[0].id).unwrap();
    assert_eq!(dashboard.tiles.len(), 2);
    assert!(dashboard.tiles.iter().all(|t| t.insight.is_some()));
}
