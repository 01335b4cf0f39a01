use hoglet::dashboard_store::{
    default_h, default_w, Dashboard, DashboardError, DashboardStore, DashboardTile, SavedInsight,
};
use hoglet::json::Json;

const NOW: i64 = 1_784_635_200;

fn example_insight(token: &str) -> SavedInsight {
    SavedInsight {
        id: String::new(),
        token: token.into(),
        name: "Test insight".into(),
        description: String::new(),
        query_ir: Json::parse("{\"kind\": \"Trends\", \"series\": []}").unwrap(),
        created_by: "u1".into(),
        created_at: 0,
        updated_at: 0,
    }
}

fn dashboard_of(insight_id: &str) -> Dashboard {
    Dashboard {
        id: String::new(),
        token: "phc_t".into(),
        name: "My dashboard".into(),
        tiles: vec![DashboardTile {
            insight_id: insight_id.into(),
            x: 0,
            y: 0,
            w: 6,
            h: 4,
            insight: None,
        }],
        created_by: "u1".into(),
        created_at: 0,
    }
}

#[test]
fn insight_save_and_list() {
    let mut store = DashboardStore::open_in_memory().unwrap();
    let saved = store.save_insight("phc_t", &example_insight("phc_t"), NOW).unwrap();
    assert!(!saved.id.is_empty());

    let list = store.list_insights("phc_t").unwrap();
    assert_eq!(list.len(), 1);
    assert_eq!(list[0].name, "Test insight");

    let got = store.get_insight(&saved.id).unwrap();
    assert_eq!(got.name, "Test insight");

    store.delete_insight(&saved.id).unwrap();
    assert!(store.list_insights("phc_t").unwrap().is_empty());
}

#[test]
fn dashboard_with_tiles() {
    let mut store = DashboardStore::open_in_memory().unwrap();
    let insight = store.save_insight("phc_t", &example_insight("phc_t"), NOW).unwrap();

    let dash = dashboard_of(&insight.id);
    let saved = store.save_dashboard("phc_t", &dash, NOW).unwrap();
    assert_eq!(saved.tiles.len(), 1);

    let loaded = store.get_dashboard(&saved.id).unwrap();
    assert_eq!(loaded.tiles.len(), 1);
    assert!(loaded.tiles[0].insight.is_some());
    assert_eq!(loaded.tiles[0].insight.as_ref().unwrap().name, "Test insight");
}

#[test]
fn share_link_roundtrip() {
    let mut store = DashboardStore::open_in_memory().unwrap();
    let insight = store.save_insight("phc_t", &example_insight("phc_t"), NOW).unwrap();

    let share = store.create_share("insight", &insight.id, "u1", NOW).unwrap();
    assert!(!share.token.is_empty());

    let shared = store.get_shared(&share.token).unwrap();
    assert_eq!(shared.object_type, "insight");
    assert!(shared.insight.is_some());

    store.delete_share(&share.id).unwrap();
}

#[test]
fn a_query_reads_back() {
    let mut store = DashboardStore::open_in_memory().unwrap();
    let saved = store.save_insight("phc_t", &example_insight("phc_t"), NOW).unwrap();
    let got = store.get_insight(&saved.id).unwrap();
    assert_eq!(got.query_ir.render(), "{\"kind\":\"Trends\",\"series\":[]}");
    assert_eq!(got.created_at, NOW);
    assert_eq!(got.updated_at, NOW);
}

#[test]
fn a_saved_insight_is_replaced_under_its_id() {
    let mut store = DashboardStore::open_in_memory().unwrap();
    let mut saved = store.save_insight("phc_t", &example_insight("phc_t"), NOW).unwrap();
    saved.name = "Renamed".into();
    store.save_insight("phc_t", &saved, NOW + 5).unwrap();
    let list = store.list_insights("phc_t").unwrap();
    assert_eq!(list.len(), 1);
    assert_eq!(list[0].name, "Renamed");
    assert_eq!(list[0].created_at, NOW);
    assert_eq!(list[0].updated_at, NOW + 5);
}

#[test]
fn what_is_not_there_is_not_found() {
    let mut store = DashboardStore::open_in_memory().unwrap();
    assert!(matches!(store.get_insight("x"), Err(DashboardError::NotFound)));
    assert!(matches!(store.get_dashboard("x"), Err(DashboardError::NotFound)));
    assert!(matches!(store.get_shared("x"), Err(DashboardError::NotFound)));
    assert!(matches!(store.delete_insight("x"), Err(DashboardError::NotFound)));
    assert!(matches!(store.delete_dashboard("x"), Err(DashboardError::NotFound)));
    assert!(store.delete_share("x").is_ok());
}

#[test]
fn a_tile_needs_its_insight() {
    let mut store = DashboardStore::open_in_memory().unwrap();
    match store.save_dashboard("phc_t", &dashboard_of("nowhere"), NOW) {
        Err(DashboardError::Db(message)) => assert_eq!(message, "FOREIGN KEY constraint failed"),
        _ => panic!("a tile without an insight"),
    }
}

#[test]
fn a_deleted_insight_leaves_the_dashboard_without_its_tile() {
    let mut store = DashboardStore::open_in_memory().unwrap();
    let insight = store.save_insight("phc_t", &example_insight("phc_t"), NOW).unwrap();
    let saved = store.save_dashboard("phc_t", &dashboard_of(&insight.id), NOW).unwrap();
    store.delete_insight(&insight.id).unwrap();
    assert!(store.get_dashboard(&saved.id).unwrap().tiles.is_empty());
}

#[test]
fn a_dashboard_can_be_shared_until_its_link_goes() {
    let mut store = DashboardStore::open_in_memory().unwrap();
    let insight = store.save_insight("phc_t", &example_insight("phc_t"), NOW).unwrap();
    let saved = store.save_dashboard("phc_t", &dashboard_of(&insight.id), NOW).unwrap();
    let share = store.create_share("dashboard", &saved.id, "u1", NOW).unwrap();
    let shared = store.get_shared(&share.token).unwrap();
    assert!(shared.insight.is_none());
    assert_eq!(shared.dashboard.unwrap().name, "My dashboard");
    store.delete_share(&share.id).unwrap();
    assert!(matches!(store.get_shared(&share.token), Err(DashboardError::NotFound)));
}

#[test]
fn tiles_have_a_default_size() {
    assert_eq!((default_w(), default_h()), (4, 3));
}
