use hoglet::capture::event::CapturedEvent;
use hoglet::catalog::CatalogStore;
use hoglet::json::{Json, JsonMap};

const NOW: i128 = 1_784_635_200_000_000_000;

fn ev(name: &str, props: Vec<(&str, Json)>) -> CapturedEvent {
    let mut map = JsonMap::new();
    for (k, v) in props {
        map.insert(k, v);
    }
    CapturedEvent {
        uuid: uuid::Uuid::new_v4().as_u128(),
        event: name.into(),
        distinct_id: "u1".into(),
        token: "phc_t".into(),
        timestamp: NOW,
        properties: map,
    }
}

fn json(text: &str) -> Json {
    Json::parse(text).unwrap()
}

#[test]
fn ingest_populates_event_names() {
    let mut catalog = CatalogStore::open_in_memory();
    catalog.ingest(
        &vec![ev("pageview", vec![]), ev("click", vec![]), ev("pageview", vec![])],
        "phc_t",
        NOW,
    );
    let names = catalog.all_event_names("phc_t");
    assert!(names.contains(&"pageview".to_string()));
    assert!(names.contains(&"click".to_string()));
}

#[test]
fn event_names_prefix_search() {
    let mut catalog = CatalogStore::open_in_memory();
    catalog.ingest(
        &vec![
            ev("pageview", vec![]),
            ev("page_load", vec![]),
            ev("purchase", vec![]),
            ev("click", vec![]),
        ],
        "phc_t",
        NOW,
    );
    let names = catalog.event_names("phc_t", "page", 10);
    assert!(names.contains(&"pageview".to_string()));
    assert!(names.contains(&"page_load".to_string()));
    assert!(!names.contains(&"purchase".to_string()));
    assert!(!names.contains(&"click".to_string()));
}

#[test]
fn property_keys_populated_with_type_guesses() {
    let mut catalog = CatalogStore::open_in_memory();
    catalog.ingest(
        &vec![ev(
            "pageview",
            vec![
                ("browser", json("\"Chrome\"")),
                ("count", json("42")),
                ("active", json("true")),
            ],
        )],
        "phc_t",
        NOW,
    );
    let keys = catalog.property_keys("phc_t", "event");
    let browser = keys.iter().find(|k| k.key == "browser").unwrap();
    assert_eq!(browser.type_guess, "string");
    let count = keys.iter().find(|k| k.key == "count").unwrap();
    assert_eq!(count.type_guess, "number");
    let active = keys.iter().find(|k| k.key == "active").unwrap();
    assert_eq!(active.type_guess, "boolean");
}

#[test]
fn property_values_capped() {
    let mut catalog = CatalogStore::open_in_memory();
    let mut events = Vec::new();
    for i in 0..300 {
        events.push(ev("pageview", vec![("tag", json(&format!("\"tag_{i}\"")))]));
    }
    catalog.ingest(&events, "phc_t", NOW);
    let vals = catalog.property_values("phc_t", "tag", "", 300);
    assert!(vals.len() <= 300, "values should be bounded");
    assert_eq!(vals.len(), 200);
}

#[test]
fn separate_tokens_have_separate_catalogs() {
    let mut catalog = CatalogStore::open_in_memory();
    catalog.ingest(&vec![ev("pageview", vec![])], "phc_a", NOW);
    catalog.ingest(&vec![ev("click", vec![])], "phc_b", NOW);

    assert_eq!(catalog.all_event_names("phc_a"), vec!["pageview"]);
    assert_eq!(catalog.all_event_names("phc_b"), vec!["click"]);
}

#[test]
fn names_come_by_when_they_were_last_seen() {
    let mut catalog = CatalogStore::open_in_memory();
    catalog.ingest(&vec![ev("old", vec![]), ev("old", vec![])], "phc_t", NOW);
    catalog.ingest(&vec![ev("new", vec![])], "phc_t", NOW + 1_000_000_000);
    assert_eq!(catalog.event_names("phc_t", "", 10), vec!["new", "old"]);
    assert_eq!(catalog.event_names("phc_t", "", 1), vec!["new"]);
    assert_eq!(catalog.all_event_names("phc_t"), vec!["new", "old"]);
}

#[test]
fn a_prefix_is_a_pattern() {
    let mut catalog = CatalogStore::open_in_memory();
    catalog.ingest(&vec![ev("a_b", vec![]), ev("axb", vec![]), ev("Ayb", vec![])], "phc_t", NOW);
    assert_eq!(catalog.event_names("phc_t", "a_", 10).len(), 3);
    assert_eq!(catalog.event_names("phc_t", "%x", 10), vec!["axb"]);
}

#[test]
fn values_are_of_their_key() {
    let mut catalog = CatalogStore::open_in_memory();
    catalog.ingest(
        &vec![ev("e", vec![("a", json("\"one\"")), ("b", json("2"))])],
        "phc_t",
        NOW,
    );
    assert_eq!(catalog.property_values("phc_t", "a", "", 10), vec!["one"]);
    assert!(catalog.property_values("phc_t", "a", "2", 10).is_empty());
    assert_eq!(catalog.property_keys("phc_t", "event").len(), 2);
    assert!(catalog.property_keys("phc_t", "person").is_empty());
}

#[test]
fn the_values_seen_least_recently_are_dropped() {
    let tagged = |i: usize| ev("pageview", vec![("tag", json(&format!("\"tag_{i}\"")))]);
    let mut catalog = CatalogStore::open_in_memory();
    let mut events = vec![tagged(0), tagged(0), tagged(0), tagged(1)];
    for i in 2..200 {
        events.push(tagged(i));
    }
    catalog.ingest(&events, "phc_t", NOW);
    assert_eq!(catalog.property_values("phc_t", "tag", "", 300).len(), 200);
    catalog.ingest(&vec![tagged(1), tagged(200)], "phc_t", NOW);
    let values = catalog.property_values("phc_t", "tag", "", 300);
    assert_eq!(values.len(), 200);
    assert_eq!(values[0], "tag_1");
    assert!(!values.contains(&"tag_0".to_string()));
    assert!(values.contains(&"tag_2".to_string()));
    assert!(values.contains(&"tag_200".to_string()));
}

#[test]
fn other_tokens_keep_their_values() {
    let mut catalog = CatalogStore::open_in_memory();
    catalog.ingest(&vec![ev("e", vec![("tag", json("\"mine\""))])], "phc_a", NOW);
    let mut events = Vec::new();
    for i in 0..300 {
        events.push(ev("e", vec![("tag", json(&format!("\"tag_{i}\"")))]));
    }
    catalog.ingest(&events, "phc_b", NOW);
    assert_eq!(catalog.property_values("phc_a", "tag", "", 10), vec!["mine"]);
    let kept = catalog.property_values("phc_b", "tag", "", 300);
    assert!(kept.contains(&"tag_299".to_string()) && !kept.contains(&"tag_99".to_string()));
}

#[test]
fn replays_add_nothing() {
    let mut catalog = CatalogStore::open_in_memory();
    let batch = vec![ev("a", vec![("k", json("1"))]), ev("b", vec![("k", json("2"))])];
    catalog.ingest(&batch, "phc_t", NOW);
    catalog.ingest(&batch, "phc_t", NOW + 1);
    assert_eq!(catalog.all_event_names("phc_t").len(), 2);
    assert_eq!(catalog.property_keys("phc_t", "event").len(), 1);
    assert_eq!(catalog.property_values("phc_t", "k", "", 10).len(), 2);
}

#[test]
fn one_batch_drops_only_the_oldest_values_of_its_token() {
    let mut catalog = CatalogStore::open_in_memory();
    let many = |from: usize, to: usize| {
        (from..to).map(|i| ev("e", vec![("k", json(&format!("\"v{i}\"")))])).collect::<Vec<_>>()
    };
    catalog.ingest(&many(0, 150), "phc_other", NOW);
    catalog.ingest(&many(0, 150), "phc_t", NOW);
    let names = |catalog: &CatalogStore, token: &str| {
        let mut names: Vec<String> = catalog
            .property_values
            .rows
            .iter()
            .filter(|r| r.owner == token && r.group == "k")
            .map(|r| r.name.clone())
            .collect();
        names.sort();
        names
    };
    let others = names(&catalog, "phc_other");
    let mut batch = many(0, 10);
    batch.extend(many(150, 260));
    catalog.ingest(&batch, "phc_t", NOW);
    assert_eq!(names(&catalog, "phc_other"), others);
    let left = names(&catalog, "phc_t");
    assert_eq!(left.len(), 200);
    for i in 0..260 {
        let recent = i < 10 || i >= 70;
        assert_eq!(left.contains(&format!("v{i}")), recent, "v{i}");
    }
}
