use hoglet::capture::event::CapturedEvent;
use hoglet::identity::IdentityStore;
use hoglet::json::{Json, JsonMap};

fn event(name: &str, distinct_id: &str, props: &str) -> CapturedEvent {
    CapturedEvent {
        uuid: uuid::Uuid::new_v4().as_u128(),
        event: name.into(),
        distinct_id: distinct_id.into(),
        token: "phc_t".into(),
        timestamp: 1_784_635_200_000_000_000,
        properties: match Json::parse(props) {
            Some(Json::Object(members)) => JsonMap { members },
            _ => JsonMap::new(),
        },
    }
}

fn text(props: &JsonMap, key: &str) -> String {
    props.get(key).and_then(|v| v.as_str()).unwrap().clone()
}

#[test]
fn anonymous_event_creates_person() {
    let mut store = IdentityStore::in_memory();
    store.process(&event("click", "anon1", "null"));
    assert!(store.person_of("phc_t", "anon1").is_some());
    assert_eq!(store.person_count("phc_t"), 1);
}

#[test]
fn identify_stitches_anon_history_once() {
    let mut store = IdentityStore::in_memory();
    store.process(&event("click", "anon1", "null"));
    store.process(&event("$identify", "user@x.com", r#"{"$anon_distinct_id": "anon1"}"#));
    assert_eq!(
        store.person_of("phc_t", "anon1"),
        store.person_of("phc_t", "user@x.com")
    );
    assert_eq!(store.person_count("phc_t"), 1);
}

#[test]
fn identify_refuses_merging_identified_person() {
    let mut store = IdentityStore::in_memory();
    store.process(&event("$identify", "a@x.com", r#"{"$anon_distinct_id": "anon_a"}"#));
    store.process(&event("$identify", "b@x.com", r#"{"$anon_distinct_id": "anon_b"}"#));
    store.process(&event("$identify", "a@x.com", r#"{"$anon_distinct_id": "b@x.com"}"#));
    assert_ne!(
        store.person_of("phc_t", "a@x.com"),
        store.person_of("phc_t", "b@x.com")
    );
    assert_eq!(store.person_count("phc_t"), 2);
}

#[test]
fn merge_dangerously_overrides_refusal() {
    let mut store = IdentityStore::in_memory();
    store.process(&event("$identify", "a@x.com", r#"{"$anon_distinct_id": "anon_a"}"#));
    store.process(&event("$identify", "b@x.com", r#"{"$anon_distinct_id": "anon_b"}"#));
    store.process(&event("$merge_dangerously", "a@x.com", r#"{"alias": "b@x.com"}"#));
    assert_eq!(
        store.person_of("phc_t", "a@x.com"),
        store.person_of("phc_t", "b@x.com")
    );
    assert_eq!(store.person_count("phc_t"), 1);
}

#[test]
fn winner_properties_beat_loser() {
    let mut store = IdentityStore::in_memory();
    store.process(&event("click", "anon1", r#"{"$set": {"plan": "free", "source": "ad"}}"#));
    store.process(&event("click", "user@x.com", r#"{"$set": {"plan": "pro"}}"#));
    store.process(&event("$identify", "user@x.com", r#"{"$anon_distinct_id": "anon1"}"#));
    let props = store.person_properties("phc_t", "user@x.com").unwrap();
    assert_eq!(text(&props, "plan"), "pro");
    assert_eq!(text(&props, "source"), "ad");
}

#[test]
fn self_merge_is_noop() {
    let mut store = IdentityStore::in_memory();
    store.process(&event("$identify", "u", r#"{"$anon_distinct_id": "u"}"#));
    assert_eq!(store.person_count("phc_t"), 1);
}

#[test]
fn set_once_does_not_overwrite() {
    let mut store = IdentityStore::in_memory();
    store.process(&event("e", "u", r#"{"$set_once": {"first_seen": "jan"}}"#));
    store.process(&event("e", "u", r#"{"$set_once": {"first_seen": "feb"}}"#));
    let props = store.person_properties("phc_t", "u").unwrap();
    assert_eq!(text(&props, "first_seen"), "jan");
}

#[test]
fn merge_order_permutations_converge() {
    let anon_ids = ["anon_a", "anon_b", "anon_c"];
    let build_ops = || {
        anon_ids
            .iter()
            .map(|anon| {
                event(
                    "$identify",
                    "user@x.com",
                    &format!("{{\"$anon_distinct_id\": \"{anon}\"}}"),
                )
            })
            .collect::<Vec<_>>()
    };

    let permutations: Vec<Vec<usize>> = vec![
        vec![0, 1, 2],
        vec![0, 2, 1],
        vec![1, 0, 2],
        vec![1, 2, 0],
        vec![2, 0, 1],
        vec![2, 1, 0],
    ];

    for perm in permutations {
        let mut store = IdentityStore::in_memory();
        for &i in perm.iter().rev() {
            store.process(&event("click", anon_ids[i], "null"));
        }
        let ops = build_ops();
        for &i in &perm {
            store.process(&ops[i]);
        }
        assert_eq!(store.person_count("phc_t"), 1, "perm {perm:?} diverged");
        let user = store.person_of("phc_t", "user@x.com");
        for anon in &anon_ids {
            assert_eq!(store.person_of("phc_t", anon), user, "perm {perm:?}");
        }
    }
}

#[test]
fn set_overwrites() {
    let mut store = IdentityStore::in_memory();
    store.process(&event("e", "u", r#"{"$set": {"plan": "free"}}"#));
    store.process(&event("e", "u", r#"{"$set": {"plan": "pro"}, "$set_once": {"plan": "none"}}"#));
    assert_eq!(text(&store.person_properties("phc_t", "u").unwrap(), "plan"), "pro");
}

#[test]
fn strangers_have_no_person() {
    let store = IdentityStore::in_memory();
    assert_eq!(store.person_of("phc_t", "nobody"), None);
    assert_eq!(store.person_count("phc_t"), 0);
    assert!(store.person_properties("phc_t", "nobody").is_none());
}

#[test]
fn an_alias_joins_two_ids() {
    let mut store = IdentityStore::in_memory();
    store.process(&event("$create_alias", "user", r#"{"alias": "anon"}"#));
    assert_eq!(store.person_of("phc_t", "anon"), store.person_of("phc_t", "user"));
    assert_eq!(store.person_count("phc_t"), 1);
}
