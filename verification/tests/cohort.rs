use hoglet::cohort::{
    behavioral_sql, kind_str, parse_kind, BehaviorResult, CohortDefinition, CohortError,
    CohortKind, CohortOp, CohortStore,
};

const NOW: i64 = 1_784_635_200;

fn texts(items: &[&str]) -> Vec<String> {
    items.iter().map(|s| s.to_string()).collect()
}

#[test]
fn static_cohort_membership() {
    let mut store = CohortStore::open_in_memory().unwrap();
    let c = store
        .create(
            "phc_t",
            "beta",
            CohortKind::Static,
            CohortDefinition::Static {
                distinct_ids: vec!["u1".into(), "u2".into()],
            },
            NOW,
        )
        .unwrap();
    store
        .add_members(&c.id, &vec!["u1".into(), "u2".into()], NOW)
        .unwrap();
    assert!(store.is_member(&c.id, "u1").unwrap());
    assert!(!store.is_member(&c.id, "u3").unwrap());
    store.remove_members(&c.id, &vec!["u1".into()]).unwrap();
    assert!(!store.is_member(&c.id, "u1").unwrap());
}

#[test]
fn list_and_delete() {
    let mut store = CohortStore::open_in_memory().unwrap();
    store
        .create(
            "phc_t",
            "a",
            CohortKind::Static,
            CohortDefinition::Static {
                distinct_ids: vec![],
            },
            NOW,
        )
        .unwrap();
    store
        .create(
            "phc_t",
            "b",
            CohortKind::Static,
            CohortDefinition::Static {
                distinct_ids: vec![],
            },
            NOW,
        )
        .unwrap();
    assert_eq!(store.list("phc_t").unwrap().len(), 2);
    let c = store.list("phc_t").unwrap();
    store.delete(&c[0].id).unwrap();
    assert_eq!(store.list("phc_t").unwrap().len(), 1);
}

#[test]
fn behavioral_members_set_and_get() {
    let mut store = CohortStore::open_in_memory().unwrap();
    let c = store
        .create(
            "phc_t",
            "active",
            CohortKind::Behavioral,
            CohortDefinition::Behavioral {
                event: "pageview".into(),
                operator: CohortOp::Gte,
                count: 3,
                window_days: 7,
            },
            NOW,
        )
        .unwrap();
    store
        .set_members(&c.id, &vec!["u1".into(), "u2".into(), "u3".into()], NOW)
        .unwrap();
    assert_eq!(store.get_members(&c.id).unwrap().len(), 3);
    assert!(store.is_member(&c.id, "u1").unwrap());
}

#[test]
fn behavioral_cohorts_are_evaluated_anew() {
    let mut store = CohortStore::open_in_memory().unwrap();
    let active = store
        .create(
            "phc_t",
            "active",
            CohortKind::Behavioral,
            CohortDefinition::Behavioral {
                event: "pageview".into(),
                operator: CohortOp::Gte,
                count: 3,
                window_days: 7,
            },
            NOW,
        )
        .unwrap();
    store
        .create(
            "phc_t",
            "fixed",
            CohortKind::Static,
            CohortDefinition::Static { distinct_ids: vec![] },
            NOW,
        )
        .unwrap();
    let queries = store.behavioral_queries("phc_t", "/d/**/*.parquet");
    assert_eq!(queries.len(), 1);
    assert_eq!(queries[0].cohort_id, active.id);
    assert_eq!(queries[0].event, "pageview");
    assert_eq!(queries[0].window_days, 7);
    assert_eq!(queries[0].count, 3);
    assert_eq!(queries[0].sql, behavioral_sql("/d/**/*.parquet", CohortOp::Gte));

    store.set_members(&active.id, &texts(&["old"]), NOW).unwrap();
    let results = vec![BehaviorResult { cohort_id: active.id.clone(), members: texts(&["u1", "u2"]) }];
    assert_eq!(store.reevaluate_behavioral(&results, NOW + 1).unwrap(), 1);
    assert!(!store.is_member(&active.id, "old").unwrap());
    assert!(store.is_member(&active.id, "u1").unwrap());
    assert!(store.is_member(&active.id, "u2").unwrap());

    let nobody = vec![BehaviorResult { cohort_id: active.id.clone(), members: vec![] }];
    assert_eq!(store.reevaluate_behavioral(&nobody, NOW + 2).unwrap(), 1);
    assert!(!store.is_member(&active.id, "u1").unwrap());
    assert!(!store.is_member(&active.id, "u2").unwrap());
}

#[test]
fn the_query_compares_as_the_operator_says() {
    assert!(behavioral_sql("g", CohortOp::Gte).contains(">="));
    assert!(behavioral_sql("g", CohortOp::Lte).contains("<="));
    assert!(!behavioral_sql("g", CohortOp::Eq).contains("<="));
    assert!(behavioral_sql("it's", CohortOp::Eq).contains("it"));
}

#[test]
fn kinds_have_names() {
    assert_eq!(kind_str(CohortKind::Static), "static");
    assert_eq!(kind_str(CohortKind::Behavioral), "behavioral");
    assert_eq!(parse_kind("behavioral"), CohortKind::Behavioral);
    assert_eq!(parse_kind("static"), CohortKind::Static);
    assert_eq!(parse_kind("anything"), CohortKind::Static);
}

#[test]
fn unknown_cohorts_are_not_found() {
    let mut store = CohortStore::open_in_memory().unwrap();
    assert!(matches!(store.get("x"), Err(CohortError::NotFound)));
    assert!(store.delete("x").is_ok());
    assert!(matches!(store.add_members("x", &texts(&["u"]), NOW), Err(CohortError::Db(_))));
    assert!(store.list("phc_t").unwrap().is_empty());
}

#[test]
fn a_deleted_cohort_leaves_no_members() {
    let mut store = CohortStore::open_in_memory().unwrap();
    let c = store
        .create(
            "phc_t",
            "beta",
            CohortKind::Static,
            CohortDefinition::Static { distinct_ids: vec![] },
            NOW,
        )
        .unwrap();
    store.add_members(&c.id, &texts(&["u1"]), NOW).unwrap();
    store.delete(&c.id).unwrap();
    assert!(!store.is_member(&c.id, "u1").unwrap());
    assert!(store.get_members(&c.id).unwrap().is_empty());
}

#[test]
fn tokens_list_their_own_cohorts() {
    let mut store = CohortStore::open_in_memory().unwrap();
    for token in ["phc_a", "phc_b"] {
        store
            .create(
                token,
                token,
                CohortKind::Static,
                CohortDefinition::Static { distinct_ids: texts(&["u"]) },
                NOW,
            )
            .unwrap();
    }
    let listed = store.list("phc_b").unwrap();
    assert_eq!(listed.len(), 1);
    assert_eq!(listed[0].name, "phc_b");
}
