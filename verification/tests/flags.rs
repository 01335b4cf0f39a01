use hoglet::flags::{
    in_rollout, pick_variant, place_inside, places_below, Conditions, EvaluatedFlag, FlagStore,
    NumberFact, NumberOrder, Percentage, PropertyFilter, Share, Variant,
};
use hoglet::json::{Json, JsonMap};

const RANGE: f64 = (1u64 << 60) as f64;

fn percent(p: f64) -> Percentage {
    Percentage { bits: p.to_bits() }
}

/// Variants with their percentages, each with the end of its range among a hundred.
fn variants(parts: &[(&str, f64)]) -> Vec<Variant> {
    let mut sum = 0.0;
    let mut out = Vec::new();
    for (key, p) in parts {
        sum += p;
        out.push(Variant {
            key: key.to_string(),
            rollout: Share { bits: p.to_bits(), below: (sum * RANGE).ceil() as u128 },
        });
    }
    out
}

fn props(text: &str) -> JsonMap {
    match Json::parse(text) {
        Some(Json::Object(members)) => JsonMap { members },
        _ => JsonMap::new(),
    }
}

fn eval_with(s: &FlagStore, did: &str, props: &JsonMap, facts: &Vec<NumberFact>) -> Vec<EvaluatedFlag> {
    s.evaluate("phc_t", did, props, &vec![], facts, None)
}

fn eval(s: &FlagStore, did: &str) -> Vec<EvaluatedFlag> {
    eval_with(s, did, &JsonMap::new(), &vec![])
}

fn filter(key: &str, operator: &str, value: &str) -> PropertyFilter {
    PropertyFilter { key: key.into(), operator: operator.into(), value: Json::parse(value).unwrap() }
}

fn only(properties: Vec<PropertyFilter>) -> Option<Conditions> {
    Some(Conditions { cohort_ids: vec![], payload: None, properties })
}

#[test]
fn full_rollout_always_on() {
    let mut s = FlagStore::in_memory();
    s.upsert("phc_t", "new-ui", true, percent(100.0));
    let got = eval(&s, "anyone");
    assert_eq!(got.len(), 1);
    assert_eq!(got[0].key, "new-ui");
    assert!(got[0].enabled);
    assert_eq!(got[0].variant, None);
    assert_eq!(got[0].payload, None);
}

#[test]
fn zero_rollout_always_off() {
    let mut s = FlagStore::in_memory();
    s.upsert("phc_t", "off", true, percent(0.0));
    assert!(!eval(&s, "anyone")[0].enabled);
}

#[test]
fn inactive_flags_excluded() {
    let mut s = FlagStore::in_memory();
    s.upsert("phc_t", "dead", false, percent(100.0));
    assert!(eval(&s, "u").is_empty());
}

#[test]
fn bucketing_is_consistent_and_monotonic() {
    for i in 0..500 {
        let u = format!("u{i}");
        if in_rollout("f", &u, percent(30.0)) {
            assert!(in_rollout("f", &u, percent(60.0)), "user {u} dropped when rollout rose");
        }
    }
}

#[test]
fn rollout_fraction_roughly_accurate() {
    let n = 2000;
    let on = (0..n).filter(|i| in_rollout("f", &format!("u{i}"), percent(50.0))).count();
    assert!((0.42..0.58).contains(&(on as f64 / n as f64)));
}

#[test]
fn a_rollout_ends_at_its_exact_place() {
    let half = 1u64 << 59;
    assert_eq!(places_below(percent(50.0)), half);
    assert!(place_inside(half - 1, percent(50.0)));
    assert!(!place_inside(half, percent(50.0)));
    assert_eq!(places_below(percent(30.0)), 345_876_451_382_054_093);
    assert!(place_inside(345_876_451_382_054_092, percent(30.0)));
    assert!(!place_inside(345_876_451_382_054_093, percent(30.0)));
    let last = (1u64 << 60) - 1;
    assert!(place_inside(last, percent(100.0)));
    assert!(!place_inside(last, percent(99.0)));
}

#[test]
fn the_smallest_percentage_takes_the_first_place() {
    for bits in [1, 50, 51, 1 << 52] {
        let p = Percentage { bits };
        assert!(place_inside(0, p) && !place_inside(1, p));
    }
    assert!(!place_inside(0, percent(0.0)));
    assert!(!place_inside(0, percent(-0.0)));
    assert!(!place_inside(0, percent(-5.0)));
    assert!(!place_inside(0, percent(f64::NAN)));
}

#[test]
fn multivariate_returns_a_variant() {
    let mut s = FlagStore::in_memory();
    s.upsert_full(
        "phc_t",
        "exp",
        true,
        percent(100.0),
        variants(&[("control", 50.0), ("test", 50.0)]),
        None,
    );
    let f = &eval(&s, "user-1")[0];
    assert!(f.enabled);
    assert!(matches!(f.variant.as_deref(), Some("control") | Some("test")));
}

#[test]
fn variant_split_is_roughly_even() {
    let mut s = FlagStore::in_memory();
    s.upsert_full(
        "phc_t",
        "exp",
        true,
        percent(100.0),
        variants(&[("a", 50.0), ("b", 50.0)]),
        None,
    );
    let mut a = 0;
    for i in 0..2000 {
        if eval(&s, &format!("u{i}"))[0].variant.as_deref() == Some("a") {
            a += 1;
        }
    }
    assert!((0.42..0.58).contains(&(a as f64 / 2000.0)), "split {a}/2000");
}

#[test]
fn condition_gates_on_person_property() {
    let mut s = FlagStore::in_memory();
    s.upsert_full(
        "phc_t",
        "pro-only",
        true,
        percent(100.0),
        vec![],
        only(vec![filter("plan", "exact", "\"pro\"")]),
    );
    let pro = eval_with(&s, "u", &props(r#"{"plan": "pro"}"#), &vec![]);
    assert!(pro[0].enabled);
    let free = eval_with(&s, "u", &props(r#"{"plan": "free"}"#), &vec![]);
    assert!(!free[0].enabled);
    let none = eval_with(&s, "u", &JsonMap::new(), &vec![]);
    assert!(!none[0].enabled);
}

#[test]
fn numeric_gt_condition() {
    let mut s = FlagStore::in_memory();
    s.upsert_full(
        "phc_t",
        "whales",
        true,
        percent(100.0),
        vec![],
        only(vec![filter("spend", "gt", "100")]),
    );
    let fact = |order| {
        vec![NumberFact { key: "spend".into(), expected: Json::parse("100").unwrap(), order }]
    };
    assert!(eval_with(&s, "u", &props(r#"{"spend": 500}"#), &fact(NumberOrder::Greater))[0].enabled);
    assert!(!eval_with(&s, "u", &props(r#"{"spend": 50}"#), &fact(NumberOrder::Less))[0].enabled);
}

#[test]
fn list_reports_variants_and_active() {
    let mut s = FlagStore::in_memory();
    s.upsert("phc_t", "b", false, percent(25.0));
    s.upsert_full("phc_t", "a", true, percent(100.0), variants(&[("x", 100.0)]), None);
    let list = s.list("phc_t");
    let a = list.iter().find(|f| f.key == "a").unwrap();
    assert!(a.active && a.variants.len() == 1);
    let b = list.iter().find(|f| f.key == "b").unwrap();
    assert!(!b.active && f64::from_bits(b.rollout_percentage.bits) == 25.0);
}

#[test]
fn the_operators_of_a_condition() {
    let enabled = |operator: &str, value: &str, given: &str, facts: Vec<NumberFact>| {
        let mut s = FlagStore::in_memory();
        s.upsert_full(
            "phc_t",
            "f",
            true,
            percent(100.0),
            vec![],
            only(vec![filter("p", operator, value)]),
        );
        eval_with(&s, "u", &props(given), &facts)[0].enabled
    };
    assert!(enabled("exact", "\"a\"", r#"{"p":"a"}"#, vec![]));
    assert!(!enabled("exact", "\"a\"", r#"{"p":"b"}"#, vec![]));
    assert!(enabled("is_not", "\"a\"", r#"{"p":"b"}"#, vec![]));
    assert!(enabled("icontains", "\"HOG\"", r#"{"p":"a hoglet"}"#, vec![]));
    assert!(!enabled("icontains", "\"cat\"", r#"{"p":"a hoglet"}"#, vec![]));
    assert!(!enabled("gt", "1", r#"{"p":"a"}"#, vec![]));
    let fact = vec![NumberFact {
        key: "p".into(),
        expected: Json::parse("1").unwrap(),
        order: NumberOrder::Less,
    }];
    assert!(enabled("lt", "1", r#"{"p":0}"#, fact));
}

#[test]
fn conditions_ask_for_cohorts_and_hand_out_payloads() {
    let mut s = FlagStore::in_memory();
    s.upsert_full(
        "phc_t",
        "beta",
        true,
        percent(100.0),
        vec![],
        Some(Conditions {
            cohort_ids: vec!["c1".into()],
            payload: Some("{\"k\":1}".into()),
            properties: vec![],
        }),
    );
    let inside = s.evaluate("phc_t", "u", &JsonMap::new(), &vec!["c1".into()], &vec![], None);
    assert!(inside[0].enabled);
    assert_eq!(inside[0].payload.as_deref(), Some("{\"k\":1}"));
    let outside = eval(&s, "u");
    assert!(!outside[0].enabled);
    assert_eq!(outside[0].payload.as_deref(), Some("{\"k\":1}"));
}

#[test]
fn a_variant_follows_from_the_person() {
    let split = variants(&[("a", 50.0), ("b", 50.0)]);
    assert_eq!(pick_variant("f", "u1", &split), pick_variant("f", "u1", &split));
    let whole = variants(&[("a", 100.0), ("b", 0.0)]);
    for i in 0..100 {
        assert_eq!(pick_variant("f", &format!("u{i}"), &whole), "a");
    }
}

#[test]
fn the_first_seen_key_stands_for_the_person() {
    let mut s = FlagStore::in_memory();
    s.upsert("phc_t", "f", true, percent(50.0));
    for i in 0..50 {
        let first = format!("u{i}");
        let own = s.evaluate("phc_t", &first, &JsonMap::new(), &vec![], &vec![], None);
        let later = s.evaluate("phc_t", "later", &JsonMap::new(), &vec![], &vec![], Some(&first));
        assert_eq!(own[0].enabled, later[0].enabled);
    }
}

#[test]
fn projects_have_flags_of_their_own() {
    let mut s = FlagStore::in_memory();
    s.upsert("phc_t", "f", true, percent(100.0));
    s.upsert("phc_other", "g", true, percent(100.0));
    assert_eq!(eval(&s, "u").len(), 1);
    assert_eq!(s.list("phc_other").len(), 1);
    assert_eq!(s.list("phc_other")[0].key, "g");
}
