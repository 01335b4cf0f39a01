use hoglet::capture::event::CapturedEvent;
use hoglet::enrichment::{Enricher, EnrichmentConfig};
use hoglet::json::{Json, JsonMap};

const CHROME: &str = "Mozilla/5.0 (Windows NT 10.0; Win64; x64) AppleWebKit/537.36 (KHTML, like Gecko) Chrome/120.0.0.0 Safari/537.36";

fn event(ip: Option<&str>, ua: Option<&str>) -> CapturedEvent {
    let mut props = JsonMap::new();
    if let Some(ip) = ip {
        props.insert("$ip", Json::text(ip));
    }
    if let Some(ua) = ua {
        props.insert("$user_agent", Json::text(ua));
    }
    CapturedEvent {
        uuid: uuid::Uuid::new_v4().as_u128(),
        event: "pageview".into(),
        distinct_id: "u1".into(),
        token: "phc_t".into(),
        timestamp: 1_784_635_200_000_000_000,
        properties: props,
    }
}

fn property<'a>(ev: &'a CapturedEvent, key: &str) -> Option<&'a str> {
    ev.properties.get(key).and_then(|v| v.as_str()).map(|s| s.as_str())
}

#[test]
fn user_agent_parsing_populates_browser_and_os() {
    let config = EnrichmentConfig {
        user_agent_parse: true,
        cookieless_salt: None,
    };
    let enricher = Enricher::new(config);

    let mut ev = event(Some("1.2.3.4"), Some(CHROME));
    enricher.enrich(&mut ev, Some("1.2.3.4"), Some(CHROME));

    let browser = property(&ev, "$browser");
    assert!(browser.is_some(), "should have set $browser");
    assert_eq!(browser, Some("Chrome"));
    assert_eq!(property(&ev, "$os"), Some("Windows 10"));
}

#[test]
fn does_not_overwrite_existing_properties() {
    let config = EnrichmentConfig {
        user_agent_parse: true,
        cookieless_salt: None,
    };
    let enricher = Enricher::new(config);

    let mut ev = event(Some("1.2.3.4"), Some("Mozilla/5.0 Chrome/120 Safari/537.36"));
    ev.properties.insert("$browser", Json::text("MyCustomBrowser"));
    enricher.enrich(&mut ev, Some("1.2.3.4"), Some("Mozilla/5.0 Chrome/120 Safari/537.36"));

    assert_eq!(
        property(&ev, "$browser"),
        Some("MyCustomBrowser"),
        "should not overwrite client-set properties"
    );
}

#[test]
fn user_agent_parse_can_be_disabled() {
    let config = EnrichmentConfig {
        user_agent_parse: false,
        cookieless_salt: None,
    };
    let enricher = Enricher::new(config);

    let mut ev = event(Some("1.2.3.4"), Some("Chrome/120"));
    enricher.enrich(&mut ev, Some("1.2.3.4"), Some("Chrome/120"));

    assert!(
        ev.properties.get("$browser").is_none(),
        "should not set browser when UA parsing disabled"
    );
}

#[test]
fn cookieless_device_id_generated() {
    let config = EnrichmentConfig {
        user_agent_parse: false,
        cookieless_salt: Some("test_salt".into()),
    };
    let enricher = Enricher::new(config);

    let mut ev = event(Some("1.2.3.4"), None);
    enricher.enrich(&mut ev, Some("1.2.3.4"), None);

    let device_id = property(&ev, "$device_id");
    assert!(device_id.is_some(), "should have generated a $device_id");
    assert!(!device_id.unwrap().is_empty());
}

#[test]
fn cookieless_disabled_without_salt() {
    let config = EnrichmentConfig {
        user_agent_parse: false,
        cookieless_salt: None,
    };
    let enricher = Enricher::new(config);

    let mut ev = event(Some("1.2.3.4"), None);
    enricher.enrich(&mut ev, Some("1.2.3.4"), None);

    assert!(
        ev.properties.get("$device_id").is_none(),
        "should not generate $device_id without salt"
    );
}

#[test]
fn a_device_id_is_of_the_day_and_the_address() {
    let enricher = Enricher::new(EnrichmentConfig {
        user_agent_parse: false,
        cookieless_salt: Some("test_salt".into()),
    });
    let id = |ip: &str, day: &str| {
        let mut ev = event(None, None);
        enricher.enrich_on(&mut ev, Some(ip), None, day);
        property(&ev, "$device_id").unwrap().to_string()
    };
    assert_eq!(id("1.2.3.4", "2026-07-21"), id("1.2.3.4", "2026-07-21"));
    assert_ne!(id("1.2.3.4", "2026-07-21"), id("1.2.3.4", "2026-07-22"));
    assert_ne!(id("1.2.3.4", "2026-07-21"), id("1.2.3.5", "2026-07-21"));
}

#[test]
fn the_environment_configures_enrichment() {
    assert!(EnrichmentConfig::default().user_agent_parse);
    assert!(EnrichmentConfig::from_env(&None, None).user_agent_parse);
    let config = EnrichmentConfig::from_env(&Some("1".into()), Some("s".into()));
    assert!(!config.user_agent_parse);
    assert_eq!(config.cookieless_salt, Some("s".to_string()));
}
