use hoglet::counters::{escape_like, is_like};
use hoglet::event_lake::{candidate_path, relative_to};
use hoglet::flags::{in_rollout, places_below, Percentage};
use hoglet::json::Json;
use hoglet::migration::has_extension;
use hoglet::pipeline::materialize::{event_day, path_comes_before};
use hoglet::text::{is_blank, parse_i64, text_at_most, trim};

fn sqlite_like(connection: &rusqlite::Connection, pattern: &str, text: &str, escape: bool) -> bool {
    let sql = if escape { "SELECT ?2 LIKE ?1 ESCAPE '\\'" } else { "SELECT ?2 LIKE ?1" };
    connection.query_row(sql, [pattern, text], |r| r.get(0)).unwrap()
}

/// All words of up to some length over some letters.
fn words(letters: &[char], length: usize) -> Vec<String> {
    let mut out = vec![String::new()];
    let mut last = vec![String::new()];
    for _ in 0..length {
        let mut next = Vec::new();
        for word in &last {
            for c in letters {
                next.push(format!("{word}{c}"));
            }
        }
        out.extend(next.iter().cloned());
        last = next;
    }
    out
}

#[test]
fn matching_is_that_of_sqlite() {
    let connection = rusqlite::Connection::open_in_memory().unwrap();
    for pattern in words(&['a', 'B', '%', '_'], 3) {
        for text in words(&['a', 'b', 'A', '%'], 3) {
            assert_eq!(
                is_like(&pattern, &text, None),
                sqlite_like(&connection, &pattern, &text, false),
                "{text} LIKE {pattern}"
            );
        }
    }
}

#[test]
fn matching_with_escapes_is_that_of_sqlite() {
    let connection = rusqlite::Connection::open_in_memory().unwrap();
    for prefix in words(&['a', '%', '_', '\\'], 3) {
        let pattern = format!("{}%", escape_like(&prefix));
        for text in words(&['a', '%', '_', '\\'], 3) {
            let found = is_like(&pattern, &text, Some('\\'));
            assert_eq!(found, sqlite_like(&connection, &pattern, &text, true), "{text} LIKE {pattern}");
            assert_eq!(found, text.starts_with(&prefix), "{text} starts with {prefix}");
        }
    }
}

#[test]
fn rendering_is_that_of_serde_json() {
    let texts = [
        "null",
        "[true,false,0,-1,1.5,1e300,18446744073709551615,-9223372036854775808]",
        "{\"b\":{\"z\":[],\"a\":{}},\"a\":\"\\u0000\\u0008\\t\\n\\u000b\\f\\r\\u001f \\\"\\\\/\\u007f\\u00e9\\ud83e\\udd94\"}",
        "[[[[\"x\"]]],{\"\":null}]",
    ];
    for text in texts {
        let value: serde_json::Value = serde_json::from_str(text).unwrap();
        let document = Json::parse(text).unwrap();
        assert_eq!(document.render(), serde_json::to_string(&value).unwrap());
        assert!(Json::parse(&document.render()).unwrap().same(&document));
    }
}

#[test]
fn nesting_has_a_limit() {
    let nested = |n: usize| format!("{}{}", "[".repeat(n), "]".repeat(n));
    assert!(Json::parse(&nested(127)).is_some());
    assert!(Json::parse(&nested(128)).is_none());
}

#[test]
fn days_are_those_of_the_calendar() {
    use_days(-719_000, 2_000_000);
}

fn use_days(from: i64, to: i64) {
    let mut day = from;
    while day < to {
        for second in [0i64, 1, 43_200, 86_399] {
            let at = chrono::DateTime::from_timestamp(day * 86_400 + second, 0).unwrap();
            let expected = chrono::Datelike::num_days_from_ce(&at.date_naive());
            let nanos = i128::from(at.timestamp()) * 1_000_000_000 + 999_999_999;
            assert_eq!(event_day(nanos), expected);
        }
        day += 997;
    }
}

#[test]
fn paths_are_ordered_as_paths_are() {
    let paths = words(&['a', '/', '-', 'b'], 4);
    for a in &paths {
        for b in &paths {
            let (a, b) = (format!("/x{a}"), format!("/x{b}"));
            if a.contains("//") || b.contains("//") || a.ends_with('/') || b.ends_with('/') {
                continue;
            }
            assert_eq!(
                path_comes_before(&a, &b),
                std::path::Path::new(&a) < std::path::Path::new(&b),
                "{a} < {b}"
            );
        }
    }
}

#[test]
fn extensions_are_those_of_paths() {
    for name in words(&['a', '.', 'w'], 5) {
        for extension in ["w", "a", "wa"] {
            let expected = std::path::Path::new(&name).extension().is_some_and(|e| e == extension);
            if name != ".." {
                assert_eq!(has_extension(&name, extension), expected, "{name} {extension}");
            }
        }
    }
}

#[test]
fn roots_and_relative_paths() {
    for (root, path) in [("/r", "/r/a/b"), ("/r/s", "/r/st/a"), ("/r", "/r"), ("/", "/a"), ("/r", "/q")] {
        let expected = std::path::Path::new(path)
            .strip_prefix(root)
            .ok()
            .map(|p| p.to_string_lossy().into_owned());
        assert_eq!(relative_to(root, path), expected, "{root} {path}");
    }
    for (root, path) in [("/r", "a"), ("/r/", "a"), ("/r", "/a")] {
        let expected = std::path::Path::new(root).join(path);
        assert_eq!(candidate_path(root, path).unwrap(), expected.to_string_lossy());
    }
}

#[test]
fn texts_behave_as_strings_do() {
    for c in (0..0x3100u32).filter_map(char::from_u32) {
        let text = format!("{c}a{c}");
        assert_eq!(trim(&text), text.trim(), "{c:?}");
        assert_eq!(is_blank(&c.to_string()), c.to_string().trim().is_empty());
    }
    let all = words(&['a', 'Z', '\u{e9}', '\u{1f994}'], 3);
    for a in &all {
        for b in &all {
            assert_eq!(text_at_most(a, b), a <= b);
        }
    }
    for text in words(&['-', '+', '0', '9', ' '], 4) {
        assert_eq!(parse_i64(&text), text.parse::<i64>().ok(), "{text:?}");
    }
}

#[test]
fn places_agree_with_exact_division() {
    let below = |p: f64| places_below(Percentage { bits: p.to_bits() });
    for k in 0..=102_400u128 {
        let exact = (k * (1 << 50) + 99) / 100;
        assert_eq!(below(k as f64 / 1024.0) as u128, exact, "{k}");
    }
    for k in 1..=100u32 {
        let p = f64::from(k) / 2f64.powi(80);
        let tiny = ((k as u128 + (100 << 20) - 1) / (100 << 20)) as u64;
        assert_eq!(below(p), tiny, "{k}");
    }
    assert_eq!(below(f64::NAN), 0);
    assert_eq!(below(-1.0), 0);
    assert_eq!(below(f64::INFINITY), 1 << 60);
}

#[test]
fn places_are_near_those_of_floating_point_division() {
    let range = (1u64 << 60) as f64;
    let mut state = 0x9e37_79b9_7f4a_7c15u64;
    let mut previous = 0u64;
    let hundred = 100.0f64.to_bits();
    for i in 0..200_000u64 {
        state = state.wrapping_mul(6_364_136_223_846_793_005).wrapping_add(1_442_695_040_888_963_407);
        let bits = match i % 3 {
            0 => state % hundred,
            1 => hundred - 1 - state % (1 << 54),
            _ => 0x3c30_0000_0000_0000 - 100 + (i / 3) % 200,
        };
        let p = f64::from_bits(bits);
        let places = places_below(Percentage { bits });
        let near = p / 100.0 * range;
        assert!((places as f64 - near).abs() <= 1.0 + near * 1e-15, "{p:e}");
        if bits >= previous {
            assert!(places_below(Percentage { bits: previous }) <= places);
        }
        previous = bits;
    }
}

#[test]
fn the_bits_of_a_percentage_decide_its_rollout() {
    for i in 0..300 {
        let user = format!("u{i}");
        let inside = |p: f64| in_rollout("f", &user, Percentage { bits: p.to_bits() });
        assert!(inside(100.0) && !inside(0.0) && !inside(-0.0) && !inside(f64::NAN));
        if inside(12.5) {
            assert!(inside(12.6) && inside(99.999) && inside(250.0));
        }
    }
}
