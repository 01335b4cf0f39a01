use hoglet::counters::{escape_like, is_like, CountTable};
use hoglet::digest::{hex_number_text, hyphenate, sha256_hex, simple_text, uuid_text};
use hoglet::flags::{contains, hash_place, is_percentage};
use hoglet::json::{Json, JsonMap};
use hoglet::text::{
    decimal_text, ends_with, first_chars, is_blank, joined, lower, parse_i64, starts_with,
    strip_prefix, text_at_most, trim,
};
use hoglet::text_map::TextMap;
use sha1::Digest;

#[test]
fn digests_are_the_known_ones() {
    assert_eq!(
        sha256_hex(b"abc"),
        "ba7816bf8f01cfea414140de5dae2223b00361a396177a9cb410ff61f20015ad"
    );
    assert_eq!(
        sha256_hex(b""),
        "e3b0c44298fc1c149afbf4c8996fb92427ae41e4649b934ca495991b7852b855"
    );
}

#[test]
fn a_place_is_the_head_of_a_sha1() {
    let digest = sha1_hex(b"f.u1");
    let head = u64::from_str_radix(&digest[..15], 16).unwrap();
    assert_eq!(hash_place("f", "u1", ""), head);
    let salted = sha1_hex(b"f.u1variant");
    let head = u64::from_str_radix(&salted[..15], 16).unwrap();
    assert_eq!(hash_place("f", "u1", "variant"), head);
}

fn sha1_hex(bytes: &[u8]) -> String {
    hex::encode(sha1::Sha1::digest(bytes))
}

#[test]
fn uuids_have_texts() {
    let n = 0x0123_4567_89ab_cdef_0123_4567_89ab_cdef_u128;
    assert_eq!(uuid_text(n), "01234567-89ab-cdef-0123-456789abcdef");
    assert_eq!(simple_text(n), "0123456789abcdef0123456789abcdef");
    assert_eq!(hyphenate(&simple_text(n)), uuid_text(n));
    assert_eq!(hex_number_text(255), "ff");
}

#[test]
fn patterns_match_as_in_sql() {
    assert!(is_like("a%c", "abbc", None));
    assert!(is_like("a_c", "aBc", None));
    assert!(is_like("A%", "abc", None));
    assert!(!is_like("a_c", "ac", None));
    assert!(is_like("a\\_c", "a_c", Some('\\')));
    assert!(!is_like("a\\_c", "abc", Some('\\')));
    assert_eq!(escape_like("50%_\\"), "50\\%\\_\\\\");
}

#[test]
fn counts_add_up() {
    let mut table = CountTable::new();
    table.touch("o", "g", "a", "l", 5, false);
    table.touch("o", "g", "a", "l", 3, true);
    table.touch("o", "g", "b", "l", 4, false);
    let rows = table.most_frequent("o", "g", None, None, 10);
    assert_eq!(rows.len(), 2);
    assert_eq!((rows[0].row.name.as_str(), rows[0].row.count), ("a", 2));
    assert_eq!(rows[0].row.last_seen, 5);
    let rows = table.most_recent("o", "g", Some("b%"), None, 10);
    assert_eq!(rows.len(), 1);
    assert!(table.most_recent("other", "g", None, None, 10).is_empty());
}

#[test]
fn json_reads_and_renders() {
    let text = "{\"a\":[1,true,null,\"x\\ny\"],\"b\":{\"c\":1.5}}";
    let value = Json::parse(text).unwrap();
    assert_eq!(value.render(), text);
    assert_eq!(value.get("b").unwrap().value_type(), "object");
    assert!(Json::parse("{").is_none());
    assert_eq!(Json::parse("42").unwrap().as_i64(), Some(42));
    assert_eq!(Json::parse("\"x\"").unwrap().value_text(), "x");
    assert!(Json::parse("null").unwrap().is_null());
    assert_eq!(Json::text("a\"b").render(), "\"a\\\"b\"");
    let mut map = JsonMap::new();
    map.insert("k", Json::text("v"));
    map.insert("k", Json::text("w"));
    assert_eq!(map.members.len(), 1);
    assert!(map.same(&map.copy()));
    assert!(value.same(&value.copy()));
}

#[test]
fn the_last_of_two_members_counts() {
    let value = Json::parse("{\"a\":1,\"a\":2}").unwrap();
    assert_eq!(value.get("a").unwrap().as_i64(), Some(2));
}

#[test]
fn texts_are_taken_apart() {
    assert_eq!(trim(" \t a b\u{a0}\n"), "a b");
    assert!(is_blank(" \u{3000}"));
    assert_eq!(lower("ABCd"), "abcd");
    assert_eq!(first_chars("h\u{e9}llo", 2), "h\u{e9}");
    assert_eq!(joined("a", "b"), "ab");
    assert_eq!(strip_prefix("Bearer x", "Bearer "), Some("x".to_string()));
    assert!(starts_with("abc", "ab") && ends_with("abc", "bc"));
    assert_eq!(decimal_text(u64::MAX), "18446744073709551615");
    assert_eq!(parse_i64("-9223372036854775808"), Some(i64::MIN));
    assert_eq!(parse_i64("9223372036854775808"), None);
    assert_eq!(parse_i64("+5"), Some(5));
    assert_eq!(parse_i64(""), None);
    assert!(text_at_most("a", "b") && !text_at_most("b", "a"));
    assert!(contains("hoglet", "gle") && !contains("hoglet", "cat"));
}

#[test]
fn percentages_are_from_zero_to_a_hundred() {
    assert!(is_percentage(f64::to_bits(0.0)));
    assert!(is_percentage(f64::to_bits(100.0)));
    assert!(is_percentage(f64::to_bits(33.3)));
    assert!(!is_percentage(f64::to_bits(100.1)));
    assert!(!is_percentage(f64::to_bits(-0.1)));
    assert!(!is_percentage(f64::to_bits(f64::NAN)));
    assert!(!is_percentage(f64::to_bits(f64::INFINITY)));
}

#[test]
fn a_text_map_keeps_the_last_value() {
    let mut map = TextMap::new();
    map.insert("k", "a");
    map.insert("k", "b");
    assert_eq!(map.get("k").map(|s| s.as_str()), Some("b"));
    assert!(!map.contains_key("x"));
}

#[test]
fn the_two_zeros_are_equal() {
    let parse = |text: &str| Json::parse(text).unwrap();
    assert!(parse("0.0").same(&parse("-0.0")));
    assert!(parse("[{\"a\":-0}]").same(&parse("[{\"a\":0.0}]")));
    assert!(!parse("0").same(&parse("0.0")));
    assert!(!parse("1.5").same(&parse("-1.5")));
    for (a, b) in [("0.0", "-0.0"), ("-0", "0.0"), ("0", "-0"), ("1", "1.0"), ("[1]", "[1]")] {
        let theirs: (serde_json::Value, serde_json::Value) =
            (serde_json::from_str(a).unwrap(), serde_json::from_str(b).unwrap());
        assert_eq!(parse(a).same(&parse(b)), theirs.0 == theirs.1, "{a} {b}");
    }
}
