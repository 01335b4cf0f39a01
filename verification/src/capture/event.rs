//! Request-body parsing and per-event field resolution.
//!
//! A body is an array of events, a batch object, one event, or a person update without an event
//! name. Token, distinct id, timestamp and uuid each have their own order of precedence.
//! An instant is the number of nanoseconds since the Unix epoch.
use vstd::prelude::*;
use vstd::string::*;

use crate::json::{alike_maps, member, members_map, members_model, parsed_json, rendered, Json, JsonMap, JsonValue, copy_members};
use crate::text::{blank, chars_of, is_blank, is_digit, joined, parse_i64, same, signed_of, string_of};

verus! {

/// A distinct id keeps at most this many characters.
pub const MAX_DISTINCT_ID_CHARS: usize = 200;

/// Nanoseconds in the 23 hours that an event may lie ahead.
pub const MAX_FUTURE_NANOS: i128 = 82_800_000_000_000;

/// Instants within this distance of the epoch are far inside the range of `i128`.
pub const MAX_INSTANT: i128 = 0x1_0000_0000_0000_0000_0000_0000;

/// Whether an instant is within [`MAX_INSTANT`].
pub open spec fn instant_ok(t: int) -> bool {
    -MAX_INSTANT <= t <= MAX_INSTANT
}

/// An event with every field resolved.
pub struct CapturedEvent {
    pub uuid: u128,
    pub event: String,
    pub distinct_id: String,
    pub token: String,
    pub timestamp: i128,
    pub properties: JsonMap,
}

/// The mathematical value of a captured event.
pub struct EventModel {
    pub uuid: u128,
    pub event: Seq<char>,
    pub distinct_id: Seq<char>,
    pub token: Seq<char>,
    pub timestamp: int,
    pub properties: Map<Seq<char>, JsonValue>,
}

impl View for CapturedEvent {
    type V = EventModel;

    open spec fn view(&self) -> EventModel {
        EventModel {
            uuid: self.uuid,
            event: self.event@,
            distinct_id: self.distinct_id@,
            token: self.token@,
            timestamp: self.timestamp as int,
            properties: self.properties@,
        }
    }
}

/// Whether two events are equal in every field.
pub open spec fn alike_events(a: EventModel, b: EventModel) -> bool {
    &&& a.uuid == b.uuid
    &&& a.event == b.event
    &&& a.distinct_id == b.distinct_id
    &&& a.token == b.token
    &&& a.timestamp == b.timestamp
    &&& alike_maps(a.properties, b.properties)
}

impl CapturedEvent {
    /// The same event.
    pub fn copy(&self) -> (r: CapturedEvent)
        ensures
            r@ == self@,
    {
        CapturedEvent {
            uuid: self.uuid,
            event: self.event.clone(),
            distinct_id: self.distinct_id.clone(),
            token: self.token.clone(),
            timestamp: self.timestamp,
            properties: self.properties.copy(),
        }
    }

    /// Whether another event is equal in every field.
    pub fn same(&self, other: &CapturedEvent) -> (r: bool)
        ensures
            r == alike_events(self@, other@),
    {
        self.uuid == other.uuid && same(self.event.as_str(), other.event.as_str()) && same(
            self.distinct_id.as_str(),
            other.distinct_id.as_str(),
        ) && same(self.token.as_str(), other.token.as_str()) && self.timestamp == other.timestamp
            && self.properties.same(&other.properties)
    }
}

/// Why a body is refused.
#[derive(Debug, Clone, Copy, PartialEq, Eq)]
pub enum CaptureError {
    /// The body or a field of it is malformed.
    Malformed(&'static str),
    /// The token is missing, mismatched or invalid.
    Unauthorized(&'static str),
}

/// The mathematical value of a [`CaptureError`].
pub enum CaptureFault {
    Malformed(Seq<char>),
    Unauthorized(Seq<char>),
}

impl View for CaptureError {
    type V = CaptureFault;

    open spec fn view(&self) -> CaptureFault {
        match self {
            CaptureError::Malformed(s) => CaptureFault::Malformed(s@),
            CaptureError::Unauthorized(s) => CaptureFault::Unauthorized(s@),
        }
    }
}

/// A parsed request.
pub struct ParsedBatch {
    pub events: Vec<CapturedEvent>,
    pub historical_migration: bool,
}

// ── Timestamps ────────────────────────────────────────────────────────────────

/// Seconds and nanoseconds of what `chrono` makes of an RFC 3339 text.
pub uninterp spec fn rfc3339_parsed(text: Seq<char>) -> Option<(i64, u32)>;

/// Seconds and nanoseconds of what `chrono` makes of a text without a time zone, read as UTC.
pub uninterp spec fn naive_parsed(text: Seq<char>, format: Seq<char>) -> Option<(i64, u32)>;

/// Seconds and nanoseconds of what `chrono` makes of milliseconds since the epoch.
pub uninterp spec fn millis_instant(millis: i64) -> Option<(i64, u32)>;

/// `chrono::DateTime::parse_from_rfc3339`: the instant is a function of the text.
#[verifier::external_body]
fn read_rfc3339(text: &str) -> (r: Option<(i64, u32)>)
    ensures
        r == rfc3339_parsed(text@),
{
    let parsed = chrono::DateTime::parse_from_rfc3339(text).ok()?;
    Some((parsed.timestamp(), parsed.timestamp_subsec_nanos()))
}

/// `chrono::NaiveDateTime::parse_from_str`: the instant is a function of text and format.
#[verifier::external_body]
fn read_naive(text: &str, format: &str) -> (r: Option<(i64, u32)>)
    ensures
        r == naive_parsed(text@, format@),
{
    let parsed = chrono::NaiveDateTime::parse_from_str(text, format).ok()?.and_utc();
    Some((parsed.timestamp(), parsed.timestamp_subsec_nanos()))
}

/// `chrono::DateTime::from_timestamp_millis`: the instant is a function of the milliseconds, and where
/// there is one it is that many milliseconds from the epoch, with less than a second of nanoseconds.
#[verifier::external_body]
fn read_millis(millis: i64) -> (r: Option<(i64, u32)>)
    ensures
        r == millis_instant(millis),
        r matches Some(p) ==> p.0 * 1_000_000_000 + p.1 == millis * 1_000_000 && p.1 < 1_000_000_000,
{
    let parsed = chrono::DateTime::from_timestamp_millis(millis)?;
    Some((parsed.timestamp(), parsed.timestamp_subsec_nanos()))
}

/// The instant of seconds and nanoseconds. A leap second has more than a second of nanoseconds; it counts as
/// the last nanosecond of the second that it prolongs, and so keeps that second and its day.
pub open spec fn instant_of(parts: (i64, u32)) -> int {
    parts.0 * 1_000_000_000 + if parts.1 < 1_000_000_000 {
        parts.1 as int
    } else {
        999_999_999
    }
}

/// The instant of seconds and nanoseconds.
pub fn instant(parts: (i64, u32)) -> (r: i128)
    ensures
        r == instant_of(parts),
        instant_ok(r as int),
{
    let nanos: u32 = if parts.1 < 1_000_000_000 {
        parts.1
    } else {
        999_999_999
    };
    parts.0 as i128 * 1_000_000_000 + nanos as i128
}

/// An instant lies within the second that it is read in, a leap second too.
pub proof fn law_instants_keep_their_second(parts: (i64, u32))
    ensures
        instant_of(parts) / 1_000_000_000 == parts.0,
{
}

/// Whether a text ends in a sign and two digits, with something before them.
pub open spec fn bare_offset(raw: Seq<char>) -> bool {
    let n = raw.len() as int;
    n > 3 && (raw[n - 3] == '+' || raw[n - 3] == '-') && is_digit(raw[n - 2]) && is_digit(
        raw[n - 1],
    )
}

/// The first of four readings of a timestamp that succeeded: as RFC 3339, as RFC 3339 once its bare
/// offset is completed, and as a time without a zone with a `T` or a space between date and time.
pub open spec fn chosen_instant(
    strict: Option<(i64, u32)>,
    completed: Option<(i64, u32)>,
    naive: Option<(i64, u32)>,
    spaced: Option<(i64, u32)>,
) -> Option<int> {
    match (strict, completed, naive, spaced) {
        (Some(p), _, _, _) => Some(instant_of(p)),
        (None, Some(p), _, _) => Some(instant_of(p)),
        (None, None, Some(p), _) => Some(instant_of(p)),
        (None, None, None, Some(p)) => Some(instant_of(p)),
        _ => None,
    }
}

/// Decides [`chosen_instant`].
pub fn choose_instant(
    strict: Option<(i64, u32)>,
    completed: Option<(i64, u32)>,
    naive: Option<(i64, u32)>,
    spaced: Option<(i64, u32)>,
) -> (r: Option<i128>)
    ensures
        match chosen_instant(strict, completed, naive, spaced) {
            Some(t) => r matches Some(v) && v == t && instant_ok(t),
            None => r is None,
        },
{
    if let Some(p) = strict {
        Some(instant(p))
    } else if let Some(p) = completed {
        Some(instant(p))
    } else if let Some(p) = naive {
        Some(instant(p))
    } else if let Some(p) = spaced {
        Some(instant(p))
    } else {
        None
    }
}

/// The instant that a timestamp stands for.
pub open spec fn parsed_instant(raw: Seq<char>) -> Option<int> {
    chosen_instant(
        rfc3339_parsed(raw),
        if bare_offset(raw) {
            rfc3339_parsed(raw + ":00"@)
        } else {
            None
        },
        naive_parsed(raw, "%Y-%m-%dT%H:%M:%S%.f"@),
        naive_parsed(raw, "%Y-%m-%d %H:%M:%S%.f"@),
    )
}

fn has_bare_offset(raw: &str) -> (r: bool)
    ensures
        r == bare_offset(raw@),
{
    let chars = chars_of(raw);
    let n: usize = chars.len();
    if n <= 3 {
        return false;
    }
    let sign: char = chars[n - 3];
    let tens: char = chars[n - 2];
    let ones: char = chars[n - 1];
    (sign == '+' || sign == '-') && '0' <= tens && tens <= '9' && '0' <= ones && ones <= '9'
}

/// Reads a timestamp: RFC 3339 first, then with a bare `+NN` offset completed to `+NN:00`, then
/// without a zone, as UTC.
pub fn parse_timestamp(raw: &str) -> (r: Option<i128>)
    ensures
        match parsed_instant(raw@) {
            Some(t) => r matches Some(v) && v == t && instant_ok(t),
            None => r is None,
        },
{
    let strict = read_rfc3339(raw);
    let completed = if has_bare_offset(raw) {
        read_rfc3339(joined(raw, ":00").as_str())
    } else {
        None
    };
    let naive = read_naive(raw, "%Y-%m-%dT%H:%M:%S%.f");
    let spaced = read_naive(raw, "%Y-%m-%d %H:%M:%S%.f");
    choose_instant(strict, completed, naive, spaced)
}

/// The instant of a `_` query parameter: milliseconds since the epoch.
pub open spec fn sent_at_instant(raw: Seq<char>) -> Option<int> {
    match signed_of(raw) {
        Some(n) if i64::MIN <= n <= i64::MAX => match millis_instant(n as i64) {
            Some(p) => Some(instant_of(p)),
            None => None,
        },
        _ => None,
    }
}

/// Reads a `_` query parameter.
pub fn parse_sent_at_ms(raw: &str) -> (r: Option<i128>)
    ensures
        match sent_at_instant(raw@) {
            Some(t) => r matches Some(v) && v == t && instant_ok(t),
            None => r is None,
        },
        r matches Some(v) ==> signed_of(raw@) matches Some(n) && v == n * 1_000_000,
{
    match parse_i64(raw) {
        Some(millis) => match read_millis(millis) {
            Some(parts) => Some(instant(parts)),
            None => None,
        },
        None => None,
    }
}

// ── Fields of one event ───────────────────────────────────────────────────────

/// The text that an object holds under a key.
pub open spec fn text_member(object: JsonValue, key: Seq<char>) -> Option<Seq<char>> {
    match member(object, key) {
        Some(JsonValue::Text(s)) => Some(s),
        _ => None,
    }
}

fn get_text<'a>(object: &'a Json, key: &str) -> (r: Option<&'a String>)
    ensures
        match r {
            Some(s) => text_member(object@, key@) == Some(s@),
            None => text_member(object@, key@) is None,
        },
{
    match object.get(key) {
        Some(value) => value.as_str(),
        None => None,
    }
}

/// The text that a map holds under a key.
pub open spec fn text_entry(map: Map<Seq<char>, JsonValue>, key: Seq<char>) -> Option<Seq<char>> {
    match map[key] {
        JsonValue::Text(s) if map.contains_key(key) => Some(s),
        _ => None,
    }
}

/// The text under a key of a JSON map.
pub fn entry_text<'a>(map: &'a JsonMap, key: &str) -> (r: Option<&'a String>)
    ensures
        match r {
            Some(s) => text_entry(map@, key@) == Some(s@),
            None => text_entry(map@, key@) is None,
        },
{
    match map.get(key) {
        Some(value) => value.as_str(),
        None => None,
    }
}

/// The properties of an event: its own, with a top-level member folded in unless they have it.
pub open spec fn folded(
    properties: Map<Seq<char>, JsonValue>,
    object: JsonValue,
    key: Seq<char>,
) -> Map<Seq<char>, JsonValue> {
    match member(object, key) {
        Some(value) if !properties.contains_key(key) => properties.insert(key, value),
        _ => properties,
    }
}

fn fold_member(properties: &mut JsonMap, object: &Json, key: &str)
    ensures
        final(properties)@ == folded(old(properties)@, object@, key@),
        old(properties).well_formed() ==> final(properties).well_formed(),
{
    if let Some(value) = object.get(key) {
        if !properties.contains_key(key) {
            properties.insert(key, value.copy());
        }
    }
}

/// The token of an event before it is checked: the batch's, else the event's own `token`, `$token`
/// or `api_key`, else its `token` property.
pub open spec fn raw_token(
    object: JsonValue,
    properties: Map<Seq<char>, JsonValue>,
    batch_token: Option<Seq<char>>,
) -> Option<Seq<char>> {
    if batch_token is Some {
        batch_token
    } else if text_member(object, "token"@) is Some {
        text_member(object, "token"@)
    } else if text_member(object, "$token"@) is Some {
        text_member(object, "$token"@)
    } else if text_member(object, "api_key"@) is Some {
        text_member(object, "api_key"@)
    } else {
        text_entry(properties, "token"@)
    }
}

fn find_token(object: &Json, properties: &JsonMap, batch_token: &Option<String>) -> (r: Option<
    String,
>)
    ensures
        match r {
            Some(t) => raw_token(object@, properties@, option_view(*batch_token)) == Some(t@),
            None => raw_token(object@, properties@, option_view(*batch_token)) is None,
        },
{
    if let Some(token) = batch_token {
        return Some(token.clone());
    }
    if let Some(token) = get_text(object, "token") {
        return Some(token.clone());
    }
    if let Some(token) = get_text(object, "$token") {
        return Some(token.clone());
    }
    if let Some(token) = get_text(object, "api_key") {
        return Some(token.clone());
    }
    match entry_text(properties, "token") {
        Some(token) => Some(token.clone()),
        None => None,
    }
}

/// The view of an optional string.
pub open spec fn option_view(s: Option<String>) -> Option<Seq<char>> {
    match s {
        Some(t) => Some(t@),
        None => None,
    }
}

/// The token of an event, if it is one of the accepted ones.
pub open spec fn resolved_token(
    object: JsonValue,
    properties: Map<Seq<char>, JsonValue>,
    batch_token: Option<Seq<char>>,
    accepted: Seq<Seq<char>>,
) -> Result<Seq<char>, CaptureFault> {
    match raw_token(object, properties, batch_token) {
        None => Err(CaptureFault::Unauthorized("no token"@)),
        Some(token) => if accepted.contains(token) {
            Ok(token)
        } else {
            Err(CaptureFault::Unauthorized("invalid token"@))
        },
    }
}

/// The views of strings.
pub open spec fn texts(v: Seq<String>) -> Seq<Seq<char>> {
    v.map_values(|s: String| s@)
}

/// Whether a list of strings holds a text.
pub fn contains_text(list: &Vec<String>, text: &str) -> (r: bool)
    ensures
        r == texts(list@).contains(text@),
{
    let mut i: usize = 0;
    while i < list.len()
        invariant
            i <= list.len(),
            forall|j: int| 0 <= j < i ==> texts(list@)[j] != text@,
        decreases list.len() - i,
    {
        if same(list[i].as_str(), text) {
            assert(texts(list@)[i as int] == text@);
            return true;
        }
        i += 1;
    }
    false
}

fn resolve_token(
    object: &Json,
    properties: &JsonMap,
    batch_token: &Option<String>,
    accepted: &Vec<String>,
) -> (r: Result<String, CaptureError>)
    ensures
        match resolved_token(object@, properties@, option_view(*batch_token), texts(accepted@)) {
            Ok(t) => r matches Ok(s) && s@ == t,
            Err(e) => r matches Err(f) && f@ == e,
        },
{
    match find_token(object, properties, batch_token) {
        None => Err(CaptureError::Unauthorized("no token")),
        Some(token) => if contains_text(accepted, token.as_str()) {
            Ok(token)
        } else {
            Err(CaptureError::Unauthorized("invalid token"))
        },
    }
}

/// A distinct id before it is cleaned: top-level, else `$distinct_id`, else the property.
pub open spec fn raw_distinct_id(
    object: JsonValue,
    properties: Map<Seq<char>, JsonValue>,
) -> Option<JsonValue> {
    if member(object, "distinct_id"@) is Some {
        member(object, "distinct_id"@)
    } else if member(object, "$distinct_id"@) is Some {
        member(object, "$distinct_id"@)
    } else if properties.contains_key("distinct_id"@) {
        Some(properties["distinct_id"@])
    } else {
        None
    }
}

/// A text with every null character replaced by the replacement character.
pub open spec fn without_nulls(s: Seq<char>) -> Seq<char> {
    s.map_values(
        |c: char|
            if c == '\0' {
                '\u{FFFD}'
            } else {
                c
            },
    )
}

/// The first characters of a text.
pub open spec fn at_most(s: Seq<char>, n: int) -> Seq<char> {
    if s.len() <= n {
        s
    } else {
        s.take(n)
    }
}

/// The distinct id of an event: any JSON but null as text, without null characters, not blank, cut to
/// [`MAX_DISTINCT_ID_CHARS`] characters.
pub open spec fn resolved_distinct_id(
    object: JsonValue,
    properties: Map<Seq<char>, JsonValue>,
) -> Result<Seq<char>, CaptureFault> {
    match raw_distinct_id(object, properties) {
        None => Err(CaptureFault::Malformed("missing distinct_id"@)),
        Some(JsonValue::Null) => Err(CaptureFault::Malformed("null distinct_id"@)),
        Some(value) => {
            let text = without_nulls(
                match value {
                    JsonValue::Text(s) => s,
                    other => rendered(other),
                },
            );
            if blank(text) {
                Err(CaptureFault::Malformed("empty distinct_id"@))
            } else {
                Ok(at_most(text, MAX_DISTINCT_ID_CHARS as int))
            }
        },
    }
}

fn clean_nulls(s: &str) -> (r: String)
    ensures
        r@ == without_nulls(s@),
{
    let chars = chars_of(s);
    let mut out = String::new();
    let mut i: usize = 0;
    while i < chars.len()
        invariant
            i <= chars.len(),
            chars@ == s@,
            out@ == without_nulls(s@).take(i as int),
        decreases chars.len() - i,
    {
        if chars[i] == '\0' {
            out.push('\u{FFFD}');
        } else {
            out.push(chars[i]);
        }
        i += 1;
        assert(without_nulls(s@).take(i as int) =~= without_nulls(s@).take(i - 1).push(
            without_nulls(s@)[i - 1],
        ));
    }
    assert(without_nulls(s@).take(chars.len() as int) =~= without_nulls(s@));
    out
}

/// Resolves the distinct id of an event.
pub fn resolve_distinct_id(object: &Json, properties: &JsonMap) -> (r: Result<String, CaptureError>)
    ensures
        match resolved_distinct_id(object@, properties@) {
            Ok(t) => r matches Ok(s) && s@ == t,
            Err(e) => r matches Err(f) && f@ == e,
        },
{
    let raw = match object.get("distinct_id") {
        Some(value) => Some(value),
        None => match object.get("$distinct_id") {
            Some(value) => Some(value),
            None => properties.get("distinct_id"),
        },
    };
    let text = match raw {
        None => {
            return Err(CaptureError::Malformed("missing distinct_id"));
        },
        Some(value) => {
            if value.is_null() {
                return Err(CaptureError::Malformed("null distinct_id"));
            }
            match value.as_str() {
                Some(s) => s.clone(),
                None => value.render(),
            }
        },
    };
    let text = clean_nulls(text.as_str());
    if is_blank(text.as_str()) {
        return Err(CaptureError::Malformed("empty distinct_id"));
    }
    let chars = chars_of(text.as_str());
    if chars.len() <= MAX_DISTINCT_ID_CHARS {
        Ok(text)
    } else {
        assert(chars@.subrange(0, MAX_DISTINCT_ID_CHARS as int) =~= chars@.take(
            MAX_DISTINCT_ID_CHARS as int,
        ));
        Ok(string_of(&chars, 0, MAX_DISTINCT_ID_CHARS))
    }
}

/// Whether a map holds `true` under a key.
pub open spec fn flag_entry(map: Map<Seq<char>, JsonValue>, key: Seq<char>) -> bool {
    map.contains_key(key) && map[key] == JsonValue::Bool(true)
}

/// The instant of an event: `offset` milliseconds ago, else its `timestamp` with the client's clock
/// skew taken out and anything too far ahead set to now, else now.
pub open spec fn resolved_timestamp(
    object: JsonValue,
    properties: Map<Seq<char>, JsonValue>,
    sent_at: Option<int>,
    now: int,
) -> Result<int, CaptureFault> {
    match member(object, "offset"@) {
        Some(JsonValue::Number(_, Some(millis))) => Ok(now - millis * 1_000_000),
        _ => match text_member(object, "timestamp"@) {
            None => Ok(now),
            Some(raw) => match parsed_instant(raw) {
                None => Err(CaptureFault::Malformed("bad timestamp"@)),
                Some(stamped) => {
                    let t = match sent_at {
                        Some(sent) if !flag_entry(properties, "$ignore_sent_at"@) => stamped - (sent
                            - now),
                        _ => stamped,
                    };
                    Ok(
                        if t > now + MAX_FUTURE_NANOS {
                            now
                        } else {
                            t
                        },
                    )
                },
            },
        },
    }
}

/// The view of an optional instant.
pub open spec fn option_int(t: Option<i128>) -> Option<int> {
    match t {
        Some(v) => Some(v as int),
        None => None,
    }
}

/// Whether an optional instant is within range.
pub open spec fn option_instant_ok(t: Option<i128>) -> bool {
    t matches Some(v) ==> instant_ok(v as int)
}

/// Resolves the instant of an event.
pub fn resolve_timestamp(
    object: &Json,
    properties: &JsonMap,
    sent_at: Option<i128>,
    now: i128,
) -> (r: Result<i128, CaptureError>)
    requires
        instant_ok(now as int),
        option_instant_ok(sent_at),
    ensures
        match resolved_timestamp(object@, properties@, option_int(sent_at), now as int) {
            Ok(t) => r matches Ok(v) && v == t,
            Err(e) => r matches Err(f) && f@ == e,
        },
{
    let offset: Option<i64> = match object.get("offset") {
        Some(value) => value.as_i64(),
        None => None,
    };
    if let Some(millis) = offset {
        return Ok(now - millis as i128 * 1_000_000);
    }
    let stamped: i128 = match get_text(object, "timestamp") {
        None => {
            return Ok(now);
        },
        Some(raw) => match parse_timestamp(raw.as_str()) {
            None => {
                return Err(CaptureError::Malformed("bad timestamp"));
            },
            Some(t) => t,
        },
    };
    let ignore = match properties.get("$ignore_sent_at") {
        Some(Json::Bool(b)) => *b,
        _ => false,
    };
    let t: i128 = match sent_at {
        Some(sent) => if ignore {
            stamped
        } else {
            stamped - (sent - now)
        },
        None => stamped,
    };
    if t > now + MAX_FUTURE_NANOS {
        Ok(now)
    } else {
        Ok(t)
    }
}

// ── Uuids ─────────────────────────────────────────────────────────────────────

/// The number of what `uuid` makes of a text.
pub uninterp spec fn uuid_parsed(text: Seq<char>) -> Option<u128>;

/// `uuid::Uuid::parse_str`: the uuid is a function of the text.
#[verifier::external_body]
fn read_uuid(text: &str) -> (r: Option<u128>)
    ensures
        r == uuid_parsed(text@),
{
    uuid::Uuid::parse_str(text).ok().map(|u| u.as_u128())
}

/// The milliseconds that a version 7 uuid carries in its first 48 bits.
pub open spec fn uuid_millis(uuid: u128) -> int {
    uuid as int / 0x1_0000_0000_0000_0000_0000
}

/// The version of a uuid.
pub open spec fn uuid_version(uuid: u128) -> int {
    (uuid as int / 0x1000_0000_0000_0000_0000) % 16
}

/// `uuid::Uuid::new_v7` at a Unix time: version 7, with the time in milliseconds up front. The rest is
/// random.
#[verifier::external_body]
fn fresh_v7(seconds: u64, nanos: u32) -> (r: u128)
    ensures
        uuid_version(r) == 7,
        seconds < 0x1_0000_0000 && nanos < 1_000_000_000 ==> uuid_millis(r) == seconds * 1000
            + nanos as int / 1_000_000,
{
    let time = uuid::Timestamp::from_unix(uuid::NoContext, seconds, nanos);
    uuid::Uuid::new_v7(time).as_u128()
}

/// Whether a uuid is of version 7 and carries an instant; the seconds of an instant before the epoch
/// count as zero.
pub open spec fn v7_at(uuid: u128, t: int) -> bool {
    let seconds = if t < 0 {
        0
    } else {
        t / 1_000_000_000
    };
    &&& uuid_version(uuid) == 7
    &&& seconds < 0x1_0000_0000 ==> uuid_millis(uuid) == seconds * 1000 + (t % 1_000_000_000)
        / 1_000_000
}

/// A new uuid of version 7 for an instant.
pub fn uuid_v7_at(t: i128) -> (r: u128)
    requires
        t <= 8 * MAX_INSTANT,
    ensures
        v7_at(r, t as int),
{
    let nanos: i128 = if t >= 0 {
        t % 1_000_000_000
    } else {
        let back: i128 = (-(t + 1)) % 1_000_000_000;
        999_999_999 - back
    };
    proof {
        if t < 0 {
            let back = (-(t + 1)) % 1_000_000_000;
            let q = (-(t + 1)) / 1_000_000_000;
            assert(-(t + 1) == q * 1_000_000_000 + back);
            assert(t == (-q - 1) * 1_000_000_000 + (999_999_999 - back));
            assert(t as int % 1_000_000_000 == 999_999_999 - back) by (nonlinear_arith)
                requires
                    t == (-q - 1) * 1_000_000_000 + (999_999_999 - back),
                    0 <= back < 1_000_000_000,
            ;
        }
    }
    let whole: i128 = if t < 0 {
        0
    } else {
        t / 1_000_000_000
    };
    let seconds: u64 = if whole > 0xffff_ffff_ffff_ffff {
        0xffff_ffff_ffff_ffff
    } else {
        whole as u64
    };
    fresh_v7(seconds, nanos as u32)
}

// ── Events and batches ────────────────────────────────────────────────────────

/// An event with every field resolved but a uuid that is still to be generated.
pub struct ResolvedEvent {
    pub uuid: Option<u128>,
    pub event: Seq<char>,
    pub distinct_id: Seq<char>,
    pub token: Seq<char>,
    pub timestamp: int,
    pub properties: Map<Seq<char>, JsonValue>,
}

/// Whether an event is a resolved one, with a fresh uuid where it brought none.
pub open spec fn captured_as(event: EventModel, resolved: ResolvedEvent) -> bool {
    &&& match resolved.uuid {
        Some(uuid) => event.uuid == uuid,
        None => v7_at(event.uuid, resolved.timestamp),
    }
    &&& event.event == resolved.event
    &&& event.distinct_id == resolved.distinct_id
    &&& event.token == resolved.token
    &&& event.timestamp == resolved.timestamp
    &&& event.properties == resolved.properties
}

/// What the events of one request share.
pub struct BatchContext {
    pub batch_token: Option<Seq<char>>,
    pub sent_at: Option<int>,
    pub now: int,
    pub accepted: Seq<Seq<char>>,
}

/// The properties that an event object carries.
pub open spec fn own_properties(object: JsonValue) -> Result<
    Map<Seq<char>, JsonValue>,
    CaptureFault,
> {
    match member(object, "properties"@) {
        Some(JsonValue::Object(members)) => Ok(members_map(members)),
        Some(_) => Err(CaptureFault::Malformed("properties must be an object"@)),
        None => Ok(Map::empty()),
    }
}

/// The uuid that an event object brings.
pub open spec fn own_uuid(object: JsonValue) -> Result<Option<u128>, CaptureFault> {
    match text_member(object, "uuid"@) {
        None => Ok(None),
        Some(text) => match uuid_parsed(text) {
            Some(uuid) => Ok(Some(uuid)),
            None => Err(CaptureFault::Malformed("invalid uuid"@)),
        },
    }
}

/// An event object resolved. The first check that fails decides the error: name, properties, token,
/// distinct id, timestamp, uuid.
pub open spec fn resolved_event(object: JsonValue, context: BatchContext) -> Result<
    ResolvedEvent,
    CaptureFault,
> {
    match text_member(object, "event"@) {
        Some(name) if name.len() > 0 => match own_properties(object) {
            Err(e) => Err(e),
            Ok(own) => {
                let properties = folded(folded(own, object, "$set"@), object, "$set_once"@);
                match resolved_token(object, properties, context.batch_token, context.accepted) {
                    Err(e) => Err(e),
                    Ok(token) => match resolved_distinct_id(object, properties) {
                        Err(e) => Err(e),
                        Ok(distinct_id) => match resolved_timestamp(
                            object,
                            properties,
                            context.sent_at,
                            context.now,
                        ) {
                            Err(e) => Err(e),
                            Ok(timestamp) => match own_uuid(object) {
                                Err(e) => Err(e),
                                Ok(uuid) => Ok(
                                    ResolvedEvent {
                                        uuid,
                                        event: name,
                                        distinct_id,
                                        token,
                                        timestamp,
                                        properties,
                                    },
                                ),
                            },
                        },
                    },
                }
            },
        },
        _ => Err(CaptureFault::Malformed("missing event name"@)),
    }
}

/// Resolves one event object.
pub fn resolve_event(
    object: &Json,
    batch_token: &Option<String>,
    sent_at: Option<i128>,
    now: i128,
    accepted: &Vec<String>,
) -> (r: Result<CapturedEvent, CaptureError>)
    requires
        instant_ok(now as int),
        option_instant_ok(sent_at),
    ensures
        match resolved_event(
            object@,
            BatchContext {
                batch_token: option_view(*batch_token),
                sent_at: option_int(sent_at),
                now: now as int,
                accepted: texts(accepted@),
            },
        ) {
            Ok(resolved) => r matches Ok(event) && captured_as(event@, resolved),
            Err(e) => r matches Err(f) && f@ == e,
        },
{
    let name = match get_text(object, "event") {
        Some(name) => if name.as_str().is_empty() {
            return Err(CaptureError::Malformed("missing event name"));
        } else {
            name.clone()
        },
        None => {
            return Err(CaptureError::Malformed("missing event name"));
        },
    };
    let mut properties = match object.get("properties") {
        Some(value) => match value.as_object() {
            Some(members) => JsonMap { members: copy_members(members) },
            None => {
                return Err(CaptureError::Malformed("properties must be an object"));
            },
        },
        None => JsonMap::new(),
    };
    fold_member(&mut properties, object, "$set");
    fold_member(&mut properties, object, "$set_once");
    let token = match resolve_token(object, &properties, batch_token, accepted) {
        Ok(token) => token,
        Err(e) => {
            return Err(e);
        },
    };
    let distinct_id = match resolve_distinct_id(object, &properties) {
        Ok(distinct_id) => distinct_id,
        Err(e) => {
            return Err(e);
        },
    };
    let timestamp: i128 = match resolve_timestamp(object, &properties, sent_at, now) {
        Ok(timestamp) => timestamp,
        Err(e) => {
            return Err(e);
        },
    };
    let uuid: u128 = match get_text(object, "uuid") {
        Some(text) => match read_uuid(text.as_str()) {
            Some(uuid) => uuid,
            None => {
                return Err(CaptureError::Malformed("invalid uuid"));
            },
        },
        None => uuid_v7_at(timestamp),
    };
    Ok(CapturedEvent { uuid, event: name, distinct_id, token, timestamp, properties })
}

/// The raw events resolved in order. Performance events are dropped, and every event carries the token
/// of the first.
pub open spec fn resolved_events(raw: Seq<JsonValue>, context: BatchContext) -> Result<
    Seq<ResolvedEvent>,
    CaptureFault,
>
    decreases raw.len(),
{
    if raw.len() == 0 {
        Ok(Seq::empty())
    } else {
        match resolved_events(raw.drop_last(), context) {
            Err(e) => Err(e),
            Ok(events) => {
                let object = raw.last();
                if !(object is Object) {
                    Err(CaptureFault::Malformed("event must be an object"@))
                } else if text_member(object, "event"@) == Some("$performance_event"@) {
                    Ok(events)
                } else {
                    match resolved_event(object, context) {
                        Err(e) => Err(e),
                        Ok(event) => if events.len() > 0 && events[0].token != event.token {
                            Err(CaptureFault::Unauthorized("mismatched tokens in batch"@))
                        } else {
                            Ok(events.push(event))
                        },
                    }
                }
            },
        }
    }
}

/// Every event of one request carries the same token.
pub proof fn law_one_token_per_request(raw: Seq<JsonValue>, context: BatchContext)
    ensures
        resolved_events(raw, context) matches Ok(events) ==> forall|i: int, j: int|
            0 <= i < events.len() && 0 <= j < events.len() ==> (#[trigger] events[i]).token == (
            #[trigger] events[j]).token,
    decreases raw.len(),
{
    if raw.len() > 0 {
        law_one_token_per_request(raw.drop_last(), context);
        if let Ok(events) = resolved_events(raw.drop_last(), context) {
            if let Ok(all) = resolved_events(raw, context) {
                assert forall|i: int, j: int|
                    0 <= i < all.len() && 0 <= j < all.len() implies (#[trigger] all[i]).token == (
                #[trigger] all[j]).token by {
                    if events.len() > 0 {
                        assert(i < events.len() ==> all[i].token == events[0].token);
                        assert(j < events.len() ==> all[j].token == events[0].token);
                    }
                }
            }
        }
    }
}

/// Every captured event carries an accepted token, a non-empty name and a distinct id of at most
/// [`MAX_DISTINCT_ID_CHARS`] characters.
pub proof fn law_events_are_bounded(raw: Seq<JsonValue>, context: BatchContext)
    ensures
        resolved_events(raw, context) matches Ok(events) ==> forall|i: int|
            0 <= i < events.len() ==> context.accepted.contains((#[trigger] events[i]).token)
                && events[i].event.len() > 0 && 0 < events[i].distinct_id.len()
                <= MAX_DISTINCT_ID_CHARS,
    decreases raw.len(),
{
    if raw.len() > 0 {
        law_events_are_bounded(raw.drop_last(), context);
        if let Ok(events) = resolved_events(raw.drop_last(), context) {
            if let Ok(all) = resolved_events(raw, context) {
                assert forall|i: int| 0 <= i < all.len() implies context.accepted.contains(
                    (#[trigger] all[i]).token,
                ) && all[i].event.len() > 0 && 0 < all[i].distinct_id.len()
                    <= MAX_DISTINCT_ID_CHARS by {
                    if i < events.len() {
                        assert(all[i] == events[i]);
                    } else {
                        let object = raw.last();
                        assert(resolved_event(object, context) == Ok::<_, CaptureFault>(all[i]));
                    }
                }
            }
        }
    }
}

/// A batch as a request describes it: its raw events and what they share.
pub struct RawBatch {
    pub events: Seq<JsonValue>,
    pub batch_token: Option<Seq<char>>,
    pub sent_at: Option<int>,
    pub historical_migration: bool,
}

/// The token that a batch object carries: `token` if it is there at all, else `api_key`.
pub open spec fn batch_token_of(object: JsonValue) -> Option<Seq<char>> {
    if member(object, "token"@) is Some {
        text_member(object, "token"@)
    } else {
        text_member(object, "api_key"@)
    }
}

/// The batch that a body stands for.
pub open spec fn raw_batch(value: JsonValue, sent_at: Option<int>) -> Result<
    RawBatch,
    CaptureFault,
> {
    match value {
        JsonValue::Array(events) => Ok(
            RawBatch { events, batch_token: None, sent_at, historical_migration: false },
        ),
        JsonValue::Object(members) => match member(value, "batch"@) {
            Some(JsonValue::Array(events)) => Ok(
                RawBatch {
                    events,
                    batch_token: batch_token_of(value),
                    sent_at: match text_member(value, "sent_at"@) {
                        Some(raw) => parsed_instant(raw),
                        None => sent_at,
                    },
                    historical_migration: member(value, "historical_migration"@) == Some(
                        JsonValue::Bool(true),
                    ),
                },
            ),
            Some(_) => Err(CaptureFault::Malformed("batch must be an array"@)),
            None => Ok(
                RawBatch {
                    events: seq![
                        if member(value, "event"@) is Some {
                            value
                        } else {
                            JsonValue::Object(
                                members.push(("event"@, JsonValue::Text("$identify"@))),
                            )
                        },
                    ],
                    batch_token: None,
                    sent_at,
                    historical_migration: false,
                },
            ),
        },
        _ => Err(CaptureFault::Malformed("body must be an object or array"@)),
    }
}

/// The resolved events of a body, and whether it claims to be a historical migration.
pub open spec fn parsed_batch(
    value: JsonValue,
    sent_at: Option<int>,
    now: int,
    accepted: Seq<Seq<char>>,
) -> Result<(Seq<ResolvedEvent>, bool), CaptureFault> {
    match raw_batch(value, sent_at) {
        Err(e) => Err(e),
        Ok(batch) => match resolved_events(
            batch.events,
            BatchContext { batch_token: batch.batch_token, sent_at: batch.sent_at, now, accepted },
        ) {
            Err(e) => Err(e),
            Ok(events) => Ok((events, batch.historical_migration)),
        },
    }
}

/// Whether a list of events is a list of resolved ones.
pub open spec fn all_captured_as(events: Seq<CapturedEvent>, resolved: Seq<ResolvedEvent>) -> bool {
    &&& events.len() == resolved.len()
    &&& forall|i: int| 0 <= i < events.len() ==> captured_as((#[trigger] events[i])@, resolved[i])
}

/// The values of documents.
pub open spec fn models(items: Seq<Json>) -> Seq<JsonValue> {
    items.map_values(|j: Json| j@)
}

/// Resolves raw events in order.
pub fn resolve_events(
    raw: &Vec<Json>,
    batch_token: &Option<String>,
    sent_at: Option<i128>,
    now: i128,
    accepted: &Vec<String>,
) -> (r: Result<Vec<CapturedEvent>, CaptureError>)
    requires
        instant_ok(now as int),
        option_instant_ok(sent_at),
    ensures
        match resolved_events(
            models(raw@),
            BatchContext {
                batch_token: option_view(*batch_token),
                sent_at: option_int(sent_at),
                now: now as int,
                accepted: texts(accepted@),
            },
        ) {
            Ok(resolved) => r matches Ok(events) && all_captured_as(events@, resolved),
            Err(e) => r matches Err(f) && f@ == e,
        },
{
    let ghost context = BatchContext {
        batch_token: option_view(*batch_token),
        sent_at: option_int(sent_at),
        now: now as int,
        accepted: texts(accepted@),
    };
    let ghost all = models(raw@);
    let mut events: Vec<CapturedEvent> = Vec::new();
    let mut i: usize = 0;
    assert(all.take(0) =~= Seq::<JsonValue>::empty());
    while i < raw.len()
        invariant
            i <= raw.len(),
            all == models(raw@),
            instant_ok(now as int),
            option_instant_ok(sent_at),
            context == (BatchContext {
                batch_token: option_view(*batch_token),
                sent_at: option_int(sent_at),
                now: now as int,
                accepted: texts(accepted@),
            }),
            resolved_events(all.take(i as int), context) matches Ok(resolved) && all_captured_as(
                events@,
                resolved,
            ),
        decreases raw.len() - i,
    {
        let ghost before = resolved_events(all.take(i as int), context)->Ok_0;
        assert(all.take(i + 1).drop_last() =~= all.take(i as int));
        assert(all.take(i + 1).last() == raw@[i as int]@);
        proof {
            lemma_events_error_stays(all, i + 1, context);
        }
        let object = &raw[i];
        i += 1;
        match object {
            Json::Object(_) => {},
            _ => {
                return Err(CaptureError::Malformed("event must be an object"));
            },
        }
        let performance = match get_text(object, "event") {
            Some(name) => same(name.as_str(), "$performance_event"),
            None => false,
        };
        if performance {
            continue ;
        }
        let event = match resolve_event(object, batch_token, sent_at, now, accepted) {
            Ok(event) => event,
            Err(e) => {
                return Err(e);
            },
        };
        if events.len() > 0 {
            assert(captured_as(events@[0]@, before[0]));
            if !same(events[0].token.as_str(), event.token.as_str()) {
                return Err(CaptureError::Unauthorized("mismatched tokens in batch"));
            }
        }
        events.push(event);
    }
    assert(all.take(raw.len() as int) =~= all);
    Ok(events)
}

/// An error among the first events is the error of all of them.
proof fn lemma_events_error_stays(raw: Seq<JsonValue>, k: int, context: BatchContext)
    requires
        0 <= k <= raw.len(),
    ensures
        resolved_events(raw.take(k), context) matches Err(e) ==> resolved_events(raw, context)
            == Err::<Seq<ResolvedEvent>, _>(e),
    decreases raw.len() - k,
{
    if k < raw.len() {
        lemma_events_error_stays(raw, k + 1, context);
        assert(raw.take(k + 1).drop_last() =~= raw.take(k));
    } else {
        assert(raw.take(k) =~= raw);
    }
}

/// Resolves a body that has been read as JSON. `accepted` holds the tokens that are valid.
pub fn parse_batch(
    value: Json,
    sent_at_query: Option<i128>,
    now: i128,
    accepted: &Vec<String>,
) -> (r: Result<ParsedBatch, CaptureError>)
    requires
        instant_ok(now as int),
        option_instant_ok(sent_at_query),
    ensures
        match parsed_batch(value@, option_int(sent_at_query), now as int, texts(accepted@)) {
            Ok((resolved, historical)) => r matches Ok(batch) && all_captured_as(
                batch.events@,
                resolved,
            ) && batch.historical_migration == historical,
            Err(e) => r matches Err(f) && f@ == e,
        },
{
    let ghost whole = value@;
    if let Json::Array(raw) = &value {
        assert(whole->Array_0 =~= models(raw@));
        return match resolve_events(raw, &None, sent_at_query, now, accepted) {
            Ok(events) => Ok(ParsedBatch { events, historical_migration: false }),
            Err(e) => Err(e),
        };
    }
    match &value {
        Json::Object(_) => {},
        _ => {
            return Err(CaptureError::Malformed("body must be an object or array"));
        },
    }
    if let Some(batch) = value.get("batch") {
        let raw = match batch {
            Json::Array(raw) => raw,
            _ => {
                return Err(CaptureError::Malformed("batch must be an array"));
            },
        };
        assert(batch@->Array_0 =~= models(raw@));
        let token = match value.get("token") {
            Some(token) => token.as_str(),
            None => get_text(&value, "api_key"),
        };
        let batch_token: Option<String> = match token {
            Some(token) => Some(token.clone()),
            None => None,
        };
        let sent_at: Option<i128> = match get_text(&value, "sent_at") {
            Some(text) => parse_timestamp(text.as_str()),
            None => sent_at_query,
        };
        let historical_migration = match value.get("historical_migration") {
            Some(Json::Bool(b)) => *b,
            _ => false,
        };
        return match resolve_events(raw, &batch_token, sent_at, now, accepted) {
            Ok(events) => Ok(ParsedBatch { events, historical_migration }),
            Err(e) => Err(e),
        };
    }
    let named = value.get("event").is_some();
    let ghost members = whole->Object_0;
    let mut object = value;
    if !named {
        if let Json::Object(list) = object {
            let ghost before = list@;
            let mut list = list;
            assert(members =~= members_model(before));
            list.push(("event".to_owned(), Json::text("$identify")));
            assert(members_model(list@) =~= members.push(("event"@, JsonValue::Text("$identify"@))));
            object = Json::Object(list);
            assert(object@->Object_0 =~= members_model(list@));
        } else {
            assert(false);
            object = Json::Null;
        }
    }
    let mut raw: Vec<Json> = Vec::new();
    let ghost only = object@;
    raw.push(object);
    assert(models(raw@) =~= seq![only]);
    match resolve_events(&raw, &None, sent_at_query, now, accepted) {
        Ok(events) => Ok(ParsedBatch { events, historical_migration: false }),
        Err(e) => Err(e),
    }
}

/// Parses a decoded body into resolved events. `sent_at_query` is the `_` query parameter, used for
/// clock skew when the batch has no `sent_at`; `accepted` holds the tokens that are valid.
pub fn parse_body(
    body: &str,
    sent_at_query: Option<i128>,
    now: i128,
    accepted: &Vec<String>,
) -> (r: Result<ParsedBatch, CaptureError>)
    requires
        instant_ok(now as int),
        option_instant_ok(sent_at_query),
    ensures
        match parsed_json(body@) {
            None => r matches Err(f) && f@ == CaptureFault::Malformed("invalid JSON"@),
            Some(value) => match parsed_batch(
                value,
                option_int(sent_at_query),
                now as int,
                texts(accepted@),
            ) {
                Ok((resolved, historical)) => r matches Ok(batch) && all_captured_as(
                    batch.events@,
                    resolved,
                ) && batch.historical_migration == historical,
                Err(e) => r matches Err(f) && f@ == e,
            },
        },
{
    match Json::parse(body) {
        None => Err(CaptureError::Malformed("invalid JSON")),
        Some(value) => parse_batch(value, sent_at_query, now, accepted),
    }
}

} // verus!
