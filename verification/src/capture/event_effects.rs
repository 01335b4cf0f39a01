//! What the events of a request are made of, stated of the request's body and the events that come out of it.
use vstd::prelude::*;
use vstd::string::*;

use crate::capture::event::{
    captured_as, naive_parsed, parsed_batch, parsed_instant, resolved_event, resolved_events,
    resolved_timestamp, rfc3339_parsed, without_nulls, uuid_millis, uuid_parsed, uuid_version, BatchContext,
    CaptureFault, EventModel, ResolvedEvent,
};
use crate::json::{lemma_member_absent, lemma_member_at, member, rendered, JsonValue};
use crate::text::{blank, white_space};

verus! {

/// Whether an object holds a text under a key.
pub open spec fn has_text(object: JsonValue, key: Seq<char>, text: Seq<char>) -> bool {
    member(object, key) == Some(JsonValue::Text(text))
}

/// Whether an object holds no text under a key.
pub open spec fn no_text(object: JsonValue, key: Seq<char>) -> bool {
    !(member(object, key) is Some && member(object, key)->Some_0 is Text)
}

/// Whether an object says by how many milliseconds its event is past.
pub open spec fn says_offset(object: JsonValue) -> bool {
    member(object, "offset"@) is Some && member(object, "offset"@)->Some_0 is Number && member(
        object,
        "offset"@,
    )->Some_0->Number_1 is Some
}

/// Whether properties ask to take the time of sending for nothing.
pub open spec fn ignores_sent_at(properties: Map<Seq<char>, JsonValue>) -> bool {
    properties.contains_key("$ignore_sent_at"@) && properties["$ignore_sent_at"@] == JsonValue::Bool(
        true,
    )
}

// ── Time ──────────────────────────────────────────────────────────────────────

/// An event is as long past as its timestamp was when the request was sent, unless it lies more than 23 hours
/// ahead: then it is now.
pub proof fn law_clock_skew_is_taken_out(
    object: JsonValue,
    properties: Map<Seq<char>, JsonValue>,
    raw: Seq<char>,
    stamped: int,
    sent: int,
    now: int,
)
    requires
        !says_offset(object),
        has_text(object, "timestamp"@, raw),
        parsed_instant(raw) == Some(stamped),
        !ignores_sent_at(properties),
    ensures
        ({
            let r = resolved_timestamp(object, properties, Some(sent), now);
            &&& r is Ok
            &&& stamped - sent <= 23 * 3_600_000_000_000 ==> now - r->Ok_0 == sent - stamped
            &&& stamped - sent <= 23 * 3_600_000_000_000 && sent == now ==> r->Ok_0 == stamped
            &&& stamped - sent > 23 * 3_600_000_000_000 ==> r->Ok_0 == now
        }),
{
}

/// Two events of one request keep the distance of their timestamps.
pub proof fn law_events_keep_their_distance(
    a: JsonValue,
    b: JsonValue,
    context: BatchContext,
    first: Seq<char>,
    second: Seq<char>,
    s: int,
    t: int,
)
    requires
        !says_offset(a) && !says_offset(b),
        has_text(a, "timestamp"@, first),
        has_text(b, "timestamp"@, second),
        parsed_instant(first) == Some(s),
        parsed_instant(second) == Some(t),
        context.sent_at is Some,
        s - context.sent_at->Some_0 <= 23 * 3_600_000_000_000,
        t - context.sent_at->Some_0 <= 23 * 3_600_000_000_000,
        resolved_event(a, context) is Ok,
        resolved_event(b, context) is Ok,
        !ignores_sent_at(resolved_event(a, context)->Ok_0.properties),
        !ignores_sent_at(resolved_event(b, context)->Ok_0.properties),
    ensures
        resolved_event(b, context)->Ok_0.timestamp - resolved_event(a, context)->Ok_0.timestamp == t - s,
        context.now - resolved_event(a, context)->Ok_0.timestamp == context.sent_at->Some_0 - s,
{
}

/// Where the time of sending is not known, or is to be ignored, a timestamp is taken as it stands, unless it
/// lies more than 23 hours ahead.
pub proof fn law_timestamps_stand_without_skew(
    object: JsonValue,
    properties: Map<Seq<char>, JsonValue>,
    raw: Seq<char>,
    stamped: int,
    sent_at: Option<int>,
    now: int,
)
    requires
        !says_offset(object),
        has_text(object, "timestamp"@, raw),
        parsed_instant(raw) == Some(stamped),
        sent_at is None || ignores_sent_at(properties),
    ensures
        ({
            let r = resolved_timestamp(object, properties, sent_at, now);
            &&& r is Ok
            &&& stamped - now <= 23 * 3_600_000_000_000 ==> r->Ok_0 == stamped
            &&& stamped - now > 23 * 3_600_000_000_000 ==> r->Ok_0 == now
        }),
{
}

/// An offset says by how many milliseconds an event is past, whatever else it says.
pub proof fn law_offsets_win(
    object: JsonValue,
    properties: Map<Seq<char>, JsonValue>,
    text: Seq<char>,
    millis: i64,
    sent_at: Option<int>,
    now: int,
)
    requires
        member(object, "offset"@) == Some(JsonValue::Number(text, Some(millis))),
    ensures
        resolved_timestamp(object, properties, sent_at, now) is Ok,
        now - resolved_timestamp(object, properties, sent_at, now)->Ok_0 == millis * 1_000_000,
{
}

/// An event that says nothing of its time is now, and a timestamp that cannot be read is refused.
pub proof fn law_events_without_time_are_now(
    object: JsonValue,
    properties: Map<Seq<char>, JsonValue>,
    raw: Seq<char>,
    sent_at: Option<int>,
    now: int,
)
    requires
        !says_offset(object),
    ensures
        no_text(object, "timestamp"@) ==> resolved_timestamp(object, properties, sent_at, now) == Ok::<
            int,
            CaptureFault,
        >(now),
        has_text(object, "timestamp"@, raw) && parsed_instant(raw) is None ==> resolved_timestamp(
            object,
            properties,
            sent_at,
            now,
        ) == Err::<int, CaptureFault>(CaptureFault::Malformed("bad timestamp"@)),
{
}

/// No event lies more than 23 hours ahead, unless its offset says so.
pub proof fn law_events_are_not_far_ahead(object: JsonValue, context: BatchContext)
    requires
        resolved_event(object, context) is Ok,
        !says_offset(object),
    ensures
        resolved_event(object, context)->Ok_0.timestamp - context.now <= 23 * 3_600_000_000_000,
{
}

/// Whether a text ends in a sign and two digits, with something before them.
pub open spec fn ends_in_hours(raw: Seq<char>) -> bool {
    &&& raw.len() > 3
    &&& raw[raw.len() - 3] == '+' || raw[raw.len() - 3] == '-'
    &&& '0' <= raw[raw.len() - 2] <= '9'
    &&& '0' <= raw[raw.len() - 1] <= '9'
}

/// A timestamp is read as RFC 3339 where it can be, else with the minutes of its offset added, else as a time
/// of UTC with a `T` in it, else as one with a space. What is read so is so many nanoseconds after the epoch.
pub proof fn law_timestamps_are_read_in_turn(raw: Seq<char>, p: (i64, u32))
    requires
        p.1 < 1_000_000_000,
    ensures
        ({
            let strict = rfc3339_parsed(raw);
            let completed = rfc3339_parsed(raw + ":00"@);
            let naive = naive_parsed(raw, "%Y-%m-%dT%H:%M:%S%.f"@);
            let spaced = naive_parsed(raw, "%Y-%m-%d %H:%M:%S%.f"@);
            let bare = ends_in_hours(raw);
            let t = Some(p.0 * 1_000_000_000 + p.1);
            &&& strict == Some(p) ==> parsed_instant(raw) == t
            &&& strict is None && bare && completed == Some(p) ==> parsed_instant(raw) == t
            &&& strict is None && (!bare || completed is None) && naive == Some(p) ==> parsed_instant(
                raw,
            ) == t
            &&& strict is None && (!bare || completed is None) && naive is None && spaced == Some(p)
                ==> parsed_instant(raw) == t
            &&& strict is None && (!bare || completed is None) && naive is None && spaced is None
                ==> parsed_instant(raw) is None
        }),
{
}

// ── Other fields ──────────────────────────────────────────────────────────────

/// An event keeps its name, and one without a name is refused.
pub proof fn law_events_keep_their_name(object: JsonValue, context: BatchContext, name: Seq<char>)
    ensures
        has_text(object, "event"@, name) && resolved_event(object, context) is Ok ==> resolved_event(
            object,
            context,
        )->Ok_0.event == name,
        no_text(object, "event"@) || has_text(object, "event"@, Seq::empty()) ==> resolved_event(
            object,
            context,
        ) == Err::<ResolvedEvent, CaptureFault>(CaptureFault::Malformed("missing event name"@)),
{
}

/// An event keeps all its properties. Of what stands beside them only `$set` and `$set_once` join them, unless
/// they are there already.
pub proof fn law_events_keep_their_properties(
    object: JsonValue,
    context: BatchContext,
    members: Seq<(Seq<char>, JsonValue)>,
    k: Seq<char>,
)
    requires
        resolved_event(object, context) is Ok,
        member(object, "properties"@) is None ==> members.len() == 0,
        member(object, "properties"@) is Some ==> member(object, "properties"@) == Some(
            JsonValue::Object(members),
        ),
    ensures
        ({
            let own = JsonValue::Object(members);
            let properties = resolved_event(object, context)->Ok_0.properties;
            let added = k == "$set"@ || k == "$set_once"@;
            &&& member(own, k) is Some ==> properties.contains_key(k) && properties[k] == member(
                own,
                k,
            )->Some_0
            &&& member(own, k) is None && added && member(object, k) is Some ==> properties.contains_key(
                k,
            ) && properties[k] == member(object, k)->Some_0
            &&& member(own, k) is None && !(added && member(object, k) is Some)
                ==> !properties.contains_key(k)
        }),
{
    reveal_strlit("$set");
    reveal_strlit("$set_once");
    assert("$set"@.len() != "$set_once"@.len());
}

/// Properties that are no object are refused.
pub proof fn law_properties_are_an_object(object: JsonValue, context: BatchContext, name: Seq<char>)
    requires
        has_text(object, "event"@, name),
        name.len() > 0,
        member(object, "properties"@) is Some,
        !(member(object, "properties"@)->Some_0 is Object),
    ensures
        resolved_event(object, context) == Err::<ResolvedEvent, CaptureFault>(
            CaptureFault::Malformed("properties must be an object"@),
        ),
{
}

/// The token of a batch wins; without one, an event's own `token` does, then its `$token`, then its `api_key`,
/// then the one among its properties.
pub proof fn law_tokens_in_turn(object: JsonValue, context: BatchContext, token: Seq<char>)
    requires
        resolved_event(object, context) is Ok,
    ensures
        ({
            let e = resolved_event(object, context)->Ok_0;
            let own = context.batch_token is None;
            &&& context.batch_token == Some(token) ==> e.token == token
            &&& own && has_text(object, "token"@, token) ==> e.token == token
            &&& own && no_text(object, "token"@) && has_text(object, "$token"@, token) ==> e.token
                == token
            &&& own && no_text(object, "token"@) && no_text(object, "$token"@) && has_text(
                object,
                "api_key"@,
                token,
            ) ==> e.token == token
            &&& own && no_text(object, "token"@) && no_text(object, "$token"@) && no_text(
                object,
                "api_key"@,
            ) ==> e.properties.contains_key("token"@) && e.properties["token"@] == JsonValue::Text(
                e.token,
            )
        }),
{
}

/// The text that a distinct id stands for.
pub open spec fn id_text(value: JsonValue) -> Seq<char> {
    if value is Text {
        value->Text_0
    } else {
        rendered(value)
    }
}

/// Whether a distinct id is a text without its null characters, and without what goes beyond 200 characters.
pub open spec fn is_cut(id: Seq<char>, text: Seq<char>) -> bool {
    &&& id.len() == if text.len() < 200 {
        text.len()
    } else {
        200
    }
    &&& forall|i: int|
        0 <= i < id.len() ==> (#[trigger] id[i]) == if text[i] == '\0' {
            '\u{FFFD}'
        } else {
            text[i]
        }
}

/// The distinct id of an event is its own `distinct_id`, else its `$distinct_id`, else the one among its
/// properties.
pub proof fn law_distinct_ids_in_turn(object: JsonValue, context: BatchContext)
    requires
        resolved_event(object, context) is Ok,
    ensures
        ({
            let e = resolved_event(object, context)->Ok_0;
            let own = member(object, "distinct_id"@);
            let other = member(object, "$distinct_id"@);
            &&& own is Some ==> is_cut(e.distinct_id, id_text(own->Some_0))
            &&& own is None && other is Some ==> is_cut(e.distinct_id, id_text(other->Some_0))
            &&& own is None && other is None ==> e.properties.contains_key("distinct_id"@) && is_cut(
                e.distinct_id,
                id_text(e.properties["distinct_id"@]),
            )
        }),
{
}

/// An event keeps the uuid that it brings. One that brings none gets a new one of version 7, with the
/// milliseconds of the event's own instant up front.
pub proof fn law_uuids_carry_the_instant(
    object: JsonValue,
    context: BatchContext,
    text: Seq<char>,
    event: EventModel,
)
    requires
        resolved_event(object, context) is Ok,
        captured_as(event, resolved_event(object, context)->Ok_0),
    ensures
        has_text(object, "uuid"@, text) ==> uuid_parsed(text) == Some(event.uuid),
        no_text(object, "uuid"@) && 0 <= event.timestamp < 0x1_0000_0000 * 1_000_000_000 ==> uuid_version(
            event.uuid,
        ) == 7 && uuid_millis(event.uuid) == event.timestamp / 1_000_000,
        event.event == resolved_event(object, context)->Ok_0.event,
        event.distinct_id == resolved_event(object, context)->Ok_0.distinct_id,
        event.token == resolved_event(object, context)->Ok_0.token,
        event.timestamp == resolved_event(object, context)->Ok_0.timestamp,
        event.properties == resolved_event(object, context)->Ok_0.properties,
{
    if no_text(object, "uuid"@) && 0 <= event.timestamp < 0x1_0000_0000 * 1_000_000_000 {
        let t = event.timestamp;
        let s = t / 1_000_000_000;
        let n = t % 1_000_000_000;
        assert(t == s * 1_000_000_000 + n);
        assert(t / 1_000_000 == s * 1000 + n / 1_000_000) by (nonlinear_arith)
            requires
                t == s * 1_000_000_000 + n,
                0 <= n < 1_000_000_000,
        ;
    }
}

// ── Requests ──────────────────────────────────────────────────────────────────

/// Whether a raw event is one that is dropped.
pub open spec fn is_dropped(object: JsonValue) -> bool {
    has_text(object, "event"@, "$performance_event"@)
}

/// Where no event is dropped, every raw event comes out as one event, in order.
pub proof fn law_events_come_out_in_order(raw: Seq<JsonValue>, context: BatchContext)
    requires
        forall|i: int| 0 <= i < raw.len() ==> !is_dropped(#[trigger] raw[i]),
        resolved_events(raw, context) is Ok,
    ensures
        ({
            let events = resolved_events(raw, context)->Ok_0;
            &&& events.len() == raw.len()
            &&& forall|i: int|
                0 <= i < raw.len() ==> resolved_event(#[trigger] raw[i], context) == Ok::<
                    ResolvedEvent,
                    CaptureFault,
                >(events[i])
        }),
    decreases raw.len(),
{
    if raw.len() > 0 {
        let rest = raw.drop_last();
        assert forall|i: int| 0 <= i < rest.len() implies !is_dropped(#[trigger] rest[i]) by {
            assert(rest[i] == raw[i]);
        }
        assert(!is_dropped(raw[raw.len() - 1]));
        law_events_come_out_in_order(rest, context);
        let events = resolved_events(raw, context)->Ok_0;
        let before = resolved_events(rest, context)->Ok_0;
        assert forall|i: int| 0 <= i < raw.len() implies resolved_event(#[trigger] raw[i], context)
            == Ok::<ResolvedEvent, CaptureFault>(events[i]) by {
            if i < rest.len() {
                assert(rest[i] == raw[i]);
                assert(events[i] == before[i]);
            }
        }
    }
}

/// A performance event is dropped, wherever it stands, and nothing else changes by it.
pub proof fn law_performance_events_are_dropped(
    before: Seq<JsonValue>,
    object: JsonValue,
    after: Seq<JsonValue>,
    context: BatchContext,
)
    requires
        is_dropped(object),
    ensures
        resolved_events(before.push(object) + after, context) == resolved_events(
            before + after,
            context,
        ),
    decreases after.len(),
{
    if after.len() == 0 {
        assert(before.push(object) + after =~= before.push(object));
        assert(before + after =~= before);
        assert(before.push(object).drop_last() =~= before);
    } else {
        let rest = after.drop_last();
        law_performance_events_are_dropped(before, object, rest, context);
        assert((before.push(object) + after).drop_last() =~= before.push(object) + rest);
        assert((before + after).drop_last() =~= before + rest);
    }
}

/// The first event that is refused has the request refused, for its reason.
pub proof fn law_the_first_fault_decides(
    before: Seq<JsonValue>,
    object: JsonValue,
    after: Seq<JsonValue>,
    context: BatchContext,
    fault: CaptureFault,
)
    requires
        resolved_events(before, context) is Ok,
        !is_dropped(object),
        if object is Object {
            resolved_event(object, context) == Err::<ResolvedEvent, CaptureFault>(fault)
        } else {
            fault == CaptureFault::Malformed("event must be an object"@)
        },
    ensures
        resolved_events(before.push(object) + after, context) == Err::<
            Seq<ResolvedEvent>,
            CaptureFault,
        >(fault),
    decreases after.len(),
{
    if after.len() == 0 {
        assert(before.push(object) + after =~= before.push(object));
        assert(before.push(object).drop_last() =~= before);
    } else {
        let rest = after.drop_last();
        law_the_first_fault_decides(before, object, rest, context, fault);
        assert((before.push(object) + after).drop_last() =~= before.push(object) + rest);
    }
}

/// A list of events is sent without a token of its own, and is no historical migration.
pub proof fn law_lists_are_batches(
    events: Seq<JsonValue>,
    sent_at: Option<int>,
    now: int,
    accepted: Seq<Seq<char>>,
)
    ensures
        match resolved_events(
            events,
            (BatchContext { batch_token: None, sent_at, now, accepted }),
        ) {
            Ok(out) => parsed_batch(JsonValue::Array(events), sent_at, now, accepted) == Ok::<
                (Seq<ResolvedEvent>, bool),
                CaptureFault,
            >((out, false)),
            Err(e) => parsed_batch(JsonValue::Array(events), sent_at, now, accepted) == Err::<
                (Seq<ResolvedEvent>, bool),
                CaptureFault,
            >(e),
        },
{
}

/// An object that is no batch is a list of one event.
pub proof fn law_one_event_is_a_list_of_one(
    object: JsonValue,
    sent_at: Option<int>,
    now: int,
    accepted: Seq<Seq<char>>,
)
    requires
        object is Object,
        member(object, "batch"@) is None,
        member(object, "event"@) is Some,
    ensures
        parsed_batch(object, sent_at, now, accepted) == parsed_batch(
            JsonValue::Array(seq![object]),
            sent_at,
            now,
            accepted,
        ),
{
}

/// An object without an event name identifies: it is the same event with that name.
pub proof fn law_nameless_events_identify(
    members: Seq<(Seq<char>, JsonValue)>,
    sent_at: Option<int>,
    now: int,
    accepted: Seq<Seq<char>>,
)
    requires
        member(JsonValue::Object(members), "batch"@) is None,
        member(JsonValue::Object(members), "event"@) is None,
    ensures
        parsed_batch(JsonValue::Object(members), sent_at, now, accepted) == parsed_batch(
            JsonValue::Object(members.push(("event"@, JsonValue::Text("$identify"@)))),
            sent_at,
            now,
            accepted,
        ),
{
    let named = JsonValue::Object(members.push(("event"@, JsonValue::Text("$identify"@))));
    assert(members.push(("event"@, JsonValue::Text("$identify"@))).drop_last() =~= members);
    reveal_strlit("event");
    reveal_strlit("batch");
    assert("event"@[0] != "batch"@[0]);
    assert(member(named, "event"@) is Some);
    assert(member(named, "batch"@) is None);
}

/// The events of a batch share its token and the time it was sent. A time that the batch carries counts, and
/// that of the request does not. The batch says whether it is a historical migration.
pub proof fn law_batches_share_what_they_say(
    object: JsonValue,
    events: Seq<JsonValue>,
    sent_at: Option<int>,
    now: int,
    accepted: Seq<Seq<char>>,
    context: BatchContext,
)
    requires
        object is Object,
        member(object, "batch"@) == Some(JsonValue::Array(events)),
        context.now == now,
        context.accepted == accepted,
        member(object, "token"@) is Some && member(object, "token"@)->Some_0 is Text
            ==> context.batch_token == Some(member(object, "token"@)->Some_0->Text_0),
        member(object, "token"@) is Some && !(member(object, "token"@)->Some_0 is Text)
            ==> context.batch_token is None,
        member(object, "token"@) is None && !no_text(object, "api_key"@) ==> context.batch_token
            == Some(member(object, "api_key"@)->Some_0->Text_0),
        member(object, "token"@) is None && no_text(object, "api_key"@) ==> context.batch_token is None,
        no_text(object, "sent_at"@) ==> context.sent_at == sent_at,
        !no_text(object, "sent_at"@) ==> context.sent_at == parsed_instant(
            member(object, "sent_at"@)->Some_0->Text_0,
        ),
    ensures
        match resolved_events(events, context) {
            Ok(out) => parsed_batch(object, sent_at, now, accepted) == Ok::<
                (Seq<ResolvedEvent>, bool),
                CaptureFault,
            >((out, member(object, "historical_migration"@) == Some(JsonValue::Bool(true)))),
            Err(e) => parsed_batch(object, sent_at, now, accepted) == Err::<
                (Seq<ResolvedEvent>, bool),
                CaptureFault,
            >(e),
        },
{
}

/// A body that is neither an object nor a list is refused, and so is a batch that is no list.
pub proof fn law_other_bodies_are_refused(
    value: JsonValue,
    sent_at: Option<int>,
    now: int,
    accepted: Seq<Seq<char>>,
)
    ensures
        !(value is Object) && !(value is Array) ==> parsed_batch(value, sent_at, now, accepted) == Err::<
            (Seq<ResolvedEvent>, bool),
            CaptureFault,
        >(CaptureFault::Malformed("body must be an object or array"@)),
        member(value, "batch"@) is Some && !(member(value, "batch"@)->Some_0 is Array) ==> parsed_batch(
            value,
            sent_at,
            now,
            accepted,
        ) == Err::<(Seq<ResolvedEvent>, bool), CaptureFault>(
            CaptureFault::Malformed("batch must be an array"@),
        ),
{
}

/// Of the members of an object that share a key, the last counts, and a key that none has gives nothing.
pub proof fn law_last_members_count(members: Seq<(Seq<char>, JsonValue)>, i: int, k: Seq<char>)
    ensures
        0 <= i < members.len() && (forall|j: int|
            i < j < members.len() ==> (#[trigger] members[j]).0 != members[i].0) ==> member(
            JsonValue::Object(members),
            members[i].0,
        ) == Some(members[i].1),
        (forall|j: int| 0 <= j < members.len() ==> (#[trigger] members[j]).0 != k) ==> member(
            JsonValue::Object(members),
            k,
        ) is None,
{
    if 0 <= i < members.len() && (forall|j: int|
        i < j < members.len() ==> (#[trigger] members[j]).0 != members[i].0) {
        lemma_member_at(members, i);
    }
    if forall|j: int| 0 <= j < members.len() ==> (#[trigger] members[j]).0 != k {
        lemma_member_absent(members, k);
    }
}

// ── Taking and refusing ───────────────────────────────────────────────────────

/// An event that has a name, properties that are an object if there are any, an accepted token, an id with more
/// than blanks, and a time and a uuid that can be read if there are any, is taken.
pub proof fn law_sound_events_are_taken(
    object: JsonValue,
    context: BatchContext,
    name: Seq<char>,
    token: Seq<char>,
    id: Seq<char>,
    at: int,
)
    requires
        has_text(object, "event"@, name),
        name.len() > 0,
        member(object, "properties"@) is Some ==> member(object, "properties"@)->Some_0 is Object,
        context.accepted.contains(token),
        context.batch_token == Some(token) || context.batch_token is None && (has_text(
            object,
            "token"@,
            token,
        ) || no_text(object, "token"@) && (has_text(object, "$token"@, token) || no_text(
            object,
            "$token"@,
        ) && has_text(object, "api_key"@, token))),
        has_text(object, "distinct_id"@, id) || member(object, "distinct_id"@) is None && has_text(
            object,
            "$distinct_id"@,
            id,
        ),
        0 <= at < id.len(),
        !white_space(id[at]),
        id[at] != '\0',
        says_offset(object) || no_text(object, "timestamp"@) || parsed_instant(
            member(object, "timestamp"@)->Some_0->Text_0,
        ) is Some,
        no_text(object, "uuid"@) || uuid_parsed(member(object, "uuid"@)->Some_0->Text_0) is Some,
    ensures
        resolved_event(object, context) is Ok,
{
    let text = without_nulls(id);
    assert(text[at] == id[at]);
    assert(!blank(text));
}

/// An event whose token is not accepted is refused as unauthorized; one without an id, or with an empty or blank
/// one, is refused.
pub proof fn law_unsound_events_are_refused(object: JsonValue, context: BatchContext, token: Seq<char>)
    requires
        context.batch_token == Some(token) && !context.accepted.contains(token) || context.batch_token is None
            && has_text(object, "token"@, token) && !context.accepted.contains(token) || member(
            object,
            "distinct_id"@,
        ) == Some(JsonValue::Null) || has_text(object, "distinct_id"@, Seq::empty()),
    ensures
        resolved_event(object, context) is Err,
        !no_text(object, "event"@) && member(object, "event"@)->Some_0->Text_0.len() > 0 && member(
            object,
            "properties"@,
        ) is None && context.batch_token == Some(token) && !context.accepted.contains(token)
            ==> resolved_event(object, context)->Err_0 is Unauthorized,
{
    assert(without_nulls(Seq::empty()) =~= Seq::empty());
}

} // verus!
