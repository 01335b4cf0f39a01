//! What a capture request goes through, and how its body is read.
use vstd::prelude::*;
use vstd::string::*;
use vstd::utf8::*;

use crate::capture::decompress::{
    base64_byte, base64_decoded, base64_shaped, decoded, form_fields, form_parsed, gunzipped, gunzips,
    lemma_first_at, replaced, split, unescaped, url_decoded, DecodeError, FormModel,
};
use crate::capture::event_effects::law_lists_are_batches;
use crate::capture::event::{millis_instant, resolved_events, BatchContext, EventModel};
use crate::capture::lz::lz_decoded;
use crate::capture::{
    authorized_request, bound_by, form_type, is_beacon, limit_of, limited_request, parsed_request,
    query_sent_at, refused, request_events, status_code, stored_request, token_counts, CaptureAuthorizer, CaptureQuery, RequestModel, SinkOutcome, Stage, Status,
};
use crate::flush::{event_of, event_tokens, lemma_event_tokens};
use crate::json::{parsed_json, JsonValue};
use crate::metrics::Metrics;
use crate::rows::{selected, steps};
use crate::text::signed_of;

verus! {

// ── Stages ────────────────────────────────────────────────────────────────────

/// Authorizing binds the token of each event to the project that the authorizer decides on, and binds no other
/// token. A batch of which no token is refused goes on.
pub proof fn law_tokens_are_bound_as_decided<A: CaptureAuthorizer>(
    request: RequestModel,
    m: Metrics,
    authorizer: A,
    token: Seq<char>,
)
    ensures
        ({
            let (next, after) = authorized_request(request, m, authorizer);
            let sent = exists|i: int| 0 <= i < request.events.len() && (#[trigger] request.events[i]).token
                == token;
            &&& (forall|i: int|
                0 <= i < request.events.len() ==> authorizer.decision(
                    (#[trigger] request.events[i]).token,
                ) is Ok) ==> next.stage == Stage::Limiting(0) && after == m
            &&& next.stage == Stage::Limiting(0) && sent ==> authorizer.decision(token) is Ok
            &&& next.stage == Stage::Limiting(0) && sent && authorizer.decision(token)->Ok_0 is Some
                ==> next.project_ids.contains_key(token) && next.project_ids[token]
                == authorizer.decision(token)->Ok_0->Some_0
            &&& next.stage == Stage::Limiting(0) && !(sent && authorizer.decision(token)->Ok_0 is Some)
                ==> !next.project_ids.contains_key(token)
            &&& next.events == request.events
            &&& next.counts == request.counts
            &&& next.beacon == request.beacon
        }),
{
    let tokens = event_tokens(request.events);
    lemma_event_tokens(request.events, token);
    lemma_bound(authorizer, tokens, token);
    if forall|i: int|
        0 <= i < request.events.len() ==> authorizer.decision((#[trigger] request.events[i]).token) is Ok {
        assert forall|k: int| 0 <= k < tokens.len() implies authorizer.decision(#[trigger] tokens[k]) is Ok by {
            lemma_event_tokens(request.events, tokens[k]);
            assert(tokens.contains(tokens[k]));
        }
        lemma_all_bound(authorizer, tokens);
    }
}

proof fn lemma_bound<A: CaptureAuthorizer>(authorizer: A, tokens: Seq<Seq<char>>, token: Seq<char>)
    ensures
        match steps(Map::<Seq<char>, Seq<char>>::empty(), tokens, bound_by(authorizer)) {
            Ok(m) => {
                &&& tokens.contains(token) ==> authorizer.decision(token) is Ok
                &&& tokens.contains(token) && authorizer.decision(token)->Ok_0 is Some ==> m.contains_key(
                    token,
                ) && m[token] == authorizer.decision(token)->Ok_0->Some_0
                &&& !(tokens.contains(token) && authorizer.decision(token)->Ok_0 is Some)
                    ==> !m.contains_key(token)
            },
            Err(_) => true,
        },
    decreases tokens.len(),
{
    if tokens.len() > 0 {
        let rest = tokens.drop_last();
        lemma_bound(authorizer, rest, token);
        assert(tokens =~= rest.push(tokens.last()));
        crate::rows::lemma_push_contains(rest, tokens.last(), token);
    }
}

proof fn lemma_all_bound<A: CaptureAuthorizer>(authorizer: A, tokens: Seq<Seq<char>>)
    requires
        forall|k: int| 0 <= k < tokens.len() ==> authorizer.decision(#[trigger] tokens[k]) is Ok,
    ensures
        steps(Map::<Seq<char>, Seq<char>>::empty(), tokens, bound_by(authorizer)) is Ok,
    decreases tokens.len(),
{
    if tokens.len() > 0 {
        let rest = tokens.drop_last();
        assert forall|k: int| 0 <= k < rest.len() implies authorizer.decision(#[trigger] rest[k]) is Ok by {
            assert(rest[k] == tokens[k]);
        }
        lemma_all_bound(authorizer, rest);
        assert(authorizer.decision(tokens[tokens.len() - 1]) is Ok);
    }
}

/// A request over its limit is answered so. One within it goes on to the next token, and after the last to
/// storing: only then are its events counted as captured.
pub proof fn law_limits_are_asked_in_turn(request: RequestModel, m: Metrics, place: usize, allowed: bool)
    requires
        place < request.counts.len() < usize::MAX,
        m.captured + request.events.len() <= u64::MAX,
    ensures
        ({
            let (next, after) = limited_request(request, m, place, allowed);
            &&& !allowed ==> next.stage is Answered && status_code(next.stage->Answered_0) == 429
            &&& allowed && place + 1 < request.counts.len() ==> next.stage == Stage::Limiting(
                (place + 1) as usize,
            ) && after == m
            &&& allowed && place + 1 == request.counts.len() ==> next.stage == Stage::Storing
                && after.captured == m.captured + request.events.len()
            &&& next.events == request.events
            &&& next.counts == request.counts
            &&& next.project_ids == request.project_ids
            &&& next.beacon == request.beacon
        }),
{
}

/// Stored events are counted as acknowledged. What failed for now is answered so that it is sent again, and what
/// failed for good so that it is not.
pub proof fn law_storing_is_answered(request: RequestModel, m: Metrics, outcome: SinkOutcome)
    requires
        m.acked + request.events.len() <= u64::MAX,
        m.sink_errors < u64::MAX,
        m.rejected < u64::MAX,
    ensures
        ({
            let (next, after) = stored_request(request, m, outcome);
            &&& outcome == SinkOutcome::Stored ==> next.stage == Stage::Identifying && after.acked
                == m.acked + request.events.len() && after.sink_errors == m.sink_errors && after.rejected
                == m.rejected
            &&& outcome == SinkOutcome::Retryable ==> next.stage is Answered && status_code(
                next.stage->Answered_0,
            ) == 503 && after.sink_errors == m.sink_errors + 1 && after.rejected == m.rejected
            &&& outcome == SinkOutcome::Fatal ==> next.stage is Answered && status_code(
                next.stage->Answered_0,
            ) == 400 && after.rejected == m.rejected + 1 && after.sink_errors == m.sink_errors
            &&& after.captured == m.captured
            &&& next.events == request.events
            &&& next.project_ids == request.project_ids
        }),
{
}

/// A request without events is answered at once, with 204 for a beacon and 200 for any other; one with events is
/// to be authorized.
pub proof fn law_empty_requests_are_accepted(events: Seq<EventModel>, beacon: bool)
    ensures
        ({
            let r = parsed_request(events, beacon);
            &&& r.events == events
            &&& r.beacon == beacon
            &&& events.len() == 0 && beacon ==> r.stage is Answered && status_code(r.stage->Answered_0)
                == 204
            &&& events.len() == 0 && !beacon ==> r.stage is Answered && status_code(r.stage->Answered_0)
                == 200
            &&& events.len() > 0 ==> r.stage == Stage::Authorizing
        }),
{
}

/// How many events carry a token.
pub open spec fn carriers(events: Seq<EventModel>, token: Seq<char>) -> nat
    decreases events.len(),
{
    if events.len() == 0 {
        0
    } else {
        carriers(events.drop_last(), token) + if events.last().token == token {
            1nat
        } else {
            0nat
        }
    }
}

proof fn lemma_carriers(events: Seq<EventModel>, token: Seq<char>)
    ensures
        selected(events, event_of(token)).len() == carriers(events, token),
    decreases events.len(),
{
    if events.len() > 0 {
        lemma_carriers(events.drop_last(), token);
    }
}

/// Limits are asked for each token of a request, with the number of its events that carry it.
pub proof fn law_tokens_are_limited_by_their_events(events: Seq<EventModel>, i: int, k: int)
    requires
        carriers(events, events[i].token) <= u32::MAX,
    ensures
        0 <= i < events.len() ==> exists|j: int|
            0 <= j < token_counts(events).len() && (#[trigger] token_counts(events)[j]).token
                == events[i].token && token_counts(events)[j].count == carriers(events, events[i].token),
        0 <= k < token_counts(events).len() ==> exists|j: int|
            0 <= j < events.len() && (#[trigger] events[j]).token == token_counts(events)[k].token,
{
    let tokens = event_tokens(events);
    if 0 <= i < events.len() {
        lemma_event_tokens(events, events[i].token);
        lemma_carriers(events, events[i].token);
        let j = choose|j: int| 0 <= j < tokens.len() && tokens[j] == events[i].token;
        assert(token_counts(events)[j].token == events[i].token);
    }
    if 0 <= k < token_counts(events).len() {
        lemma_event_tokens(events, tokens[k]);
        assert(tokens.contains(tokens[k]));
    }
}

/// The endpoints of capture take two megabytes, the one for batches twenty, with or without a slash at the end.
/// No other path has a limit of its own.
pub proof fn law_endpoints_have_their_limits(path: Seq<char>)
    ensures
        path == "/e"@ || path == "/e"@ + "/"@ || path == "/capture"@ || path == "/capture"@ + "/"@ || path
            == "/track"@ || path == "/track"@ + "/"@ || path == "/engage"@ || path == "/engage"@ + "/"@
            || path == "/i/v0/e"@ || path == "/i/v0/e"@ + "/"@ ==> limit_of(path) == Some(
            2_097_152usize,
        ),
        path == "/batch"@ || path == "/batch"@ + "/"@ ==> limit_of(path) == Some(20_971_520usize),
        limit_of(path) is Some ==> path == "/e"@ || path == "/e"@ + "/"@ || path == "/capture"@ || path
            == "/capture"@ + "/"@ || path == "/track"@ || path == "/track"@ + "/"@ || path == "/engage"@
            || path == "/engage"@ + "/"@ || path == "/i/v0/e"@ || path == "/i/v0/e"@ + "/"@ || path
            == "/batch"@ || path == "/batch"@ + "/"@,
{
    reveal_strlit("/e");
    reveal_strlit("/capture");
    reveal_strlit("/track");
    reveal_strlit("/engage");
    reveal_strlit("/i/v0/e");
    reveal_strlit("/batch");
    reveal_strlit("/");
    if path == "/batch"@ || path == "/batch"@ + "/"@ {
        assert(path[1] == 'b');
        assert("/e"@[1] == 'e' && "/capture"@[1] == 'c' && "/track"@[1] == 't' && "/engage"@[1] == 'e'
            && "/i/v0/e"@[1] == 'i');
        assert(("/e"@ + "/"@)[1] == 'e' && ("/capture"@ + "/"@)[1] == 'c' && ("/track"@ + "/"@)[1] == 't'
            && ("/engage"@ + "/"@)[1] == 'e' && ("/i/v0/e"@ + "/"@)[1] == 'i');
    }
}

// ── Bodies ────────────────────────────────────────────────────────────────────

/// Whether a body is Base64, and what it decodes to.
pub open spec fn wraps(body: Seq<u8>, inner: Seq<u8>) -> bool {
    base64_shaped(body) && base64_decoded(body) == Some(inner)
}

/// Whether a body is no Base64.
pub open spec fn is_bare(body: Seq<u8>) -> bool {
    !base64_shaped(body) || base64_decoded(body) is None
}

/// Whether bytes begin as gzip does.
pub open spec fn begins_as_gzip(bytes: Seq<u8>) -> bool {
    bytes.len() >= 2 && bytes[0] == 0x1f && bytes[1] == 0x8b
}

/// A body without a hint is its text, or the text that it wraps.
pub proof fn law_plain_bodies_are_their_text(body: Seq<u8>, inner: Seq<u8>)
    requires
        wraps(body, inner) || (is_bare(body) && inner == body),
        !begins_as_gzip(inner),
    ensures
        valid_utf8(inner) ==> decoded(body, false, None) == Ok::<Seq<char>, DecodeError>(
            decode_utf8(inner),
        ),
        !valid_utf8(inner) ==> decoded(body, false, None) == Err::<Seq<char>, DecodeError>(
            DecodeError::Undecodable,
        ),
{
}

/// A body that begins as gzip is what it inflates to, whatever the hint, unless that is more than 64 megabytes, or
/// not sound.
pub proof fn law_gzip_is_inflated(body: Seq<u8>, inner: Seq<u8>, hint: Option<Seq<char>>)
    requires
        wraps(body, inner) || (is_bare(body) && inner == body),
        begins_as_gzip(inner),
    ensures
        gunzipped(inner).len() > 67_108_864 ==> decoded(body, false, hint) == Err::<
            Seq<char>,
            DecodeError,
        >(DecodeError::TooLarge),
        gunzipped(inner).len() <= 67_108_864 && !gunzips(inner) ==> decoded(body, false, hint) == Err::<
            Seq<char>,
            DecodeError,
        >(DecodeError::Undecodable),
        gunzipped(inner).len() <= 67_108_864 && gunzips(inner) && valid_utf8(gunzipped(inner)) ==> decoded(
            body,
            false,
            hint,
        ) == Ok::<Seq<char>, DecodeError>(decode_utf8(gunzipped(inner))),
{
}

/// A body under the hint of LZ compression is what it decompresses to, and else what it wraps does; where neither
/// is compressed so, the hint counts for nothing.
pub proof fn law_lz_goes_by_the_hint(body: Seq<u8>, inner: Seq<u8>, hint: Seq<char>, text: Seq<char>)
    requires
        wraps(body, inner) || (is_bare(body) && inner == body),
        !begins_as_gzip(inner),
        hint == "lz64"@ || hint == "lz-string"@,
    ensures
        valid_utf8(body) && lz_decoded(decode_utf8(body), 67_108_864) == Ok::<Seq<char>, DecodeError>(text)
            ==> decoded(body, false, Some(hint)) == Ok::<Seq<char>, DecodeError>(text),
        (!valid_utf8(body) || lz_decoded(decode_utf8(body), 67_108_864) == Err::<Seq<char>, DecodeError>(
            DecodeError::Undecodable,
        )) && valid_utf8(inner) && lz_decoded(decode_utf8(inner), 67_108_864) == Ok::<
            Seq<char>,
            DecodeError,
        >(text) ==> decoded(body, false, Some(hint)) == Ok::<Seq<char>, DecodeError>(text),
        (!valid_utf8(body) || lz_decoded(decode_utf8(body), 67_108_864) == Err::<Seq<char>, DecodeError>(
            DecodeError::Undecodable,
        )) && (!valid_utf8(inner) || lz_decoded(decode_utf8(inner), 67_108_864) == Err::<
            Seq<char>,
            DecodeError,
        >(DecodeError::Undecodable)) ==> decoded(body, false, Some(hint)) == decoded(body, false, None),
{
}

/// A hint that is not known counts for nothing.
pub proof fn law_other_hints_count_for_nothing(body: Seq<u8>, hint: Seq<char>)
    requires
        hint != "lz64"@,
        hint != "lz-string"@,
    ensures
        decoded(body, false, Some(hint)) == decoded(body, false, None),
{
}

/// The characters of Base64 are the letters, the digits, and three more.
pub proof fn law_base64_is_its_alphabet(body: Seq<u8>)
    ensures
        base64_shaped(body) <==> body.len() > 0 && body.len() % 4 == 0 && forall|i: int|
            #![trigger body[i]]
            0 <= i < body.len() ==> ('0' as u8 <= body[i] <= '9' as u8) || ('A' as u8 <= body[i] <= 'Z' as u8)
                || ('a' as u8 <= body[i] <= 'z' as u8) || body[i] == '+' as u8 || body[i] == '/' as u8
                || body[i] == '=' as u8,
{
    if forall|i: int|
        #![trigger body[i]]
        0 <= i < body.len() ==> ('0' as u8 <= body[i] <= '9' as u8) || ('A' as u8 <= body[i] <= 'Z' as u8) || (
        'a' as u8 <= body[i] <= 'z' as u8) || body[i] == '+' as u8 || body[i] == '/' as u8 || body[i]
            == '=' as u8 {
        assert forall|i: int| 0 <= i < body.len() implies base64_byte(#[trigger] body[i]) by {}
    }
    if base64_shaped(body) {
        assert forall|i: int| #![trigger body[i]] 0 <= i < body.len() implies ('0' as u8 <= body[i]
            <= '9' as u8) || ('A' as u8 <= body[i] <= 'Z' as u8) || ('a' as u8 <= body[i] <= 'z' as u8)
            || body[i] == '+' as u8 || body[i] == '/' as u8 || body[i] == '=' as u8 by {
            assert(base64_byte(body[i]));
        }
    }
}

/// A form stands for its `data`. The hint of the form counts before that of the request. What is no form is taken
/// as it stands.
pub proof fn law_forms_stand_for_their_data(body: Seq<u8>, hint: Option<Seq<char>>)
    ensures
        form_parsed(body) is None ==> decoded(body, true, hint) == decoded(body, false, hint),
        form_parsed(body) is Some && form_parsed(body)->Some_0.1 is Some ==> decoded(body, true, hint)
            == decoded(encode_utf8(form_parsed(body)->Some_0.0), false, form_parsed(body)->Some_0.1),
        form_parsed(body) is Some && form_parsed(body)->Some_0.1 is None ==> decoded(body, true, hint)
            == decoded(encode_utf8(form_parsed(body)->Some_0.0), false, hint),
{
}

/// Of the fields of a form the last `data` and the last `compression` count, and no other.
pub proof fn law_last_fields_count(
    pairs: Seq<Seq<char>>,
    form: FormModel,
    key: Seq<char>,
    value: Seq<char>,
)
    requires
        form_fields(pairs) == Some(form),
        !key.contains('='),
    ensures
        ({
            let r = form_fields(pairs.push(key + "="@ + value));
            &&& key == "data"@ && url_decoded(value) is Some ==> r == Some(
                FormModel { data: url_decoded(value), hint: form.hint },
            )
            &&& key == "data"@ && url_decoded(value) is None ==> r is None
            &&& key == "compression"@ ==> r == Some(FormModel { data: form.data, hint: Some(value) })
            &&& key != "data"@ && key != "compression"@ ==> r == Some(form)
        }),
{
    reveal_strlit("=");
    reveal_strlit("data");
    reveal_strlit("compression");
    assert("data"@.len() != "compression"@.len());
    let pair = key + "="@ + value;
    assert(pairs.push(pair).drop_last() =~= pairs);
    let at = key.len() as int;
    assert forall|j: int| 0 <= j < at implies pair[j] != '=' by {
        assert(pair[j] == key[j]);
        assert(key.contains(key[j]));
    }
    assert(pair[at] == '=');
    lemma_first_at(pair, '=', at);
    assert(pair.take(at) =~= key);
    assert(pair.skip(at + 1) =~= value);
}

/// Splitting a text at a separator takes it apart there and nowhere else.
pub proof fn law_splitting_takes_apart_at_the_separator(a: Seq<char>, b: Seq<char>, separator: char)
    ensures
        !a.contains(separator) ==> split(a, separator) == seq![a],
        split(a + seq![separator] + b, separator) == split(a, separator) + split(b, separator),
    decreases a.len() + b.len(),
{
    lemma_split_whole(a, separator);
    lemma_split_len(a, separator);
    lemma_split_len(b, separator);
    let whole = a + seq![separator] + b;
    if b.len() == 0 {
        assert(whole.drop_last() =~= a);
        assert(split(whole, separator) =~= split(a, separator) + split(b, separator));
    } else {
        let rest = b.drop_last();
        law_splitting_takes_apart_at_the_separator(a, rest, separator);
        lemma_split_len(rest, separator);
        assert(whole.drop_last() =~= a + seq![separator] + rest);
        assert(whole.last() == b.last());
        assert(split(whole, separator) =~= split(a, separator) + split(b, separator));
    }
}

proof fn lemma_split_len(s: Seq<char>, separator: char)
    ensures
        split(s, separator).len() > 0,
    decreases s.len(),
{
    if s.len() > 0 {
        lemma_split_len(s.drop_last(), separator);
    }
}

proof fn lemma_split_whole(s: Seq<char>, separator: char)
    ensures
        !s.contains(separator) ==> split(s, separator) == seq![s],
    decreases s.len(),
{
    if s.len() > 0 && !s.contains(separator) {
        let rest = s.drop_last();
        if rest.contains(separator) {
            let i = choose|i: int| 0 <= i < rest.len() && rest[i] == separator;
            assert(s[i] == separator);
        }
        lemma_split_whole(rest, separator);
        assert(s.contains(s.last()));
        assert(rest.push(s.last()) =~= s);
        assert(split(s, separator) =~= seq![s]);
    } else if s.len() == 0 {
        assert(s =~= Seq::<char>::empty());
        assert(split(s, separator) =~= seq![s]);
    }
}

/// Bytes without a percent sign are taken as they stand, and a percent sign with two hexadecimal digits of either
/// case is one byte.
pub proof fn law_percent_escapes_are_bytes(bytes: Seq<u8>, rest: Seq<u8>, high: u8, low: u8)
    ensures
        !bytes.contains(37u8) ==> unescaped(bytes) == Some(bytes),
        unescaped(rest) is Some && high < 16 && low < 16 ==> unescaped(
            seq![37u8, digit_byte(high, false), digit_byte(low, false)] + rest,
        ) == Some(seq![(16 * high + low) as u8] + unescaped(rest)->Some_0) && unescaped(
            seq![37u8, digit_byte(high, true), digit_byte(low, true)] + rest,
        ) == Some(seq![(16 * high + low) as u8] + unescaped(rest)->Some_0),
    decreases bytes.len(),
{
    if bytes.len() > 0 && !bytes.contains(37u8) {
        let after = bytes.skip(1);
        if after.contains(37u8) {
            let i = choose|i: int| 0 <= i < after.len() && after[i] == 37u8;
            assert(bytes[i + 1] == 37u8);
        }
        assert(bytes.contains(bytes[0]));
        law_percent_escapes_are_bytes(after, rest, high, low);
        assert(seq![bytes[0]] + after =~= bytes);
    } else if bytes.len() == 0 {
        assert(bytes =~= Seq::<u8>::empty());
    }
    let upper = seq![37u8, digit_byte(high, true), digit_byte(low, true)] + rest;
    let lower = seq![37u8, digit_byte(high, false), digit_byte(low, false)] + rest;
    assert(upper.skip(3) =~= rest);
    assert(lower.skip(3) =~= rest);
    assert(upper[0] == 37u8 && lower[0] == 37u8);
}

/// The character of a hexadecimal digit, as a byte.
pub open spec fn digit_byte(digit: u8, upper: bool) -> u8 {
    if digit < 10 {
        (48 + digit) as u8
    } else if upper {
        (65 + (digit - 10)) as u8
    } else {
        (97 + (digit - 10)) as u8
    }
}

/// In a form a plus sign stands for a space. A value without escapes is otherwise taken as it stands.
pub proof fn law_plus_signs_are_spaces(value: Seq<char>, text: Seq<char>)
    requires
        text.len() == value.len(),
        forall|i: int|
            0 <= i < value.len() ==> (#[trigger] text[i]) == if value[i] == '+' {
                ' '
            } else {
                value[i]
            },
        !encode_utf8(text).contains(37u8),
    ensures
        url_decoded(value) == Some(text),
{
    assert(replaced(value, '+', ' ') =~= text);
    law_percent_escapes_are_bytes(encode_utf8(text), Seq::empty(), 0, 0);
    encode_utf8_valid_utf8(text);
    encode_utf8_decode_utf8(text);
}

// ── Queries ───────────────────────────────────────────────────────────────────

/// A list of events is taken as sent when the query says so, in milliseconds; where the query says nothing that
/// can be read, it is not known when it was sent.
pub proof fn law_queries_say_when_they_were_sent(
    text: Seq<char>,
    events: Seq<JsonValue>,
    query: CaptureQuery,
    millis: i64,
    p: (i64, u32),
    now: int,
    valid: Seq<Seq<char>>,
    sent_at: Option<int>,
)
    requires
        parsed_json(text) == Some(JsonValue::Array(events)),
        query.sent_at is None ==> sent_at is None,
        query.sent_at is Some && signed_of(query.sent_at->Some_0@) is None ==> sent_at is None,
        query.sent_at is Some && signed_of(query.sent_at->Some_0@) is Some ==> signed_of(
            query.sent_at->Some_0@,
        ) == Some(millis as int) && millis_instant(millis) == Some(p) && p.1 < 1_000_000_000
            && sent_at == Some(p.0 * 1_000_000_000 + p.1),
    ensures
        request_events(text, query, now, valid) == resolved_events(
            events,
            BatchContext { batch_token: None, sent_at, now, accepted: valid },
        ),
{
    assert(query_sent_at(query) == sent_at);
    law_lists_are_batches(events, sent_at, now, valid);
}

/// A body that is no document is refused as malformed.
pub proof fn law_bodies_are_documents(text: Seq<char>, query: CaptureQuery, now: int, valid: Seq<Seq<char>>)
    requires
        parsed_json(text) is None,
    ensures
        request_events(text, query, now, valid) is Err,
        request_events(text, query, now, valid)->Err_0 is Malformed,
{
}

/// A beacon is a request that says so with a one, and a form is told by its type, whatever follows it.
pub proof fn law_beacons_and_forms_say_so(query: CaptureQuery, content_type: &str, rest: Seq<char>)
    ensures
        is_beacon(query) <==> query.beacon is Some && query.beacon->Some_0@ == "1"@,
        content_type@ == "application/x-www-form-urlencoded"@ + rest ==> form_type(Some(content_type)),
        !form_type(None),
{
    let all = "application/x-www-form-urlencoded"@ + rest;
    assert(all.take("application/x-www-form-urlencoded"@.len() as int)
        =~= "application/x-www-form-urlencoded"@);
    assert(all.subrange(0, "application/x-www-form-urlencoded"@.len() as int)
        =~= "application/x-www-form-urlencoded"@);
}

/// A refusal takes no event and answers at once; who may not send is told so, as is who sends too much, or too
/// often, or what cannot be read.
pub proof fn law_refusals_say_why(beacon: bool, status: Status)
    ensures
        refused(beacon, status).stage == Stage::Answered(status),
        refused(beacon, status).events.len() == 0,
        refused(beacon, status).beacon == beacon,
        status_code(Status::BadRequest) == 400,
        status_code(Status::Unauthorized) == 401,
        status_code(Status::PayloadTooLarge) == 413,
        status_code(Status::TooManyRequests) == 429,
{
}

} // verus!
