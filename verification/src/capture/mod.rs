//! The capture edge: what a request body turns into and how it is answered.
//!
//! The status of an answer decides what a client does: it retries after a 5xx, never after a 4xx.
use vstd::prelude::*;
use vstd::string::*;

pub mod decompress;
pub mod event;
pub mod event_effects;
pub mod lz;
pub mod lz_effects;
pub mod request_effects;

use crate::capture::decompress::{decode, decoded, DecodeError};
use crate::capture::event::{
    all_captured_as, contains_text, instant_ok, option_view, parse_body, parse_sent_at_ms,
    parsed_batch, sent_at_instant, texts, CaptureError, CaptureFault, CapturedEvent, EventModel,
    ResolvedEvent,
};
use crate::control::access::{ControlModel, ProjectAccess};
use crate::control::grants::capture_authorized;
use crate::control::{AccessError, AccessFault};
use crate::flush::{event_of, event_tokens, lemma_event_tokens, tokens_of};
use crate::json::parsed_json;
use crate::metrics::{counted, Metrics};
use crate::order::views;
use crate::rows::{duplicate_all, lemma_steps_error, selected, steps};
use crate::text::{has_prefix, joined, same, starts_with};
use crate::text_map::TextMap;

verus! {

/// The most bytes of a body from a browser.
pub const MAX_EVENT_BODY_BYTES: usize = 2_097_152;

/// The most bytes of a body from a server, which sends batches.
pub const MAX_BATCH_BODY_BYTES: usize = 20_971_520;

/// Whether a path is an endpoint, with or without a slash at its end.
pub open spec fn is_endpoint(path: Seq<char>, endpoint: Seq<char>) -> bool {
    path == endpoint || path == endpoint + "/"@
}

fn at_endpoint(path: &str, endpoint: &str) -> (r: bool)
    ensures
        r == is_endpoint(path@, endpoint@),
{
    same(path, endpoint) || same(path, joined(endpoint, "/").as_str())
}

/// The most bytes of a body that is sent to a path. Nothing is captured at any other path.
pub open spec fn limit_of(path: Seq<char>) -> Option<usize> {
    if is_endpoint(path, "/e"@) || is_endpoint(path, "/capture"@) || is_endpoint(path, "/track"@)
        || is_endpoint(path, "/engage"@) || is_endpoint(path, "/i/v0/e"@) {
        Some(MAX_EVENT_BODY_BYTES)
    } else if is_endpoint(path, "/batch"@) {
        Some(MAX_BATCH_BODY_BYTES)
    } else {
        None
    }
}

/// The most bytes of a body that is sent to a path, if events are captured there.
pub fn body_limit(path: &str) -> (r: Option<usize>)
    ensures
        r == limit_of(path@),
{
    if at_endpoint(path, "/e") || at_endpoint(path, "/capture") || at_endpoint(path, "/track")
        || at_endpoint(path, "/engage") || at_endpoint(path, "/i/v0/e") {
        Some(MAX_EVENT_BODY_BYTES)
    } else if at_endpoint(path, "/batch") {
        Some(MAX_BATCH_BODY_BYTES)
    } else {
        None
    }
}

// ── Authorization ─────────────────────────────────────────────────────────────

/// A project that may be captured for. One that is known only by its token has no id.
#[derive(Debug)]
pub struct AuthorizedCapture {
    pub project_id: Option<String>,
}

/// Why a token is not authorized. Either way the request is answered the same.
#[derive(Debug, Clone, Copy, PartialEq, Eq, Structural)]
pub enum CaptureAuthorizationError {
    Rejected,
    Unavailable,
}

/// Decides which tokens may be captured for.
pub trait CaptureAuthorizer {
    /// The decision for a token: the id of its project, where it has one.
    spec fn decision(&self, token: Seq<char>) -> Result<Option<Seq<char>>, CaptureAuthorizationError>;

    /// Decides for a token.
    fn authorize(&self, token: &str) -> (r: Result<AuthorizedCapture, CaptureAuthorizationError>)
        ensures
            match self.decision(token@) {
                Ok(project) => r matches Ok(a) && option_view(a.project_id) == project,
                Err(e) => r matches Err(f) && f == e,
            },
    ;
}

/// Authorizes the tokens of projects. Everything else is refused.
pub struct ProjectAccessCaptureAuthorizer {
    pub access: ProjectAccess,
    /// The tokens that are valid as tokens.
    pub valid: Vec<String>,
}

impl ProjectAccessCaptureAuthorizer {
    /// An authorizer by projects, given which tokens are valid as tokens.
    pub fn new(access: ProjectAccess, valid: Vec<String>) -> (r: ProjectAccessCaptureAuthorizer)
        ensures
            r.access == access,
            r.valid == valid,
    {
        ProjectAccessCaptureAuthorizer { access, valid }
    }
}

/// The decision by projects.
pub open spec fn project_decision(m: ControlModel, token: Seq<char>, valid: bool) -> Result<
    Option<Seq<char>>,
    CaptureAuthorizationError,
> {
    match capture_authorized(m, token, valid) {
        Ok(project) => Ok(project.project_id),
        Err(AccessFault::InvalidToken) => Err(CaptureAuthorizationError::Rejected),
        Err(AccessFault::Unauthorized) => Err(CaptureAuthorizationError::Rejected),
        Err(_) => Err(CaptureAuthorizationError::Unavailable),
    }
}

impl CaptureAuthorizer for ProjectAccessCaptureAuthorizer {
    open spec fn decision(&self, token: Seq<char>) -> Result<
        Option<Seq<char>>,
        CaptureAuthorizationError,
    > {
        project_decision(self.access@, token, texts(self.valid@).contains(token))
    }

    fn authorize(&self, token: &str) -> (r: Result<AuthorizedCapture, CaptureAuthorizationError>) {
        match self.access.authorize_capture(token, contains_text(&self.valid, token)) {
            Ok(project) => Ok(AuthorizedCapture { project_id: project.project_id }),
            Err(AccessError::InvalidToken) => Err(CaptureAuthorizationError::Rejected),
            Err(AccessError::Unauthorized) => Err(CaptureAuthorizationError::Rejected),
            Err(_) => Err(CaptureAuthorizationError::Unavailable),
        }
    }
}

/// Authorizes the tokens that a registry of tokens accepts. It knows no projects.
pub struct LegacyRegistryCaptureAuthorizer {
    /// The tokens that the registry accepts.
    pub accepted: Vec<String>,
}

impl LegacyRegistryCaptureAuthorizer {
    /// An authorizer by a registry, given which tokens it accepts.
    pub fn new(accepted: Vec<String>) -> (r: LegacyRegistryCaptureAuthorizer)
        ensures
            r.accepted == accepted,
    {
        LegacyRegistryCaptureAuthorizer { accepted }
    }
}

impl CaptureAuthorizer for LegacyRegistryCaptureAuthorizer {
    open spec fn decision(&self, token: Seq<char>) -> Result<
        Option<Seq<char>>,
        CaptureAuthorizationError,
    > {
        if texts(self.accepted@).contains(token) {
            Ok(None)
        } else {
            Err(CaptureAuthorizationError::Rejected)
        }
    }

    fn authorize(&self, token: &str) -> (r: Result<AuthorizedCapture, CaptureAuthorizationError>) {
        if contains_text(&self.accepted, token) {
            Ok(AuthorizedCapture { project_id: None })
        } else {
            Err(CaptureAuthorizationError::Rejected)
        }
    }
}

// ── Requests and answers ──────────────────────────────────────────────────────

/// The parameters of a request.
pub struct CaptureQuery {
    /// When it was sent, in milliseconds since the epoch.
    pub sent_at: Option<String>,
    pub compression: Option<String>,
    pub beacon: Option<String>,
}

impl Default for CaptureQuery {
    fn default() -> (r: Self)
        ensures
            r.sent_at is None,
            r.compression is None,
            r.beacon is None,
    {
        CaptureQuery { sent_at: None, compression: None, beacon: None }
    }
}

/// How a request is answered.
#[derive(Debug, Clone, Copy, PartialEq, Eq, Structural)]
pub enum Status {
    Accepted,
    /// Accepted from a beacon, which reads no body.
    NoContent,
    BadRequest,
    Unauthorized,
    PayloadTooLarge,
    TooManyRequests,
    ServiceUnavailable,
}

/// The number of a status.
pub open spec fn status_code(status: Status) -> u16 {
    match status {
        Status::Accepted => 200,
        Status::NoContent => 204,
        Status::BadRequest => 400,
        Status::Unauthorized => 401,
        Status::PayloadTooLarge => 413,
        Status::TooManyRequests => 429,
        Status::ServiceUnavailable => 503,
    }
}

impl Status {
    /// The number of the status.
    pub fn code(self) -> (r: u16)
        ensures
            r == status_code(self),
    {
        match self {
            Status::Accepted => 200,
            Status::NoContent => 204,
            Status::BadRequest => 400,
            Status::Unauthorized => 401,
            Status::PayloadTooLarge => 413,
            Status::TooManyRequests => 429,
            Status::ServiceUnavailable => 503,
        }
    }
}

/// How the storing of a batch ended.
#[derive(Debug, Clone, Copy, PartialEq, Eq, Structural)]
pub enum SinkOutcome {
    Stored,
    Retryable,
    Fatal,
}

/// How far a request has come.
#[derive(Debug, Clone, Copy, PartialEq, Eq, Structural)]
pub enum Stage {
    /// Every token has to be authorized.
    Authorizing,
    /// The token at a place has to be let through by the rate limit.
    Limiting(usize),
    /// The batch has to be stored.
    Storing,
    /// The events have to be taken into account by the store of persons.
    Identifying,
    Answered(Status),
}

/// How many events a token has.
pub struct TokenCount {
    pub token: String,
    pub count: u32,
}

/// The mathematical value of a [`TokenCount`].
pub struct TokenCountModel {
    pub token: Seq<char>,
    pub count: u32,
}

impl View for TokenCount {
    type V = TokenCountModel;

    open spec fn view(&self) -> TokenCountModel {
        TokenCountModel { token: self.token@, count: self.count }
    }
}

/// How many events a token has, up to the largest number.
pub open spec fn count_of(events: Seq<EventModel>, token: Seq<char>) -> u32 {
    let n = selected(events, event_of(token)).len();
    if n <= u32::MAX {
        n as u32
    } else {
        u32::MAX
    }
}

/// The tokens of events, each once and in order, and how many events each has.
pub open spec fn token_counts(events: Seq<EventModel>) -> Seq<TokenCountModel> {
    event_tokens(events).map_values(
        |token: Seq<char>| TokenCountModel { token, count: count_of(events, token) },
    )
}

/// A capture request on its way.
pub struct CaptureRequest {
    pub events: Vec<CapturedEvent>,
    pub counts: Vec<TokenCount>,
    pub project_ids_by_token: TextMap,
    pub beacon: bool,
    pub stage: Stage,
}

/// The mathematical value of a [`CaptureRequest`].
pub struct RequestModel {
    pub events: Seq<EventModel>,
    pub counts: Seq<TokenCountModel>,
    pub project_ids: Map<Seq<char>, Seq<char>>,
    pub beacon: bool,
    pub stage: Stage,
}

impl View for CaptureRequest {
    type V = RequestModel;

    open spec fn view(&self) -> RequestModel {
        RequestModel {
            events: views(self.events@),
            counts: views(self.counts@),
            project_ids: self.project_ids_by_token@,
            beacon: self.beacon,
            stage: self.stage,
        }
    }
}

/// A request that is accepted.
pub open spec fn accepted_status(beacon: bool) -> Status {
    if beacon {
        Status::NoContent
    } else {
        Status::Accepted
    }
}

/// A request that is answered before it has events.
pub open spec fn refused(beacon: bool, status: Status) -> RequestModel {
    RequestModel {
        events: Seq::empty(),
        counts: Seq::empty(),
        project_ids: Map::empty(),
        beacon,
        stage: Stage::Answered(status),
    }
}

/// A request with its events. Without any there is nothing to do, and the client must not retry.
pub open spec fn parsed_request(events: Seq<EventModel>, beacon: bool) -> RequestModel {
    RequestModel {
        events,
        counts: token_counts(events),
        project_ids: Map::empty(),
        beacon,
        stage: if events.len() == 0 {
            Stage::Answered(accepted_status(beacon))
        } else {
            Stage::Authorizing
        },
    }
}

/// Whether a request comes from a beacon.
pub open spec fn is_beacon(query: CaptureQuery) -> bool {
    option_view(query.beacon) == Some("1"@)
}

/// Whether a body is a form, by its content type.
pub open spec fn form_type(content_type: Option<&str>) -> bool {
    content_type matches Some(t) && has_prefix(t@, "application/x-www-form-urlencoded"@)
}

/// The text of a request's body.
pub open spec fn request_text(query: CaptureQuery, content_type: Option<&str>, body: Seq<u8>) -> Result<
    Seq<char>,
    DecodeError,
> {
    decoded(body, form_type(content_type), option_view(query.compression))
}

/// When a request says it was sent.
pub open spec fn query_sent_at(query: CaptureQuery) -> Option<int> {
    match query.sent_at {
        Some(raw) => sent_at_instant(raw@),
        None => None,
    }
}

/// The resolved events of a body's text.
pub open spec fn request_events(
    text: Seq<char>,
    query: CaptureQuery,
    now: int,
    valid: Seq<Seq<char>>,
) -> Result<Seq<ResolvedEvent>, CaptureFault> {
    match parsed_json(text) {
        None => Err(CaptureFault::Malformed("invalid JSON"@)),
        Some(value) => match parsed_batch(value, query_sent_at(query), now, valid) {
            Ok((events, _)) => Ok(events),
            Err(fault) => Err(fault),
        },
    }
}

/// One more request that was rejected.
pub open spec fn rejected_once(m: Metrics) -> Metrics {
    Metrics { rejected: counted(m.rejected, 1), ..m }
}

/// Bindings of tokens to projects with one more token, if it is authorized.
pub open spec fn bound_by<A: CaptureAuthorizer>(authorizer: A) -> spec_fn(
    Map<Seq<char>, Seq<char>>,
    Seq<char>,
) -> Result<Map<Seq<char>, Seq<char>>, CaptureAuthorizationError> {
    |bindings: Map<Seq<char>, Seq<char>>, token: Seq<char>|
        match authorizer.decision(token) {
            Ok(Some(project)) => Ok(bindings.insert(token, project)),
            Ok(None) => Ok(bindings),
            Err(e) => Err(e),
        }
}

/// The projects of all tokens, or the first refusal.
pub open spec fn bindings_of<A: CaptureAuthorizer>(authorizer: A, events: Seq<EventModel>) -> Result<
    Map<Seq<char>, Seq<char>>,
    CaptureAuthorizationError,
> {
    steps(Map::empty(), event_tokens(events), bound_by(authorizer))
}

/// A request once its tokens were put to an authorizer: one refusal refuses all of it.
pub open spec fn authorized_request<A: CaptureAuthorizer>(
    request: RequestModel,
    m: Metrics,
    authorizer: A,
) -> (RequestModel, Metrics) {
    match bindings_of(authorizer, request.events) {
        Ok(project_ids) => (
            RequestModel { project_ids, stage: Stage::Limiting(0), ..request },
            m,
        ),
        Err(_) => (
            RequestModel { stage: Stage::Answered(Status::Unauthorized), ..request },
            rejected_once(m),
        ),
    }
}

/// A request once the rate limit has decided on the token at a place.
pub open spec fn limited_request(
    request: RequestModel,
    m: Metrics,
    place: usize,
    allowed: bool,
) -> (RequestModel, Metrics) {
    if !allowed {
        (
            RequestModel { stage: Stage::Answered(Status::TooManyRequests), ..request },
            rejected_once(m),
        )
    } else if place + 1 < request.counts.len() {
        (RequestModel { stage: Stage::Limiting((place + 1) as usize), ..request }, m)
    } else {
        (
            RequestModel { stage: Stage::Storing, ..request },
            Metrics { captured: counted(m.captured, request.events.len() as u64), ..m },
        )
    }
}

/// A request once the storing of its batch ended.
pub open spec fn stored_request(request: RequestModel, m: Metrics, outcome: SinkOutcome) -> (
    RequestModel,
    Metrics,
) {
    match outcome {
        SinkOutcome::Stored => (
            RequestModel { stage: Stage::Identifying, ..request },
            Metrics { acked: counted(m.acked, request.events.len() as u64), ..m },
        ),
        SinkOutcome::Retryable => (
            RequestModel { stage: Stage::Answered(Status::ServiceUnavailable), ..request },
            Metrics { sink_errors: counted(m.sink_errors, 1), ..m },
        ),
        SinkOutcome::Fatal => (
            RequestModel { stage: Stage::Answered(Status::BadRequest), ..request },
            rejected_once(m),
        ),
    }
}

/// The batch that is stored.
pub struct AuthorizedEventBatch {
    pub events: Vec<CapturedEvent>,
    pub project_ids_by_token: TextMap,
    pub historical_migration: bool,
}

fn count_tokens(events: &Vec<CapturedEvent>) -> (r: Vec<TokenCount>)
    ensures
        views(r@) == token_counts(views(events@)),
{
    let tokens = tokens_of(events);
    let ghost all = views(tokens@);
    let mut out: Vec<TokenCount> = Vec::new();
    let mut i: usize = 0;
    while i < tokens.len()
        invariant
            i <= tokens.len(),
            all == views(tokens@),
            all == event_tokens(views(events@)),
            out@.len() == i,
            forall|j: int|
                0 <= j < i ==> (#[trigger] out@[j])@ == (TokenCountModel {
                    token: all[j],
                    count: count_of(views(events@), all[j]),
                }),
        decreases tokens.len() - i,
    {
        assert(all[i as int] == tokens@[i as int]@);
        let count: u32 = count_events(events, tokens[i].as_str());
        out.push(TokenCount { token: tokens[i].clone(), count });
        i += 1;
    }
    assert(views(out@) =~= token_counts(views(events@)));
    out
}

fn count_events(events: &Vec<CapturedEvent>, token: &str) -> (r: u32)
    ensures
        r == count_of(views(events@), token@),
{
    let ghost all = views(events@);
    let mut count: u32 = 0;
    let mut i: usize = 0;
    assert(all.take(0) =~= Seq::<EventModel>::empty());
    while i < events.len()
        invariant
            i <= events.len(),
            all == views(events@),
            count == count_of(all.take(i as int), token@),
        decreases events.len() - i,
    {
        assert(all.take(i + 1).drop_last() =~= all.take(i as int));
        assert(all.take(i + 1).last() == events@[i as int]@);
        if same(events[i].token.as_str(), token) && count < u32::MAX {
            count = count + 1;
        }
        i += 1;
    }
    assert(all.take(all.len() as int) =~= all);
    count
}

impl CaptureRequest {
    fn refuse(beacon: bool, status: Status) -> (r: CaptureRequest)
        ensures
            r@ == refused(beacon, status),
    {
        let events: Vec<CapturedEvent> = Vec::new();
        let counts: Vec<TokenCount> = Vec::new();
        assert(views(events@) =~= Seq::<EventModel>::empty());
        assert(views(counts@) =~= Seq::<TokenCountModel>::empty());
        CaptureRequest {
            events,
            counts,
            project_ids_by_token: TextMap::new(),
            beacon,
            stage: Stage::Answered(status),
        }
    }

    /// Decodes the body of a request.
    pub fn text_of(query: &CaptureQuery, content_type: Option<&str>, body: &[u8]) -> (r: Result<
        String,
        DecodeError,
    >)
        ensures
            match request_text(*query, content_type, body@) {
                Ok(text) => r matches Ok(s) && s@ == text,
                Err(e) => r matches Err(f) && f == e,
            },
    {
        let form = match content_type {
            Some(t) => starts_with(t, "application/x-www-form-urlencoded"),
            None => false,
        };
        let hint: Option<&str> = match &query.compression {
            Some(h) => Some(h.as_str()),
            None => None,
        };
        decode(body, form, hint)
    }

    /// Reads a request whose body was decoded: it is parsed into events, or the request is answered at once.
    pub fn read_text(
        query: &CaptureQuery,
        text: Result<String, DecodeError>,
        now: i128,
        valid: &Vec<String>,
        metrics: &mut Metrics,
    ) -> (r: CaptureRequest)
        requires
            instant_ok(now as int),
        ensures
            *final(metrics) == (if is_rejected(r@) {
                rejected_once(*old(metrics))
            } else {
                *old(metrics)
            }),
            match text {
                Err(DecodeError::TooLarge) => r@ == refused(
                    is_beacon(*query),
                    Status::PayloadTooLarge,
                ) && *final(metrics) == rejected_once(*old(metrics)),
                Err(DecodeError::Undecodable) => r@ == refused(
                    is_beacon(*query),
                    Status::BadRequest,
                ) && *final(metrics) == rejected_once(*old(metrics)),
                Ok(text) => match request_events(text@, *query, now as int, texts(valid@)) {
                    Err(CaptureFault::Malformed(_)) => r@ == refused(
                        is_beacon(*query),
                        Status::BadRequest,
                    ) && *final(metrics) == rejected_once(*old(metrics)),
                    Err(CaptureFault::Unauthorized(_)) => r@ == refused(
                        is_beacon(*query),
                        Status::Unauthorized,
                    ) && *final(metrics) == rejected_once(*old(metrics)),
                    Ok(resolved) => all_captured_as(r.events@, resolved) && r@ == parsed_request(
                        views(r.events@),
                        is_beacon(*query),
                    ) && *final(metrics) == *old(metrics),
                },
            },
    {
        let beacon = match &query.beacon {
            Some(b) => same(b.as_str(), "1"),
            None => false,
        };
        let text = match text {
            Ok(text) => text,
            Err(DecodeError::TooLarge) => {
                metrics.inc_rejected();
                return CaptureRequest::refuse(beacon, Status::PayloadTooLarge);
            },
            Err(DecodeError::Undecodable) => {
                metrics.inc_rejected();
                return CaptureRequest::refuse(beacon, Status::BadRequest);
            },
        };
        let sent_at: Option<i128> = match &query.sent_at {
            Some(raw) => parse_sent_at_ms(raw.as_str()),
            None => None,
        };
        match parse_body(text.as_str(), sent_at, now, valid) {
            Ok(batch) => CaptureRequest::with_events(batch.events, beacon),
            Err(CaptureError::Malformed(_)) => {
                metrics.inc_rejected();
                CaptureRequest::refuse(beacon, Status::BadRequest)
            },
            Err(CaptureError::Unauthorized(_)) => {
                metrics.inc_rejected();
                CaptureRequest::refuse(beacon, Status::Unauthorized)
            },
        }
    }

    /// Reads a request: its body is decoded and parsed into events, or it is answered at once.
    pub fn read(
        query: &CaptureQuery,
        content_type: Option<&str>,
        body: &[u8],
        now: i128,
        valid: &Vec<String>,
        metrics: &mut Metrics,
    ) -> (r: CaptureRequest)
        requires
            instant_ok(now as int),
        ensures
            *final(metrics) == (if is_rejected(r@) {
                rejected_once(*old(metrics))
            } else {
                *old(metrics)
            }),
            match request_text(*query, content_type, body@) {
                Err(DecodeError::TooLarge) => r@ == refused(
                    is_beacon(*query),
                    Status::PayloadTooLarge,
                ) && *final(metrics) == rejected_once(*old(metrics)),
                Err(DecodeError::Undecodable) => r@ == refused(
                    is_beacon(*query),
                    Status::BadRequest,
                ) && *final(metrics) == rejected_once(*old(metrics)),
                Ok(text) => match request_events(text, *query, now as int, texts(valid@)) {
                    Err(CaptureFault::Malformed(_)) => r@ == refused(
                        is_beacon(*query),
                        Status::BadRequest,
                    ) && *final(metrics) == rejected_once(*old(metrics)),
                    Err(CaptureFault::Unauthorized(_)) => r@ == refused(
                        is_beacon(*query),
                        Status::Unauthorized,
                    ) && *final(metrics) == rejected_once(*old(metrics)),
                    Ok(resolved) => all_captured_as(r.events@, resolved) && r@ == parsed_request(
                        views(r.events@),
                        is_beacon(*query),
                    ) && *final(metrics) == *old(metrics),
                },
            },
    {
        let text = CaptureRequest::text_of(query, content_type, body);
        CaptureRequest::read_text(query, text, now, valid, metrics)
    }

    /// A request with its events.
    pub fn with_events(events: Vec<CapturedEvent>, beacon: bool) -> (r: CaptureRequest)
        ensures
            r.events == events,
            r@ == parsed_request(views(events@), beacon),
    {
        let counts = count_tokens(&events);
        assert(events@.len() == views(events@).len());
        let stage = if events.len() == 0 {
            if beacon {
                Stage::Answered(Status::NoContent)
            } else {
                Stage::Answered(Status::Accepted)
            }
        } else {
            Stage::Authorizing
        };
        CaptureRequest { events, counts, project_ids_by_token: TextMap::new(), beacon, stage }
    }

    /// Puts every distinct token to an authorizer, before anything is limited or stored.
    pub fn authorize<A: CaptureAuthorizer>(&mut self, authorizer: &A, metrics: &mut Metrics)
        requires
            old(self)@.stage == Stage::Authorizing,
        ensures
            (final(self)@, *final(metrics)) == authorized_request(
                old(self)@,
                *old(metrics),
                *authorizer,
            ),
    {
        let tokens = tokens_of(&self.events);
        match bind_tokens(&tokens, authorizer) {
            Ok(bindings) => {
                self.project_ids_by_token = bindings;
                self.stage = Stage::Limiting(0);
            },
            Err(_) => {
                metrics.inc_rejected();
                self.stage = Stage::Answered(Status::Unauthorized);
            },
        }
    }

    /// Takes the decision of the rate limit on the token that is next.
    pub fn limit(&mut self, allowed: bool, metrics: &mut Metrics)
        requires
            old(self)@.stage matches Stage::Limiting(i) && i < old(self)@.counts.len(),
        ensures
            (final(self)@, *final(metrics)) == limited_request(
                old(self)@,
                *old(metrics),
                old(self)@.stage->Limiting_0,
                allowed,
            ),
    {
        let i: usize = match self.stage {
            Stage::Limiting(i) => i,
            _ => 0,
        };
        assert(self.counts@.len() == views(self.counts@).len());
        assert(self.events@.len() == views(self.events@).len());
        if !allowed {
            metrics.inc_rejected();
            self.stage = Stage::Answered(Status::TooManyRequests);
        } else if i < self.counts.len() - 1 {
            self.stage = Stage::Limiting(i + 1);
        } else {
            metrics.inc_captured(self.events.len() as u64);
            self.stage = Stage::Storing;
        }
    }

    /// The batch to store. A client cannot make it a historical migration.
    pub fn batch(&self) -> (r: AuthorizedEventBatch)
        ensures
            views(r.events@) == self@.events,
            r.project_ids_by_token@ == self@.project_ids,
            !r.historical_migration,
    {
        let mut bindings = TextMap::new();
        let mut i: usize = 0;
        let ghost entries = self.project_ids_by_token.entries@;
        assert(entries.take(0) =~= Seq::<(String, String)>::empty());
        while i < self.project_ids_by_token.entries.len()
            invariant
                i <= self.project_ids_by_token.entries.len(),
                entries == self.project_ids_by_token.entries@,
                bindings@ == crate::text_map::entries_map(entries.take(i as int)),
            decreases self.project_ids_by_token.entries.len() - i,
        {
            assert(entries.take(i + 1).drop_last() =~= entries.take(i as int));
            bindings.insert(
                self.project_ids_by_token.entries[i].0.as_str(),
                self.project_ids_by_token.entries[i].1.as_str(),
            );
            i += 1;
        }
        assert(entries.take(entries.len() as int) =~= entries);
        AuthorizedEventBatch {
            events: duplicate_all(&self.events),
            project_ids_by_token: bindings,
            historical_migration: false,
        }
    }

    /// Takes how the storing of the batch ended.
    pub fn stored(&mut self, outcome: SinkOutcome, metrics: &mut Metrics)
        requires
            old(self)@.stage == Stage::Storing,
        ensures
            (final(self)@, *final(metrics)) == stored_request(old(self)@, *old(metrics), outcome),
    {
        assert(self.events@.len() == views(self.events@).len());
        match outcome {
            SinkOutcome::Stored => {
                metrics.inc_acked(self.events.len() as u64);
                self.stage = Stage::Identifying;
            },
            SinkOutcome::Retryable => {
                metrics.inc_sink_errors();
                self.stage = Stage::Answered(Status::ServiceUnavailable);
            },
            SinkOutcome::Fatal => {
                metrics.inc_rejected();
                self.stage = Stage::Answered(Status::BadRequest);
            },
        }
    }

    /// Answers a request whose events are stored, whether or not the store of persons could take them into
    /// account: it can be rebuilt from the events.
    pub fn identified(&mut self)
        requires
            old(self)@.stage == Stage::Identifying,
        ensures
            final(self)@ == (RequestModel {
                stage: Stage::Answered(accepted_status(old(self)@.beacon)),
                ..old(self)@
            }),
    {
        self.stage = if self.beacon {
            Stage::Answered(Status::NoContent)
        } else {
            Stage::Answered(Status::Accepted)
        };
    }
}

fn bind_tokens<A: CaptureAuthorizer>(tokens: &Vec<String>, authorizer: &A) -> (r: Result<
    TextMap,
    CaptureAuthorizationError,
>)
    ensures
        match steps(
            Map::<Seq<char>, Seq<char>>::empty(),
            views(tokens@),
            bound_by(*authorizer),
        ) {
            Ok(bindings) => r matches Ok(m) && m@ == bindings,
            Err(e) => r matches Err(f) && f == e,
        },
{
    let ghost all = views(tokens@);
    let ghost none = Map::<Seq<char>, Seq<char>>::empty();
    let mut out = TextMap::new();
    let mut i: usize = 0;
    assert(all.take(0) =~= Seq::<Seq<char>>::empty());
    while i < tokens.len()
        invariant
            i <= tokens.len(),
            all == views(tokens@),
            none == Map::<Seq<char>, Seq<char>>::empty(),
            steps(none, all.take(i as int), bound_by(*authorizer)) == Ok::<
                _,
                CaptureAuthorizationError,
            >(out@),
        decreases tokens.len() - i,
    {
        assert(all.take(i + 1).drop_last() =~= all.take(i as int));
        assert(all.take(i + 1).last() == tokens@[i as int]@);
        proof {
            lemma_steps_error(none, all, bound_by(*authorizer), i + 1);
        }
        match authorizer.authorize(tokens[i].as_str()) {
            Ok(authorized) => {
                if let Some(project) = authorized.project_id {
                    out.insert(tokens[i].as_str(), project.as_str());
                }
            },
            Err(e) => {
                return Err(e);
            },
        }
        i += 1;
    }
    assert(all.take(all.len() as int) =~= all);
    Ok(out)
}

// ── Laws ──────────────────────────────────────────────────────────────────────

proof fn lemma_bindings<A: CaptureAuthorizer>(authorizer: A, tokens: Seq<Seq<char>>, i: int)
    requires
        0 <= i < tokens.len(),
    ensures
        steps(Map::<Seq<char>, Seq<char>>::empty(), tokens, bound_by(authorizer)) matches Ok(m)
            ==> (authorizer.decision(tokens[i]) is Ok && (authorizer.decision(tokens[i])
            matches Ok(Some(project)) ==> m.contains_key(tokens[i]))),
    decreases tokens.len(),
{
    let none = Map::<Seq<char>, Seq<char>>::empty();
    let rest = tokens.drop_last();
    if i < rest.len() {
        lemma_bindings(authorizer, rest, i);
        assert(rest[i] == tokens[i]);
    }
}

/// A batch with one event whose token is refused is refused as a whole, and nothing of it is stored.
pub proof fn law_one_refused_token_refuses_the_batch<A: CaptureAuthorizer>(
    request: RequestModel,
    m: Metrics,
    authorizer: A,
    i: int,
)
    requires
        0 <= i < request.events.len(),
        authorizer.decision(request.events[i].token) is Err,
    ensures
        authorized_request(request, m, authorizer).0.stage == Stage::Answered(Status::Unauthorized),
{
    let tokens = event_tokens(request.events);
    lemma_event_tokens(request.events, request.events[i].token);
    let k = choose|k: int| 0 <= k < tokens.len() && tokens[k] == request.events[i].token;
    lemma_bindings(authorizer, tokens, k);
}

/// What was authorized by projects binds the token of every event to the id of a project.
pub proof fn law_projects_are_bound(
    request: RequestModel,
    m: Metrics,
    authorizer: ProjectAccessCaptureAuthorizer,
    i: int,
)
    requires
        0 <= i < request.events.len(),
        authorized_request(request, m, authorizer).0.stage == Stage::Limiting(0),
    ensures
        authorized_request(request, m, authorizer).0.project_ids.contains_key(
            request.events[i].token,
        ),
{
    let tokens = event_tokens(request.events);
    let token = request.events[i].token;
    lemma_event_tokens(request.events, token);
    let k = choose|k: int| 0 <= k < tokens.len() && tokens[k] == token;
    lemma_bindings(authorizer, tokens, k);
}

/// A client is told to retry only where storing failed in a way that may pass.
pub proof fn law_only_retryable_failures_are_retried<A: CaptureAuthorizer>(
    request: RequestModel,
    m: Metrics,
    authorizer: A,
    place: usize,
    allowed: bool,
    outcome: SinkOutcome,
    events: Seq<EventModel>,
    beacon: bool,
)
    requires
        !(request.stage is Answered),
    ensures
        authorized_request(request, m, authorizer).0.stage matches Stage::Answered(s)
            ==> status_code(s) < 500,
        limited_request(request, m, place, allowed).0.stage matches Stage::Answered(s)
            ==> status_code(s) < 500,
        stored_request(request, m, outcome).0.stage matches Stage::Answered(s) ==> (status_code(s)
            >= 500 <==> outcome == SinkOutcome::Retryable),
        parsed_request(events, beacon).stage matches Stage::Answered(s) ==> status_code(s) < 500,
        status_code(accepted_status(beacon)) < 300,
{
}

/// Whether a request was answered with a refusal that must not be tried again as it is.
pub open spec fn is_rejected(request: RequestModel) -> bool {
    match request.stage {
        Stage::Answered(status) => status == Status::BadRequest || status == Status::Unauthorized
            || status == Status::PayloadTooLarge || status == Status::TooManyRequests,
        _ => false,
    }
}

/// A request counts as rejected exactly if it is answered with a refusal, and then once.
pub proof fn law_every_rejection_is_counted<A: CaptureAuthorizer>(
    request: RequestModel,
    m: Metrics,
    authorizer: A,
    place: usize,
    allowed: bool,
    outcome: SinkOutcome,
)
    ensures
        ({
            let (next, after) = authorized_request(request, m, authorizer);
            after.rejected == if is_rejected(next) {
                counted(m.rejected, 1)
            } else {
                m.rejected
            }
        }),
        ({
            let (next, after) = limited_request(request, m, place, allowed);
            after.rejected == if is_rejected(next) {
                counted(m.rejected, 1)
            } else {
                m.rejected
            }
        }),
        ({
            let (next, after) = stored_request(request, m, outcome);
            after.rejected == if is_rejected(next) {
                counted(m.rejected, 1)
            } else {
                m.rejected
            }
        }),
{
}

/// Events count as captured only once every token is authorized and within its limit, and as durable only
/// once they are stored.
pub proof fn law_counters_follow_the_stages<A: CaptureAuthorizer>(
    request: RequestModel,
    m: Metrics,
    authorizer: A,
    place: usize,
    allowed: bool,
    outcome: SinkOutcome,
)
    ensures
        authorized_request(request, m, authorizer).1.captured == m.captured,
        authorized_request(request, m, authorizer).1.acked == m.acked,
        limited_request(request, m, place, allowed).1.captured != m.captured ==> limited_request(
            request,
            m,
            place,
            allowed,
        ).0.stage == Stage::Storing,
        limited_request(request, m, place, allowed).1.acked == m.acked,
        stored_request(request, m, outcome).1.acked != m.acked ==> outcome == SinkOutcome::Stored,
{
}

} // verus!
