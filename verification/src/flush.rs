//! Moving events from the log into the store.
//!
//! The order is what keeps events: the file of events is durable first, then the catalog and the sessions
//! are brought up to date, and the segments of the log are removed last. A crash in between leads to
//! duplicates, never to loss.
use vstd::prelude::*;

use crate::capture::event::{CapturedEvent, EventModel};
use crate::order::views;
use crate::rows::{
    add_text, append, lemma_selected, lemma_text_added, select, selected, text_added, Query,
};
use crate::text::same;

verus! {

/// How often the log is flushed, in seconds.
pub const FLUSH_INTERVAL_SECONDS: u64 = 5;

/// How often old events are dropped, in seconds.
pub const RETENTION_EVERY_SECONDS: u64 = 3600;

/// Why a flush fails.
#[derive(Debug)]
pub enum FlushError {
    WalClosed,
    Io(String),
}

/// The mathematical value of a [`FlushError`].
pub enum FlushFault {
    WalClosed,
    Io(Seq<char>),
}

impl View for FlushError {
    type V = FlushFault;

    open spec fn view(&self) -> FlushFault {
        match self {
            FlushError::WalClosed => FlushFault::WalClosed,
            FlushError::Io(s) => FlushFault::Io(s@),
        }
    }
}

// ── Tokens ────────────────────────────────────────────────────────────────────

/// The tokens of events, each once and in order.
pub open spec fn event_tokens(events: Seq<EventModel>) -> Seq<Seq<char>>
    decreases events.len(),
{
    if events.len() == 0 {
        Seq::empty()
    } else {
        text_added(event_tokens(events.drop_last()), events.last().token)
    }
}

/// Lists the tokens of events.
pub fn tokens_of(events: &Vec<CapturedEvent>) -> (r: Vec<String>)
    ensures
        views(r@) == event_tokens(views(events@)),
{
    let ghost all = views(events@);
    let mut out: Vec<String> = Vec::new();
    let mut i: usize = 0;
    assert(all.take(0) =~= Seq::<EventModel>::empty());
    assert(views(out@) =~= Seq::<Seq<char>>::empty());
    while i < events.len()
        invariant
            i <= events.len(),
            all == views(events@),
            views(out@) == event_tokens(all.take(i as int)),
        decreases events.len() - i,
    {
        assert(all.take(i + 1).drop_last() =~= all.take(i as int));
        assert(all.take(i + 1).last() == events@[i as int]@);
        add_text(&mut out, events[i].token.as_str());
        i += 1;
    }
    assert(all.take(all.len() as int) =~= all);
    out
}

/// The tokens of events are those of some event.
pub proof fn lemma_event_tokens(events: Seq<EventModel>, token: Seq<char>)
    ensures
        event_tokens(events).contains(token) <==> exists|i: int|
            0 <= i < events.len() && (#[trigger] events[i]).token == token,
    decreases events.len(),
{
    if events.len() > 0 {
        let rest = events.drop_last();
        lemma_event_tokens(rest, token);
        lemma_text_added(event_tokens(rest), events.last().token, token);
        if event_tokens(rest).contains(token) {
            let i = choose|i: int| 0 <= i < rest.len() && (#[trigger] rest[i]).token == token;
            assert(events[i].token == token);
        }
        if events.last().token == token {
            assert(events[events.len() - 1].token == token);
        }
        if exists|i: int| 0 <= i < events.len() && (#[trigger] events[i]).token == token {
            let i = choose|i: int| 0 <= i < events.len() && (#[trigger] events[i]).token == token;
            if i < rest.len() {
                assert(rest[i].token == token);
            }
        }
    }
}

/// The events of a token.
pub open spec fn event_of(token: Seq<char>) -> spec_fn(EventModel) -> bool {
    |event: EventModel| event.token == token
}

/// Tests [`event_of`].
pub struct EventOf<'a> {
    pub token: &'a str,
}

impl<'a> Query<CapturedEvent> for EventOf<'a> {
    open spec fn pred(&self) -> spec_fn(EventModel) -> bool {
        event_of(self.token@)
    }

    fn test(&self, row: &CapturedEvent) -> (r: bool) {
        same(row.token.as_str(), self.token)
    }
}

// ── Plan ──────────────────────────────────────────────────────────────────────

/// One thing to do.
#[derive(Debug, Clone, Copy, PartialEq, Eq, Structural)]
pub enum FlushStep {
    /// Write all events to the store.
    Write,
    /// Bring the catalog of a token, by its place, up to date.
    Catalog(usize),
    /// Bring the sessions of a token, by its place, up to date.
    Sessions(usize),
    /// Remove a segment of the log, by its place.
    Remove(usize),
    /// Compact the store.
    Compact,
}

/// The removal of every segment.
pub open spec fn removals(segments: nat) -> Seq<FlushStep> {
    Seq::new(segments, |i: int| FlushStep::Remove(i as usize))
}

/// The update of the catalog for every token.
pub open spec fn catalog_updates(tokens: nat) -> Seq<FlushStep> {
    Seq::new(tokens, |i: int| FlushStep::Catalog(i as usize))
}

/// The update of the sessions for every token.
pub open spec fn session_updates(tokens: nat) -> Seq<FlushStep> {
    Seq::new(tokens, |i: int| FlushStep::Sessions(i as usize))
}

/// All that a flush does, in order. Segments without events are only removed.
pub open spec fn flush_steps(
    segments: nat,
    events: nat,
    tokens: nat,
    catalog: bool,
    session: bool,
) -> Seq<FlushStep> {
    if events == 0 {
        removals(segments)
    } else {
        seq![FlushStep::Write] + (if catalog {
            catalog_updates(tokens)
        } else {
            Seq::empty()
        }) + (if session {
            session_updates(tokens)
        } else {
            Seq::empty()
        }) + removals(segments) + seq![FlushStep::Compact]
    }
}

fn add_removals(steps: &mut Vec<FlushStep>, n: usize)
    ensures
        final(steps)@ == old(steps)@ + removals(n as nat),
{
    let mut i: usize = 0;
    while i < n
        invariant
            i <= n,
            steps@ == old(steps)@ + removals(i as nat),
        decreases n - i,
    {
        steps.push(FlushStep::Remove(i));
        i += 1;
        assert(steps@ =~= old(steps)@ + removals(i as nat));
    }
}

fn add_catalog_updates(steps: &mut Vec<FlushStep>, n: usize)
    ensures
        final(steps)@ == old(steps)@ + catalog_updates(n as nat),
{
    let mut i: usize = 0;
    while i < n
        invariant
            i <= n,
            steps@ == old(steps)@ + catalog_updates(i as nat),
        decreases n - i,
    {
        steps.push(FlushStep::Catalog(i));
        i += 1;
        assert(steps@ =~= old(steps)@ + catalog_updates(i as nat));
    }
}

fn add_session_updates(steps: &mut Vec<FlushStep>, n: usize)
    ensures
        final(steps)@ == old(steps)@ + session_updates(n as nat),
{
    let mut i: usize = 0;
    while i < n
        invariant
            i <= n,
            steps@ == old(steps)@ + session_updates(i as nat),
        decreases n - i,
    {
        steps.push(FlushStep::Sessions(i));
        i += 1;
        assert(steps@ =~= old(steps)@ + session_updates(i as nat));
    }
}

/// Lists all that a flush does.
pub fn plan_flush(segments: usize, events: usize, tokens: usize, catalog: bool, session: bool) -> (r:
    Vec<FlushStep>)
    ensures
        r@ == flush_steps(segments as nat, events as nat, tokens as nat, catalog, session),
{
    let mut steps: Vec<FlushStep> = Vec::new();
    if events > 0 {
        steps.push(FlushStep::Write);
        if catalog {
            add_catalog_updates(&mut steps, tokens);
        }
        if session {
            add_session_updates(&mut steps, tokens);
        }
    }
    add_removals(&mut steps, segments);
    if events > 0 {
        steps.push(FlushStep::Compact);
    }
    assert(steps@ =~= flush_steps(
        segments as nat,
        events as nat,
        tokens as nat,
        catalog,
        session,
    ));
    steps
}

// ── Run ───────────────────────────────────────────────────────────────────────

/// The events of all segments, in order.
pub open spec fn all_events(segments: Seq<Vec<CapturedEvent>>) -> Seq<EventModel>
    decreases segments.len(),
{
    if segments.len() == 0 {
        Seq::empty()
    } else {
        all_events(segments.drop_last()) + views(segments.last()@)
    }
}

/// A flush under way.
pub struct FlushRun {
    pub events: Vec<CapturedEvent>,
    pub tokens: Vec<String>,
    pub steps: Vec<FlushStep>,
    pub at: usize,
}

/// The mathematical value of a [`FlushRun`].
pub struct FlushModel {
    pub events: Seq<EventModel>,
    pub tokens: Seq<Seq<char>>,
    pub steps: Seq<FlushStep>,
    pub at: int,
}

impl View for FlushRun {
    type V = FlushModel;

    open spec fn view(&self) -> FlushModel {
        FlushModel {
            events: views(self.events@),
            tokens: views(self.tokens@),
            steps: self.steps@,
            at: self.at as int,
        }
    }
}

/// Whether a flush stops when a step fails. The catalog and the sessions are rebuilt from the events, so
/// their failure does not stop it.
pub open spec fn fatal(step: FlushStep) -> bool {
    !(step is Catalog || step is Sessions)
}

impl FlushRun {
    /// Begins a flush of the events of segments that are sealed.
    pub fn begin(segments: &Vec<Vec<CapturedEvent>>, catalog: bool, session: bool) -> (r: FlushRun)
        ensures
            ({
                let events = all_events(segments@);
                let tokens = event_tokens(events);
                r@ == (FlushModel {
                    events,
                    tokens,
                    steps: flush_steps(
                        segments@.len(),
                        events.len(),
                        tokens.len(),
                        catalog,
                        session,
                    ),
                    at: 0,
                })
            }),
    {
        let mut events: Vec<CapturedEvent> = Vec::new();
        let mut i: usize = 0;
        assert(segments@.take(0) =~= Seq::<Vec<CapturedEvent>>::empty());
        assert(views(events@) =~= Seq::<EventModel>::empty());
        while i < segments.len()
            invariant
                i <= segments.len(),
                views(events@) == all_events(segments@.take(i as int)),
            decreases segments.len() - i,
        {
            assert(segments@.take(i + 1).drop_last() =~= segments@.take(i as int));
            add_events(&mut events, &segments[i]);
            i += 1;
        }
        assert(segments@.take(segments@.len() as int) =~= segments@);
        let tokens = tokens_of(&events);
        assert(tokens@.len() == views(tokens@).len());
        assert(events@.len() == views(events@).len());
        let steps = plan_flush(segments.len(), events.len(), tokens.len(), catalog, session);
        FlushRun { events, tokens, steps, at: 0 }
    }

    /// What to do next.
    pub fn next(&self) -> (r: Option<FlushStep>)
        ensures
            r == (if self@.at < self@.steps.len() {
                Some(self@.steps[self@.at])
            } else {
                None
            }),
    {
        if self.at < self.steps.len() {
            Some(self.steps[self.at])
        } else {
            None
        }
    }

    /// Takes the result of the step that was to be done next: nothing, or why it failed.
    pub fn advance(&mut self, failure: Option<String>) -> (r: Result<(), FlushError>)
        requires
            old(self)@.at < old(self)@.steps.len(),
        ensures
            if failure is Some && fatal(old(self)@.steps[old(self)@.at]) {
                r matches Err(e) && e@ == FlushFault::Io(failure->Some_0@) && final(self)@ == old(
                    self,
                )@
            } else {
                r is Ok && final(self)@ == (FlushModel { at: old(self)@.at + 1, ..old(self)@ })
            },
    {
        let n: usize = self.steps.len();
        let stops = match self.steps[self.at] {
            FlushStep::Catalog(_) | FlushStep::Sessions(_) => false,
            _ => true,
        };
        if stops {
            if let Some(message) = failure {
                return Err(FlushError::Io(message));
            }
        }
        self.at = self.at + 1;
        Ok(())
    }

    /// The events of a token, by its place.
    pub fn token_events(&self, i: usize) -> (r: Vec<CapturedEvent>)
        requires
            i < self@.tokens.len(),
        ensures
            views(r@) == selected(self@.events, event_of(self@.tokens[i as int])),
    {
        assert(self.tokens@.len() == views(self.tokens@).len());
        assert(self@.tokens[i as int] == self.tokens@[i as int]@);
        select(&self.events, &EventOf { token: self.tokens[i].as_str() })
    }

    /// How many events were flushed.
    pub fn flushed(&self) -> (r: usize)
        ensures
            r == self@.events.len(),
    {
        assert(self.events@.len() == views(self.events@).len());
        self.events.len()
    }
}

fn add_events(events: &mut Vec<CapturedEvent>, more: &Vec<CapturedEvent>)
    ensures
        views(final(events)@) == views(old(events)@) + views(more@),
{
    let ghost start = views(events@);
    let ghost all = views(more@);
    let mut i: usize = 0;
    assert(start + all.take(0) =~= start);
    while i < more.len()
        invariant
            i <= more.len(),
            all == views(more@),
            views(events@) == start + all.take(i as int),
        decreases more.len() - i,
    {
        assert(all[i as int] == more@[i as int]@);
        append(events, more[i].copy());
        i += 1;
        assert(views(events@) =~= start + all.take(i as int));
    }
    assert(all.take(all.len() as int) =~= all);
}

// ── Laws ──────────────────────────────────────────────────────────────────────

/// A segment with events is removed only after all events are written and the catalog and the sessions are
/// brought up to date.
pub proof fn law_segments_are_removed_last(
    segments: nat,
    events: nat,
    tokens: nat,
    catalog: bool,
    session: bool,
    i: int,
    j: int,
)
    requires
        events > 0,
        0 <= i < flush_steps(segments, events, tokens, catalog, session).len(),
        0 <= j < flush_steps(segments, events, tokens, catalog, session).len(),
        flush_steps(segments, events, tokens, catalog, session)[i] is Remove,
    ensures
        flush_steps(segments, events, tokens, catalog, session)[0] == FlushStep::Write,
        0 < i,
        !(flush_steps(segments, events, tokens, catalog, session)[j] is Remove) && !(flush_steps(
            segments,
            events,
            tokens,
            catalog,
            session,
        )[j] is Compact) ==> j < i,
{
    let all = flush_steps(segments, events, tokens, catalog, session);
    let head = seq![FlushStep::Write] + (if catalog {
        catalog_updates(tokens)
    } else {
        Seq::empty()
    }) + (if session {
        session_updates(tokens)
    } else {
        Seq::empty()
    });
    assert(all =~= head + removals(segments) + seq![FlushStep::Compact]);
    assert forall|k: int| 0 <= k < head.len() implies !(#[trigger] head[k] is Remove) by {}
    assert(i >= head.len()) by {
        if i < head.len() {
            assert(all[i] == head[i]);
        }
    }
    if j >= head.len() && j < head.len() + segments {
        assert(all[j] == removals(segments)[j - head.len()]);
    } else if j >= head.len() + segments {
        assert(all[j] == FlushStep::Compact);
    }
}

/// Every segment is removed.
pub proof fn law_every_segment_is_removed(
    segments: nat,
    events: nat,
    tokens: nat,
    catalog: bool,
    session: bool,
    segment: usize,
)
    requires
        segment < segments,
    ensures
        flush_steps(segments, events, tokens, catalog, session).contains(
            FlushStep::Remove(segment),
        ),
{
    let all = flush_steps(segments, events, tokens, catalog, session);
    if events == 0 {
        assert(all[segment as int] == FlushStep::Remove(segment));
    } else {
        let head = seq![FlushStep::Write] + (if catalog {
            catalog_updates(tokens)
        } else {
            Seq::empty()
        }) + (if session {
            session_updates(tokens)
        } else {
            Seq::empty()
        });
        assert(all =~= head + removals(segments) + seq![FlushStep::Compact]);
        assert(all[head.len() + segment] == FlushStep::Remove(segment));
    }
}

/// Every event is among those that its own token's catalog and sessions are brought up to date with.
pub proof fn law_every_event_reaches_its_token(events: Seq<EventModel>, i: int)
    requires
        0 <= i < events.len(),
    ensures
        event_tokens(events).contains(events[i].token),
        selected(events, event_of(events[i].token)).contains(events[i]),
{
    lemma_event_tokens(events, events[i].token);
    lemma_selected(events, event_of(events[i].token), events[i]);
    assert(events.contains(events[i]));
}

} // verus!
