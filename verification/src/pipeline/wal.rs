//! Byte-accounted write-ahead log.
//!
//! A cursor always names the next unread byte. Records are self-describing:
//! `[magic:4][version:1][reserved:3][length:u32 LE][crc32:u32 LE][payload]`.
use vstd::bytes::*;
use std::cmp::Ordering;

use vstd::prelude::*;
use vstd::std_specs::cmp::{PartialOrdSpec, PartialOrdSpecImpl};
use vstd::string::*;

use crate::capture::decompress::copy_bytes;
use crate::capture::event::CapturedEvent;
use crate::text::{decimal, decimal_text, is_blank, blank};
use crate::text_map::{lemma_entry_keys, TextMap};

verus! {

/// The length of a record's header.
pub const RECORD_HEADER_BYTES: usize = 16;

/// The suffix of the segment that is written to.
pub const OPEN_SUFFIX: &'static str = ".open";

/// The suffix of an immutable segment.
pub const SEALED_SUFFIX: &'static str = ".wal";

// ── Errors ────────────────────────────────────────────────────────────────────

/// Why the log refuses an operation.
#[derive(Debug)]
pub enum WalError {
    Io(String),
    Serialization(String),
    InvalidConfig,
    EmptyBatch,
    InvalidProjectBinding,
    Poisoned,
    WriterLocked,
    RecordTooLarge { actual: usize, maximum: usize },
    Corruption { segment: u64, byte_offset: u64, reason: &'static str },
}

/// The mathematical value of a [`WalError`].
pub enum WalFault {
    Io(Seq<char>),
    Serialization(Seq<char>),
    InvalidConfig,
    EmptyBatch,
    InvalidProjectBinding,
    Poisoned,
    WriterLocked,
    RecordTooLarge { actual: usize, maximum: usize },
    Corruption { segment: u64, byte_offset: u64, reason: Seq<char> },
}

impl View for WalError {
    type V = WalFault;

    open spec fn view(&self) -> WalFault {
        match self {
            WalError::Io(s) => WalFault::Io(s@),
            WalError::Serialization(s) => WalFault::Serialization(s@),
            WalError::InvalidConfig => WalFault::InvalidConfig,
            WalError::EmptyBatch => WalFault::EmptyBatch,
            WalError::InvalidProjectBinding => WalFault::InvalidProjectBinding,
            WalError::Poisoned => WalFault::Poisoned,
            WalError::WriterLocked => WalFault::WriterLocked,
            WalError::RecordTooLarge { actual, maximum } => WalFault::RecordTooLarge {
                actual: *actual,
                maximum: *maximum,
            },
            WalError::Corruption { segment, byte_offset, reason } => WalFault::Corruption {
                segment: *segment,
                byte_offset: *byte_offset,
                reason: reason@,
            },
        }
    }
}

/// The message of an error.
pub open spec fn wal_message(fault: WalFault) -> Seq<char> {
    match fault {
        WalFault::Io(s) => "WAL I/O error: "@ + s,
        WalFault::Serialization(s) => "WAL serialization error: "@ + s,
        WalFault::InvalidConfig => "invalid WAL configuration"@,
        WalFault::EmptyBatch => "a WAL batch must contain at least one event"@,
        WalFault::InvalidProjectBinding =>
            "every WAL event must have a non-empty authorized project binding"@,
        WalFault::Poisoned => "WAL writer is poisoned after an I/O failure"@,
        WalFault::WriterLocked => "WAL directory already has an active writer"@,
        WalFault::RecordTooLarge { actual, maximum } => "WAL record is "@ + decimal(actual as nat)
            + " bytes; maximum is "@ + decimal(maximum as nat),
        WalFault::Corruption { segment, byte_offset, reason } => "WAL corruption in segment "@
            + decimal(segment as nat) + " at byte "@ + decimal(byte_offset as nat) + ": "@ + reason,
    }
}

impl WalError {
    /// What the error says.
    pub fn message(&self) -> (r: String)
        ensures
            r@ == wal_message(self@),
    {
        match self {
            WalError::Io(s) => crate::text::joined("WAL I/O error: ", s.as_str()),
            WalError::Serialization(s) => crate::text::joined(
                "WAL serialization error: ",
                s.as_str(),
            ),
            WalError::InvalidConfig => "invalid WAL configuration".to_owned(),
            WalError::EmptyBatch => "a WAL batch must contain at least one event".to_owned(),
            WalError::InvalidProjectBinding =>
                "every WAL event must have a non-empty authorized project binding".to_owned(),
            WalError::Poisoned => "WAL writer is poisoned after an I/O failure".to_owned(),
            WalError::WriterLocked => "WAL directory already has an active writer".to_owned(),
            WalError::RecordTooLarge { actual, maximum } => {
                let mut out = "WAL record is ".to_owned();
                out.append(decimal_text(*actual as u64).as_str());
                out.append(" bytes; maximum is ");
                out.append(decimal_text(*maximum as u64).as_str());
                out
            },
            WalError::Corruption { segment, byte_offset, reason } => {
                let mut out = "WAL corruption in segment ".to_owned();
                out.append(decimal_text(*segment).as_str());
                out.append(" at byte ");
                out.append(decimal_text(*byte_offset).as_str());
                out.append(": ");
                out.append(*reason);
                out
            },
        }
    }
}

/// A corruption at a place.
pub open spec fn corrupt(segment: u64, byte_offset: int, reason: Seq<char>) -> WalFault {
    WalFault::Corruption { segment, byte_offset: byte_offset as u64, reason }
}

fn corruption(segment: u64, byte_offset: u64, reason: &'static str) -> (r: WalError)
    ensures
        r@ == corrupt(segment, byte_offset as int, reason@),
{
    WalError::Corruption { segment, byte_offset, reason }
}

// ── Batches ───────────────────────────────────────────────────────────────────

/// Events accepted together and persisted as one record. Publication never splits a batch.
pub struct CapturedBatch {
    pub events: Vec<CapturedEvent>,
    pub project_ids_by_token: TextMap,
    pub historical_migration: bool,
}

/// Whether every binding names a token and a project, and every event's token is bound.
pub open spec fn bindings_ok(
    events: Seq<CapturedEvent>,
    bindings: Seq<(String, String)>,
    map: Map<Seq<char>, Seq<char>>,
) -> bool {
    &&& forall|i: int|
        0 <= i < bindings.len() ==> (#[trigger] bindings[i]).0@.len() > 0 && !blank(bindings[i].1@)
    &&& forall|i: int| 0 <= i < events.len() ==> map.contains_key((#[trigger] events[i]).token@)
}

impl CapturedBatch {
    /// A batch without bindings.
    pub fn new(events: Vec<CapturedEvent>) -> (r: Result<CapturedBatch, WalError>)
        ensures
            events.len() == 0 ==> (r matches Err(e) && e@ == WalFault::EmptyBatch),
            events.len() > 0 ==> (r matches Ok(b) && b.events == events && b.project_ids_by_token@
                == Map::<Seq<char>, Seq<char>>::empty() && !b.historical_migration),
    {
        if events.len() == 0 {
            return Err(WalError::EmptyBatch);
        }
        Ok(
            CapturedBatch {
                events,
                project_ids_by_token: TextMap::new(),
                historical_migration: false,
            },
        )
    }

    /// A batch whose project authority remains provable after a token is rotated or removed.
    pub fn authorized(
        events: Vec<CapturedEvent>,
        project_ids_by_token: TextMap,
        historical_migration: bool,
    ) -> (r: Result<CapturedBatch, WalError>)
        ensures
            events.len() == 0 ==> (r matches Err(e) && e@ == WalFault::EmptyBatch),
            events.len() > 0 && !bindings_ok(
                events@,
                project_ids_by_token.entries@,
                project_ids_by_token@,
            ) ==> (r matches Err(e) && e@ == WalFault::InvalidProjectBinding),
            events.len() > 0 && bindings_ok(
                events@,
                project_ids_by_token.entries@,
                project_ids_by_token@,
            ) ==> (r matches Ok(b) && b.events == events && b.project_ids_by_token
                == project_ids_by_token && b.historical_migration == historical_migration),
    {
        if events.len() == 0 {
            return Err(WalError::EmptyBatch);
        }
        let mut i: usize = 0;
        while i < project_ids_by_token.entries.len()
            invariant
                i <= project_ids_by_token.entries.len(),
                events.len() > 0,
                forall|j: int|
                    0 <= j < i ==> (#[trigger] project_ids_by_token.entries@[j]).0@.len() > 0
                        && !blank(project_ids_by_token.entries@[j].1@),
            decreases project_ids_by_token.entries.len() - i,
        {
            if project_ids_by_token.entries[i].0.as_str().is_empty() || is_blank(
                project_ids_by_token.entries[i].1.as_str(),
            ) {
                return Err(WalError::InvalidProjectBinding);
            }
            i += 1;
        }
        let mut j: usize = 0;
        while j < events.len()
            invariant
                j <= events.len(),
                events.len() > 0,
                forall|k: int|
                    0 <= k < j ==> project_ids_by_token@.contains_key((#[trigger] events@[k]).token@),
            decreases events.len() - j,
        {
            if !project_ids_by_token.contains_key(events[j].token.as_str()) {
                assert(!project_ids_by_token@.contains_key(events@[j as int].token@));
                return Err(WalError::InvalidProjectBinding);
            }
            j += 1;
        }
        Ok(CapturedBatch { events, project_ids_by_token, historical_migration })
    }

    /// How many events the batch holds.
    pub fn event_count(&self) -> (r: usize)
        ensures
            r == self.events.len(),
    {
        self.events.len()
    }

    /// The project that an event's token is bound to.
    pub fn project_id_for(&self, event: &CapturedEvent) -> (r: Option<&String>)
        ensures
            match r {
                Some(id) => self.project_ids_by_token@.contains_key(event.token@)
                    && self.project_ids_by_token@[event.token@] == id@,
                None => !self.project_ids_by_token@.contains_key(event.token@),
            },
    {
        self.project_ids_by_token.get(event.token.as_str())
    }

    /// Whether the batch is a historical migration.
    pub fn historical_migration(&self) -> (r: bool)
        ensures
            r == self.historical_migration,
    {
        self.historical_migration
    }
}

/// Every event of an authorized batch has a project that is not blank.
pub proof fn law_authorized_events_have_projects(batch: CapturedBatch, i: int)
    requires
        bindings_ok(batch.events@, batch.project_ids_by_token.entries@, batch.project_ids_by_token@),
        0 <= i < batch.events.len(),
    ensures
        batch.project_ids_by_token@.contains_key(batch.events@[i].token@),
        !blank(batch.project_ids_by_token@[batch.events@[i].token@]),
{
    let token = batch.events@[i].token@;
    lemma_entry_keys(batch.project_ids_by_token.entries@, token);
    assert(batch.project_ids_by_token@.contains_key(token));
}

/// Whether a flag is off, and so is left out of a stored batch.
pub fn is_false(value: &bool) -> (r: bool)
    ensures
        r == !*value,
{
    !*value
}

// ── Cursors, spans, configuration ─────────────────────────────────────────────

/// The next byte that a consumer has not incorporated yet. Cursors are in the order of the log: by segment,
/// and within a segment by byte.
#[derive(Debug, Clone, Copy, PartialEq, Eq, Ord, Structural)]
pub struct WalCursor {
    pub segment: u64,
    pub byte_offset: u64,
}

impl PartialOrd for WalCursor {
    fn partial_cmp(&self, other: &WalCursor) -> (r: Option<Ordering>) {
        if self.segment < other.segment {
            Some(Ordering::Less)
        } else if self.segment > other.segment {
            Some(Ordering::Greater)
        } else if self.byte_offset < other.byte_offset {
            Some(Ordering::Less)
        } else if self.byte_offset > other.byte_offset {
            Some(Ordering::Greater)
        } else {
            Some(Ordering::Equal)
        }
    }
}

impl PartialOrdSpecImpl for WalCursor {
    open spec fn obeys_partial_cmp_spec() -> bool {
        true
    }

    open spec fn partial_cmp_spec(&self, other: &WalCursor) -> Option<Ordering> {
        if *self == *other {
            Some(Ordering::Equal)
        } else if cursor_at_most(*self, *other) {
            Some(Ordering::Less)
        } else {
            Some(Ordering::Greater)
        }
    }
}

/// Whether a cursor stands at or before another in the log.
pub open spec fn cursor_at_most(a: WalCursor, b: WalCursor) -> bool {
    a.segment < b.segment || (a.segment == b.segment && a.byte_offset <= b.byte_offset)
}

/// Comparing cursors compares places in the log.
pub proof fn law_cursors_compare_in_log_order(a: WalCursor, b: WalCursor)
    ensures
        (PartialOrdSpec::partial_cmp_spec(&a, &b) == Some(Ordering::Less)) <==> cursor_at_most(a, b) && a != b,
        (PartialOrdSpec::partial_cmp_spec(&a, &b) == Some(Ordering::Equal)) <==> a == b,
        (PartialOrdSpec::partial_cmp_spec(&a, &b) == Some(Ordering::Greater)) <==> !cursor_at_most(a, b),
{
}

impl WalCursor {
    /// A cursor at a byte of a segment.
    pub fn new(segment: u64, byte_offset: u64) -> (r: WalCursor)
        ensures
            r == (WalCursor { segment, byte_offset }),
    {
        WalCursor { segment, byte_offset }
    }

    /// The start of the first segment.
    pub fn origin() -> (r: WalCursor)
        ensures
            r == (WalCursor { segment: 1, byte_offset: 0 }),
    {
        WalCursor { segment: 1, byte_offset: 0 }
    }
}

/// The half-open byte range of one durable record.
#[derive(Debug, Clone, Copy, PartialEq, Eq, Structural)]
pub struct WalSpan {
    pub start: WalCursor,
    pub end: WalCursor,
    pub framed_bytes: u64,
}

/// What an append returns once the record is durable.
#[derive(Debug, Clone, Copy, PartialEq, Eq, Structural)]
pub struct WalReceipt {
    pub span: WalSpan,
    pub event_count: usize,
}

/// The limits of a log.
#[derive(Debug, Clone, Copy, PartialEq, Eq, Structural)]
pub struct WalConfig {
    pub segment_target_bytes: u64,
    pub max_record_bytes: usize,
}

/// Whether limits can be used.
pub open spec fn config_ok(segment_target_bytes: u64, max_record_bytes: usize) -> bool {
    segment_target_bytes > 0 && max_record_bytes > 0 && max_record_bytes <= u32::MAX
}

impl WalConfig {
    /// Limits, if they can be used.
    pub fn new(segment_target_bytes: u64, max_record_bytes: usize) -> (r: Result<
        WalConfig,
        WalError,
    >)
        ensures
            config_ok(segment_target_bytes, max_record_bytes) ==> (r matches Ok(c) && c == (
            WalConfig { segment_target_bytes, max_record_bytes })),
            !config_ok(segment_target_bytes, max_record_bytes) ==> (r matches Err(e) && e@
                == WalFault::InvalidConfig),
    {
        if segment_target_bytes == 0 || max_record_bytes == 0 || max_record_bytes > 0xffff_ffff {
            return Err(WalError::InvalidConfig);
        }
        Ok(WalConfig { segment_target_bytes, max_record_bytes })
    }
}

impl Default for WalConfig {
    fn default() -> (r: WalConfig)
        ensures
            r == (WalConfig { segment_target_bytes: 67108864, max_record_bytes: 67108864 }),
    {
        WalConfig { segment_target_bytes: 67108864, max_record_bytes: 67108864 }
    }
}

/// What opening a log had to repair.
#[derive(Debug, Clone, Copy, PartialEq, Eq, Structural)]
pub struct Recovery {
    pub truncated_tail: bool,
}

// ── Frames ────────────────────────────────────────────────────────────────────

/// The CRC-32 of bytes, as `crc32fast` computes it.
pub uninterp spec fn crc32(bytes: Seq<u8>) -> u32;

/// `crc32fast::hash`: the checksum is a function of the bytes.
#[verifier::external_body]
fn checksum(bytes: &[u8]) -> (r: u32)
    ensures
        r == crc32(bytes@),
{
    crc32fast::hash(bytes)
}

/// The bytes that every record begins with: magic, version and reserved bytes.
pub open spec fn preamble() -> Seq<u8> {
    seq![72u8, 71u8, 76u8, 87u8, 1u8, 0u8, 0u8, 0u8]
}

/// The bytes of a record.
pub open spec fn frame(payload: Seq<u8>) -> Seq<u8> {
    preamble() + spec_u32_to_le_bytes(payload.len() as u32) + spec_u32_to_le_bytes(crc32(payload))
        + payload
}

/// Frames a payload.
pub fn encode_frame(payload: &[u8]) -> (r: Vec<u8>)
    requires
        payload.len() <= u32::MAX,
    ensures
        r@ == frame(payload@),
{
    let mut out: Vec<u8> = Vec::new();
    out.push(72);
    out.push(71);
    out.push(76);
    out.push(87);
    out.push(1);
    out.push(0);
    out.push(0);
    out.push(0);
    assert(out@ =~= preamble());
    let mut length = u32_to_le_bytes(payload.len() as u32);
    out.append(&mut length);
    let mut crc = u32_to_le_bytes(checksum(payload));
    out.append(&mut crc);
    let mut body = copy_bytes(payload);
    out.append(&mut body);
    assert(out@ =~= frame(payload@));
    out
}

/// The number that four bytes from a position form, least significant first.
pub open spec fn le32_at(bytes: Seq<u8>, at: int) -> u32 {
    spec_u32_from_le_bytes(bytes.subrange(at, at + 4))
}

/// What is wrong with the fixed part of a header, if anything.
pub open spec fn header_fault(bytes: Seq<u8>, at: int) -> Option<Seq<char>> {
    if bytes.subrange(at, at + 4) != seq![72u8, 71u8, 76u8, 87u8] {
        Some("invalid record magic"@)
    } else if bytes[at + 4] != 1 {
        Some("unsupported record version"@)
    } else if bytes.subrange(at + 5, at + 8) != seq![0u8, 0u8, 0u8] {
        Some("non-zero reserved header bytes"@)
    } else {
        None
    }
}

/// What stands at a position of a segment.
pub enum FrameAt {
    /// Nothing: the position is the end.
    End,
    /// A header that the segment ends in the middle of.
    TornHeader,
    /// A payload that the segment ends in the middle of.
    TornPayload,
    /// A complete record.
    Whole(Seq<u8>),
    /// Something else.
    Bad(Seq<char>),
}

/// What stands at a position of a segment.
pub open spec fn frame_at(bytes: Seq<u8>, at: int, max: int) -> FrameAt {
    if at >= bytes.len() {
        FrameAt::End
    } else if bytes.len() - at < RECORD_HEADER_BYTES {
        FrameAt::TornHeader
    } else {
        match header_fault(bytes, at) {
            Some(reason) => FrameAt::Bad(reason),
            None => {
                let length = le32_at(bytes, at + 8);
                if length > max {
                    FrameAt::Bad("record length exceeds limit"@)
                } else if at + RECORD_HEADER_BYTES + length > bytes.len() {
                    FrameAt::TornPayload
                } else {
                    let payload = bytes.subrange(
                        at + RECORD_HEADER_BYTES,
                        at + RECORD_HEADER_BYTES + length,
                    );
                    if crc32(payload) != le32_at(bytes, at + 12) {
                        FrameAt::Bad("record checksum mismatch"@)
                    } else {
                        FrameAt::Whole(payload)
                    }
                }
            },
        }
    }
}

/// The length of the record of a payload.
pub open spec fn framed_len(payload: Seq<u8>) -> int {
    RECORD_HEADER_BYTES + payload.len()
}

proof fn lemma_frame_parts(payload: Seq<u8>, rest: Seq<u8>, before: Seq<u8>)
    requires
        payload.len() <= u32::MAX,
        rest.len() + RECORD_HEADER_BYTES >= 0,
    ensures
        frame(payload).len() == framed_len(payload),
        ({
            let bytes = before + frame(payload) + rest;
            let at = before.len() as int;
            &&& header_fault(bytes, at) is None
            &&& le32_at(bytes, at + 8) == payload.len()
            &&& le32_at(bytes, at + 12) == crc32(payload)
            &&& bytes.subrange(at + 16, at + 16 + payload.len()) == payload
        }),
{
    lemma_auto_spec_u32_to_from_le_bytes();
    let bytes = before + frame(payload) + rest;
    let at = before.len() as int;
    let size = spec_u32_to_le_bytes(payload.len() as u32);
    let crc = spec_u32_to_le_bytes(crc32(payload));
    assert(bytes.subrange(at, at + 4) =~= seq![72u8, 71u8, 76u8, 87u8]);
    assert(bytes[at + 4] == 1u8);
    assert(bytes.subrange(at + 5, at + 8) =~= seq![0u8, 0u8, 0u8]);
    assert(bytes.subrange(at + 8, at + 12) =~= size);
    assert(bytes.subrange(at + 12, at + 16) =~= crc);
    assert(bytes.subrange(at + 16, at + 16 + payload.len()) =~= payload);
}

/// What was framed is read back: a record that stands anywhere in a segment yields its payload.
pub proof fn law_read_back(before: Seq<u8>, payload: Seq<u8>, after: Seq<u8>, max: int)
    requires
        payload.len() <= max <= u32::MAX,
    ensures
        frame_at(before + frame(payload) + after, before.len() as int, max) == FrameAt::Whole(
            payload,
        ),
        frame(payload).len() == framed_len(payload),
{
    lemma_frame_parts(payload, after, before);
}

/// A record of which only the first bytes were written is torn, never something else.
pub proof fn law_torn_record(before: Seq<u8>, payload: Seq<u8>, written: int, max: int)
    requires
        payload.len() <= max <= u32::MAX,
        0 < written < framed_len(payload),
    ensures
        ({
            let found = frame_at(
                before + frame(payload).take(written),
                before.len() as int,
                max,
            );
            found is TornHeader || found is TornPayload
        }),
{
    lemma_frame_parts(payload, Seq::empty(), before);
    let whole = before + frame(payload) + Seq::<u8>::empty();
    let bytes = before + frame(payload).take(written);
    let at = before.len() as int;
    assert(bytes.len() == at + written);
    if written >= RECORD_HEADER_BYTES {
        assert(bytes.subrange(at, at + 4) =~= whole.subrange(at, at + 4));
        assert(bytes[at + 4] == whole[at + 4]);
        assert(bytes.subrange(at + 5, at + 8) =~= whole.subrange(at + 5, at + 8));
        assert(bytes.subrange(at + 8, at + 12) =~= whole.subrange(at + 8, at + 12));
    }
}

// ── Reading one record ────────────────────────────────────────────────────────

fn slice(bytes: &[u8], from: usize, to: usize) -> (r: Vec<u8>)
    requires
        from <= to <= bytes.len(),
    ensures
        r@ == bytes@.subrange(from as int, to as int),
{
    let mut out: Vec<u8> = Vec::new();
    let mut i: usize = from;
    while i < to
        invariant
            from <= i <= to <= bytes.len(),
            out@ == bytes@.subrange(from as int, i as int),
        decreases to - i,
    {
        out.push(bytes[i]);
        i += 1;
        assert(bytes@.subrange(from as int, i as int) =~= bytes@.subrange(from as int, i - 1).push(
            bytes@[i - 1],
        ));
    }
    out
}

fn le32(bytes: &[u8], at: usize) -> (r: u32)
    requires
        at + 4 <= bytes.len(),
    ensures
        r == le32_at(bytes@, at as int),
{
    let part = slice(bytes, at, at + 4);
    u32_from_le_bytes(&part)
}

/// Checks the fixed part of a header.
pub fn validate_header(bytes: &[u8], at: usize, segment: u64) -> (r: Result<(), WalError>)
    requires
        at + RECORD_HEADER_BYTES <= bytes.len(),
    ensures
        match header_fault(bytes@, at as int) {
            Some(reason) => r matches Err(e) && e@ == corrupt(segment, at as int, reason),
            None => r is Ok,
        },
{
    let ghost all = bytes@;
    let ghost here = at as int;
    assert(all.subrange(here, here + 4) == seq![72u8, 71u8, 76u8, 87u8] <==> (all[here] == 72
        && all[here + 1] == 71 && all[here + 2] == 76 && all[here + 3] == 87)) by {
        let part = all.subrange(here, here + 4);
        assert(part[0] == all[here] && part[1] == all[here + 1] && part[2] == all[here + 2]
            && part[3] == all[here + 3]);
        if all[here] == 72 && all[here + 1] == 71 && all[here + 2] == 76 && all[here + 3] == 87 {
            assert(part =~= seq![72u8, 71u8, 76u8, 87u8]);
        }
    }
    assert(all.subrange(here + 5, here + 8) == seq![0u8, 0u8, 0u8] <==> (all[here + 5] == 0
        && all[here + 6] == 0 && all[here + 7] == 0)) by {
        let part = all.subrange(here + 5, here + 8);
        assert(part[0] == all[here + 5] && part[1] == all[here + 6] && part[2] == all[here + 7]);
        if all[here + 5] == 0 && all[here + 6] == 0 && all[here + 7] == 0 {
            assert(part =~= seq![0u8, 0u8, 0u8]);
        }
    }
    if bytes[at] != 72 || bytes[at + 1] != 71 || bytes[at + 2] != 76 || bytes[at + 3] != 87 {
        return Err(corruption(segment, at as u64, "invalid record magic"));
    }
    if bytes[at + 4] != 1 {
        return Err(corruption(segment, at as u64, "unsupported record version"));
    }
    if bytes[at + 5] != 0 || bytes[at + 6] != 0 || bytes[at + 7] != 0 {
        return Err(corruption(segment, at as u64, "non-zero reserved header bytes"));
    }
    Ok(())
}

/// What stands at a position of a segment.
pub enum Frame {
    End,
    TornHeader,
    TornPayload,
    Whole(Vec<u8>),
}

/// Reads what stands at a position of a segment.
pub fn read_frame(bytes: &[u8], at: usize, segment: u64, max_record_bytes: usize) -> (r: Result<
    Frame,
    WalError,
>)
    requires
        at <= bytes.len(),
    ensures
        match frame_at(bytes@, at as int, max_record_bytes as int) {
            FrameAt::End => r matches Ok(Frame::End),
            FrameAt::TornHeader => r matches Ok(Frame::TornHeader),
            FrameAt::TornPayload => r matches Ok(Frame::TornPayload),
            FrameAt::Whole(p) => r matches Ok(Frame::Whole(v)) && v@ == p && at + framed_len(p)
                <= bytes.len() && p.len() <= max_record_bytes,
            FrameAt::Bad(reason) => r matches Err(e) && e@ == corrupt(segment, at as int, reason),
        },
{
    if at >= bytes.len() {
        return Ok(Frame::End);
    }
    if bytes.len() - at < RECORD_HEADER_BYTES {
        return Ok(Frame::TornHeader);
    }
    match validate_header(bytes, at, segment) {
        Ok(()) => {},
        Err(e) => {
            return Err(e);
        },
    }
    let length: u32 = le32(bytes, at + 8);
    if length as u64 > max_record_bytes as u64 {
        return Err(corruption(segment, at as u64, "record length exceeds limit"));
    }
    if bytes.len() - at - RECORD_HEADER_BYTES < length as usize {
        return Ok(Frame::TornPayload);
    }
    let start: usize = at + RECORD_HEADER_BYTES;
    let payload = slice(bytes, start, start + length as usize);
    if checksum(&payload) != le32(bytes, at + 12) {
        return Err(corruption(segment, at as u64, "record checksum mismatch"));
    }
    Ok(Frame::Whole(payload))
}

/// What decoding a payload as a batch gave.
#[derive(Debug, Clone, Copy, PartialEq, Eq, Structural)]
pub enum PayloadVerdict {
    /// A batch with at least one event.
    Batch,
    /// A batch without events.
    Empty,
    /// No batch.
    Invalid,
}

/// The payload and the length of the record at a position; nothing at the end of the segment.
pub open spec fn record_at(bytes: Seq<u8>, at: int, segment: u64, max: int) -> Result<
    Option<Seq<u8>>,
    WalFault,
> {
    match frame_at(bytes, at, max) {
        FrameAt::End => Ok(None),
        FrameAt::TornHeader => Err(corrupt(segment, at, "incomplete record header"@)),
        FrameAt::TornPayload => Err(corrupt(segment, at, "incomplete record payload"@)),
        FrameAt::Whole(p) => Ok(Some(p)),
        FrameAt::Bad(reason) => Err(corrupt(segment, at, reason)),
    }
}

/// Reads the record at a position of a sealed segment.
pub fn read_record(bytes: &[u8], at: usize, segment: u64, max_record_bytes: usize) -> (r: Result<
    Option<Vec<u8>>,
    WalError,
>)
    requires
        at <= bytes.len(),
    ensures
        match record_at(bytes@, at as int, segment, max_record_bytes as int) {
            Ok(None) => r matches Ok(None),
            Ok(Some(p)) => r matches Ok(Some(v)) && v@ == p && at + framed_len(p) <= bytes.len(),
            Err(e) => r matches Err(f) && f@ == e,
        },
{
    match read_frame(bytes, at, segment, max_record_bytes) {
        Ok(Frame::End) => Ok(None),
        Ok(Frame::TornHeader) => Err(corruption(segment, at as u64, "incomplete record header")),
        Ok(Frame::TornPayload) => Err(corruption(segment, at as u64, "incomplete record payload")),
        Ok(Frame::Whole(payload)) => Ok(Some(payload)),
        Err(e) => Err(e),
    }
}

/// What a verdict on the payload of a complete record says of the record.
pub open spec fn verdict_fault(verdict: PayloadVerdict) -> Option<Seq<char>> {
    match verdict {
        PayloadVerdict::Batch => None,
        PayloadVerdict::Empty => Some("empty captured batch"@),
        PayloadVerdict::Invalid => Some("invalid captured batch payload"@),
    }
}

/// Takes a decoded payload, or refuses the record that it came from.
pub fn accept_payload(verdict: PayloadVerdict, segment: u64, byte_offset: u64) -> (r: Result<
    (),
    WalError,
>)
    ensures
        match verdict_fault(verdict) {
            None => r is Ok,
            Some(reason) => r matches Err(e) && e@ == corrupt(
                segment,
                byte_offset as int,
                reason,
            ),
        },
{
    match verdict {
        PayloadVerdict::Batch => Ok(()),
        PayloadVerdict::Empty => Err(corruption(segment, byte_offset, "empty captured batch")),
        PayloadVerdict::Invalid => Err(
            corruption(segment, byte_offset, "invalid captured batch payload"),
        ),
    }
}

// ── Scanning a segment ────────────────────────────────────────────────────────

/// What a scan found.
#[derive(Debug, Clone, Copy, PartialEq, Eq, Structural)]
pub struct SegmentScan {
    pub valid_bytes: u64,
    pub truncated_tail: bool,
}

/// The verdict on the k-th payload; a payload without one is no batch.
pub open spec fn verdict_of(verdicts: Seq<PayloadVerdict>, k: int) -> PayloadVerdict {
    if 0 <= k < verdicts.len() {
        verdicts[k]
    } else {
        PayloadVerdict::Invalid
    }
}

/// A scan from a position on, with the records before it behind: where the complete records end, and
/// whether a torn one follows. Only a scan that repairs accepts a torn record.
pub open spec fn scanned(
    bytes: Seq<u8>,
    at: int,
    k: int,
    sequence: u64,
    max: int,
    repair: bool,
    verdicts: Seq<PayloadVerdict>,
) -> Result<(int, bool), WalFault>
    decreases bytes.len() - at,
    when at >= 0
{
    match frame_at(bytes, at, max) {
        FrameAt::End => Ok((at, false)),
        FrameAt::TornHeader => if repair {
            Ok((at, true))
        } else {
            Err(corrupt(sequence, at, "incomplete record header"@))
        },
        FrameAt::TornPayload => if repair {
            Ok((at, true))
        } else {
            Err(corrupt(sequence, at, "incomplete record payload"@))
        },
        FrameAt::Bad(reason) => Err(corrupt(sequence, at, reason)),
        FrameAt::Whole(payload) => match verdict_fault(verdict_of(verdicts, k)) {
            Some(reason) => Err(corrupt(sequence, at, reason)),
            None => scanned(
                bytes,
                at + framed_len(payload),
                k + 1,
                sequence,
                max,
                repair,
                verdicts,
            ),
        },
    }
}

/// Validates a segment. Only an active segment may discard an incomplete final record; a complete
/// record with a bad header, checksum or payload is corruption even when it is the last. `verdicts`
/// says what decoding each payload in turn gave.
pub fn scan_segment(
    bytes: &[u8],
    sequence: u64,
    max_record_bytes: usize,
    repair_final_tail: bool,
    verdicts: &Vec<PayloadVerdict>,
) -> (r: Result<SegmentScan, WalError>)
    ensures
        match scanned(
            bytes@,
            0,
            0,
            sequence,
            max_record_bytes as int,
            repair_final_tail,
            verdicts@,
        ) {
            Ok((valid, torn)) => r matches Ok(s) && s.valid_bytes == valid && s.truncated_tail
                == torn && valid <= bytes.len(),
            Err(e) => r matches Err(f) && f@ == e,
        },
{
    let ghost whole = scanned(
        bytes@,
        0,
        0,
        sequence,
        max_record_bytes as int,
        repair_final_tail,
        verdicts@,
    );
    let mut at: usize = 0;
    let mut k: usize = 0;
    loop
        invariant
            at <= bytes.len(),
            k <= at,
            whole == scanned(
                bytes@,
                0,
                0,
                sequence,
                max_record_bytes as int,
                repair_final_tail,
                verdicts@,
            ),
            whole == scanned(
                bytes@,
                at as int,
                k as int,
                sequence,
                max_record_bytes as int,
                repair_final_tail,
                verdicts@,
            ),
        decreases bytes.len() - at,
    {
        match read_frame(bytes, at, sequence, max_record_bytes) {
            Err(e) => {
                return Err(e);
            },
            Ok(Frame::End) => {
                return Ok(SegmentScan { valid_bytes: at as u64, truncated_tail: false });
            },
            Ok(Frame::TornHeader) => {
                if repair_final_tail {
                    return Ok(SegmentScan { valid_bytes: at as u64, truncated_tail: true });
                }
                return Err(corruption(sequence, at as u64, "incomplete record header"));
            },
            Ok(Frame::TornPayload) => {
                if repair_final_tail {
                    return Ok(SegmentScan { valid_bytes: at as u64, truncated_tail: true });
                }
                return Err(corruption(sequence, at as u64, "incomplete record payload"));
            },
            Ok(Frame::Whole(payload)) => {
                let verdict = if k < verdicts.len() {
                    verdicts[k]
                } else {
                    PayloadVerdict::Invalid
                };
                match accept_payload(verdict, sequence, at as u64) {
                    Ok(()) => {},
                    Err(e) => {
                        return Err(e);
                    },
                }
                at = at + RECORD_HEADER_BYTES + payload.len();
                k += 1;
            },
        }
    }
}

/// The payloads of the complete records of a segment, in order, up to the first that is not complete.
pub open spec fn payloads_of(bytes: Seq<u8>, at: int, max: int) -> Seq<Seq<u8>>
    decreases bytes.len() - at,
    when at >= 0
{
    match frame_at(bytes, at, max) {
        FrameAt::Whole(payload) => seq![payload] + payloads_of(
            bytes,
            at + framed_len(payload),
            max,
        ),
        _ => Seq::empty(),
    }
}

/// The view of payloads.
pub open spec fn payload_views(payloads: Seq<Vec<u8>>) -> Seq<Seq<u8>> {
    payloads.map_values(|p: Vec<u8>| p@)
}

/// Takes the payloads out of a segment, for decoding.
pub fn payloads(bytes: &[u8], max_record_bytes: usize) -> (r: Vec<Vec<u8>>)
    ensures
        payload_views(r@) == payloads_of(bytes@, 0, max_record_bytes as int),
{
    let ghost max = max_record_bytes as int;
    let mut out: Vec<Vec<u8>> = Vec::new();
    let mut at: usize = 0;
    assert(payload_views(out@) + payloads_of(bytes@, 0, max) =~= payloads_of(bytes@, 0, max));
    loop
        invariant
            at <= bytes.len(),
            max == max_record_bytes,
            payload_views(out@) + payloads_of(bytes@, at as int, max) == payloads_of(
                bytes@,
                0,
                max,
            ),
        decreases bytes.len() - at,
    {
        match read_frame(bytes, at, 0, max_record_bytes) {
            Ok(Frame::Whole(payload)) => {
                let ghost before = payload_views(out@);
                let ghost p = payload@;
                at = at + RECORD_HEADER_BYTES + payload.len();
                out.push(payload);
                assert(payload_views(out@) =~= before.push(p));
                assert(before.push(p) + payloads_of(bytes@, at as int, max) =~= before + (seq![p]
                    + payloads_of(bytes@, at as int, max)));
            },
            _ => {
                assert(payload_views(out@) + Seq::<Seq<u8>>::empty() =~= payload_views(out@));
                return out;
            },
        }
    }
}

/// The records of payloads, one after the other.
pub open spec fn frames(payloads: Seq<Seq<u8>>) -> Seq<u8>
    decreases payloads.len(),
{
    if payloads.len() == 0 {
        Seq::empty()
    } else {
        frames(payloads.drop_last()) + frame(payloads.last())
    }
}

/// Whether payloads can be recorded under a limit.
pub open spec fn recordable(payloads: Seq<Seq<u8>>, max: int) -> bool {
    &&& max <= u32::MAX
    &&& forall|i: int| 0 <= i < payloads.len() ==> (#[trigger] payloads[i]).len() <= max
}

/// Whether the first `n` payloads decoded as batches.
pub open spec fn all_batches(verdicts: Seq<PayloadVerdict>, n: int) -> bool {
    forall|i: int|
        0 <= i < n ==> #[trigger] verdict_of(verdicts, i) == PayloadVerdict::Batch
}

/// Scanning from the i-th record on comes to the end of the records, and takes their payloads out.
proof fn lemma_scan_skips(
    payloads: Seq<Seq<u8>>,
    i: int,
    tail: Seq<u8>,
    sequence: u64,
    max: int,
    repair: bool,
    verdicts: Seq<PayloadVerdict>,
)
    requires
        0 <= i <= payloads.len(),
        recordable(payloads, max),
        all_batches(verdicts, payloads.len() as int),
    ensures
        ({
            let bytes = frames(payloads) + tail;
            let at = frames(payloads.take(i)).len() as int;
            &&& scanned(bytes, at, i, sequence, max, repair, verdicts) == scanned(
                bytes,
                frames(payloads).len() as int,
                payloads.len() as int,
                sequence,
                max,
                repair,
                verdicts,
            )
            &&& payloads_of(bytes, at, max) == payloads.skip(i) + payloads_of(
                bytes,
                frames(payloads).len() as int,
                max,
            )
        }),
    decreases payloads.len() - i,
{
    let bytes = frames(payloads) + tail;
    let at = frames(payloads.take(i)).len() as int;
    if i == payloads.len() {
        assert(payloads.take(i) =~= payloads);
        assert(payloads.skip(i) + payloads_of(bytes, at, max) =~= payloads_of(bytes, at, max));
    } else {
        lemma_scan_skips(payloads, i + 1, tail, sequence, max, repair, verdicts);
        let p = payloads[i];
        assert(payloads.take(i + 1).drop_last() =~= payloads.take(i));
        assert(frames(payloads.take(i + 1)) == frames(payloads.take(i)) + frame(p));
        let after = lemma_frames_split(payloads, i + 1);
        let rest = after + tail;
        assert(bytes =~= frames(payloads.take(i)) + frame(p) + rest);
        law_read_back(frames(payloads.take(i)), p, rest, max);
        assert(verdict_of(verdicts, i) == PayloadVerdict::Batch);
        assert(payloads.skip(i) =~= seq![p] + payloads.skip(i + 1));
        assert(seq![p] + (payloads.skip(i + 1) + payloads_of(
            bytes,
            frames(payloads).len() as int,
            max,
        )) =~= payloads.skip(i) + payloads_of(bytes, frames(payloads).len() as int, max));
    }
}

/// The records behind the first `i`.
pub(crate) proof fn lemma_frames_split(payloads: Seq<Seq<u8>>, i: int) -> (after: Seq<u8>)
    requires
        0 <= i <= payloads.len(),
    ensures
        frames(payloads) == frames(payloads.take(i)) + after,
    decreases payloads.len(),
{
    if i == payloads.len() {
        assert(payloads.take(i) =~= payloads);
        assert(frames(payloads) =~= frames(payloads) + Seq::<u8>::empty());
        Seq::empty()
    } else {
        let shorter = payloads.drop_last();
        let inner = lemma_frames_split(shorter, i);
        assert(shorter.take(i) =~= payloads.take(i));
        let after = inner + frame(payloads.last());
        assert(frames(payloads) =~= frames(payloads.take(i)) + after);
        after
    }
}

/// A segment of whole records is accepted to its last byte, and holds the payloads that were recorded,
/// in order.
pub proof fn law_whole_segment(
    payloads: Seq<Seq<u8>>,
    sequence: u64,
    max: int,
    repair: bool,
    verdicts: Seq<PayloadVerdict>,
)
    requires
        recordable(payloads, max),
        all_batches(verdicts, payloads.len() as int),
    ensures
        scanned(frames(payloads), 0, 0, sequence, max, repair, verdicts) == Ok::<
            (int, bool),
            WalFault,
        >((frames(payloads).len() as int, false)),
        payloads_of(frames(payloads), 0, max) == payloads,
{
    let tail = Seq::<u8>::empty();
    lemma_scan_skips(payloads, 0, tail, sequence, max, repair, verdicts);
    assert(frames(payloads) + tail =~= frames(payloads));
    assert(payloads.take(0) =~= Seq::<Seq<u8>>::empty());
    assert(payloads.skip(0) + Seq::<Seq<u8>>::empty() =~= payloads);
}

/// A crash in the middle of an append loses nothing that was recorded before: repairing a segment whose
/// last record is torn keeps every whole record and drops the torn one only.
pub proof fn law_torn_tail_keeps_whole_records(
    payloads: Seq<Seq<u8>>,
    torn: Seq<u8>,
    written: int,
    sequence: u64,
    max: int,
    verdicts: Seq<PayloadVerdict>,
)
    requires
        recordable(payloads, max),
        all_batches(verdicts, payloads.len() as int),
        torn.len() <= max,
        0 < written < framed_len(torn),
    ensures
        scanned(
            frames(payloads) + frame(torn).take(written),
            0,
            0,
            sequence,
            max,
            true,
            verdicts,
        ) == Ok::<(int, bool), WalFault>((frames(payloads).len() as int, true)),
        payloads_of(frames(payloads) + frame(torn).take(written), 0, max) == payloads,
{
    let tail = frame(torn).take(written);
    lemma_scan_skips(payloads, 0, tail, sequence, max, true, verdicts);
    law_torn_record(frames(payloads), torn, written, max);
    assert(payloads.take(0) =~= Seq::<Seq<u8>>::empty());
    assert(payloads.skip(0) + Seq::<Seq<u8>>::empty() =~= payloads);
}

/// Whatever part of the last append a crash leaves, the repaired segment is accepted and still begins
/// with every record that was there before.
pub proof fn law_crash_loses_no_recorded_batch(
    payloads: Seq<Seq<u8>>,
    last: Seq<u8>,
    written: int,
    sequence: u64,
    max: int,
    verdicts: Seq<PayloadVerdict>,
)
    requires
        recordable(payloads.push(last), max),
        all_batches(verdicts, payloads.len() as int + 1),
        0 <= written <= framed_len(last),
    ensures
        ({
            let bytes = frames(payloads) + frame(last).take(written);
            scanned(bytes, 0, 0, sequence, max, true, verdicts) matches Ok((valid, _))
                && payloads.is_prefix_of(payloads_of(bytes.take(valid), 0, max))
        }),
{
    let both = payloads.push(last);
    let bytes = frames(payloads) + frame(last).take(written);
    assert(both[payloads.len() as int] == last);
    assert forall|i: int| 0 <= i < payloads.len() implies (#[trigger] payloads[i]).len()
        <= max by {
        assert(both[i] == payloads[i]);
    }
    lemma_frame_parts(last, Seq::empty(), frames(payloads));
    law_whole_segment(payloads, sequence, max, true, verdicts);
    if written == framed_len(last) {
        assert(both.drop_last() =~= payloads);
        assert(bytes =~= frames(both));
        law_whole_segment(both, sequence, max, true, verdicts);
        assert(bytes.take(bytes.len() as int) =~= bytes);
    } else {
        if written == 0 {
            assert(bytes =~= frames(payloads));
        } else {
            law_torn_tail_keeps_whole_records(payloads, last, written, sequence, max, verdicts);
        }
        assert(bytes.take(frames(payloads).len() as int) =~= frames(payloads));
    }
}

} // verus!
