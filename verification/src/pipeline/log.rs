//! The writer and the readers of the log. They decide; the files themselves are handled outside, and
//! what became of an operation on them comes back as an argument.
use vstd::prelude::*;
use vstd::string::*;

use crate::pipeline::layout::{segment_views, sequences, SegmentLayout};
use crate::pipeline::wal::{config_ok, cursor_at_most, frame, framed_len, frames, law_read_back, lemma_frames_split, read_record, record_at, recordable, Recovery, SegmentScan, WalConfig, WalCursor, WalError, WalFault, WalReceipt, WalSpan};

verus! {

// ── Writer ────────────────────────────────────────────────────────────────────

/// The single writer of a log: its limits, the segment that it appends to, and whether an I/O failure
/// has poisoned it.
#[derive(Debug, Clone, Copy, PartialEq, Eq, Structural)]
pub struct WriteAheadLog {
    pub config: WalConfig,
    pub sequence: u64,
    pub bytes: u64,
    pub poisoned: bool,
}

/// What an append will do.
#[derive(Debug, Clone, Copy, PartialEq, Eq, Structural)]
pub struct AppendPlan {
    /// Whether the current segment has to be sealed first.
    pub seal_first: bool,
    pub framed_bytes: u64,
    pub event_count: usize,
}

/// What became of sealing a segment: whether it was made durable and renamed, and whether the next one
/// was created.
#[derive(Debug, Clone, Copy, PartialEq, Eq, Structural)]
pub struct SealOutcome {
    pub renamed: bool,
    pub opened: bool,
}

/// The segment that a log writes to when it is opened: the active one up to its last complete record,
/// else the one behind the last sealed, else the first.
pub open spec fn opening_segment(sealed: Seq<u64>, active: Option<(u64, u64)>) -> Option<
    (u64, u64),
> {
    match active {
        Some(a) => Some(a),
        None => if sealed.len() == 0 {
            Some((1, 0))
        } else if sealed.last() == u64::MAX {
            None
        } else {
            Some(((sealed.last() + 1) as u64, 0))
        },
    }
}

/// What an append of a payload is answered before any byte is written.
pub open spec fn append_checked(log: WriteAheadLog, event_count: int, payload: int) -> Result<
    (bool, int),
    WalFault,
> {
    if log.poisoned {
        Err(WalFault::Poisoned)
    } else if event_count == 0 {
        Err(WalFault::EmptyBatch)
    } else if payload > log.config.max_record_bytes {
        Err(
            WalFault::RecordTooLarge {
                actual: payload as usize,
                maximum: log.config.max_record_bytes,
            },
        )
    } else {
        Ok((log.bytes > 0 && saturated(log.bytes + 16 + payload) > log.config.segment_target_bytes,
            16 + payload))
    }
}

/// A sum, cut at the largest `u64`.
pub open spec fn saturated(n: int) -> int {
    if n > u64::MAX {
        u64::MAX as int
    } else {
        n
    }
}

/// The log after its current segment was sealed, or what went wrong. A failure poisons the writer; running
/// out of sequence numbers does not.
pub open spec fn seal_finished(log: WriteAheadLog, outcome: SealOutcome, failure: Seq<char>) -> (
    WriteAheadLog,
    Option<WalFault>,
) {
    if !outcome.renamed {
        (WriteAheadLog { poisoned: true, ..log }, Some(WalFault::Io(failure)))
    } else if log.sequence == u64::MAX {
        (log, Some(WalFault::InvalidConfig))
    } else if !outcome.opened {
        (WriteAheadLog { poisoned: true, ..log }, Some(WalFault::Io(failure)))
    } else {
        (WriteAheadLog { sequence: (log.sequence + 1) as u64, bytes: 0, ..log }, None)
    }
}

/// The log after a record was written, and the receipt of its bytes, or what went wrong.
pub open spec fn append_finished(
    log: WriteAheadLog,
    plan: AppendPlan,
    durable: bool,
    failure: Seq<char>,
) -> (WriteAheadLog, Result<WalReceipt, WalFault>) {
    if !durable {
        (WriteAheadLog { poisoned: true, ..log }, Err(WalFault::Io(failure)))
    } else {
        let start = WalCursor { segment: log.sequence, byte_offset: log.bytes };
        let end = WalCursor {
            segment: log.sequence,
            byte_offset: (log.bytes + plan.framed_bytes) as u64,
        };
        (
            WriteAheadLog { bytes: end.byte_offset, ..log },
            Ok(
                WalReceipt {
                    span: WalSpan { start, end, framed_bytes: plan.framed_bytes },
                    event_count: plan.event_count,
                },
            ),
        )
    }
}

/// An append as a whole, given what became of its file operations: it is planned, the current segment is
/// sealed if the plan says so, and the record is written.
pub open spec fn append_led(
    log: WriteAheadLog,
    event_count: usize,
    payload: usize,
    seal: SealOutcome,
    durable: bool,
    failure: Seq<char>,
) -> (WriteAheadLog, Result<WalReceipt, WalFault>) {
    match append_checked(log, event_count as int, payload as int) {
        Err(fault) => (log, Err(fault)),
        Ok((seal_first, framed)) => {
            let plan = AppendPlan { seal_first, framed_bytes: framed as u64, event_count };
            let (ready, fault) = if seal_first {
                seal_finished(log, seal, failure)
            } else {
                (log, None)
            };
            match fault {
                Some(fault) => (ready, Err(fault)),
                None => append_finished(ready, plan, durable, failure),
            }
        },
    }
}

/// An append as a whole, where no file operation fails.
pub open spec fn appended(log: WriteAheadLog, event_count: usize, payload: usize) -> Result<
    (WriteAheadLog, WalReceipt),
    WalFault,
> {
    let done = SealOutcome { renamed: true, opened: true };
    match append_led(log, event_count, payload, done, true, Seq::empty()) {
        (after, Ok(receipt)) => Ok((after, receipt)),
        (_, Err(fault)) => Err(fault),
    }
}

impl WriteAheadLog {
    /// Opens a log on a directory that has been taken stock of. `active` is the scan of the active
    /// segment, if there is one.
    pub fn open(config: WalConfig, layout: &SegmentLayout, active: Option<SegmentScan>) -> (r: Result<
        (WriteAheadLog, Recovery),
        WalError,
    >)
        requires
            layout.active is Some <==> active is Some,
        ensures
            match opening_segment(
                sequences(segment_views(layout.sealed@)),
                match (layout.active, active) {
                    (Some(s), Some(scan)) => Some((s.0, scan.valid_bytes)),
                    _ => None,
                },
            ) {
                Some(at) => r matches Ok(opened) && opened.0 == (WriteAheadLog {
                    config,
                    sequence: at.0,
                    bytes: at.1,
                    poisoned: false,
                }) && opened.1.truncated_tail == (active matches Some(scan)
                    && scan.truncated_tail),
                None => r matches Err(e) && e@ == WalFault::InvalidConfig,
            },
    {
        let ghost all = sequences(segment_views(layout.sealed@));
        if let Some(segment) = &layout.active {
            if let Some(scan) = active {
                return Ok(
                    (
                        WriteAheadLog {
                            config,
                            sequence: segment.0,
                            bytes: scan.valid_bytes,
                            poisoned: false,
                        },
                        Recovery { truncated_tail: scan.truncated_tail },
                    ),
                );
            }
        }
        let n: usize = layout.sealed.len();
        let sequence: u64 = if n == 0 {
            1
        } else {
            let last: u64 = layout.sealed[n - 1].0;
            assert(all.last() == last);
            if last == u64::MAX {
                return Err(WalError::InvalidConfig);
            }
            last + 1
        };
        Ok(
            (
                WriteAheadLog { config, sequence, bytes: 0, poisoned: false },
                Recovery { truncated_tail: false },
            ),
        )
    }

    /// Decides on an append of a serialized batch, before any byte is written.
    pub fn plan_append(&self, event_count: usize, payload_bytes: usize) -> (r: Result<
        AppendPlan,
        WalError,
    >)
        requires
            config_ok(self.config.segment_target_bytes, self.config.max_record_bytes),
        ensures
            match append_checked(*self, event_count as int, payload_bytes as int) {
                Ok((seal_first, framed)) => r matches Ok(plan) && plan.seal_first == seal_first
                    && plan.framed_bytes == framed && plan.event_count == event_count,
                Err(e) => r matches Err(f) && f@ == e,
            },
    {
        if self.poisoned {
            return Err(WalError::Poisoned);
        }
        if event_count == 0 {
            return Err(WalError::EmptyBatch);
        }
        if payload_bytes > self.config.max_record_bytes {
            return Err(
                WalError::RecordTooLarge {
                    actual: payload_bytes,
                    maximum: self.config.max_record_bytes,
                },
            );
        }
        let framed_bytes: u64 = 16 + payload_bytes as u64;
        let seal_first = self.bytes > 0 && self.bytes.saturating_add(framed_bytes)
            > self.config.segment_target_bytes;
        Ok(AppendPlan { seal_first, framed_bytes, event_count })
    }

    /// Takes the outcome of sealing the current segment. A failure poisons the writer; running out of
    /// sequence numbers does not.
    pub fn finish_seal(&mut self, outcome: SealOutcome, failure: &str) -> (r: Result<(), WalError>)
        ensures
            ({
                let (next, fault) = seal_finished(*old(self), outcome, failure@);
                *final(self) == next && match fault {
                    Some(fault) => r matches Err(e) && e@ == fault,
                    None => r is Ok,
                }
            }),
    {
        if !outcome.renamed {
            self.poisoned = true;
            return Err(WalError::Io(failure.to_owned()));
        }
        if self.sequence == u64::MAX {
            return Err(WalError::InvalidConfig);
        }
        if !outcome.opened {
            self.poisoned = true;
            return Err(WalError::Io(failure.to_owned()));
        }
        self.sequence = self.sequence + 1;
        self.bytes = 0;
        Ok(())
    }

    /// Takes the outcome of writing a record and making it durable: the receipt of its bytes, or a
    /// poisoned writer.
    pub fn finish_append(&mut self, plan: AppendPlan, durable: bool, failure: &str) -> (r: Result<
        WalReceipt,
        WalError,
    >)
        requires
            old(self).bytes + plan.framed_bytes <= u64::MAX,
        ensures
            ({
                let (next, result) = append_finished(*old(self), plan, durable, failure@);
                *final(self) == next && match result {
                    Ok(receipt) => r matches Ok(x) && x == receipt,
                    Err(fault) => r matches Err(e) && e@ == fault,
                }
            }),
    {
        if !durable {
            self.poisoned = true;
            return Err(WalError::Io(failure.to_owned()));
        }
        let start = WalCursor::new(self.sequence, self.bytes);
        self.bytes = self.bytes + plan.framed_bytes;
        Ok(
            WalReceipt {
                span: WalSpan {
                    start,
                    end: WalCursor::new(self.sequence, self.bytes),
                    framed_bytes: plan.framed_bytes,
                },
                event_count: plan.event_count,
            },
        )
    }

    /// Takes an append as a whole, once its file operations are done: what became of sealing the segment,
    /// where [`WriteAheadLog::plan_append`] asked for it, and whether the record was written and made durable.
    pub fn append(
        &mut self,
        event_count: usize,
        payload_bytes: usize,
        seal: SealOutcome,
        durable: bool,
        failure: &str,
    ) -> (r: Result<WalReceipt, WalError>)
        requires
            config_ok(old(self).config.segment_target_bytes, old(self).config.max_record_bytes),
            old(self).bytes + 16 + payload_bytes <= u64::MAX,
        ensures
            ({
                let (next, result) = append_led(
                    *old(self),
                    event_count,
                    payload_bytes,
                    seal,
                    durable,
                    failure@,
                );
                *final(self) == next && match result {
                    Ok(receipt) => r matches Ok(x) && x == receipt,
                    Err(fault) => r matches Err(e) && e@ == fault,
                }
            }),
    {
        let plan = match self.plan_append(event_count, payload_bytes) {
            Ok(plan) => plan,
            Err(e) => {
                return Err(e);
            },
        };
        if plan.seal_first {
            match self.finish_seal(seal, failure) {
                Ok(()) => {},
                Err(e) => {
                    return Err(e);
                },
            }
        }
        self.finish_append(plan, durable, failure)
    }

    /// Whether sealing has anything to do: an empty segment is left in place.
    pub fn plan_seal(&self) -> (r: Result<bool, WalError>)
        ensures
            self.poisoned ==> (r matches Err(e) && e@ == WalFault::Poisoned),
            !self.poisoned ==> (r matches Ok(needed) && needed == (self.bytes > 0)),
    {
        if self.poisoned {
            return Err(WalError::Poisoned);
        }
        Ok(self.bytes > 0)
    }

    /// The cursor behind everything that is sealed.
    pub fn sealed_cursor(&self) -> (r: WalCursor)
        ensures
            r == (WalCursor { segment: self.sequence, byte_offset: 0 }),
    {
        WalCursor::new(self.sequence, 0)
    }
}

/// A poisoned writer refuses every append and every seal, whatever the batch.
pub proof fn law_poisoned_writer_refuses(log: WriteAheadLog, event_count: int, payload: int)
    requires
        log.poisoned,
    ensures
        append_checked(log, event_count, payload) == Err::<(bool, int), _>(WalFault::Poisoned),
{
}

/// A segment with records in it never grows past its target: the record that would take it there goes
/// to a new segment.
pub proof fn law_segments_respect_their_target(log: WriteAheadLog, event_count: int, payload: int)
    requires
        append_checked(log, event_count, payload) is Ok,
        0 <= payload,
        log.bytes > 0,
        !append_checked(log, event_count, payload)->Ok_0.0,
        log.config.segment_target_bytes < u64::MAX || log.bytes + 16 + payload <= u64::MAX,
    ensures
        log.bytes + append_checked(log, event_count, payload)->Ok_0.1
            <= log.config.segment_target_bytes,
{
}

/// Appends follow each other: a record starts where the one before it ended, or at the start of the next
/// segment if it would take this one past its target; its span is exactly its framed bytes.
pub proof fn law_appends_follow_each_other(
    log: WriteAheadLog,
    first_count: usize,
    first_payload: usize,
    second_count: usize,
    second_payload: usize,
)
    requires
        config_ok(log.config.segment_target_bytes, log.config.max_record_bytes),
        log.bytes + 16 + first_payload <= u64::MAX,
        log.config.segment_target_bytes < u64::MAX || log.bytes + 32 + first_payload
            + second_payload <= u64::MAX,
        appended(log, first_count, first_payload) is Ok,
        appended(
            appended(log, first_count, first_payload)->Ok_0.0,
            second_count,
            second_payload,
        ) is Ok,
    ensures
        ({
            let (between, first) = appended(log, first_count, first_payload)->Ok_0;
            let (after, second) = appended(between, second_count, second_payload)->Ok_0;
            let framed = 16 + second_payload;
            &&& second.event_count == second_count
            &&& second.span.framed_bytes == framed
            &&& second.span.end.segment == second.span.start.segment
            &&& second.span.end.byte_offset == second.span.start.byte_offset + framed
            &&& second.span.start == (if first.span.end.byte_offset + framed
                <= log.config.segment_target_bytes {
                first.span.end
            } else {
                WalCursor { segment: (first.span.end.segment + 1) as u64, byte_offset: 0 }
            })
            &&& first.span.end.byte_offset + framed > log.config.segment_target_bytes
                ==> first.span.end.segment < u64::MAX
            &&& second.span.end == (WalCursor {
                segment: after.sequence,
                byte_offset: after.bytes,
            })
        }),
{
}

// ── Reader ────────────────────────────────────────────────────────────────────

/// A record as it was read: its payload and its place.
pub struct RawRecord {
    pub payload: Vec<u8>,
    pub span: WalSpan,
}

/// A reader over sealed segments, given as their sequence numbers and bytes.
pub struct SealedRecords {
    pub segments: Vec<(u64, Vec<u8>)>,
    pub index: usize,
    pub next: WalCursor,
    pub terminal: Option<WalCursor>,
    pub max_record_bytes: usize,
    pub finished: bool,
}

/// The views of segment images.
pub open spec fn images(segments: Seq<(u64, Vec<u8>)>) -> Seq<(u64, Seq<u8>)> {
    segments.map_values(|s: (u64, Vec<u8>)| (s.0, s.1@))
}

/// Whether segments come in order of sequence, each once.
pub open spec fn ascending(segments: Seq<(u64, Seq<u8>)>) -> bool {
    forall|i: int, j: int|
        0 <= i < j < segments.len() ==> (#[trigger] segments[i]).0 < (#[trigger] segments[j]).0
}

/// How many segments come before a sequence number.
pub open spec fn first_from(segments: Seq<(u64, Seq<u8>)>, sequence: u64) -> int
    decreases segments.len(),
{
    if segments.len() == 0 || segments[0].0 >= sequence {
        0
    } else {
        1 + first_from(segments.drop_first(), sequence)
    }
}

/// A place in the sealed segments: the segment that is read, and the next unread byte.
pub struct ReadPlace {
    pub index: int,
    pub next: WalCursor,
}

/// What reading on leads to.
pub enum ReadStep {
    Record(Seq<u8>, WalSpan, ReadPlace),
    End(ReadPlace),
    Fault(WalFault, ReadPlace),
}

/// The offset at which a segment is entered.
pub open spec fn entry_offset(sequence: u64, next: WalCursor) -> u64 {
    if sequence == next.segment {
        next.byte_offset
    } else {
        0
    }
}

/// The place behind the segment at `index`: the start of the next one, else of the active segment, else
/// where reading stopped.
pub open spec fn behind(
    segments: Seq<(u64, Seq<u8>)>,
    index: int,
    terminal: Option<WalCursor>,
    stopped: WalCursor,
) -> ReadPlace {
    ReadPlace {
        index: index + 1,
        next: if index + 1 < segments.len() {
            WalCursor { segment: segments[index + 1].0, byte_offset: 0 }
        } else {
            match terminal {
                Some(t) => t,
                None => stopped,
            }
        },
    }
}

/// The next record from a place on, skipping segments that are read to their end.
pub open spec fn read_from(
    segments: Seq<(u64, Seq<u8>)>,
    place: ReadPlace,
    terminal: Option<WalCursor>,
    max: int,
) -> ReadStep
    decreases segments.len() - place.index,
{
    if place.index >= segments.len() {
        ReadStep::End(place)
    } else {
        let (sequence, bytes) = segments[place.index];
        let at = entry_offset(sequence, place.next);
        let start = WalCursor { segment: sequence, byte_offset: at };
        match record_at(bytes, at as int, sequence, max) {
            Err(fault) => ReadStep::Fault(fault, ReadPlace { index: place.index, next: start }),
            Ok(None) => read_from(
                segments,
                behind(segments, place.index, terminal, start),
                terminal,
                max,
            ),
            Ok(Some(payload)) => {
                let end = WalCursor {
                    segment: sequence,
                    byte_offset: (at + framed_len(payload)) as u64,
                };
                let span = WalSpan { start, end, framed_bytes: framed_len(payload) as u64 };
                let after = if end.byte_offset == bytes.len() {
                    behind(segments, place.index, terminal, end)
                } else {
                    ReadPlace { index: place.index, next: end }
                };
                ReadStep::Record(payload, span, after)
            },
        }
    }
}

/// Whether the reader's place lies within its segments.
pub open spec fn place_ok(segments: Seq<(u64, Seq<u8>)>, place: ReadPlace) -> bool {
    &&& 0 <= place.index <= segments.len()
    &&& forall|i: int|
        place.index <= i < segments.len() ==> entry_offset(
            (#[trigger] segments[i]).0,
            place.next,
        ) <= segments[i].1.len()
    &&& forall|i: int, j: int|
        0 <= i < j < segments.len() ==> (#[trigger] segments[i]).0 != (#[trigger] segments[j]).0
}

/// Whether the active segment lies behind every sealed one.
pub open spec fn terminal_ok(segments: Seq<(u64, Seq<u8>)>, terminal: Option<WalCursor>) -> bool {
    terminal matches Some(t) ==> t.byte_offset == 0
}

impl SealedRecords {
    /// The reader's place.
    pub open spec fn place(&self) -> ReadPlace {
        ReadPlace { index: self.index as int, next: self.next }
    }

    /// What the reader comes to next.
    pub open spec fn upcoming(&self) -> ReadStep {
        if self.finished {
            ReadStep::End(self.place())
        } else {
            read_from(
                images(self.segments@),
                self.place(),
                self.terminal,
                self.max_record_bytes as int,
            )
        }
    }

    /// What the reader keeps true of itself.
    pub open spec fn well_formed(&self) -> bool {
        &&& place_ok(images(self.segments@), self.place())
        &&& terminal_ok(images(self.segments@), self.terminal)
    }

    /// Opens a reader at a validated cursor. Segments before the cursor's are left out, and reading ends
    /// at the start of the active segment.
    pub fn open(
        sealed: Vec<(u64, Vec<u8>)>,
        active: Option<u64>,
        cursor: WalCursor,
        max_record_bytes: usize,
    ) -> (r: SealedRecords)
        requires
            ascending(images(sealed@)),
            forall|i: int|
                0 <= i < sealed.len() && (#[trigger] sealed@[i]).0 == cursor.segment
                    ==> cursor.byte_offset <= sealed@[i].1.len(),
        ensures
            r.well_formed(),
            images(r.segments@) == images(sealed@).skip(
                first_from(images(sealed@), cursor.segment),
            ),
            r.place() == (ReadPlace { index: 0, next: cursor }),
            r.terminal == (match active {
                Some(sequence) => Some(WalCursor { segment: sequence, byte_offset: 0 }),
                None => None,
            }),
            r.max_record_bytes == max_record_bytes,
            !r.finished,
    {
        let ghost all = images(sealed@);
        let mut segments = sealed;
        let ghost mut k: int = 0;
        assert(all.skip(0) =~= all);
        while segments.len() > 0 && segments[0].0 < cursor.segment
            invariant
                0 <= k <= all.len(),
                images(segments@) == all.skip(k),
                first_from(all, cursor.segment) == k + first_from(all.skip(k), cursor.segment),
            decreases segments.len(),
        {
            assert(all.skip(k)[0].0 == segments@[0].0);
            assert(all.skip(k).drop_first() =~= all.skip(k + 1));
            let ghost before = segments@;
            let _ = segments.remove(0);
            assert(images(segments@) =~= images(before).drop_first());
            proof {
                k = k + 1;
            }
        }
        proof {
            if segments.len() > 0 {
                assert(all.skip(k)[0].0 == segments@[0].0);
            }
            let shown = images(segments@);
            assert forall|i: int| 0 <= i < shown.len() implies entry_offset(
                (#[trigger] shown[i]).0,
                cursor,
            ) <= shown[i].1.len() by {
                assert(shown[i] == all[k + i]);
                assert(all[k + i] == (sealed@[k + i].0, sealed@[k + i].1@));
            }
            assert forall|i: int, j: int| 0 <= i < j < shown.len() implies (#[trigger] shown[i]).0
                != (#[trigger] shown[j]).0 by {
                assert(shown[i] == all[k + i] && shown[j] == all[k + j]);
            }
        }
        let terminal = match active {
            Some(sequence) => Some(WalCursor::new(sequence, 0)),
            None => None,
        };
        SealedRecords {
            segments,
            index: 0,
            next: cursor,
            terminal,
            max_record_bytes,
            finished: false,
        }
    }

    /// The next unread byte.
    pub fn next_cursor(&self) -> (r: WalCursor)
        ensures
            r == self.next,
    {
        self.next
    }

    /// Reads the next record.
    #[verifier::spinoff_prover]
    #[verifier::rlimit(30)]
    pub fn next_record(&mut self) -> (r: Result<Option<RawRecord>, WalError>)
        requires
            old(self).well_formed(),
        ensures
            final(self).well_formed(),
            final(self).segments == old(self).segments,
            final(self).terminal == old(self).terminal,
            final(self).max_record_bytes == old(self).max_record_bytes,
            final(self).finished == old(self).finished,
            match read_from(
                images(old(self).segments@),
                old(self).place(),
                old(self).terminal,
                old(self).max_record_bytes as int,
            ) {
                ReadStep::Record(payload, span, place) => r matches Ok(Some(record))
                    && record.payload@ == payload && record.span == span && final(self).place()
                    == place,
                ReadStep::End(place) => r matches Ok(None) && final(self).place() == place,
                ReadStep::Fault(fault, place) => r matches Err(e) && e@ == fault
                    && final(self).place() == place,
            },
    {
        let ghost all = images(self.segments@);
        let ghost step = read_from(all, self.place(), self.terminal, self.max_record_bytes as int);
        loop
            invariant
                self.well_formed(),
                self.segments == old(self).segments,
                self.terminal == old(self).terminal,
                self.max_record_bytes == old(self).max_record_bytes,
                self.finished == old(self).finished,
                all == images(self.segments@),
                step == read_from(
                    images(old(self).segments@),
                    old(self).place(),
                    old(self).terminal,
                    old(self).max_record_bytes as int,
                ),
                step == read_from(
                    all,
                    self.place(),
                    self.terminal,
                    self.max_record_bytes as int,
                ),
            decreases self.segments.len() - self.index,
        {
            if self.index >= self.segments.len() {
                assert(step == ReadStep::End(self.place()));
                return Ok(None);
            }
            let sequence: u64 = self.segments[self.index].0;
            assert(all[self.index as int] == (sequence, self.segments@[self.index as int].1@));
            let at: u64 = if sequence == self.next.segment {
                self.next.byte_offset
            } else {
                0
            };
            let start = WalCursor::new(sequence, at);
            assert(at <= all[self.index as int].1.len());
            self.next = start;
            let bytes = &self.segments[self.index].1;
            match read_record(bytes, at as usize, sequence, self.max_record_bytes) {
                Err(e) => {
                    assert(step == ReadStep::Fault(e@, self.place()));
                    return Err(e);
                },
                Ok(None) => {
                    self.leave(start);
                },
                Ok(Some(payload)) => {
                    let framed_bytes: u64 = 16 + payload.len() as u64;
                    let end = WalCursor::new(sequence, at + framed_bytes);
                    let span = WalSpan { start, end, framed_bytes };
                    if end.byte_offset == bytes.len() as u64 {
                        self.leave(end);
                    } else {
                        self.next = end;
                    }
                    assert(step == ReadStep::Record(payload@, span, self.place()));
                    return Ok(Some(RawRecord { payload, span }));
                },
            }
        }
    }

    fn leave(&mut self, stopped: WalCursor)
        requires
            old(self).well_formed(),
            old(self).index < old(self).segments.len(),
            stopped.segment == images(old(self).segments@)[old(self).index as int].0,
        ensures
            final(self).well_formed(),
            final(self).segments == old(self).segments,
            final(self).terminal == old(self).terminal,
            final(self).max_record_bytes == old(self).max_record_bytes,
            final(self).finished == old(self).finished,
            final(self).place() == behind(
                images(old(self).segments@),
                old(self).index as int,
                old(self).terminal,
                stopped,
            ),
    {
        let ghost all = images(self.segments@);
        let ghost here = self.index as int;
        self.index = self.index + 1;
        if self.index < self.segments.len() {
            assert(all[self.index as int].0 == self.segments@[self.index as int].0);
            self.next = WalCursor::new(self.segments[self.index].0, 0);
        } else {
            match self.terminal {
                Some(terminal) => {
                    self.next = terminal;
                },
                None => {
                    self.next = stopped;
                },
            }
        }
    }

    /// Reads on until the end or the first failure; after either there is nothing more.
    pub fn next(&mut self) -> (r: Option<Result<RawRecord, WalError>>)
        requires
            old(self).well_formed(),
        ensures
            final(self).well_formed(),
            final(self).segments == old(self).segments,
            final(self).terminal == old(self).terminal,
            final(self).max_record_bytes == old(self).max_record_bytes,
            old(self).finished ==> r is None && *final(self) == *old(self),
            !old(self).finished ==> match read_from(
                images(old(self).segments@),
                old(self).place(),
                old(self).terminal,
                old(self).max_record_bytes as int,
            ) {
                ReadStep::Record(payload, span, place) => r matches Some(Ok(record))
                    && record.payload@ == payload && record.span == span && final(self).place()
                    == place && !final(self).finished,
                ReadStep::End(place) => r is None && final(self).place() == place
                    && final(self).finished,
                ReadStep::Fault(fault, place) => r matches Some(Err(e)) && e@ == fault
                    && final(self).place() == place && final(self).finished,
            },
    {
        if self.finished {
            return None;
        }
        match self.next_record() {
            Ok(Some(record)) => Some(Ok(record)),
            Ok(None) => {
                self.finished = true;
                None
            },
            Err(e) => {
                self.finished = true;
                Some(Err(e))
            },
        }
    }
}

// ── Windows ───────────────────────────────────────────────────────────────────

/// A byte-bounded view of the sealed records.
pub struct PublicationWindow {
    pub records: SealedRecords,
    pub checkpoint: WalCursor,
    pub max_bytes: u64,
    pub framed_bytes: u64,
    pub finished: bool,
}

/// Whether one more record fits a window: the first always does, so that a legal record can never block
/// publication.
pub open spec fn fits(framed_so_far: int, record: int, max_bytes: int) -> bool {
    framed_so_far == 0 || framed_so_far + record <= max_bytes
}

/// What a window does next.
pub enum WindowStep {
    Record(Seq<u8>, WalSpan, ReadPlace),
    Stop,
    End(ReadPlace),
    Fault(WalFault),
}

/// What a window does with the next thing that is read.
pub open spec fn window_step(step: ReadStep, framed_so_far: int, max_bytes: int) -> WindowStep {
    match step {
        ReadStep::Fault(fault, _) => WindowStep::Fault(fault),
        ReadStep::End(place) => WindowStep::End(place),
        ReadStep::Record(payload, span, place) => if fits(
            framed_so_far,
            span.framed_bytes as int,
            max_bytes,
        ) {
            WindowStep::Record(payload, span, place)
        } else {
            WindowStep::Stop
        },
    }
}

/// What a window holds as a whole: its records, the checkpoint behind them, and their bytes.
pub struct WindowTaken {
    pub payloads: Seq<Seq<u8>>,
    pub spans: Seq<WalSpan>,
    pub checkpoint: WalCursor,
    pub framed_bytes: int,
    pub fault: Option<WalFault>,
}

/// How much room a window has left.
pub open spec fn window_room(framed_so_far: int, max_bytes: int) -> int {
    if framed_so_far == 0 {
        max_bytes + 1
    } else if framed_so_far <= max_bytes {
        max_bytes - framed_so_far
    } else {
        0
    }
}

/// What a window takes from a place on.
pub open spec fn window_taken(
    segments: Seq<(u64, Seq<u8>)>,
    place: ReadPlace,
    terminal: Option<WalCursor>,
    max: int,
    checkpoint: WalCursor,
    framed_so_far: int,
    max_bytes: int,
) -> WindowTaken
    decreases window_room(framed_so_far, max_bytes),
    when 0 <= place.index && 0 <= framed_so_far && 0 <= max_bytes
    via window_taken_ends
{
    let nothing = WindowTaken {
        payloads: Seq::empty(),
        spans: Seq::empty(),
        checkpoint,
        framed_bytes: framed_so_far,
        fault: None,
    };
    match window_step(
        read_from(segments, place, terminal, max),
        framed_so_far,
        max_bytes,
    ) {
        WindowStep::Record(payload, span, after) => {
            let rest = window_taken(
                segments,
                after,
                terminal,
                max,
                after.next,
                framed_so_far + span.framed_bytes,
                max_bytes,
            );
            WindowTaken {
                payloads: seq![payload] + rest.payloads,
                spans: seq![span] + rest.spans,
                ..rest
            }
        },
        WindowStep::Stop => nothing,
        WindowStep::End(after) => WindowTaken { checkpoint: after.next, ..nothing },
        WindowStep::Fault(fault) => WindowTaken { fault: Some(fault), ..nothing },
    }
}

#[via_fn]
proof fn window_taken_ends(
    segments: Seq<(u64, Seq<u8>)>,
    place: ReadPlace,
    terminal: Option<WalCursor>,
    max: int,
    checkpoint: WalCursor,
    framed_so_far: int,
    max_bytes: int,
) {
    lemma_record_is_small(segments, place, terminal, max);
}

/// The payloads of records.
pub open spec fn payloads_read(records: Seq<RawRecord>) -> Seq<Seq<u8>> {
    records.map_values(|record: RawRecord| record.payload@)
}

/// The spans of records.
pub open spec fn spans_read(records: Seq<RawRecord>) -> Seq<WalSpan> {
    records.map_values(|record: RawRecord| record.span)
}

impl PublicationWindow {
    /// Opens a window on a reader. The budget must not be zero.
    pub fn open(records: SealedRecords, max_bytes: u64) -> (r: Result<PublicationWindow, WalError>)
        ensures
            max_bytes == 0 ==> (r matches Err(e) && e@ == WalFault::InvalidConfig),
            max_bytes > 0 ==> (r matches Ok(w) && w.records == records && w.checkpoint
                == records.next && w.max_bytes == max_bytes && w.framed_bytes == 0 && !w.finished),
    {
        if max_bytes == 0 {
            return Err(WalError::InvalidConfig);
        }
        let checkpoint = records.next;
        Ok(PublicationWindow { records, checkpoint, max_bytes, framed_bytes: 0, finished: false })
    }

    /// The checkpoint behind the last record that the window gave out.
    pub fn next_cursor(&self) -> (r: WalCursor)
        ensures
            r == self.checkpoint,
    {
        self.checkpoint
    }

    /// The bytes of the records that the window gave out.
    pub fn framed_bytes(&self) -> (r: u64)
        ensures
            r == self.framed_bytes,
    {
        self.framed_bytes
    }

    /// Gives out the next record that fits. A record is never split.
    pub fn next(&mut self) -> (r: Option<Result<RawRecord, WalError>>)
        requires
            old(self).records.well_formed(),
        ensures
            final(self).records.well_formed(),
            final(self).records.segments == old(self).records.segments,
            final(self).records.terminal == old(self).records.terminal,
            final(self).records.max_record_bytes == old(self).records.max_record_bytes,
            final(self).max_bytes == old(self).max_bytes,
            old(self).finished ==> r is None && *final(self) == *old(self),
            !old(self).finished ==> match window_step(
                old(self).records.upcoming(),
                old(self).framed_bytes as int,
                old(self).max_bytes as int,
            ) {
                WindowStep::Record(payload, span, place) => r matches Some(Ok(record))
                    && record.payload@ == payload && record.span == span
                    && final(self).checkpoint == place.next && final(self).framed_bytes
                    == old(self).framed_bytes + span.framed_bytes && !final(self).finished
                    && !final(self).records.finished && final(self).records.place() == place,
                WindowStep::Stop => r is None && final(self).checkpoint == old(self).checkpoint
                    && final(self).framed_bytes == old(self).framed_bytes && final(self).finished,
                WindowStep::End(place) => r is None && final(self).checkpoint == place.next
                    && final(self).framed_bytes == old(self).framed_bytes && final(self).finished,
                WindowStep::Fault(fault) => r matches Some(Err(e)) && e@ == fault
                    && final(self).checkpoint == old(self).checkpoint && final(self).framed_bytes
                    == old(self).framed_bytes && final(self).finished,
            },
    {
        if self.finished {
            return None;
        }
        match self.records.next() {
            Some(Ok(record)) => {
                let together: Option<u64> = self.framed_bytes.checked_add(record.span.framed_bytes);
                let framed: u64 = match together {
                    Some(sum) if self.framed_bytes == 0 || sum <= self.max_bytes => sum,
                    _ => {
                        self.finished = true;
                        return None;
                    },
                };
                self.framed_bytes = framed;
                self.checkpoint = self.records.next_cursor();
                Some(Ok(record))
            },
            Some(Err(e)) => {
                self.finished = true;
                Some(Err(e))
            },
            None => {
                self.checkpoint = self.records.next_cursor();
                self.finished = true;
                None
            },
        }
    }

    /// Gives out all records that are left in the window, in order, and the failure that cut it short, if
    /// there was one. The checkpoint is then the one behind them.
    pub fn drain(&mut self) -> (r: (Vec<RawRecord>, Option<WalError>))
        requires
            old(self).records.well_formed(),
            !old(self).records.finished,
            !old(self).finished,
        ensures
            final(self).records.well_formed(),
            final(self).finished,
            ({
                let taken = window_taken(
                    images(old(self).records.segments@),
                    old(self).records.place(),
                    old(self).records.terminal,
                    old(self).records.max_record_bytes as int,
                    old(self).checkpoint,
                    old(self).framed_bytes as int,
                    old(self).max_bytes as int,
                );
                &&& payloads_read(r.0@) == taken.payloads
                &&& spans_read(r.0@) == taken.spans
                &&& final(self).checkpoint == taken.checkpoint
                &&& final(self).framed_bytes == taken.framed_bytes
                &&& match taken.fault {
                    Some(fault) => r.1 matches Some(e) && e@ == fault,
                    None => r.1 is None,
                }
            }),
    {
        let ghost segments = images(self.records.segments@);
        let ghost terminal = self.records.terminal;
        let ghost max = self.records.max_record_bytes as int;
        let ghost budget = self.max_bytes as int;
        let ghost all = window_taken(
            segments,
            self.records.place(),
            terminal,
            max,
            self.checkpoint,
            self.framed_bytes as int,
            budget,
        );
        let mut out: Vec<RawRecord> = Vec::new();
        let mut fault: Option<WalError> = None;
        assert(payloads_read(out@) + all.payloads =~= all.payloads);
        assert(spans_read(out@) + all.spans =~= all.spans);
        while !self.finished
            invariant
                self.records.well_formed(),
                !self.finished ==> !self.records.finished,
                segments == images(self.records.segments@),
                terminal == self.records.terminal,
                max == self.records.max_record_bytes,
                budget == self.max_bytes,
                !self.finished ==> fault is None && ({
                    let rest = window_taken(
                        segments,
                        self.records.place(),
                        terminal,
                        max,
                        self.checkpoint,
                        self.framed_bytes as int,
                        budget,
                    );
                    &&& payloads_read(out@) + rest.payloads == all.payloads
                    &&& spans_read(out@) + rest.spans == all.spans
                    &&& rest.checkpoint == all.checkpoint
                    &&& rest.framed_bytes == all.framed_bytes
                    &&& rest.fault == all.fault
                }),
                self.finished ==> {
                    &&& payloads_read(out@) == all.payloads
                    &&& spans_read(out@) == all.spans
                    &&& self.checkpoint == all.checkpoint
                    &&& self.framed_bytes == all.framed_bytes
                    &&& match all.fault {
                        Some(f) => fault matches Some(e) && e@ == f,
                        None => fault is None,
                    }
                },
            decreases
                (if self.finished {
                    0int
                } else {
                    1
                }),
                window_room(self.framed_bytes as int, self.max_bytes as int),
        {
            let ghost before = payloads_read(out@);
            let ghost before_spans = spans_read(out@);
            proof {
                lemma_record_is_small(segments, self.records.place(), terminal, max);
            }
            match self.next() {
                Some(Ok(record)) => {
                    let ghost payload = record.payload@;
                    let ghost span = record.span;
                    let ghost rest = window_taken(
                        segments,
                        self.records.place(),
                        terminal,
                        max,
                        self.checkpoint,
                        self.framed_bytes as int,
                        budget,
                    );
                    out.push(record);
                    assert(payloads_read(out@) =~= before.push(payload));
                    assert(spans_read(out@) =~= before_spans.push(span));
                    assert(before + (seq![payload] + rest.payloads) =~= before.push(payload)
                        + rest.payloads);
                    assert(before_spans + (seq![span] + rest.spans) =~= before_spans.push(span)
                        + rest.spans);
                },
                Some(Err(e)) => {
                    fault = Some(e);
                    assert(before + Seq::<Seq<u8>>::empty() =~= before);
                    assert(before_spans + Seq::<WalSpan>::empty() =~= before_spans);
                },
                None => {
                    assert(before + Seq::<Seq<u8>>::empty() =~= before);
                    assert(before_spans + Seq::<WalSpan>::empty() =~= before_spans);
                },
            }
        }
        (out, fault)
    }
}

proof fn lemma_record_is_small(
    segments: Seq<(u64, Seq<u8>)>,
    place: ReadPlace,
    terminal: Option<WalCursor>,
    max: int,
)
    requires
        0 <= place.index,
    ensures
        read_from(segments, place, terminal, max) matches ReadStep::Record(payload, span, after)
            ==> {
            &&& 16 <= span.framed_bytes <= 16 + u32::MAX
            &&& span.framed_bytes == framed_len(payload)
            &&& 0 <= after.index
        },
    decreases segments.len() - place.index,
{
    if place.index < segments.len() {
        let (sequence, bytes) = segments[place.index];
        let at = entry_offset(sequence, place.next);
        let start = WalCursor { segment: sequence, byte_offset: at };
        if record_at(bytes, at as int, sequence, max) matches Ok(None) {
            lemma_record_is_small(
                segments,
                behind(segments, place.index, terminal, start),
                terminal,
                max,
            );
        }
    }
}

/// Where the next record starts, seen from a place: at the place itself, or in a later segment.
proof fn lemma_record_starts_behind(
    segments: Seq<(u64, Seq<u8>)>,
    place: ReadPlace,
    terminal: Option<WalCursor>,
    max: int,
)
    requires
        0 <= place.index,
        ascending(segments),
        forall|i: int| 0 <= i < segments.len() ==> (#[trigger] segments[i]).1.len() <= u64::MAX,
    ensures
        read_from(segments, place, terminal, max) matches ReadStep::Record(_, span, after) ==> {
            &&& place.index < segments.len()
            &&& span.start.segment == segments[place.index].0 && span.start.byte_offset
                == entry_offset(segments[place.index].0, place.next) || span.start.segment
                > segments[place.index].0
            &&& span.end.segment == span.start.segment
            &&& span.end.byte_offset == span.start.byte_offset + span.framed_bytes
            &&& span.framed_bytes > 0
            &&& after.index < segments.len() ==> segments[after.index].0 > span.end.segment
                || segments[after.index].0 == span.end.segment && after.next == span.end
        },
    decreases segments.len() - place.index,
{
    if place.index < segments.len() {
        let (sequence, bytes) = segments[place.index];
        let at = entry_offset(sequence, place.next);
        let start = WalCursor { segment: sequence, byte_offset: at };
        match record_at(bytes, at as int, sequence, max) {
            Ok(None) => {
                let next = behind(segments, place.index, terminal, start);
                lemma_record_starts_behind(segments, next, terminal, max);
                if next.index < segments.len() {
                    assert(segments[place.index].0 < segments[next.index].0);
                }
            },
            Ok(Some(payload)) => {
                assert(at + framed_len(payload) <= bytes.len());
                if place.index + 1 < segments.len() {
                    assert(segments[place.index].0 < segments[place.index + 1].0);
                }
            },
            Err(_) => {},
        }
    }
}

/// Log order is cursor order: a record ends behind its start, and the record that is read next starts at its
/// end or behind it.
pub proof fn law_log_order_is_cursor_order(
    segments: Seq<(u64, Seq<u8>)>,
    place: ReadPlace,
    terminal: Option<WalCursor>,
    max: int,
)
    requires
        0 <= place.index,
        ascending(segments),
        forall|i: int| 0 <= i < segments.len() ==> (#[trigger] segments[i]).1.len() <= u64::MAX,
    ensures
        read_from(segments, place, terminal, max) matches ReadStep::Record(_, first, after) ==> {
            &&& cursor_at_most(first.start, first.end)
            &&& first.start != first.end
            &&& read_from(segments, after, terminal, max) matches ReadStep::Record(_, second, _)
                ==> cursor_at_most(first.end, second.start)
        },
{
    lemma_record_starts_behind(segments, place, terminal, max);
    if let ReadStep::Record(_, _, after) = read_from(segments, place, terminal, max) {
        lemma_behind_a_record(segments, place, terminal, max);
        lemma_record_starts_behind(segments, after, terminal, max);
    }
}

/// The payloads that up to `steps` reads from a place on give out.
pub open spec fn records_read(
    segments: Seq<(u64, Seq<u8>)>,
    place: ReadPlace,
    terminal: Option<WalCursor>,
    max: int,
    steps: nat,
) -> Seq<Seq<u8>>
    decreases steps,
{
    if steps == 0 {
        Seq::empty()
    } else {
        match read_from(segments, place, terminal, max) {
            ReadStep::Record(payload, _, after) => seq![payload] + records_read(
                segments,
                after,
                terminal,
                max,
                (steps - 1) as nat,
            ),
            _ => Seq::empty(),
        }
    }
}

/// The segments that hold the records of payloads.
pub open spec fn written(lists: Seq<(u64, Seq<Seq<u8>>)>) -> Seq<(u64, Seq<u8>)> {
    lists.map_values(|s: (u64, Seq<Seq<u8>>)| (s.0, frames(s.1)))
}

/// The payloads of all segments, in order.
pub open spec fn all_payloads(lists: Seq<(u64, Seq<Seq<u8>>)>) -> Seq<Seq<u8>>
    decreases lists.len(),
{
    if lists.len() == 0 {
        Seq::empty()
    } else {
        lists[0].1 + all_payloads(lists.drop_first())
    }
}

/// Whether payloads can be recorded in segments that come in order.
pub open spec fn writable(lists: Seq<(u64, Seq<Seq<u8>>)>, max: int) -> bool {
    &&& ascending(written(lists))
    &&& forall|i: int|
        0 <= i < lists.len() ==> recordable((#[trigger] lists[i]).1, max) && frames(
            lists[i].1,
        ).len() <= u64::MAX
}

/// The place behind the first `k` records of the i-th segment.
pub open spec fn boundary(lists: Seq<(u64, Seq<Seq<u8>>)>, i: int, k: int) -> ReadPlace {
    ReadPlace {
        index: i,
        next: WalCursor {
            segment: lists[i].0,
            byte_offset: frames(lists[i].1.take(k)).len() as u64,
        },
    }
}

proof fn lemma_reads_the_rest(
    lists: Seq<(u64, Seq<Seq<u8>>)>,
    i: int,
    k: int,
    terminal: Option<WalCursor>,
    max: int,
    steps: nat,
)
    requires
        writable(lists, max),
        0 <= i < lists.len(),
        0 <= k <= lists[i].1.len(),
        steps >= lists[i].1.len() - k + all_payloads(lists.skip(i + 1)).len(),
    ensures
        records_read(written(lists), boundary(lists, i, k), terminal, max, steps)
            == lists[i].1.skip(k) + all_payloads(lists.skip(i + 1)),
    decreases lists.len() - i, lists[i].1.len() - k,
{
    let segments = written(lists);
    let list = lists[i].1;
    let rest = lists.skip(i + 1);
    let place = boundary(lists, i, k);
    let bytes = frames(list);
    let at = frames(list.take(k)).len() as int;
    let behind_k = lemma_frames_split(list, k);
    assert(segments[i] == (lists[i].0, bytes));
    assert(entry_offset(segments[i].0, place.next) == at);
    if k == list.len() {
        assert(list.take(k) =~= list);
        assert(record_at(bytes, at, lists[i].0, max) matches Ok(None));
        let next = behind(segments, i, terminal, place.next);
        assert(read_from(segments, place, terminal, max) == read_from(
            segments,
            next,
            terminal,
            max,
        ));
        assert(list.skip(k) + all_payloads(rest) =~= all_payloads(rest));
        if i + 1 < lists.len() {
            assert(lists[i + 1].1.take(0) =~= Seq::<Seq<u8>>::empty());
            assert(segments[i + 1].0 == lists[i + 1].0);
            assert(next == boundary(lists, i + 1, 0));
            assert(rest[0] == lists[i + 1]);
            assert(rest.drop_first() =~= lists.skip(i + 2));
            assert(lists[i + 1].1.skip(0) =~= lists[i + 1].1);
            lemma_reads_the_rest(lists, i + 1, 0, terminal, max, steps);
        } else {
            assert(read_from(segments, next, terminal, max) == ReadStep::End(next));
        }
    } else {
        let payload = list[k];
        assert(list.take(k + 1).drop_last() =~= list.take(k));
        assert(frames(list.take(k + 1)) == frames(list.take(k)) + frame(payload));
        let after = lemma_frames_split(list, k + 1);
        law_read_back(frames(list.take(k)), payload, after, max);
        assert(record_at(bytes, at, lists[i].0, max) == Ok::<_, WalFault>(Some(payload)));
        let here = boundary(lists, i, k + 1);
        let fewer = (steps - 1) as nat;
        lemma_reads_the_rest(lists, i, k + 1, terminal, max, fewer);
        assert(entry_offset(segments[i].0, here.next) == here.next.byte_offset);
        assert(list.skip(k) =~= seq![payload] + list.skip(k + 1));
        if here.next.byte_offset == bytes.len() {
            assert(record_at(bytes, bytes.len() as int, lists[i].0, max) matches Ok(None));
            let next = behind(segments, i, terminal, here.next);
            assert(read_from(segments, here, terminal, max) == read_from(
                segments,
                next,
                terminal,
                max,
            ));
            assert(records_read(segments, here, terminal, max, fewer) == records_read(
                segments,
                next,
                terminal,
                max,
                fewer,
            ));
        }
        assert(seq![payload] + (list.skip(k + 1) + all_payloads(rest)) =~= list.skip(k)
            + all_payloads(rest));
    }
}

/// What was recorded is read: a reader that is opened behind the first `k` records of a segment gives
/// out every later record of it and of the segments behind it, each once and in order.
pub proof fn law_sealed_records_read_back(
    lists: Seq<(u64, Seq<Seq<u8>>)>,
    k: int,
    terminal: Option<WalCursor>,
    max: int,
    steps: nat,
)
    requires
        writable(lists, max),
        lists.len() > 0,
        0 <= k <= lists[0].1.len(),
        steps >= all_payloads(lists).len() - k,
    ensures
        records_read(written(lists), boundary(lists, 0, k), terminal, max, steps) == all_payloads(
            lists,
        ).skip(k),
{
    assert(lists.skip(1) =~= lists.drop_first());
    lemma_reads_the_rest(lists, 0, k, terminal, max, steps);
    assert(lists[0].1.skip(k) + all_payloads(lists.drop_first()) =~= all_payloads(lists).skip(k));
}

/// A place, counted from an earlier segment on.
spec fn shifted(place: ReadPlace, by: int) -> ReadPlace {
    ReadPlace { index: place.index + by, next: place.next }
}

proof fn lemma_read_shifted(
    segments: Seq<(u64, Seq<u8>)>,
    by: int,
    place: ReadPlace,
    terminal: Option<WalCursor>,
    max: int,
)
    requires
        0 <= by <= segments.len(),
        0 <= place.index,
    ensures
        read_from(segments, shifted(place, by), terminal, max) == (match read_from(
            segments.skip(by),
            place,
            terminal,
            max,
        ) {
            ReadStep::Record(payload, span, after) => ReadStep::Record(
                payload,
                span,
                shifted(after, by),
            ),
            ReadStep::End(after) => ReadStep::End(shifted(after, by)),
            ReadStep::Fault(fault, after) => ReadStep::Fault(fault, shifted(after, by)),
        }),
        read_from(segments.skip(by), place, terminal, max) matches ReadStep::Record(_, _, after)
            ==> after.index >= 0,
    decreases segments.len() - by - place.index,
{
    let later = segments.skip(by);
    if place.index < later.len() {
        let (sequence, bytes) = later[place.index];
        let at = entry_offset(sequence, place.next);
        let start = WalCursor { segment: sequence, byte_offset: at };
        if record_at(bytes, at as int, sequence, max) matches Ok(None) {
            lemma_read_shifted(
                segments,
                by,
                behind(later, place.index, terminal, start),
                terminal,
                max,
            );
        }
    }
}

proof fn lemma_reads_shifted(
    segments: Seq<(u64, Seq<u8>)>,
    by: int,
    place: ReadPlace,
    terminal: Option<WalCursor>,
    max: int,
    steps: nat,
)
    requires
        0 <= by <= segments.len(),
        0 <= place.index,
    ensures
        records_read(segments, shifted(place, by), terminal, max, steps) == records_read(
            segments.skip(by),
            place,
            terminal,
            max,
            steps,
        ),
    decreases steps,
{
    if steps > 0 {
        lemma_read_shifted(segments, by, place, terminal, max);
        if let ReadStep::Record(_, _, after) = read_from(
            segments.skip(by),
            place,
            terminal,
            max,
        ) {
            lemma_reads_shifted(segments, by, after, terminal, max, (steps - 1) as nat);
        }
    }
}

/// The place behind a record: at the segment that comes next, if one does.
proof fn lemma_behind_a_record(
    segments: Seq<(u64, Seq<u8>)>,
    place: ReadPlace,
    terminal: Option<WalCursor>,
    max: int,
)
    requires
        0 <= place.index,
    ensures
        read_from(segments, place, terminal, max) matches ReadStep::Record(_, _, after) ==> {
            &&& 0 < segments.len()
            &&& 0 <= after.index <= segments.len()
            &&& after.index < segments.len() ==> after.next.segment == segments[after.index].0
            &&& after.index == segments.len() ==> match terminal {
                Some(t) => after.next == t,
                None => after.next.segment == segments.last().0 && after.next.byte_offset
                    == segments.last().1.len(),
            }
        },
    decreases segments.len() - place.index,
{
    if place.index < segments.len() {
        let (sequence, bytes) = segments[place.index];
        let at = entry_offset(sequence, place.next);
        let start = WalCursor { segment: sequence, byte_offset: at };
        if record_at(bytes, at as int, sequence, max) matches Ok(None) {
            lemma_behind_a_record(
                segments,
                behind(segments, place.index, terminal, start),
                terminal,
                max,
            );
        }
    }
}

/// How many segments come before one of them, or before a sequence number behind them all.
proof fn lemma_first_from(segments: Seq<(u64, Seq<u8>)>, sequence: u64, n: int)
    requires
        ascending(segments),
        0 <= n <= segments.len(),
        n < segments.len() ==> segments[n].0 == sequence,
        n == segments.len() ==> forall|i: int|
            0 <= i < segments.len() ==> (#[trigger] segments[i]).0 < sequence,
    ensures
        first_from(segments, sequence) == n,
    decreases segments.len(),
{
    if n > 0 {
        let later = segments.drop_first();
        assert(segments[0].0 < sequence);
        assert forall|i: int, j: int| 0 <= i < j < later.len() implies (#[trigger] later[i]).0 < (
        #[trigger] later[j]).0 by {
            assert(later[i] == segments[i + 1] && later[j] == segments[j + 1]);
        }
        assert forall|i: int| 0 <= i < later.len() implies #[trigger] later[i] == segments[i
            + 1] by {}
        lemma_first_from(later, sequence, n - 1);
    }
}

/// Reading resumes where it stopped: a reader that is opened at the checkpoint behind a record gives out
/// exactly the records that would have followed it.
pub proof fn law_reading_resumes_at_the_checkpoint(
    segments: Seq<(u64, Seq<u8>)>,
    place: ReadPlace,
    terminal: Option<WalCursor>,
    max: int,
    steps: nat,
)
    requires
        ascending(segments),
        0 <= place.index,
        terminal matches Some(t) ==> forall|i: int|
            0 <= i < segments.len() ==> (#[trigger] segments[i]).0 < t.segment,
    ensures
        read_from(segments, place, terminal, max) matches ReadStep::Record(_, _, after)
            ==> records_read(
            segments.skip(first_from(segments, after.next.segment)),
            ReadPlace { index: 0, next: after.next },
            terminal,
            max,
            steps,
        ) == records_read(segments, after, terminal, max, steps),
{
    lemma_behind_a_record(segments, place, terminal, max);
    if let ReadStep::Record(_, _, after) = read_from(segments, place, terminal, max) {
        let reopened = ReadPlace { index: 0, next: after.next };
        if after.index == segments.len() && terminal is None {
            let n = segments.len() - 1;
            lemma_first_from(segments, after.next.segment, n);
            let later = segments.skip(n);
            assert(later[0] == segments.last());
            assert(record_at(later[0].1, later[0].1.len() as int, later[0].0, max) matches Ok(
                None,
            ));
            let end = behind(later, 0, terminal, after.next);
            assert(read_from(later, end, terminal, max) == ReadStep::End(end));
            assert(read_from(later, reopened, terminal, max) == ReadStep::End(end));
        } else {
            lemma_first_from(segments, after.next.segment, after.index);
            lemma_reads_shifted(segments, after.index, reopened, terminal, max, steps);
            assert(shifted(reopened, after.index) == after);
        }
    }
}

/// A window that has given out a record gives out another one only where both stay within its budget.
pub proof fn law_windows_respect_their_budget(step: ReadStep, framed_so_far: int, max_bytes: int)
    requires
        framed_so_far > 0,
    ensures
        window_step(step, framed_so_far, max_bytes) matches WindowStep::Record(_, span, _)
            ==> framed_so_far + span.framed_bytes <= max_bytes,
{
}

/// The bytes of the records of payloads.
pub open spec fn framed_total(payloads: Seq<Seq<u8>>) -> int
    decreases payloads.len(),
{
    if payloads.len() == 0 {
        0
    } else {
        framed_len(payloads[0]) + framed_total(payloads.drop_first())
    }
}

proof fn lemma_window_prefix(
    segments: Seq<(u64, Seq<u8>)>,
    place: ReadPlace,
    terminal: Option<WalCursor>,
    max: int,
    checkpoint: WalCursor,
    framed_so_far: int,
    max_bytes: int,
    steps: nat,
)
    requires
        0 <= place.index,
        0 <= framed_so_far,
        0 <= max_bytes,
    ensures
        ({
            let taken = window_taken(
                segments,
                place,
                terminal,
                max,
                checkpoint,
                framed_so_far,
                max_bytes,
            );
            let all = records_read(segments, place, terminal, max, steps);
            let n = taken.payloads.len() as int;
            &&& n <= steps ==> n <= all.len() && taken.payloads == all.take(n)
            &&& taken.framed_bytes == framed_so_far + framed_total(taken.payloads)
            &&& n > 1 || n == 1 && framed_so_far > 0 ==> taken.framed_bytes <= max_bytes
            &&& n == 0 && framed_so_far == 0 ==> all.len() == 0
            &&& n < all.len() ==> framed_so_far + framed_total(all.take(n + 1)) > max_bytes
            &&& taken.spans.len() == n
        }),
    decreases window_room(framed_so_far, max_bytes),
{
    lemma_record_is_small(segments, place, terminal, max);
    let taken = window_taken(
        segments,
        place,
        terminal,
        max,
        checkpoint,
        framed_so_far,
        max_bytes,
    );
    let all = records_read(segments, place, terminal, max, steps);
    let n = taken.payloads.len() as int;
    if let ReadStep::Record(payload, span, after) = read_from(segments, place, terminal, max) {
        if fits(framed_so_far, span.framed_bytes as int, max_bytes) {
            let fewer = if steps > 0 {
                (steps - 1) as nat
            } else {
                0
            };
            let so_far = framed_so_far + span.framed_bytes;
            lemma_window_prefix(
                segments,
                after,
                terminal,
                max,
                after.next,
                so_far,
                max_bytes,
                fewer,
            );
            let rest = window_taken(
                segments,
                after,
                terminal,
                max,
                after.next,
                so_far,
                max_bytes,
            );
            let later = records_read(segments, after, terminal, max, fewer);
            assert(taken.payloads.drop_first() =~= rest.payloads);
            if steps > 0 {
                assert(all == seq![payload] + later);
                if n <= steps {
                    assert(all.take(n) =~= seq![payload] + later.take(n - 1));
                }
                if n < all.len() {
                    assert(all.take(n + 1).drop_first() =~= later.take(n));
                }
            }
        } else if steps > 0 {
            assert(all.take(1)[0] == payload);
            assert(all.take(1).drop_first() =~= Seq::<Seq<u8>>::empty());
        }
    }
    if n == 0 {
        assert(all.take(0) =~= taken.payloads);
    }
}

/// A window holds the longest run of records that fits its budget, but at least the first record there is:
/// what it holds is what reading gives first, it counts exactly the bytes of that, and the next record, if
/// there is one, would take it past its budget.
pub proof fn law_windows_hold_the_longest_prefix(
    segments: Seq<(u64, Seq<u8>)>,
    place: ReadPlace,
    terminal: Option<WalCursor>,
    max: int,
    checkpoint: WalCursor,
    max_bytes: int,
    steps: nat,
)
    requires
        0 <= place.index,
        0 < max_bytes,
        window_taken(segments, place, terminal, max, checkpoint, 0, max_bytes).payloads.len()
            <= steps,
    ensures
        ({
            let taken = window_taken(segments, place, terminal, max, checkpoint, 0, max_bytes);
            let all = records_read(segments, place, terminal, max, steps);
            let n = taken.payloads.len() as int;
            &&& n <= all.len()
            &&& taken.payloads == all.take(n)
            &&& taken.framed_bytes == framed_total(all.take(n))
            &&& n <= 1 || framed_total(all.take(n)) <= max_bytes
            &&& all.len() > 0 ==> n > 0
            &&& n < all.len() ==> framed_total(all.take(n + 1)) > max_bytes
        }),
{
    lemma_window_prefix(segments, place, terminal, max, checkpoint, 0, max_bytes, steps);
}

/// Where reading ends: at the active segment, else at the end of the last sealed one.
proof fn lemma_end_of_reading(
    segments: Seq<(u64, Seq<u8>)>,
    place: ReadPlace,
    terminal: Option<WalCursor>,
    max: int,
)
    requires
        0 < segments.len(),
        0 <= place.index <= segments.len(),
        place.index == segments.len() ==> match terminal {
            Some(t) => place.next == t,
            None => place.next.segment == segments.last().0 && place.next.byte_offset
                >= segments.last().1.len(),
        },
    ensures
        read_from(segments, place, terminal, max) matches ReadStep::End(end) ==> match terminal {
            Some(t) => end.next == t,
            None => end.next.segment == segments.last().0 && end.next.byte_offset
                >= segments.last().1.len(),
        },
    decreases segments.len() - place.index,
{
    if place.index < segments.len() {
        let (sequence, bytes) = segments[place.index];
        let at = entry_offset(sequence, place.next);
        let start = WalCursor { segment: sequence, byte_offset: at };
        if record_at(bytes, at as int, sequence, max) matches Ok(None) {
            lemma_end_of_reading(
                segments,
                behind(segments, place.index, terminal, start),
                terminal,
                max,
            );
        }
    }
}

/// Behind the end there is nothing to read.
proof fn lemma_nothing_behind_the_end(
    segments: Seq<(u64, Seq<u8>)>,
    end: WalCursor,
    terminal: Option<WalCursor>,
    max: int,
    steps: nat,
)
    requires
        0 < segments.len(),
        ascending(segments),
        terminal matches Some(t) ==> forall|i: int|
            0 <= i < segments.len() ==> (#[trigger] segments[i]).0 < t.segment,
        match terminal {
            Some(t) => end == t,
            None => end.segment == segments.last().0 && end.byte_offset
                >= segments.last().1.len(),
        },
    ensures
        records_read(
            segments.skip(first_from(segments, end.segment)),
            ReadPlace { index: 0, next: end },
            terminal,
            max,
            steps,
        ) == Seq::<Seq<u8>>::empty(),
{
    let reopened = ReadPlace { index: 0, next: end };
    if terminal is Some {
        lemma_first_from(segments, end.segment, segments.len() as int);
        let later = segments.skip(segments.len() as int);
        assert(read_from(later, reopened, terminal, max) == ReadStep::End(reopened));
    } else {
        let n = segments.len() - 1;
        lemma_first_from(segments, end.segment, n);
        let later = segments.skip(n);
        assert(later[0] == segments.last());
        assert(record_at(later[0].1, end.byte_offset as int, later[0].0, max) matches Ok(None));
        let last = behind(later, 0, terminal, end);
        assert(read_from(later, last, terminal, max) == ReadStep::End(last));
        assert(read_from(later, reopened, terminal, max) == ReadStep::End(last));
    }
}

/// A window and its checkpoint split the log: a reader that is opened at the checkpoint of a window that gave
/// out records gives out exactly the records behind them, none twice and none left out.
pub proof fn law_windows_and_checkpoints_split_the_log(
    segments: Seq<(u64, Seq<u8>)>,
    place: ReadPlace,
    terminal: Option<WalCursor>,
    max: int,
    checkpoint: WalCursor,
    framed_so_far: int,
    max_bytes: int,
    steps: nat,
)
    requires
        ascending(segments),
        0 <= place.index,
        0 <= framed_so_far,
        0 <= max_bytes,
        terminal matches Some(t) ==> forall|i: int|
            0 <= i < segments.len() ==> (#[trigger] segments[i]).0 < t.segment,
    ensures
        ({
            let taken = window_taken(
                segments,
                place,
                terminal,
                max,
                checkpoint,
                framed_so_far,
                max_bytes,
            );
            let n = taken.payloads.len();
            n > 0 ==> taken.payloads + records_read(
                segments.skip(first_from(segments, taken.checkpoint.segment)),
                ReadPlace { index: 0, next: taken.checkpoint },
                terminal,
                max,
                steps,
            ) == records_read(segments, place, terminal, max, steps + n)
        }),
    decreases window_room(framed_so_far, max_bytes),
{
    lemma_record_is_small(segments, place, terminal, max);
    if let ReadStep::Record(payload, span, after) = read_from(segments, place, terminal, max) {
        if fits(framed_so_far, span.framed_bytes as int, max_bytes) {
            let so_far = framed_so_far + span.framed_bytes;
            let rest = window_taken(
                segments,
                after,
                terminal,
                max,
                after.next,
                so_far,
                max_bytes,
            );
            let n = rest.payloads.len();
            law_windows_and_checkpoints_split_the_log(
                segments,
                after,
                terminal,
                max,
                after.next,
                so_far,
                max_bytes,
                steps,
            );
            let taken = window_taken(
                segments,
                place,
                terminal,
                max,
                checkpoint,
                framed_so_far,
                max_bytes,
            );
            let behind_it = records_read(
                segments.skip(first_from(segments, taken.checkpoint.segment)),
                ReadPlace { index: 0, next: taken.checkpoint },
                terminal,
                max,
                steps,
            );
            assert(taken.payloads + behind_it =~= seq![payload] + (rest.payloads + behind_it));
            if n == 0 {
                lemma_behind_a_record(segments, place, terminal, max);
                law_reading_resumes_at_the_checkpoint(segments, place, terminal, max, steps);
                assert(rest.payloads + behind_it =~= behind_it);
                lemma_end_of_reading(segments, after, terminal, max);
                if let ReadStep::End(end) = read_from(segments, after, terminal, max) {
                    lemma_nothing_behind_the_end(segments, end.next, terminal, max, steps);
                }
            }
            assert(records_read(segments, place, terminal, max, steps + n + 1) == seq![payload]
                + records_read(segments, after, terminal, max, steps + n));
        }
    }
}

/// A window has a span for each payload.
pub proof fn lemma_window_lengths(
    segments: Seq<(u64, Seq<u8>)>,
    place: ReadPlace,
    terminal: Option<WalCursor>,
    max: int,
    checkpoint: WalCursor,
    framed_so_far: int,
    max_bytes: int,
)
    requires
        0 <= place.index,
        0 <= framed_so_far,
        0 <= max_bytes,
    ensures
        ({
            let taken = window_taken(
                segments,
                place,
                terminal,
                max,
                checkpoint,
                framed_so_far,
                max_bytes,
            );
            taken.payloads.len() == taken.spans.len()
        }),
    decreases window_room(framed_so_far, max_bytes),
{
    lemma_record_is_small(segments, place, terminal, max);
    if let ReadStep::Record(_, span, after) = read_from(segments, place, terminal, max) {
        if fits(framed_so_far, span.framed_bytes as int, max_bytes) {
            let so_far = framed_so_far + span.framed_bytes;
            lemma_window_lengths(
                segments,
                after,
                terminal,
                max,
                after.next,
                so_far,
                max_bytes,
            );
        }
    }
}

/// Whether spans follow each other between two places of the log.
pub open spec fn in_log_order(from: WalCursor, spans: Seq<WalSpan>, to: WalCursor) -> bool
    decreases spans.len(),
{
    if spans.len() == 0 {
        cursor_at_most(from, to)
    } else {
        &&& cursor_at_most(from, spans[0].start)
        &&& cursor_at_most(spans[0].start, spans[0].end)
        &&& in_log_order(spans[0].end, spans.drop_first(), to)
    }
}

/// Reading never moves back.
proof fn lemma_reading_moves_on(
    segments: Seq<(u64, Seq<u8>)>,
    place: ReadPlace,
    terminal: Option<WalCursor>,
    max: int,
)
    requires
        ascending(segments),
        0 <= place.index,
        place.index < segments.len() ==> place.next.segment <= segments[place.index].0,
        forall|i: int| 0 <= i < segments.len() ==> (#[trigger] segments[i]).1.len() <= u64::MAX,
        terminal matches Some(t) ==> forall|i: int|
            0 <= i < segments.len() ==> (#[trigger] segments[i]).0 < t.segment,
    ensures
        match read_from(segments, place, terminal, max) {
            ReadStep::Record(_, span, after) => {
                &&& cursor_at_most(place.next, span.start)
                &&& cursor_at_most(span.start, span.end)
                &&& cursor_at_most(span.end, after.next)
                &&& 0 <= after.index
                &&& after.index < segments.len() ==> after.next.segment <= segments[after.index].0
            },
            ReadStep::End(end) => cursor_at_most(place.next, end.next),
            ReadStep::Fault(..) => true,
        },
    decreases segments.len() - place.index,
{
    if place.index < segments.len() {
        let (sequence, bytes) = segments[place.index];
        let at = entry_offset(sequence, place.next);
        let start = WalCursor { segment: sequence, byte_offset: at };
        if place.index + 1 < segments.len() {
            assert(segments[place.index].0 < segments[place.index + 1].0);
        }
        match record_at(bytes, at as int, sequence, max) {
            Ok(None) => {
                lemma_reading_moves_on(
                    segments,
                    behind(segments, place.index, terminal, start),
                    terminal,
                    max,
                );
            },
            Ok(Some(payload)) => {
                assert(at + framed_len(payload) <= bytes.len());
            },
            Err(_) => {},
        }
    }
}

/// The records of a window lie in order between the checkpoint that it starts at and the one behind it.
pub proof fn law_windows_are_in_log_order(
    segments: Seq<(u64, Seq<u8>)>,
    place: ReadPlace,
    terminal: Option<WalCursor>,
    max: int,
    framed_so_far: int,
    max_bytes: int,
)
    requires
        ascending(segments),
        0 <= place.index,
        0 <= framed_so_far,
        0 <= max_bytes,
        place.index < segments.len() ==> place.next.segment <= segments[place.index].0,
        forall|i: int| 0 <= i < segments.len() ==> (#[trigger] segments[i]).1.len() <= u64::MAX,
        terminal matches Some(t) ==> forall|i: int|
            0 <= i < segments.len() ==> (#[trigger] segments[i]).0 < t.segment,
    ensures
        ({
            let taken = window_taken(
                segments,
                place,
                terminal,
                max,
                place.next,
                framed_so_far,
                max_bytes,
            );
            in_log_order(place.next, taken.spans, taken.checkpoint)
        }),
    decreases window_room(framed_so_far, max_bytes),
{
    lemma_reading_moves_on(segments, place, terminal, max);
    lemma_record_is_small(segments, place, terminal, max);
    if let ReadStep::Record(_, span, after) = read_from(segments, place, terminal, max) {
        if fits(framed_so_far, span.framed_bytes as int, max_bytes) {
            let so_far = framed_so_far + span.framed_bytes;
            law_windows_are_in_log_order(segments, after, terminal, max, so_far, max_bytes);
            let rest = window_taken(
                segments,
                after,
                terminal,
                max,
                after.next,
                so_far,
                max_bytes,
            );
            assert((seq![span] + rest.spans).drop_first() =~= rest.spans);
            assert(in_log_order(span.end, rest.spans, rest.checkpoint));
        }
    }
}

/// The first record of a window always fits, however small the budget.
pub proof fn law_first_record_always_fits(record: int, max_bytes: int)
    ensures
        fits(0, record, max_bytes),
{
}

} // verus!
