//! What the records of the log promise: that damage is found, and that only a torn tail is ever given up.
use vstd::bytes::*;
use vstd::prelude::*;
use vstd::string::*;
use vstd::utf8::*;

use crate::pipeline::layout::{
    boundary_from, cursor_checked, gap_from, inserted, layout_fault, padded, placed, segments_of, sequence_of, zeros,
};
use crate::pipeline::log::{append_led, opening_segment, SealOutcome, WriteAheadLog};
use crate::pipeline::wal::{
    all_batches, crc32, cursor_at_most, frame, frame_at, frames, law_read_back, law_whole_segment,
    lemma_frames_split, record_at, recordable, scanned, verdict_of, FrameAt, PayloadVerdict, WalCursor,
    WalFault, WalReceipt,
};
use crate::rows::lemma_push_contains;
use crate::text::{decimal, digits, is_digit, number_of};
use crate::text_effects::lemma_decimal_reads_back;

verus! {

/// Whether a record stands at a place: its mark, its version, three bytes of zero, its length, its checksum, and
/// as many bytes as its length says.
pub open spec fn stands(bytes: Seq<u8>, at: int, payload: Seq<u8>) -> bool {
    &&& at + 16 + payload.len() <= bytes.len()
    &&& bytes[at] == 'H' as u8 && bytes[at + 1] == 'G' as u8 && bytes[at + 2] == 'L' as u8 && bytes[at + 3]
        == 'W' as u8
    &&& bytes[at + 4] == 1
    &&& bytes[at + 5] == 0 && bytes[at + 6] == 0 && bytes[at + 7] == 0
    &&& spec_u32_from_le_bytes(bytes.subrange(at + 8, at + 12)) == payload.len()
    &&& spec_u32_from_le_bytes(bytes.subrange(at + 12, at + 16)) == crc32(payload)
    &&& bytes.subrange(at + 16, at + 16 + payload.len()) == payload
}

/// A record is read only where a whole one stands, with its own checksum, and within the limit; and where one
/// stands it is read.
pub proof fn law_only_whole_records_are_read(bytes: Seq<u8>, at: int, max: int, payload: Seq<u8>)
    requires
        0 <= at,
    ensures
        frame_at(bytes, at, max) == FrameAt::Whole(payload) <==> stands(bytes, at, payload)
            && payload.len() <= max,
{
    let mark = seq![72u8, 71u8, 76u8, 87u8];
    let zeros = seq![0u8, 0u8, 0u8];
    if stands(bytes, at, payload) {
        assert(bytes.subrange(at, at + 4) =~= mark);
        assert(bytes.subrange(at + 5, at + 8) =~= zeros);
    }
    if frame_at(bytes, at, max) is Whole {
        let head = bytes.subrange(at, at + 4);
        let rest = bytes.subrange(at + 5, at + 8);
        assert(head[0] == bytes[at] && head[1] == bytes[at + 1] && head[2] == bytes[at + 2] && head[3]
            == bytes[at + 3]);
        assert(rest[0] == bytes[at + 5] && rest[1] == bytes[at + 6] && rest[2] == bytes[at + 7]);
    }
}

/// Damage to a record is found: a mark, a version or a byte of zero that is not as it should be, a length above
/// the limit, and a payload that is not that of the checksum.
pub proof fn law_damage_is_found(bytes: Seq<u8>, at: int, max: int)
    requires
        0 <= at,
        at + 16 <= bytes.len(),
    ensures
        bytes[at] != 'H' as u8 || bytes[at + 1] != 'G' as u8 || bytes[at + 2] != 'L' as u8 || bytes[at + 3]
            != 'W' as u8 || bytes[at + 4] != 1 || bytes[at + 5] != 0 || bytes[at + 6] != 0 || bytes[at + 7]
            != 0 ==> frame_at(bytes, at, max) is Bad,
        spec_u32_from_le_bytes(bytes.subrange(at + 8, at + 12)) > max ==> frame_at(bytes, at, max) is Bad,
        ({
            let n = spec_u32_from_le_bytes(bytes.subrange(at + 8, at + 12));
            at + 16 + n <= bytes.len() && crc32(bytes.subrange(at + 16, at + 16 + n))
                != spec_u32_from_le_bytes(bytes.subrange(at + 12, at + 16)) ==> frame_at(bytes, at, max) is Bad
        }),
{
    let head = bytes.subrange(at, at + 4);
    let rest = bytes.subrange(at + 5, at + 8);
    assert(head[0] == bytes[at] && head[1] == bytes[at + 1] && head[2] == bytes[at + 2] && head[3]
        == bytes[at + 3]);
    assert(rest[0] == bytes[at + 5] && rest[1] == bytes[at + 6] && rest[2] == bytes[at + 7]);
}

/// A damaged record is an error wherever it stands, whether or not a tail may be repaired; a torn one is an error
/// unless it may.
pub proof fn law_damage_is_never_repaired(
    bytes: Seq<u8>,
    at: int,
    k: int,
    sequence: u64,
    max: int,
    repair: bool,
    verdicts: Seq<PayloadVerdict>,
)
    requires
        0 <= at,
    ensures
        frame_at(bytes, at, max) is Bad ==> scanned(bytes, at, k, sequence, max, repair, verdicts) is Err,
        frame_at(bytes, at, max) is Whole && verdict_of(verdicts, k) != PayloadVerdict::Batch ==> scanned(
            bytes,
            at,
            k,
            sequence,
            max,
            repair,
            verdicts,
        ) is Err,
        (frame_at(bytes, at, max) is TornHeader || frame_at(bytes, at, max) is TornPayload) ==> (scanned(
            bytes,
            at,
            k,
            sequence,
            max,
            repair,
            verdicts,
        ) is Ok <==> repair),
        (frame_at(bytes, at, max) is TornHeader || frame_at(bytes, at, max) is TornPayload) && repair
            ==> scanned(bytes, at, k, sequence, max, repair, verdicts) == Ok::<(int, bool), WalFault>(
            (at, true),
        ),
        frame_at(bytes, at, max) is Whole && verdict_of(verdicts, k) == PayloadVerdict::Batch ==> scanned(
            bytes,
            at,
            k,
            sequence,
            max,
            repair,
            verdicts,
        ) == scanned(
            bytes,
            at + 16 + frame_at(bytes, at, max)->Whole_0.len(),
            k + 1,
            sequence,
            max,
            repair,
            verdicts,
        ),
{
}

/// Reading one record where it is damaged or torn is an error, and past the end there is none.
pub proof fn law_records_are_read_or_refused(bytes: Seq<u8>, at: int, segment: u64, max: int)
    requires
        0 <= at,
    ensures
        at >= bytes.len() ==> record_at(bytes, at, segment, max) == Ok::<Option<Seq<u8>>, WalFault>(None),
        frame_at(bytes, at, max) is Bad || frame_at(bytes, at, max) is TornHeader || frame_at(
            bytes,
            at,
            max,
        ) is TornPayload ==> record_at(bytes, at, segment, max) is Err,
        frame_at(bytes, at, max) is Whole ==> record_at(bytes, at, segment, max) == Ok::<
            Option<Seq<u8>>,
            WalFault,
        >(Some(frame_at(bytes, at, max)->Whole_0)),
        at < bytes.len() && bytes.len() - at < 16 ==> frame_at(bytes, at, max) is TornHeader,
{
}

/// A place in the log comes before another if its segment does, or within one segment if its offset does.
pub proof fn law_places_are_ordered(a: WalCursor, b: WalCursor)
    ensures
        a.segment < b.segment ==> cursor_at_most(a, b) && !cursor_at_most(b, a),
        a.segment == b.segment ==> (cursor_at_most(a, b) <==> a.byte_offset <= b.byte_offset),
{
}

// ── Appending ─────────────────────────────────────────────────────────────────

/// An append that did not become durable gives no receipt, and the log takes nothing more.
pub proof fn law_failed_appends_end_the_log(
    log: WriteAheadLog,
    event_count: usize,
    payload: usize,
    seal: SealOutcome,
    durable: bool,
    failure: Seq<char>,
    next_count: usize,
    next_payload: usize,
)
    requires
        !log.poisoned,
        event_count > 0,
        payload <= log.config.max_record_bytes,
        log.sequence < u64::MAX,
    ensures
        ({
            let (after, r) = append_led(log, event_count, payload, seal, durable, failure);
            let seals = log.bytes > 0 && log.bytes + 16 + payload > log.config.segment_target_bytes
                && log.config.segment_target_bytes < u64::MAX;
            &&& !durable ==> r is Err
            &&& seals && !(seal.renamed && seal.opened) ==> r is Err
            &&& !durable || (seals && !(seal.renamed && seal.opened)) ==> after.poisoned && append_led(
                after,
                next_count,
                next_payload,
                seal,
                true,
                failure,
            ) == (after, Err::<WalReceipt, WalFault>(WalFault::Poisoned))
        }),
{
}

/// A batch without events, or with more bytes than a record may have, is refused, and nothing changes.
pub proof fn law_bad_batches_are_not_appended(
    log: WriteAheadLog,
    event_count: usize,
    payload: usize,
    seal: SealOutcome,
    durable: bool,
    failure: Seq<char>,
)
    requires
        !log.poisoned,
        event_count == 0 || payload > log.config.max_record_bytes,
    ensures
        append_led(log, event_count, payload, seal, durable, failure).0 == log,
        append_led(log, event_count, payload, seal, durable, failure).1 is Err,
{
}

/// A log goes on where it was: in its active segment, or in the one after the last that is sealed, or in the
/// first.
pub proof fn law_logs_go_on_where_they_were(sealed: Seq<u64>, active: Option<(u64, u64)>)
    ensures
        active is Some ==> opening_segment(sealed, active) == active,
        active is None && sealed.len() == 0 ==> opening_segment(sealed, active) == Some((1u64, 0u64)),
        active is None && sealed.len() > 0 && sealed.last() < u64::MAX ==> opening_segment(sealed, active)
            is Some && opening_segment(sealed, active)->Some_0.0 == sealed.last() + 1 && opening_segment(
            sealed,
            active,
        )->Some_0.1 == 0,
{
}

// ── Segments on disk ──────────────────────────────────────────────────────────

proof fn lemma_zeros(n: nat, text: Seq<char>)
    requires
        digits(text),
    ensures
        digits(zeros(n) + text),
        number_of(zeros(n) + text) == number_of(text),
    decreases text.len(),
{
    let all = zeros(n) + text;
    assert forall|i: int| 0 <= i < all.len() implies is_digit(#[trigger] all[i]) by {
        if i >= n {
            assert(all[i] == text[i - n]);
        }
    }
    assert(all.drop_last() =~= zeros(n) + text.drop_last());
    assert(all.last() == text.last());
    if text.len() == 1 {
        assert(text.drop_last() =~= Seq::<char>::empty());
        assert(zeros(n) + text.drop_last() =~= zeros(n));
        lemma_zeros_are_nothing(n);
        assert(number_of(text.drop_last()) == 0);
        assert(number_of(all.drop_last()) == 0);
        assert(number_of(all) == (all.last() as int - '0' as int) as nat);
    } else {
        assert forall|i: int| 0 <= i < text.drop_last().len() implies is_digit(
            #[trigger] text.drop_last()[i],
        ) by {
            assert(text.drop_last()[i] == text[i]);
        }
        lemma_zeros(n, text.drop_last());
    }
}

proof fn lemma_zeros_are_nothing(n: nat)
    ensures
        number_of(zeros(n)) == 0,
    decreases n,
{
    if n > 0 {
        assert(zeros(n).drop_last() =~= zeros((n - 1) as nat));
        lemma_zeros_are_nothing((n - 1) as nat);
    }
}

/// A number that is filled up with zeros reads back, and has the width that was asked for unless it is longer.
pub proof fn law_padded_numbers_read_back(n: nat, width: nat)
    ensures
        digits(padded(n, width)),
        number_of(padded(n, width)) == n,
        padded(n, width).len() >= width,
        decimal(n).len() <= width ==> padded(n, width).len() == width,
{
    lemma_decimal_reads_back(n);
    if decimal(n).len() < width {
        lemma_zeros((width - decimal(n).len()) as nat, decimal(n));
    }
}

/// A segment is found again by the name that it was written under.
pub proof fn law_segment_names_read_back(n: u64, suffix: Seq<char>)
    requires
        decimal(n as nat).len() <= 16,
    ensures
        sequence_of(padded(n as nat, 16) + suffix, suffix) == Some(n as nat),
{
    let stem = padded(n as nat, 16);
    let name = stem + suffix;
    law_padded_numbers_read_back(n as nat, 16);
    assert(name.take(name.len() - suffix.len()) =~= stem);
    assert(name.skip(name.len() - suffix.len()) =~= suffix);
    assert(is_digit(stem[0]));
    lemma_ascii_len(stem);
}

proof fn lemma_ascii_len(s: Seq<char>)
    requires
        digits(s),
    ensures
        encode_utf8(s).len() == s.len(),
{
    assert(is_ascii_chars(s)) by {
        assert forall|i: int| 0 <= i < s.len() implies 0 <= #[trigger] s[i] as nat && (s[i] as nat) < 128 by {
            assert(is_digit(s[i]));
        }
    }
    is_ascii_chars_encode_utf8(s);
}

proof fn lemma_placed_holds(segments: Seq<(u64, Seq<char>)>, item: (u64, Seq<char>), x: (u64, Seq<char>))
    ensures
        placed(segments, item).contains(x) <==> segments.contains(x) || x == item,
    decreases segments.len(),
{
    if segments.len() > 0 && segments.last().0 > item.0 {
        lemma_placed_holds(segments.drop_last(), item, x);
        assert(segments =~= segments.drop_last().push(segments.last()));
        lemma_push_contains(segments.drop_last(), segments.last(), x);
        lemma_push_contains(placed(segments.drop_last(), item), segments.last(), x);
    } else {
        lemma_push_contains(segments, item, x);
    }
}

/// Every file that is named as a segment is listed with its number, and no other file is.
pub proof fn law_every_segment_is_listed(
    names: Seq<Seq<char>>,
    suffix: Seq<char>,
    segment: (u64, Seq<char>),
)
    ensures
        segments_of(names, suffix).contains(segment) <==> names.contains(segment.1) && sequence_of(
            segment.1,
            suffix,
        ) == Some(segment.0 as nat),
    decreases names.len(),
{
    if names.len() > 0 {
        let rest = names.drop_last();
        law_every_segment_is_listed(rest, suffix, segment);
        assert(names =~= rest.push(names.last()));
        lemma_push_contains(rest, names.last(), segment.1);
        if let Some(n) = sequence_of(names.last(), suffix) {
            lemma_placed_holds(segments_of(rest, suffix), (n as u64, names.last()), segment);
        }
    }
}

/// Segments are listed from the oldest to the newest.
pub proof fn law_segments_are_listed_in_order(names: Seq<Seq<char>>, suffix: Seq<char>, i: int, j: int)
    requires
        0 <= i <= j < segments_of(names, suffix).len(),
    ensures
        segments_of(names, suffix)[i].0 <= segments_of(names, suffix)[j].0,
    decreases names.len(),
{
    if names.len() > 0 {
        let rest = names.drop_last();
        let before = segments_of(rest, suffix);
        assert forall|a: int, b: int| 0 <= a <= b < before.len() implies (#[trigger] before[a]).0 <= (
        #[trigger] before[b]).0 by {
            law_segments_are_listed_in_order(rest, suffix, a, b);
        }
        if let Some(n) = sequence_of(names.last(), suffix) {
            lemma_placed_in_order(before, (n as u64, names.last()));
        }
    }
}

proof fn lemma_placed_in_order(segments: Seq<(u64, Seq<char>)>, item: (u64, Seq<char>))
    requires
        forall|a: int, b: int|
            0 <= a <= b < segments.len() ==> (#[trigger] segments[a]).0 <= (#[trigger] segments[b]).0,
    ensures
        forall|a: int, b: int|
            0 <= a <= b < placed(segments, item).len() ==> (#[trigger] placed(segments, item)[a]).0 <= (
            #[trigger] placed(segments, item)[b]).0,
    decreases segments.len(),
{
    let all = placed(segments, item);
    if segments.len() > 0 && segments.last().0 > item.0 {
        let rest = segments.drop_last();
        assert forall|a: int, b: int| 0 <= a <= b < rest.len() implies (#[trigger] rest[a]).0 <= (
        #[trigger] rest[b]).0 by {
            assert(segments[a].0 <= segments[b].0);
        }
        lemma_placed_in_order(rest, item);
        let inner = placed(rest, item);
        assert forall|a: int, b: int| 0 <= a <= b < all.len() implies (#[trigger] all[a]).0 <= (
        #[trigger] all[b]).0 by {
            if b < inner.len() {
                assert(inner[a].0 <= inner[b].0);
            } else if a < inner.len() {
                assert(inner.contains(inner[a]));
                lemma_placed_holds(rest, item, inner[a]);
                if inner[a] != item {
                    let k = choose|k: int| 0 <= k < rest.len() && rest[k] == inner[a];
                    assert(segments[k].0 <= segments[segments.len() - 1].0);
                }
            }
        }
    } else {
        assert forall|a: int, b: int| 0 <= a <= b < all.len() implies (#[trigger] all[a]).0 <= (
        #[trigger] all[b]).0 by {
            if b < segments.len() {
                assert(segments[a].0 <= segments[b].0);
            } else if a < segments.len() {
                assert(segments[a].0 <= segments[segments.len() - 1].0);
            }
        }
    }
}

/// A place is accepted only within a segment that is there, at the end of a whole record of it or at its start.
pub proof fn law_checkpoints_stand_between_records(
    payloads: Seq<Seq<u8>>,
    k: int,
    cursor: WalCursor,
    max: int,
    verdicts: Seq<PayloadVerdict>,
)
    requires
        recordable(payloads, max),
        all_batches(verdicts, payloads.len() as int),
        0 <= k <= payloads.len(),
        cursor.byte_offset == frames(payloads.take(k)).len(),
    ensures
        cursor_checked(true, cursor, frames(payloads), max, verdicts) == Ok::<int, WalFault>(
            frames(payloads).len() as int,
        ),
        cursor_checked(false, cursor, frames(payloads), max, verdicts) is Err,
{
    law_whole_segment(payloads, cursor.segment, max, false, verdicts);
    let after = lemma_frames_split(payloads, k);
    lemma_boundary(payloads, 0, k, max);
    assert(payloads.take(0).len() == 0);
    assert(frames(payloads.take(0)) =~= Seq::<u8>::empty());
}

proof fn lemma_boundary(payloads: Seq<Seq<u8>>, i: int, k: int, max: int)
    requires
        recordable(payloads, max),
        0 <= i <= k <= payloads.len(),
    ensures
        boundary_from(
            frames(payloads),
            frames(payloads.take(i)).len() as int,
            frames(payloads.take(k)).len() as int,
            max,
        ),
    decreases k - i,
{
    if i < k {
        lemma_boundary(payloads, i + 1, k, max);
        let p = payloads[i];
        assert(payloads.take(i + 1).drop_last() =~= payloads.take(i));
        assert(payloads.take(i + 1).last() == p);
        let after = lemma_frames_split(payloads, i + 1);
        assert(frames(payloads) =~= frames(payloads.take(i)) + frame(p) + after);
        law_read_back(frames(payloads.take(i)), p, after, max);
        let between = lemma_frames_split(payloads.take(k), i + 1);
        assert(payloads.take(k).take(i + 1) =~= payloads.take(i + 1));
    }
}

proof fn lemma_no_gap(all: Seq<u64>, i: int)
    requires
        0 <= i,
        forall|j: int| 0 <= j < all.len() ==> (#[trigger] all[j]) == all[0] + j,
    ensures
        gap_from(all, i) is None,
    decreases all.len() - i,
{
    if i + 1 < all.len() {
        assert(all[i] == all[0] + i);
        assert(all[i + 1] == all[0] + i + 1);
        lemma_no_gap(all, i + 1);
    }
}

/// Segments that follow each other without a gap, with the active one as the newest, are opened.
pub proof fn law_whole_logs_are_opened(sealed: Seq<u64>, newest: u64)
    requires
        sealed.len() > 0 ==> sealed[0] > 0,
        forall|j: int| 0 <= j < sealed.len() ==> (#[trigger] sealed[j]) == sealed[0] + j,
        newest > 0,
        sealed.len() > 0 ==> newest == sealed[0] + sealed.len(),
    ensures
        layout_fault(sealed, Seq::empty()) is None,
        layout_fault(sealed, seq![newest]) is None,
{
    let all = sealed.push(newest);
    if sealed.len() > 0 {
        assert(sealed[sealed.len() - 1] == sealed[0] + sealed.len() - 1);
    }
    assert(inserted(sealed, newest) == all);
    assert forall|j: int| 0 <= j < all.len() implies (#[trigger] all[j]) == all[0] + j by {
        if j < sealed.len() {
            assert(all[j] == sealed[j]);
            assert(all[0] == sealed[0]);
        }
    }
    lemma_no_gap(sealed, 0);
    lemma_no_gap(all, 0);
}

} // verus!
