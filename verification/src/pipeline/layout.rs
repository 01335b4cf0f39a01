//! The segments of a log directory: their names, their order, and what a cursor or a checkpoint says
//! of them.
use vstd::prelude::*;
use vstd::string::*;
use vstd::utf8::encode_utf8;

use crate::pipeline::wal::{
    corrupt, frame_at, framed_len, read_frame, scan_segment, scanned, Frame, FrameAt,
    PayloadVerdict, WalCursor, WalError, WalFault, OPEN_SUFFIX, SEALED_SUFFIX,
};
use crate::text::{byte_len, chars_of, decimal, decimal_text, digits, digits_from, ends_with, has_suffix, number_of, string_of};

verus! {

// ── Names ─────────────────────────────────────────────────────────────────────

/// A decimal number of at least `width` digits.
pub open spec fn padded(n: nat, width: nat) -> Seq<char> {
    let text = decimal(n);
    if text.len() >= width {
        text
    } else {
        zeros((width - text.len()) as nat) + text
    }
}

/// A run of zeros.
pub open spec fn zeros(n: nat) -> Seq<char> {
    Seq::new(n, |i: int| '0')
}

/// Renders a number with leading zeros.
pub fn padded_text(n: u64, width: usize) -> (r: String)
    ensures
        r@ == padded(n as nat, width as nat),
{
    let text = decimal_text(n);
    let count: usize = chars_of(text.as_str()).len();
    let mut out = String::new();
    if count < width {
        let missing: usize = width - count;
        let mut i: usize = 0;
        assert(out@ =~= zeros(0));
        while i < missing
            invariant
                i <= missing,
                out@ == zeros(i as nat),
            decreases missing - i,
        {
            out.push('0');
            i += 1;
            assert(out@ =~= zeros(i as nat));
        }
    }
    out.append(text.as_str());
    assert(out@ =~= padded(n as nat, width as nat));
    out
}

/// The name of the segment that is written to.
pub fn active_path(sequence: u64) -> (r: String)
    ensures
        r@ == padded(sequence as nat, 16) + OPEN_SUFFIX@,
{
    let mut out = padded_text(sequence, 16);
    out.append(OPEN_SUFFIX);
    out
}

/// The name of an immutable segment.
pub fn sealed_path(sequence: u64) -> (r: String)
    ensures
        r@ == padded(sequence as nat, 16) + SEALED_SUFFIX@,
{
    let mut out = padded_text(sequence, 16);
    out.append(SEALED_SUFFIX);
    out
}

/// The unsigned number that a text stands for: an optional plus sign and decimal digits.
pub open spec fn unsigned_of(s: Seq<char>) -> Option<nat> {
    let body = if s.len() > 0 && s[0] == '+' {
        s.skip(1)
    } else {
        s
    };
    if digits(body) && number_of(body) <= u64::MAX {
        Some(number_of(body))
    } else {
        None
    }
}

/// The sequence number that a file name carries: sixteen bytes that are a number, and the suffix.
pub open spec fn sequence_of(name: Seq<char>, suffix: Seq<char>) -> Option<nat> {
    if !has_suffix(name, suffix) {
        None
    } else {
        let stem = name.take(name.len() - suffix.len());
        if encode_utf8(stem).len() == 16 {
            unsigned_of(stem)
        } else {
            None
        }
    }
}

/// Reads the sequence number out of a file name.
pub fn parse_sequence(name: &str, suffix: &str) -> (r: Option<u64>)
    ensures
        match sequence_of(name@, suffix@) {
            Some(n) => r matches Some(v) && v == n,
            None => r is None,
        },
{
    if !ends_with(name, suffix) {
        return None;
    }
    let all = chars_of(name);
    let tail = chars_of(suffix);
    let stem = string_of(&all, 0, all.len() - tail.len());
    assert(stem@ =~= name@.take(name@.len() - suffix@.len()));
    if byte_len(stem.as_str()) != 16 {
        return None;
    }
    let chars = chars_of(stem.as_str());
    let from: usize = if chars.len() > 0 && chars[0] == '+' {
        1
    } else {
        0
    };
    assert(chars@.skip(0) =~= chars@);
    digits_from(&chars, from)
}

/// A segment and its file name.
pub type Segment = (u64, String);

/// The segments with one more, behind all that are not above it.
pub open spec fn placed(segments: Seq<(u64, Seq<char>)>, item: (u64, Seq<char>)) -> Seq<
    (u64, Seq<char>),
>
    decreases segments.len(),
{
    if segments.len() > 0 && segments.last().0 > item.0 {
        placed(segments.drop_last(), item).push(segments.last())
    } else {
        segments.push(item)
    }
}

/// The segments among file names that have a suffix, in order of sequence.
pub open spec fn segments_of(names: Seq<Seq<char>>, suffix: Seq<char>) -> Seq<(u64, Seq<char>)>
    decreases names.len(),
{
    if names.len() == 0 {
        Seq::empty()
    } else {
        let before = segments_of(names.drop_last(), suffix);
        match sequence_of(names.last(), suffix) {
            Some(n) => placed(before, (n as u64, names.last())),
            None => before,
        }
    }
}

/// The views of segments.
pub open spec fn segment_views(segments: Seq<(u64, String)>) -> Seq<(u64, Seq<char>)> {
    segments.map_values(|s: (u64, String)| (s.0, s.1@))
}

/// The views of names.
pub open spec fn name_views(names: Seq<String>) -> Seq<Seq<char>> {
    names.map_values(|s: String| s@)
}

fn place(segments: &mut Vec<(u64, String)>, item: (u64, String))
    ensures
        segment_views(final(segments)@) == placed(
            segment_views(old(segments)@),
            (item.0, item.1@),
        ),
{
    let ghost before = segment_views(segments@);
    let ghost all = segments@;
    let ghost view = (item.0, item.1@);
    let mut i: usize = segments.len();
    assert(before.take(before.len() as int) =~= before);
    assert(before.skip(before.len() as int) =~= Seq::<(u64, Seq<char>)>::empty());
    assert(placed(before, view) =~= placed(before, view) + before.skip(before.len() as int));
    while i > 0 && segments[i - 1].0 > item.0
        invariant
            i <= segments.len(),
            segments@ == all,
            before == segment_views(all),
            view == (item.0, item.1@),
            placed(before, view) == placed(before.take(i as int), view) + before.skip(i as int),
        decreases i,
    {
        let ghost here = before.take(i as int);
        assert(here.drop_last() =~= before.take(i - 1));
        assert(here.last() == before[i - 1]);
        assert(placed(here, view) == placed(before.take(i - 1), view).push(before[i - 1]));
        assert(before.skip(i - 1) =~= seq![before[i - 1]] + before.skip(i as int));
        assert(placed(before.take(i - 1), view).push(before[i - 1]) + before.skip(i as int)
            =~= placed(before.take(i - 1), view) + before.skip(i - 1));
        i -= 1;
    }
    proof {
        let here = before.take(i as int);
        if i > 0 {
            assert(here.last() == before[i - 1]);
        }
        assert(placed(here, view) == here.push(view));
    }
    segments.insert(i, item);
    assert(segment_views(segments@) =~= before.take(i as int).push(view) + before.skip(i as int));
}

/// Lists the segments among the file names of a directory that have a suffix, in order of sequence.
pub fn list_segments(names: &Vec<String>, suffix: &str) -> (r: Vec<(u64, String)>)
    ensures
        segment_views(r@) == segments_of(name_views(names@), suffix@),
{
    let ghost views = name_views(names@);
    let mut out: Vec<(u64, String)> = Vec::new();
    let mut i: usize = 0;
    assert(views.take(0) =~= Seq::<Seq<char>>::empty());
    assert(segment_views(out@) =~= Seq::<(u64, Seq<char>)>::empty());
    while i < names.len()
        invariant
            i <= names.len(),
            views == name_views(names@),
            segment_views(out@) == segments_of(views.take(i as int), suffix@),
        decreases names.len() - i,
    {
        assert(views.take(i + 1).drop_last() =~= views.take(i as int));
        assert(views.take(i + 1).last() == names@[i as int]@);
        if let Some(sequence) = parse_sequence(names[i].as_str(), suffix) {
            place(&mut out, (sequence, names[i].clone()));
        }
        i += 1;
    }
    assert(views.take(names.len() as int) =~= views);
    out
}

// ── Layout ────────────────────────────────────────────────────────────────────

/// The segments of a directory.
pub struct SegmentLayout {
    pub sealed: Vec<(u64, String)>,
    pub active: Option<(u64, String)>,
}

/// The sequence numbers of segments.
pub open spec fn sequences(segments: Seq<(u64, Seq<char>)>) -> Seq<u64> {
    segments.map_values(|s: (u64, Seq<char>)| s.0)
}

/// Sequence numbers with one more, behind all that are not above it.
pub open spec fn inserted(all: Seq<u64>, n: u64) -> Seq<u64>
    decreases all.len(),
{
    if all.len() > 0 && all.last() > n {
        inserted(all.drop_last(), n).push(all.last())
    } else {
        all.push(n)
    }
}

/// The first place from `i` on where neighbours are not consecutive, and what is wrong there.
pub open spec fn gap_from(all: Seq<u64>, i: int) -> Option<WalFault>
    decreases all.len() - i,
{
    if i + 1 >= all.len() {
        None
    } else if all[i] == u64::MAX {
        Some(corrupt(all[i], 0, "segment sequence overflow"@))
    } else if all[i + 1] == all[i] {
        Some(corrupt(all[i + 1], 0, "duplicate segment sequence"@))
    } else if all[i + 1] != all[i] + 1 {
        Some(corrupt(all[i + 1], 0, "missing WAL segment before this sequence"@))
    } else {
        gap_from(all, i + 1)
    }
}

/// What is wrong with sealed segments and active ones, if anything.
pub open spec fn layout_fault(sealed: Seq<u64>, active: Seq<u64>) -> Option<WalFault> {
    if active.len() > 1 {
        Some(corrupt(0, 0, "multiple active segments"@))
    } else {
        let all = if active.len() == 1 {
            inserted(sealed, active[0])
        } else {
            sealed
        };
        if all.len() > 0 && all[0] == 0 {
            Some(corrupt(0, 0, "segment sequence must be positive"@))
        } else {
            match gap_from(all, 0) {
                Some(fault) => Some(fault),
                None => if active.len() == 1 && active[0] != all.last() {
                    Some(corrupt(active[0], 0, "active segment is not newest"@))
                } else {
                    None
                },
            }
        }
    }
}

fn insert_sequence(all: &mut Vec<u64>, n: u64)
    ensures
        final(all)@ == inserted(old(all)@, n),
{
    let ghost before = all@;
    let mut i: usize = all.len();
    assert(before.take(before.len() as int) =~= before);
    assert(inserted(before, n) =~= inserted(before, n) + before.skip(before.len() as int));
    while i > 0 && all[i - 1] > n
        invariant
            i <= all.len(),
            all@ == before,
            inserted(before, n) == inserted(before.take(i as int), n) + before.skip(i as int),
        decreases i,
    {
        let ghost here = before.take(i as int);
        assert(here.drop_last() =~= before.take(i - 1));
        assert(before.skip(i - 1) =~= seq![before[i - 1]] + before.skip(i as int));
        assert(inserted(before.take(i - 1), n).push(before[i - 1]) + before.skip(i as int)
            =~= inserted(before.take(i - 1), n) + before.skip(i - 1));
        i -= 1;
    }
    proof {
        let here = before.take(i as int);
        if i > 0 {
            assert(here.last() == before[i - 1]);
        }
        assert(inserted(here, n) == here.push(n));
    }
    all.insert(i, n);
    assert(all@ =~= before.take(i as int).push(n) + before.skip(i as int));
}

/// The sequence numbers of listed segments.
pub fn sequence_numbers(segments: &Vec<(u64, String)>) -> (r: Vec<u64>)
    ensures
        r@ == sequences(segment_views(segments@)),
{
    let mut out: Vec<u64> = Vec::new();
    let mut i: usize = 0;
    while i < segments.len()
        invariant
            i <= segments.len(),
            out@ == sequences(segment_views(segments@)).take(i as int),
        decreases segments.len() - i,
    {
        out.push(segments[i].0);
        i += 1;
        assert(out@ =~= sequences(segment_views(segments@)).take(i as int));
    }
    assert(out@ =~= sequences(segment_views(segments@)));
    out
}

fn corruption_at(segment: u64, byte_offset: u64, reason: &'static str) -> (r: WalError)
    ensures
        r@ == corrupt(segment, byte_offset as int, reason@),
{
    WalError::Corruption { segment, byte_offset, reason }
}

/// Takes stock of a directory and rejects any ambiguity before a caller reads, repairs or removes a
/// segment. The first sequence may be above one once a prefix has been reclaimed; every sequence after
/// it is the next.
pub fn discover_segment_layout(names: &Vec<String>) -> (r: Result<SegmentLayout, WalError>)
    ensures
        ({
            let sealed = segments_of(name_views(names@), SEALED_SUFFIX@);
            let active = segments_of(name_views(names@), OPEN_SUFFIX@);
            match layout_fault(sequences(sealed), sequences(active)) {
                Some(fault) => r matches Err(e) && e@ == fault,
                None => r matches Ok(layout) && segment_views(layout.sealed@) == sealed && (
                match layout.active {
                    Some(s) => active.len() == 1 && active[0] == (s.0, s.1@),
                    None => active.len() == 0,
                }),
            }
        }),
{
    let sealed = list_segments(names, SEALED_SUFFIX);
    let mut open = list_segments(names, OPEN_SUFFIX);
    let ghost sealed_view = segment_views(sealed@);
    let ghost open_view = segment_views(open@);
    let ghost fault = layout_fault(sequences(sealed_view), sequences(open_view));
    if open.len() > 1 {
        return Err(corruption_at(0, 0, "multiple active segments"));
    }
    let mut all = sequence_numbers(&sealed);
    let active: Option<(u64, String)> = open.pop();
    if let Some(segment) = &active {
        assert(sequences(open_view)[0] == segment.0);
        insert_sequence(&mut all, segment.0);
        proof {
            lemma_inserted_len(sequences(sealed_view), segment.0);
        }
    }
    if all.len() > 0 && all[0] == 0 {
        return Err(corruption_at(0, 0, "segment sequence must be positive"));
    }
    let mut i: usize = 0;
    while all.len() - i > 1
        invariant
            i <= all.len(),
            gap_from(all@, 0) == gap_from(all@, i as int),
            fault == layout_fault(sequences(sealed_view), sequences(open_view)),
            sealed_view == segments_of(name_views(names@), SEALED_SUFFIX@),
            open_view == segments_of(name_views(names@), OPEN_SUFFIX@),
            gap_from(all@, 0) is Some ==> fault == gap_from(all@, 0),
        decreases all.len() - i,
    {
        let previous: u64 = all[i];
        let current: u64 = all[i + 1];
        if previous == u64::MAX {
            return Err(corruption_at(previous, 0, "segment sequence overflow"));
        }
        if current == previous {
            return Err(corruption_at(current, 0, "duplicate segment sequence"));
        }
        if current != previous + 1 {
            return Err(corruption_at(current, 0, "missing WAL segment before this sequence"));
        }
        i += 1;
    }
    if let Some(segment) = &active {
        if all[all.len() - 1] != segment.0 {
            return Err(corruption_at(segment.0, 0, "active segment is not newest"));
        }
    }
    Ok(SegmentLayout { sealed, active })
}

proof fn lemma_inserted_len(all: Seq<u64>, n: u64)
    ensures
        inserted(all, n).len() == all.len() + 1,
    decreases all.len(),
{
    if all.len() > 0 && all.last() > n {
        lemma_inserted_len(all.drop_last(), n);
    }
}

/// Sequence numbers are consecutive, start above zero, and the active one, if any, is the last.
pub open spec fn contiguous(all: Seq<u64>) -> bool {
    &&& all.len() > 0 ==> all[0] > 0
    &&& forall|i: int| 0 <= i < all.len() ==> #[trigger] all[i] == all[0] + i
}

proof fn lemma_no_gap(all: Seq<u64>, i: int)
    requires
        0 <= i,
        gap_from(all, i) is None,
    ensures
        forall|j: int| i <= j < all.len() ==> #[trigger] all[j] == all[i] + (j - i),
    decreases all.len() - i,
{
    if i + 1 < all.len() {
        lemma_no_gap(all, i + 1);
    }
}

/// An accepted layout has no gap and no duplicate, and its active segment is the newest.
pub proof fn law_layout_is_contiguous(sealed: Seq<u64>, active: Seq<u64>)
    requires
        layout_fault(sealed, active) is None,
    ensures
        active.len() == 0 ==> contiguous(sealed),
        active.len() == 1 ==> contiguous(inserted(sealed, active[0])) && inserted(
            sealed,
            active[0],
        ).last() == active[0],
        active.len() <= 1,
{
    if active.len() == 1 {
        lemma_inserted_len(sealed, active[0]);
        lemma_no_gap(inserted(sealed, active[0]), 0);
    } else {
        lemma_no_gap(sealed, 0);
    }
}

// ── Cursors ───────────────────────────────────────────────────────────────────

/// Whether a segment is among the sealed ones or is the active one.
pub open spec fn has_segment(layout: SegmentLayout, segment: u64) -> bool {
    ||| exists|i: int| 0 <= i < layout.sealed.len() && (#[trigger] layout.sealed@[i]).0 == segment
    ||| layout.active matches Some(s) && s.0 == segment
}

/// The name of the file that holds a cursor's segment.
pub fn cursor_file(layout: &SegmentLayout, cursor: WalCursor) -> (r: Result<&String, WalError>)
    ensures
        match r {
            Ok(name) => {
                ||| exists|i: int|
                    0 <= i < layout.sealed.len() && (#[trigger] layout.sealed@[i]).0
                        == cursor.segment && layout.sealed@[i].1 == *name
                ||| layout.active matches Some(s) && s.0 == cursor.segment && s.1 == *name
            },
            Err(e) => !has_segment(*layout, cursor.segment) && e@ == corrupt(
                cursor.segment,
                cursor.byte_offset as int,
                "cursor segment does not exist"@,
            ),
        },
{
    let mut i: usize = 0;
    while i < layout.sealed.len()
        invariant
            i <= layout.sealed.len(),
            forall|j: int| 0 <= j < i ==> (#[trigger] layout.sealed@[j]).0 != cursor.segment,
        decreases layout.sealed.len() - i,
    {
        if layout.sealed[i].0 == cursor.segment {
            return Ok(&layout.sealed[i].1);
        }
        i += 1;
    }
    if let Some(segment) = &layout.active {
        if segment.0 == cursor.segment {
            return Ok(&segment.1);
        }
    }
    Err(corruption_at(cursor.segment, cursor.byte_offset, "cursor segment does not exist"))
}

/// Whether a position is the start or the end of a record, counted from a position that is.
pub open spec fn boundary_from(bytes: Seq<u8>, at: int, target: int, max: int) -> bool
    decreases bytes.len() - at,
    when at >= 0
{
    at == target || (match frame_at(bytes, at, max) {
        FrameAt::Whole(payload) => at < target && boundary_from(
            bytes,
            at + framed_len(payload),
            target,
            max,
        ),
        _ => false,
    })
}

/// Whether a position lies on a record boundary of a segment that has been validated.
pub fn is_record_boundary(
    bytes: &[u8],
    sequence: u64,
    target: u64,
    max_record_bytes: usize,
    verdicts: &Vec<PayloadVerdict>,
) -> (r: bool)
    requires
        scanned(bytes@, 0, 0, sequence, max_record_bytes as int, false, verdicts@) is Ok,
        target <= bytes.len(),
    ensures
        r == boundary_from(bytes@, 0, target as int, max_record_bytes as int),
{
    let ghost max = max_record_bytes as int;
    let mut at: usize = 0;
    let ghost mut k: int = 0;
    while (at as u64) < target
        invariant
            at <= bytes.len(),
            max == max_record_bytes,
            target <= bytes.len(),
            scanned(bytes@, at as int, k, sequence, max, false, verdicts@) is Ok,
            boundary_from(bytes@, 0, target as int, max) == boundary_from(
                bytes@,
                at as int,
                target as int,
                max,
            ),
        decreases bytes.len() - at,
    {
        match read_frame(bytes, at, sequence, max_record_bytes) {
            Ok(Frame::Whole(payload)) => {
                at = at + 16 + payload.len();
                proof {
                    k = k + 1;
                }
            },
            _ => {
                return false;
            },
        }
    }
    at as u64 == target
}

/// What is wrong with a cursor into a segment, or how long the segment is.
pub open spec fn cursor_checked(
    known: bool,
    cursor: WalCursor,
    bytes: Seq<u8>,
    max: int,
    verdicts: Seq<PayloadVerdict>,
) -> Result<int, WalFault> {
    if !known {
        Err(
            corrupt(
                cursor.segment,
                cursor.byte_offset as int,
                "cursor segment does not exist"@,
            ),
        )
    } else {
        match scanned(bytes, 0, 0, cursor.segment, max, false, verdicts) {
            Err(e) => Err(e),
            Ok((valid, _)) => if cursor.byte_offset > valid {
                Err(
                    corrupt(
                        cursor.segment,
                        cursor.byte_offset as int,
                        "cursor is beyond segment EOF"@,
                    ),
                )
            } else if !boundary_from(bytes, 0, cursor.byte_offset as int, max) {
                Err(
                    corrupt(
                        cursor.segment,
                        cursor.byte_offset as int,
                        "cursor is not on a record boundary"@,
                    ),
                )
            } else {
                Ok(valid)
            },
        }
    }
}

/// Checks a cursor against the bytes of its segment, and returns the segment's length. `verdicts` says
/// what decoding each payload of the segment gave.
pub fn validate_cursor(
    layout: &SegmentLayout,
    cursor: WalCursor,
    bytes: &[u8],
    max_record_bytes: usize,
    verdicts: &Vec<PayloadVerdict>,
) -> (r: Result<u64, WalError>)
    ensures
        match cursor_checked(
            has_segment(*layout, cursor.segment),
            cursor,
            bytes@,
            max_record_bytes as int,
            verdicts@,
        ) {
            Ok(valid) => r matches Ok(v) && v == valid,
            Err(e) => r matches Err(f) && f@ == e,
        },
{
    match cursor_file(layout, cursor) {
        Ok(_) => {},
        Err(e) => {
            return Err(e);
        },
    }
    assert(has_segment(*layout, cursor.segment));
    let scan = match scan_segment(bytes, cursor.segment, max_record_bytes, false, verdicts) {
        Ok(scan) => scan,
        Err(e) => {
            return Err(e);
        },
    };
    if cursor.byte_offset > scan.valid_bytes {
        return Err(
            corruption_at(cursor.segment, cursor.byte_offset, "cursor is beyond segment EOF"),
        );
    }
    if !is_record_boundary(bytes, cursor.segment, cursor.byte_offset, max_record_bytes, verdicts) {
        return Err(
            corruption_at(
                cursor.segment,
                cursor.byte_offset,
                "cursor is not on a record boundary",
            ),
        );
    }
    Ok(scan.valid_bytes)
}

// ── Reclamation ───────────────────────────────────────────────────────────────

/// Whether a committed checkpoint covers a whole sealed segment.
pub open spec fn covered(sequence: u64, checkpoint: WalCursor, valid_bytes: u64) -> bool {
    sequence < checkpoint.segment || (sequence == checkpoint.segment && checkpoint.byte_offset
        == valid_bytes)
}

/// The sealed segments that a checkpoint covers, in order.
pub open spec fn reclaimed(sealed: Seq<u64>, checkpoint: WalCursor, valid_bytes: u64) -> Seq<u64>
    decreases sealed.len(),
{
    if sealed.len() == 0 {
        Seq::empty()
    } else {
        let before = reclaimed(sealed.drop_last(), checkpoint, valid_bytes);
        if covered(sealed.last(), checkpoint, valid_bytes) {
            before.push(sealed.last())
        } else {
            before
        }
    }
}

/// Selects the sealed segments that a checkpoint covers. The checkpoint's own segment counts only when
/// the checkpoint is exactly its end.
pub fn reclaim_through(layout: &SegmentLayout, checkpoint: WalCursor, valid_bytes: u64) -> (r: Vec<
    u64,
>)
    ensures
        r@ == reclaimed(sequences(segment_views(layout.sealed@)), checkpoint, valid_bytes),
{
    let all = sequence_numbers(&layout.sealed);
    let mut out: Vec<u64> = Vec::new();
    let mut i: usize = 0;
    assert(all@.take(0) =~= Seq::<u64>::empty());
    while i < all.len()
        invariant
            i <= all.len(),
            out@ == reclaimed(all@.take(i as int), checkpoint, valid_bytes),
        decreases all.len() - i,
    {
        assert(all@.take(i + 1).drop_last() =~= all@.take(i as int));
        let sequence: u64 = all[i];
        if sequence < checkpoint.segment || (sequence == checkpoint.segment
            && checkpoint.byte_offset == valid_bytes) {
            out.push(sequence);
        }
        i += 1;
    }
    assert(all@.take(all.len() as int) =~= all@);
    out
}

/// Reclamation removes covered segments only, so it never removes one with unread bytes, and it removes
/// every covered one.
pub proof fn law_reclaims_exactly_what_is_covered(
    sealed: Seq<u64>,
    checkpoint: WalCursor,
    valid_bytes: u64,
    sequence: u64,
)
    ensures
        reclaimed(sealed, checkpoint, valid_bytes).contains(sequence) <==> sealed.contains(sequence) && (
        sequence < checkpoint.segment || (sequence == checkpoint.segment && checkpoint.byte_offset
            == valid_bytes)),
    decreases sealed.len(),
{
    if sealed.len() > 0 {
        let shorter = sealed.drop_last();
        let before = reclaimed(shorter, checkpoint, valid_bytes);
        let all = reclaimed(sealed, checkpoint, valid_bytes);
        law_reclaims_exactly_what_is_covered(shorter, checkpoint, valid_bytes, sequence);
        assert(sealed.contains(sequence) <==> shorter.contains(sequence) || sealed.last()
            == sequence) by {
            if shorter.contains(sequence) {
                let i = choose|i: int| 0 <= i < shorter.len() && shorter[i] == sequence;
                assert(sealed[i] == sequence);
            }
            if sealed.last() == sequence {
                assert(sealed[sealed.len() - 1] == sequence);
            }
            if sealed.contains(sequence) {
                let i = choose|i: int| 0 <= i < sealed.len() && sealed[i] == sequence;
                if i < shorter.len() {
                    assert(shorter[i] == sequence);
                }
            }
        }
        if covered(sealed.last(), checkpoint, valid_bytes) {
            assert(all == before.push(sealed.last()));
            assert(all.contains(sequence) <==> before.contains(sequence) || sealed.last()
                == sequence) by {
                if before.contains(sequence) {
                    let i = choose|i: int| 0 <= i < before.len() && before[i] == sequence;
                    assert(all[i] == sequence);
                }
                if sealed.last() == sequence {
                    assert(all[all.len() - 1] == sequence);
                }
                if all.contains(sequence) {
                    let i = choose|i: int| 0 <= i < all.len() && all[i] == sequence;
                    if i < before.len() {
                        assert(before[i] == sequence);
                    }
                }
            }
        }
    }
}

/// A checkpoint inside a segment never reclaims that segment.
pub proof fn law_partial_checkpoint_keeps_its_segment(
    sealed: Seq<u64>,
    checkpoint: WalCursor,
    valid_bytes: u64,
)
    requires
        checkpoint.byte_offset < valid_bytes,
    ensures
        !reclaimed(sealed, checkpoint, valid_bytes).contains(checkpoint.segment),
{
    law_reclaims_exactly_what_is_covered(sealed, checkpoint, valid_bytes, checkpoint.segment);
}

} // verus!
