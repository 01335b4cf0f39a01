//! What reading the files on disk, and counting what passes, does.
use crate::file_index::{
    day_rows, disk_rows, token_rows, top_rows, DayDirectory, FoundFile, IndexedModel, TopEntry,
};
use crate::metrics::{counted, metric_text, rendered_metrics, Metrics};
use crate::rows::lemma_push_contains;
use crate::text::{decimal, has_suffix};
use vstd::prelude::*;

verus! {

proof fn lemma_in_sum<T>(a: Seq<T>, b: Seq<T>, x: T)
    ensures
        (a + b).contains(x) <==> a.contains(x) || b.contains(x),
{
    if a.contains(x) {
        let k = choose|k: int| 0 <= k < a.len() && a[k] == x;
        assert((a + b)[k] == x);
    }
    if b.contains(x) {
        let k = choose|k: int| 0 <= k < b.len() && b[k] == x;
        assert((a + b)[a.len() + k] == x);
    }
    if (a + b).contains(x) {
        let k = choose|k: int| 0 <= k < (a + b).len() && (a + b)[k] == x;
        if k < a.len() {
            assert(a[k] == x);
        } else {
            assert(b[k - a.len()] == x);
        }
    }
}

proof fn lemma_suffixed(stem: Seq<char>, suffix: Seq<char>)
    ensures
        has_suffix(stem + suffix, suffix),
{
    let s = stem + suffix;
    assert(s.skip(s.len() - suffix.len()) =~= suffix);
    assert(s.subrange(s.len() - suffix.len(), s.len() as int) =~= suffix);
}

/// The event files of a day are indexed one after the other, each at most once.
pub proof fn law_days_are_read_file_by_file(
    files: Seq<FoundFile>,
    more: Seq<FoundFile>,
    token: Seq<char>,
    date: Seq<char>,
)
    ensures
        day_rows(files + more, token, date) == day_rows(files, token, date) + day_rows(more, token, date),
        files.len() <= 1 ==> day_rows(files, token, date).len() <= files.len(),
    decreases more.len(),
{
    if more.len() == 0 {
        assert(files + more =~= files);
        assert(day_rows(files, token, date) + day_rows(more, token, date) =~= day_rows(
            files,
            token,
            date,
        ));
    } else {
        law_days_are_read_file_by_file(files, more.drop_last(), token, date);
        assert((files + more).drop_last() =~= files + more.drop_last());
        assert((files + more).last() == more.last());
        assert(day_rows(files + more, token, date) =~= day_rows(files, token, date) + day_rows(
            more,
            token,
            date,
        ));
    }
    if files.len() == 1 {
        assert(files.drop_last() =~= Seq::empty());
        assert(day_rows(files.drop_last(), token, date).len() == 0);
    }
}

/// What two listings hold together is what each of them holds, one after the other.
pub proof fn law_listings_add_up(entries: Seq<TopEntry>, more: Seq<TopEntry>)
    ensures
        disk_rows(entries + more) == disk_rows(entries) + disk_rows(more),
    decreases more.len(),
{
    if more.len() == 0 {
        assert(entries + more =~= entries);
        assert(disk_rows(entries) + disk_rows(more) =~= disk_rows(entries));
    } else {
        law_listings_add_up(entries, more.drop_last());
        assert((entries + more).drop_last() =~= entries + more.drop_last());
        assert((entries + more).last() == more.last());
        assert(disk_rows(entries + more) =~= disk_rows(entries) + disk_rows(more));
    }
}

proof fn lemma_day_holds(files: Seq<FoundFile>, token: Seq<char>, date: Seq<char>, f: int)
    requires
        0 <= f < files.len(),
        has_suffix(files[f].name@, ".parquet"@),
    ensures
        day_rows(files, token, date).contains(IndexedModel { token, date, path: files[f].path@ }),
    decreases files.len(),
{
    let row = IndexedModel { token, date, path: files[f].path@ };
    let before = day_rows(files.drop_last(), token, date);
    if f < files.len() - 1 {
        lemma_day_holds(files.drop_last(), token, date, f);
    }
    lemma_push_contains(
        before,
        IndexedModel { token, date, path: files.last().path@ },
        row,
    );
}

proof fn lemma_day_holds_only(
    files: Seq<FoundFile>,
    token: Seq<char>,
    date: Seq<char>,
    row: IndexedModel,
) -> (f: int)
    requires
        day_rows(files, token, date).contains(row),
    ensures
        0 <= f < files.len(),
        has_suffix(files[f].name@, ".parquet"@),
        row == (IndexedModel { token, date, path: files[f].path@ }),
    decreases files.len(),
{
    let before = day_rows(files.drop_last(), token, date);
    if files.len() == 0 {
        0
    } else if before.contains(row) {
        lemma_day_holds_only(files.drop_last(), token, date, row)
    } else {
        lemma_push_contains(
            before,
            IndexedModel { token, date, path: files.last().path@ },
            row,
        );
        files.len() - 1
    }
}

proof fn lemma_token_holds(days: Seq<DayDirectory>, token: Seq<char>, d: int, row: IndexedModel)
    requires
        0 <= d < days.len(),
        days[d].files is Some,
        day_rows(days[d].files->Some_0@, token, days[d].name@).contains(row),
    ensures
        token_rows(days, token).contains(row),
    decreases days.len(),
{
    let last = match days.last().files {
        Some(files) => day_rows(files@, token, days.last().name@),
        None => Seq::empty(),
    };
    if d < days.len() - 1 {
        lemma_token_holds(days.drop_last(), token, d, row);
    }
    lemma_in_sum(token_rows(days.drop_last(), token), last, row);
}

proof fn lemma_token_holds_only(days: Seq<DayDirectory>, token: Seq<char>, row: IndexedModel) -> (d:
    int)
    requires
        token_rows(days, token).contains(row),
    ensures
        0 <= d < days.len(),
        days[d].files is Some,
        day_rows(days[d].files->Some_0@, token, days[d].name@).contains(row),
    decreases days.len(),
{
    if days.len() == 0 {
        0
    } else {
        let last = match days.last().files {
            Some(files) => day_rows(files@, token, days.last().name@),
            None => Seq::empty(),
        };
        lemma_in_sum(token_rows(days.drop_last(), token), last, row);
        if token_rows(days.drop_last(), token).contains(row) {
            lemma_token_holds_only(days.drop_last(), token, row)
        } else {
            days.len() - 1
        }
    }
}

proof fn lemma_disk_holds(entries: Seq<TopEntry>, i: int, row: IndexedModel)
    requires
        0 <= i < entries.len(),
        top_rows(entries[i]).contains(row),
    ensures
        disk_rows(entries).contains(row),
    decreases entries.len(),
{
    if i < entries.len() - 1 {
        lemma_disk_holds(entries.drop_last(), i, row);
    }
    lemma_in_sum(disk_rows(entries.drop_last()), top_rows(entries.last()), row);
}

proof fn lemma_disk_holds_only(entries: Seq<TopEntry>, row: IndexedModel) -> (i: int)
    requires
        disk_rows(entries).contains(row),
    ensures
        0 <= i < entries.len(),
        top_rows(entries[i]).contains(row),
    decreases entries.len(),
{
    if entries.len() == 0 {
        0
    } else {
        lemma_in_sum(disk_rows(entries.drop_last()), top_rows(entries.last()), row);
        if disk_rows(entries.drop_last()).contains(row) {
            lemma_disk_holds_only(entries.drop_last(), row)
        } else {
            entries.len() - 1
        }
    }
}

/// Every event file in a project's directory of a day is indexed, for that project and that day.
pub proof fn law_partitioned_files_are_indexed(
    entries: Seq<TopEntry>,
    i: int,
    token: String,
    days: Vec<DayDirectory>,
    d: int,
    files: Vec<FoundFile>,
    f: int,
    stem: Seq<char>,
)
    requires
        0 <= i < entries.len(),
        entries[i] == TopEntry::Directory(token, Some(days)),
        0 <= d < days@.len(),
        days@[d].files == Some(files),
        0 <= f < files@.len(),
        files@[f].name@ == stem + ".parquet"@,
    ensures
        disk_rows(entries).contains(
            IndexedModel { token: token@, date: days@[d].name@, path: files@[f].path@ },
        ),
{
    let row = IndexedModel { token: token@, date: days@[d].name@, path: files@[f].path@ };
    lemma_suffixed(stem, ".parquet"@);
    lemma_day_holds(files@, token@, days@[d].name@, f);
    lemma_token_holds(days@, token@, d, row);
    lemma_disk_holds(entries, i, row);
}

/// An event file that stands outside any directory is indexed for every project and every day.
pub proof fn law_loose_files_are_indexed(entries: Seq<TopEntry>, i: int, name: String, stem: Seq<char>)
    requires
        0 <= i < entries.len(),
        entries[i] == TopEntry::File(name),
        name@ == stem + ".parquet"@,
    ensures
        disk_rows(entries).contains(IndexedModel { token: "*"@, date: "*"@, path: name@ }),
{
    let row = IndexedModel { token: "*"@, date: "*"@, path: name@ };
    lemma_suffixed(stem, ".parquet"@);
    assert(top_rows(entries[i])[0] == row);
    lemma_disk_holds(entries, i, row);
}

/// Nothing is indexed but event files, each under the directories that it stands in.
pub proof fn law_only_event_files_are_indexed(entries: Seq<TopEntry>, row: IndexedModel) -> (at: (
    int,
    int,
    int,
))
    requires
        disk_rows(entries).contains(row),
    ensures
        0 <= at.0 < entries.len(),
        match entries[at.0] {
            TopEntry::File(name) => row.token == "*"@ && row.date == "*"@ && row.path == name@
                && has_suffix(name@, ".parquet"@),
            TopEntry::Directory(token, Some(days)) => row.token == token@ && 0 <= at.1 < days@.len()
                && row.date == days@[at.1].name@ && days@[at.1].files is Some && 0 <= at.2
                < days@[at.1].files->Some_0@.len() && row.path
                == days@[at.1].files->Some_0@[at.2].path@ && has_suffix(
                days@[at.1].files->Some_0@[at.2].name@,
                ".parquet"@,
            ),
            _ => false,
        },
{
    let i = lemma_disk_holds_only(entries, row);
    match entries[i] {
        TopEntry::Directory(token, Some(days)) => {
            let d = lemma_token_holds_only(days@, token@, row);
            let f = lemma_day_holds_only(days@[d].files->Some_0@, token@, days@[d].name@, row);
            (i, d, f)
        },
        _ => (i, 0, 0),
    }
}

// ── Counters ──────────────────────────────────────────────────────────────────

/// A counter goes up by what is counted, and starts over past its largest value.
pub proof fn law_counters_add_up(count: u64, n: u64)
    ensures
        count + n <= u64::MAX ==> counted(count, n) == count + n,
        count + n > u64::MAX ==> counted(count, n) == count + n - u64::MAX - 1,
{
}

/// The line on which a counter is shown.
pub open spec fn counter_line(name: Seq<char>, value: nat) -> Seq<char> {
    "\n"@ + name + " "@ + decimal(value) + "\n"@
}

proof fn lemma_shown(name: Seq<char>, help: Seq<char>, kind: Seq<char>, value: u64) -> (head: Seq<char>)
    ensures
        metric_text(name, help, kind, value) == head + counter_line(name, value as nat),
{
    let head = "# HELP "@ + name + " "@ + help + "\n# TYPE "@ + name + " "@ + kind;
    assert(metric_text(name, help, kind, value) =~= head + counter_line(name, value as nat));
    head
}

proof fn lemma_five(
    a: Seq<char>,
    b: Seq<char>,
    c: Seq<char>,
    d: Seq<char>,
    e: Seq<char>,
    f: Seq<char>,
    g: Seq<char>,
    h: Seq<char>,
    i: Seq<char>,
    j: Seq<char>,
)
    ensures
        (a + b) + (c + d) + (e + f) + (g + h) + (i + j) == a + b + c + d + e + f + g + h + i + j,
{
    assert((a + b) + (c + d) + (e + f) + (g + h) + (i + j) =~= a + b + c + d + e + f + g + h + i + j);
}

/// Each counter is shown under its own name, and the time since the start in seconds.
pub proof fn law_every_counter_is_shown(m: Metrics, now: u64) -> (around: (
    Seq<char>,
    Seq<char>,
    Seq<char>,
    Seq<char>,
    Seq<char>,
))
    requires
        now >= m.start_epoch,
    ensures
        rendered_metrics(m, now) == around.0 + counter_line(
            "hoglet_events_captured_total"@,
            m.captured as nat,
        ) + around.1 + counter_line("hoglet_events_acked_total"@, m.acked as nat) + around.2
            + counter_line("hoglet_requests_rejected_total"@, m.rejected as nat) + around.3
            + counter_line("hoglet_sink_errors_total"@, m.sink_errors as nat) + around.4 + counter_line(
            "hoglet_uptime_seconds"@,
            (now - m.start_epoch) as nat,
        ),
{
    let a = lemma_shown(
        "hoglet_events_captured_total"@,
        "Events accepted into the pipeline."@,
        "counter"@,
        m.captured,
    );
    let b = lemma_shown(
        "hoglet_events_acked_total"@,
        "Events durably acknowledged."@,
        "counter"@,
        m.acked,
    );
    let c = lemma_shown(
        "hoglet_requests_rejected_total"@,
        "Requests rejected with 4xx."@,
        "counter"@,
        m.rejected,
    );
    let d = lemma_shown(
        "hoglet_sink_errors_total"@,
        "Retryable sink failures (503)."@,
        "counter"@,
        m.sink_errors,
    );
    let e = lemma_shown(
        "hoglet_uptime_seconds"@,
        "Seconds since process start."@,
        "gauge"@,
        (now - m.start_epoch) as u64,
    );
    lemma_five(
        a,
        counter_line("hoglet_events_captured_total"@, m.captured as nat),
        b,
        counter_line("hoglet_events_acked_total"@, m.acked as nat),
        c,
        counter_line("hoglet_requests_rejected_total"@, m.rejected as nat),
        d,
        counter_line("hoglet_sink_errors_total"@, m.sink_errors as nat),
        e,
        counter_line("hoglet_uptime_seconds"@, (now - m.start_epoch) as nat),
    );
    (a, b, c, d, e)
}

} // verus!
