//! Which event files there are, by project and day, held in memory.
use vstd::prelude::*;
use vstd::string::*;

use crate::order::views;
use crate::rows::{
    append, is_order, law_sorting_keeps_ties, law_sorting_orders, lemma_selected,
    lemma_selected_concat, lemma_selected_twice, lemma_selected_whole, lemma_sorted, placed,
    select_sorted, selected, sorted, Query, Row, Sort,
};
use crate::text::{
    ends_with, has_suffix, lemma_text_le_total, lemma_text_le_transitive, same, text_at_most,
    text_le,
};
use vstd::seq_lib::lemma_multiset_commutative;

verus! {

// ── Rows ──────────────────────────────────────────────────────────────────────

/// A file of a project and a day.
pub struct IndexedFile {
    pub token: String,
    pub date: String,
    pub path: String,
}

/// The mathematical value of an [`IndexedFile`].
pub struct IndexedModel {
    pub token: Seq<char>,
    pub date: Seq<char>,
    pub path: Seq<char>,
}

impl View for IndexedFile {
    type V = IndexedModel;

    open spec fn view(&self) -> IndexedModel {
        IndexedModel { token: self.token@, date: self.date@, path: self.path@ }
    }
}

impl Row for IndexedFile {
    fn duplicate(&self) -> (r: Self) {
        IndexedFile {
            token: self.token.clone(),
            date: self.date.clone(),
            path: self.path.clone(),
        }
    }
}

/// The files of a token.
pub open spec fn file_of(token: Seq<char>) -> spec_fn(IndexedModel) -> bool {
    |row: IndexedModel| row.token == token
}

/// Tests [`file_of`].
pub struct FileOf<'a> {
    pub token: &'a str,
}

impl<'a> Query<IndexedFile> for FileOf<'a> {
    open spec fn pred(&self) -> spec_fn(IndexedModel) -> bool {
        file_of(self.token@)
    }

    fn test(&self, row: &IndexedFile) -> (r: bool) {
        same(row.token.as_str(), self.token)
    }
}

/// Files by day.
pub open spec fn date_order() -> spec_fn(IndexedModel, IndexedModel) -> bool {
    |a: IndexedModel, b: IndexedModel| a.date != b.date && text_le(a.date, b.date)
}

/// Decides [`date_order`].
pub struct DateOrder;

impl Sort<IndexedFile> for DateOrder {
    open spec fn before(&self) -> spec_fn(IndexedModel, IndexedModel) -> bool {
        date_order()
    }

    fn is_before(&self, a: &IndexedFile, b: &IndexedFile) -> (r: bool) {
        !same(a.date.as_str(), b.date.as_str()) && text_at_most(a.date.as_str(), b.date.as_str())
    }
}

/// The paths of files.
pub open spec fn paths(rows: Seq<IndexedModel>) -> Seq<Seq<char>> {
    rows.map_values(|row: IndexedModel| row.path)
}

/// The files of a token by day, and in each day in the order in which they came, with their days.
pub open spec fn own_rows(rows: Seq<IndexedModel>, token: Seq<char>) -> Seq<IndexedModel> {
    sorted(selected(rows, file_of(token)), date_order())
}

/// The files of a token by day, and in each day in the order in which they came.
pub open spec fn own_files(rows: Seq<IndexedModel>, token: Seq<char>) -> Seq<Seq<char>> {
    paths(own_rows(rows, token))
}

/// The files that a query of a token reads: its own, and those whose project is not known.
pub open spec fn listed(rows: Seq<IndexedModel>, token: Seq<char>) -> Seq<Seq<char>> {
    own_files(rows, token) + own_files(rows, "*"@)
}

// ── On disk ───────────────────────────────────────────────────────────────────

/// A file with its name and its path.
pub struct FoundFile {
    pub name: String,
    pub path: String,
}

/// A day's directory. Its files are absent where it cannot be read or is no directory.
pub struct DayDirectory {
    pub name: String,
    pub files: Option<Vec<FoundFile>>,
}

/// What stands at the top of the directory of events.
pub enum TopEntry {
    File(String),
    /// A directory with its name and its days, which are absent where it cannot be read.
    Directory(String, Option<Vec<DayDirectory>>),
    Other,
}

/// Whether a name is one of an event file.
pub open spec fn event_file(name: Seq<char>) -> bool {
    has_suffix(name, ".parquet"@)
}

/// The event files among some files, as files of a token and a day.
pub open spec fn day_rows(files: Seq<FoundFile>, token: Seq<char>, date: Seq<char>) -> Seq<
    IndexedModel,
>
    decreases files.len(),
{
    if files.len() == 0 {
        Seq::empty()
    } else {
        let before = day_rows(files.drop_last(), token, date);
        if event_file(files.last().name@) {
            before.push(IndexedModel { token, date, path: files.last().path@ })
        } else {
            before
        }
    }
}

/// The event files of a token's days.
pub open spec fn token_rows(days: Seq<DayDirectory>, token: Seq<char>) -> Seq<IndexedModel>
    decreases days.len(),
{
    if days.len() == 0 {
        Seq::empty()
    } else {
        token_rows(days.drop_last(), token) + (match days.last().files {
            Some(files) => day_rows(files@, token, days.last().name@),
            None => Seq::empty(),
        })
    }
}

/// The event files of one entry at the top. A file there is older than the layout: whose it is and of which
/// day is not known.
pub open spec fn top_rows(entry: TopEntry) -> Seq<IndexedModel> {
    match entry {
        TopEntry::File(name) => if event_file(name@) {
            seq![IndexedModel { token: "*"@, date: "*"@, path: name@ }]
        } else {
            Seq::empty()
        },
        TopEntry::Directory(name, Some(days)) => token_rows(days@, name@),
        _ => Seq::empty(),
    }
}

/// All the event files.
pub open spec fn disk_rows(entries: Seq<TopEntry>) -> Seq<IndexedModel>
    decreases entries.len(),
{
    if entries.len() == 0 {
        Seq::empty()
    } else {
        disk_rows(entries.drop_last()) + top_rows(entries.last())
    }
}

fn add_day(rows: &mut Vec<IndexedFile>, files: &Vec<FoundFile>, token: &str, date: &str)
    ensures
        views(final(rows)@) == views(old(rows)@) + day_rows(files@, token@, date@),
{
    let ghost start = views(rows@);
    let mut i: usize = 0;
    assert(files@.take(0) =~= Seq::<FoundFile>::empty());
    assert(start + Seq::<IndexedModel>::empty() =~= start);
    while i < files.len()
        invariant
            i <= files.len(),
            views(rows@) == start + day_rows(files@.take(i as int), token@, date@),
        decreases files.len() - i,
    {
        assert(files@.take(i + 1).drop_last() =~= files@.take(i as int));
        let ghost so_far = day_rows(files@.take(i as int), token@, date@);
        if ends_with(files[i].name.as_str(), ".parquet") {
            let row = IndexedFile {
                token: token.to_owned(),
                date: date.to_owned(),
                path: files[i].path.clone(),
            };
            assert((start + so_far).push(row@) =~= start + so_far.push(row@));
            append(rows, row);
        }
        i += 1;
    }
    assert(files@.take(files@.len() as int) =~= files@);
}

fn add_token(rows: &mut Vec<IndexedFile>, days: &Vec<DayDirectory>, token: &str)
    ensures
        views(final(rows)@) == views(old(rows)@) + token_rows(days@, token@),
{
    let ghost start = views(rows@);
    let mut i: usize = 0;
    assert(days@.take(0) =~= Seq::<DayDirectory>::empty());
    assert(start + Seq::<IndexedModel>::empty() =~= start);
    while i < days.len()
        invariant
            i <= days.len(),
            views(rows@) == start + token_rows(days@.take(i as int), token@),
        decreases days.len() - i,
    {
        assert(days@.take(i + 1).drop_last() =~= days@.take(i as int));
        let ghost so_far = token_rows(days@.take(i as int), token@);
        match &days[i].files {
            Some(files) => {
                add_day(rows, files, token, days[i].name.as_str());
            },
            None => {},
        }
        assert(views(rows@) =~= start + token_rows(days@.take(i + 1), token@));
        i += 1;
    }
    assert(days@.take(days@.len() as int) =~= days@);
}

fn disk_files(entries: &Vec<TopEntry>) -> (r: Vec<IndexedFile>)
    ensures
        views(r@) == disk_rows(entries@),
{
    let mut rows: Vec<IndexedFile> = Vec::new();
    let mut i: usize = 0;
    assert(entries@.take(0) =~= Seq::<TopEntry>::empty());
    assert(views(rows@) =~= Seq::<IndexedModel>::empty());
    while i < entries.len()
        invariant
            i <= entries.len(),
            views(rows@) == disk_rows(entries@.take(i as int)),
        decreases entries.len() - i,
    {
        assert(entries@.take(i + 1).drop_last() =~= entries@.take(i as int));
        let ghost so_far = views(rows@);
        match &entries[i] {
            TopEntry::File(name) => {
                if ends_with(name.as_str(), ".parquet") {
                    append(
                        &mut rows,
                        IndexedFile {
                            token: "*".to_owned(),
                            date: "*".to_owned(),
                            path: name.clone(),
                        },
                    );
                }
            },
            TopEntry::Directory(name, Some(days)) => {
                add_token(&mut rows, days, name.as_str());
            },
            _ => {},
        }
        assert(views(rows@) =~= so_far + top_rows(entries@[i as int]));
        i += 1;
    }
    assert(entries@.take(entries@.len() as int) =~= entries@);
    rows
}

// ── Index ─────────────────────────────────────────────────────────────────────

/// The index of event files, with a version that moves with every change.
pub struct FileIndex {
    files: Vec<IndexedFile>,
    version: u64,
}

/// The mathematical value of a [`FileIndex`].
pub struct IndexModel {
    pub files: Seq<IndexedModel>,
    pub version: u64,
}

impl View for FileIndex {
    type V = IndexModel;

    closed spec fn view(&self) -> IndexModel {
        IndexModel { files: views(self.files@), version: self.version }
    }
}

/// The version after a version.
pub open spec fn next_version(version: u64) -> u64 {
    if version == u64::MAX {
        0
    } else {
        (version + 1) as u64
    }
}

/// Files as files of a token and a day.
pub open spec fn named_rows(names: Seq<Seq<char>>, token: Seq<char>, date: Seq<char>) -> Seq<
    IndexedModel,
> {
    names.map_values(|path: Seq<char>| IndexedModel { token, date, path })
}

impl FileIndex {
    /// An empty index.
    pub fn new() -> (r: FileIndex)
        ensures
            r@ == (IndexModel { files: Seq::empty(), version: 0 }),
    {
        let files: Vec<IndexedFile> = Vec::new();
        assert(views(files@) =~= Seq::<IndexedModel>::empty());
        FileIndex { files, version: 0 }
    }

    /// Adds files of a token and a day.
    pub fn add_files(&mut self, token: &str, date: &str, file_names: &Vec<String>)
        ensures
            final(self)@ == (IndexModel {
                files: old(self)@.files + named_rows(views(file_names@), token@, date@),
                version: next_version(old(self)@.version),
            }),
    {
        let ghost start = views(self.files@);
        let ghost all = named_rows(views(file_names@), token@, date@);
        let mut i: usize = 0;
        assert(start + all.take(0) =~= start);
        while i < file_names.len()
            invariant
                i <= file_names.len(),
                all == named_rows(views(file_names@), token@, date@),
                views(self.files@) == start + all.take(i as int),
                self.version == old(self).version,
            decreases file_names.len() - i,
        {
            let row = IndexedFile {
                token: token.to_owned(),
                date: date.to_owned(),
                path: file_names[i].clone(),
            };
            assert(all[i as int] == row@);
            assert((start + all.take(i as int)).push(row@) =~= start + all.take(i + 1));
            append(&mut self.files, row);
            i += 1;
        }
        assert(all.take(all.len() as int) =~= all);
        self.bump();
    }

    /// Moves the version.
    pub fn bump(&mut self)
        ensures
            final(self)@ == (IndexModel {
                version: next_version(old(self)@.version),
                ..old(self)@
            }),
    {
        self.version = if self.version == u64::MAX {
            0
        } else {
            self.version + 1
        };
    }

    /// The version.
    pub fn read_version(&self) -> (r: u64)
        ensures
            r == self@.version,
    {
        self.version
    }

    fn own_paths(&self, token: &str) -> (r: Vec<String>)
        ensures
            views(r@) == own_files(self@.files, token@),
    {
        let rows = select_sorted(&self.files, &FileOf { token }, &DateOrder);
        let mut out: Vec<String> = Vec::new();
        let mut i: usize = 0;
        while i < rows.len()
            invariant
                i <= rows.len(),
                out@.len() == i,
                forall|j: int| 0 <= j < i ==> (#[trigger] out@[j])@ == rows@[j]@.path,
            decreases rows.len() - i,
        {
            out.push(rows[i].path.clone());
            i += 1;
        }
        assert(views(out@) =~= paths(views(rows@)));
        out
    }

    /// The files that a query of a token reads.
    pub fn list_files(&self, token: &str) -> (r: Vec<String>)
        ensures
            views(r@) == listed(self@.files, token@),
    {
        let mut out = self.own_paths(token);
        let mut shared = self.own_paths("*");
        let ghost own = views(out@);
        let ghost rest = views(shared@);
        out.append(&mut shared);
        assert(views(out@) =~= own + rest);
        out
    }

    /// Takes the index anew from what is on disk. Where the directory of events cannot be read, nothing
    /// changes.
    pub fn rebuild_from_dir(&mut self, entries: &Option<Vec<TopEntry>>)
        ensures
            final(self)@ == (match entries {
                Some(entries) => IndexModel {
                    files: disk_rows(entries@),
                    version: next_version(old(self)@.version),
                },
                None => old(self)@,
            }),
    {
        match entries {
            Some(entries) => {
                self.files = disk_files(entries);
                self.bump();
            },
            None => {},
        }
    }
}

// ── Laws ──────────────────────────────────────────────────────────────────────

/// A file whose project is not known is listed for every token.
pub proof fn law_unpartitioned_files_are_always_listed(
    rows: Seq<IndexedModel>,
    token: Seq<char>,
    row: IndexedModel,
)
    requires
        rows.contains(row),
        row.token == "*"@,
    ensures
        listed(rows, token).contains(row.path),
{
    lemma_own_file(rows, "*"@, row);
    let own = own_files(rows, token);
    let shared = own_files(rows, "*"@);
    let i = choose|i: int| 0 <= i < shared.len() && shared[i] == row.path;
    assert((own + shared)[own.len() + i] == row.path);
}

/// A file of a token is listed for it.
pub proof fn law_own_files_are_listed(
    rows: Seq<IndexedModel>,
    token: Seq<char>,
    row: IndexedModel,
)
    requires
        rows.contains(row),
        row.token == token,
    ensures
        listed(rows, token).contains(row.path),
{
    lemma_own_file(rows, token, row);
    let own = own_files(rows, token);
    let shared = own_files(rows, "*"@);
    let i = choose|i: int| 0 <= i < own.len() && own[i] == row.path;
    assert((own + shared)[i] == row.path);
}

proof fn lemma_own_file(rows: Seq<IndexedModel>, token: Seq<char>, row: IndexedModel)
    requires
        rows.contains(row),
        row.token == token,
    ensures
        own_files(rows, token).contains(row.path),
{
    let chosen = selected(rows, file_of(token));
    lemma_selected(rows, file_of(token), row);
    lemma_sorted(chosen, date_order(), row);
    let all = sorted(chosen, date_order());
    let i = choose|i: int| 0 <= i < all.len() && all[i] == row;
    assert(own_files(rows, token)[i] == row.path);
}

/// What is listed for a token is a file of it or one whose project is not known: never another token's.
pub proof fn law_tokens_list_no_foreign_files(
    rows: Seq<IndexedModel>,
    token: Seq<char>,
    path: Seq<char>,
)
    requires
        listed(rows, token).contains(path),
    ensures
        exists|row: IndexedModel| #[trigger]
            rows.contains(row) && row.path == path && (row.token == token || row.token == "*"@),
{
    let own = own_files(rows, token);
    let shared = own_files(rows, "*"@);
    let i = choose|i: int| 0 <= i < (own + shared).len() && (own + shared)[i] == path;
    let (key, k) = if i < own.len() {
        (token, i)
    } else {
        ("*"@, i - own.len())
    };
    let chosen = selected(rows, file_of(key));
    let all = sorted(chosen, date_order());
    let row = all[k];
    lemma_sorted(chosen, date_order(), row);
    assert(all.contains(row));
    lemma_selected(rows, file_of(key), row);
    assert(rows.contains(row) && row.path == path);
}

/// Every change moves the version.
pub proof fn law_changes_move_the_version(version: u64)
    ensures
        next_version(version) != version,
{
}

/// The files of one token and day.
pub open spec fn file_on(token: Seq<char>, date: Seq<char>) -> spec_fn(IndexedModel) -> bool {
    |row: IndexedModel| row.token == token && row.date == date
}

/// The files of one day.
pub open spec fn on_day(date: Seq<char>) -> spec_fn(IndexedModel) -> bool {
    |row: IndexedModel| row.date == date
}

proof fn lemma_days_are_ordered()
    ensures
        is_order(date_order()),
{
    let before = date_order();
    assert forall|a: IndexedModel, b: IndexedModel| #[trigger] before(a, b) implies !before(b, a) by {
        lemma_text_le_total(a.date, b.date);
    }
    assert forall|a: IndexedModel, b: IndexedModel, c: IndexedModel| #[trigger]
        before(a, c) implies #[trigger] before(a, b) || before(b, c) by {
        lemma_text_le_total(a.date, b.date);
        lemma_text_le_total(b.date, c.date);
        if !before(a, b) && !before(b, c) {
            lemma_text_le_transitive(c.date, b.date, a.date);
            lemma_text_le_total(a.date, c.date);
        }
    }
}

/// A token's files are listed by ascending day.
pub proof fn law_files_are_listed_by_day(
    rows: Seq<IndexedModel>,
    token: Seq<char>,
    i: int,
    j: int,
)
    requires
        0 <= i < j < own_rows(rows, token).len(),
    ensures
        text_le(own_rows(rows, token)[i].date, own_rows(rows, token)[j].date),
{
    lemma_days_are_ordered();
    law_sorting_orders(selected(rows, file_of(token)), date_order());
    let a = own_rows(rows, token)[i];
    let b = own_rows(rows, token)[j];
    assert(!(date_order())(b, a));
    lemma_text_le_total(a.date, b.date);
}

/// Within a day, a token's files are listed in the order in which they were added.
pub proof fn law_files_of_a_day_keep_their_order(
    rows: Seq<IndexedModel>,
    token: Seq<char>,
    date: Seq<char>,
)
    ensures
        selected(own_rows(rows, token), on_day(date)) == selected(rows, file_on(token, date)),
{
    law_sorting_keeps_ties(selected(rows, file_of(token)), date_order(), on_day(date));
    lemma_selected_twice(rows, file_of(token), on_day(date), file_on(token, date));
}

proof fn lemma_placed_paths(list: Seq<IndexedModel>, row: IndexedModel)
    ensures
        paths(placed(list, row, date_order())).to_multiset() == paths(list).to_multiset().insert(
            row.path,
        ),
    decreases list.len(),
{
    broadcast use vstd::seq_lib::group_to_multiset_ensures;

    let all = placed(list, row, date_order());
    if list.len() > 0 && (date_order())(row, list.last()) {
        let shorter = list.drop_last();
        lemma_placed_paths(shorter, row);
        assert(paths(list) =~= paths(shorter).push(list.last().path));
        assert(paths(all) =~= paths(placed(shorter, row, date_order())).push(list.last().path));
        assert(paths(all).to_multiset() =~= paths(list).to_multiset().insert(row.path));
    } else {
        assert(paths(all) =~= paths(list).push(row.path));
    }
}

proof fn lemma_sorted_paths(rows: Seq<IndexedModel>)
    ensures
        paths(sorted(rows, date_order())).to_multiset() == paths(rows).to_multiset(),
    decreases rows.len(),
{
    broadcast use vstd::seq_lib::group_to_multiset_ensures;

    if rows.len() == 0 {
        assert(paths(sorted(rows, date_order())) =~= paths(rows));
    } else {
        lemma_sorted_paths(rows.drop_last());
        lemma_placed_paths(sorted(rows.drop_last(), date_order()), rows.last());
        assert(paths(rows) =~= paths(rows.drop_last()).push(rows.last().path));
    }
}

/// Adding files of a token adds exactly them to its listing, each as often as it was given, and leaves the
/// listings of all other tokens as they are.
pub proof fn law_added_files_are_listed_once_each(
    rows: Seq<IndexedModel>,
    token: Seq<char>,
    date: Seq<char>,
    names: Seq<Seq<char>>,
    other: Seq<char>,
)
    requires
        token != "*"@,
        other != token,
    ensures
        listed(rows + named_rows(names, token, date), token).to_multiset() == listed(
            rows,
            token,
        ).to_multiset().add(names.to_multiset()),
        listed(rows + named_rows(names, token, date), other) == listed(rows, other),
{
    broadcast use vstd::seq_lib::group_to_multiset_ensures;

    let new = named_rows(names, token, date);
    let all = rows + new;
    let mine = selected(rows, file_of(token));
    assert forall|key: Seq<char>| key != token implies selected(all, #[trigger] file_of(key))
        == selected(rows, file_of(key)) by {
        lemma_selected_concat(rows, new, file_of(key));
        lemma_selected_whole(new, file_of(key));
        assert(selected(rows, file_of(key)) + Seq::<IndexedModel>::empty() =~= selected(
            rows,
            file_of(key),
        ));
    }
    lemma_selected_concat(rows, new, file_of(token));
    lemma_selected_whole(new, file_of(token));
    assert(selected(all, file_of(token)) == mine + new);
    lemma_sorted_paths(mine + new);
    lemma_sorted_paths(mine);
    assert(paths(new) =~= names);
    assert(paths(mine + new) =~= paths(mine) + names);
    lemma_multiset_commutative(paths(mine), names);
    let shared = own_files(rows, "*"@);
    lemma_multiset_commutative(own_files(all, token), shared);
    lemma_multiset_commutative(own_files(rows, token), shared);
    assert(listed(all, token).to_multiset() =~= listed(rows, token).to_multiset().add(
        names.to_multiset(),
    ));
}

} // verus!
