//! Counted names, and the search over them.
use vstd::prelude::*;

use crate::order::{first, insert_ranked, keep_first, ranked, views, Ranked};
use crate::table::{distinct_rows, lemma_row_absent, lemma_row_at, lemma_row_push, lemma_row_update, rows_map};
use crate::text::{chars_of, same, text_at_most, text_le};

verus! {

// ── Patterns ──────────────────────────────────────────────────────────────────

/// An ASCII letter in lower case; any other character as it is.
pub open spec fn folded_char(c: char) -> int {
    if 'A' as int <= c as int <= 'Z' as int {
        c as int + 32
    } else {
        c as int
    }
}

/// Whether two characters differ at most in the case of an ASCII letter.
pub open spec fn same_letter(a: char, b: char) -> bool {
    folded_char(a) == folded_char(b)
}

/// SQL's `LIKE`: `%` stands for any text, `_` for any character, and the escape character takes the next
/// one literally. ASCII letters match in either case.
pub open spec fn like(pattern: Seq<char>, text: Seq<char>, escape: Option<char>) -> bool
    decreases pattern.len(), text.len(),
{
    if pattern.len() == 0 {
        text.len() == 0
    } else if escape == Some(pattern[0]) {
        pattern.len() > 1 && text.len() > 0 && same_letter(pattern[1], text[0]) && like(
            pattern.skip(2),
            text.skip(1),
            escape,
        )
    } else if pattern[0] == '%' {
        like(pattern.skip(1), text, escape) || (text.len() > 0 && like(
            pattern,
            text.skip(1),
            escape,
        ))
    } else {
        text.len() > 0 && (pattern[0] == '_' || same_letter(pattern[0], text[0])) && like(
            pattern.skip(1),
            text.skip(1),
            escape,
        )
    }
}

fn fold(c: char) -> (r: u32)
    ensures
        r == folded_char(c),
{
    let u: u32 = crate::text::code_point(c);
    if 65 <= u && u <= 90 {
        u + 32
    } else {
        u
    }
}

fn like_from(
    pattern: &Vec<char>,
    i: usize,
    text: &Vec<char>,
    j: usize,
    escape: Option<char>,
) -> (r: bool)
    requires
        i <= pattern.len(),
        j <= text.len(),
    ensures
        r == like(pattern@.skip(i as int), text@.skip(j as int), escape),
    decreases pattern.len() - i, text.len() - j,
{
    let ghost p = pattern@.skip(i as int);
    let ghost t = text@.skip(j as int);
    if i >= pattern.len() {
        return j >= text.len();
    }
    assert(p[0] == pattern@[i as int]);
    assert(p.skip(1) =~= pattern@.skip(i + 1));
    if j < text.len() {
        assert(t[0] == text@[j as int]);
        assert(t.skip(1) =~= text@.skip(j + 1));
    }
    let escaped = match escape {
        Some(c) => c == pattern[i],
        None => false,
    };
    if escaped {
        if pattern.len() - i < 2 || j >= text.len() {
            return false;
        }
        assert(p[1] == pattern@[i + 1]);
        assert(p.skip(2) =~= pattern@.skip(i + 2));
        fold(pattern[i + 1]) == fold(text[j]) && like_from(pattern, i + 2, text, j + 1, escape)
    } else if pattern[i] == '%' {
        if i + 1 == pattern.len() {
            proof {
                lemma_percent_matches_all(p, t, escape);
            }
            return true;
        }
        if like_from(pattern, i + 1, text, j, escape) {
            return true;
        }
        j < text.len() && like_from(pattern, i, text, j + 1, escape)
    } else {
        j < text.len() && (pattern[i] == '_' || fold(pattern[i]) == fold(text[j])) && like_from(
            pattern,
            i + 1,
            text,
            j + 1,
            escape,
        )
    }
}

proof fn lemma_percent_matches_all(pattern: Seq<char>, text: Seq<char>, escape: Option<char>)
    requires
        pattern.len() == 1,
        pattern[0] == '%',
        escape != Some('%'),
    ensures
        like(pattern, text, escape),
    decreases text.len(),
{
    if text.len() > 0 {
        lemma_percent_matches_all(pattern, text.skip(1), escape);
    } else {
        assert(pattern.skip(1) =~= Seq::<char>::empty());
        assert(like(pattern.skip(1), text, escape));
    }
}

/// Decides [`like`].
pub fn is_like(pattern: &str, text: &str, escape: Option<char>) -> (r: bool)
    ensures
        r == like(pattern@, text@, escape),
{
    let p = chars_of(pattern);
    let t = chars_of(text);
    assert(p@.skip(0) =~= p@);
    assert(t@.skip(0) =~= t@);
    like_from(&p, 0, &t, 0, escape)
}

/// A character as it stands for itself in a pattern.
pub open spec fn escaped_char(c: char) -> Seq<char> {
    if c == '\\' || c == '%' || c == '_' {
        seq!['\\', c]
    } else {
        seq![c]
    }
}

/// A text as it stands for itself in a pattern.
pub open spec fn escaped_text(s: Seq<char>) -> Seq<char>
    decreases s.len(),
{
    if s.len() == 0 {
        Seq::empty()
    } else {
        escaped_text(s.drop_last()) + escaped_char(s.last())
    }
}

/// Makes a text stand for itself in a pattern.
pub fn escape_like(value: &str) -> (r: String)
    ensures
        r@ == escaped_text(value@),
{
    let chars = chars_of(value);
    let mut out = String::new();
    let mut i: usize = 0;
    assert(chars@.take(0) =~= Seq::<char>::empty());
    while i < chars.len()
        invariant
            i <= chars.len(),
            chars@ == value@,
            out@ == escaped_text(chars@.take(i as int)),
        decreases chars.len() - i,
    {
        assert(chars@.take(i + 1).drop_last() =~= chars@.take(i as int));
        let ghost before = out@;
        let c: char = chars[i];
        if c == '\\' || c == '%' || c == '_' {
            out.push('\\');
        }
        out.push(c);
        i += 1;
        assert(out@ =~= before + escaped_char(c));
    }
    assert(chars@.take(chars.len() as int) =~= chars@);
    out
}

/// Whether a text begins with a prefix, up to the case of ASCII letters.
pub open spec fn begins_with(text: Seq<char>, prefix: Seq<char>) -> bool {
    &&& prefix.len() <= text.len()
    &&& forall|i: int| 0 <= i < prefix.len() ==> same_letter(#[trigger] prefix[i], text[i])
}

proof fn lemma_escaped_front(s: Seq<char>)
    requires
        s.len() > 0,
    ensures
        escaped_text(s) == escaped_char(s[0]) + escaped_text(s.drop_first()),
    decreases s.len(),
{
    if s.len() == 1 {
        assert(s.drop_first() =~= Seq::<char>::empty());
        assert(s.drop_last() =~= Seq::<char>::empty());
        assert(escaped_text(s) =~= escaped_char(s[0]) + escaped_text(s.drop_first()));
    } else {
        lemma_escaped_front(s.drop_last());
        assert(s.drop_last().drop_first() =~= s.drop_first().drop_last());
        assert(escaped_text(s) =~= escaped_char(s[0]) + escaped_text(s.drop_first()));
    }
}

/// An escaped prefix followed by `%` finds exactly the texts that begin with the prefix: no character of
/// the prefix acts as a wildcard.
pub proof fn law_escaped_prefix_is_literal(prefix: Seq<char>, text: Seq<char>)
    ensures
        like(escaped_text(prefix) + seq!['%'], text, Some('\\')) <==> begins_with(text, prefix),
    decreases prefix.len(),
{
    let escape = Some('\\');
    let pattern = escaped_text(prefix) + seq!['%'];
    if prefix.len() == 0 {
        assert(pattern =~= seq!['%']);
        lemma_percent_matches_all(pattern, text, escape);
    } else {
        lemma_escaped_front(prefix);
        let rest = prefix.drop_first();
        let head = escaped_char(prefix[0]);
        assert(pattern =~= head + (escaped_text(rest) + seq!['%']));
        assert(pattern.skip(head.len() as int) =~= escaped_text(rest) + seq!['%']);
        if text.len() > 0 {
            law_escaped_prefix_is_literal(rest, text.skip(1));
            assert(begins_with(text, prefix) <==> same_letter(prefix[0], text[0]) && begins_with(
                text.skip(1),
                rest,
            )) by {
                if begins_with(text, prefix) {
                    assert forall|i: int| 0 <= i < rest.len() implies same_letter(
                        #[trigger] rest[i],
                        text.skip(1)[i],
                    ) by {
                        assert(same_letter(prefix[i + 1], text[i + 1]));
                    }
                }
                if same_letter(prefix[0], text[0]) && begins_with(text.skip(1), rest) {
                    assert forall|i: int| 0 <= i < prefix.len() implies same_letter(
                        #[trigger] prefix[i],
                        text[i],
                    ) by {
                        if i > 0 {
                            assert(same_letter(rest[i - 1], text.skip(1)[i - 1]));
                        }
                    }
                }
            }
        }
    }
}

// ── Counted rows ──────────────────────────────────────────────────────────────

/// A name that has been seen: within an owner and a group, with a label, when last and how often.
pub struct CountRow {
    pub owner: String,
    pub group: String,
    pub name: String,
    pub label: String,
    pub last_seen: i128,
    pub count: i64,
}

/// What is known of a counted name.
pub struct CountModel {
    pub label: Seq<char>,
    pub last_seen: int,
    pub count: int,
}

/// Owner, group and name.
pub type CountKey = (Seq<char>, Seq<char>, Seq<char>);

/// A counted row with its key.
pub struct CountRowModel {
    pub key: (Seq<char>, Seq<char>, Seq<char>),
    pub value: CountModel,
}

impl View for CountRow {
    type V = CountRowModel;

    open spec fn view(&self) -> CountRowModel {
        CountRowModel {
            key: (self.owner@, self.group@, self.name@),
            value: CountModel {
                label: self.label@,
                last_seen: self.last_seen as int,
                count: self.count as int,
            },
        }
    }
}

impl CountRow {
    /// The same row.
    pub fn copy(&self) -> (r: CountRow)
        ensures
            r@ == self@,
    {
        CountRow {
            owner: self.owner.clone(),
            group: self.group.clone(),
            name: self.name.clone(),
            label: self.label.clone(),
            last_seen: self.last_seen,
            count: self.count,
        }
    }
}

/// The rows with their keys.
pub open spec fn count_rows(rows: Seq<CountRow>) -> Seq<
    ((Seq<char>, Seq<char>, Seq<char>), CountModel),
> {
    rows.map_values(|r: CountRow| (r@.key, r@.value))
}

/// Counted names.
pub struct CountTable {
    pub rows: Vec<CountRow>,
}

impl View for CountTable {
    type V = Map<(Seq<char>, Seq<char>, Seq<char>), CountModel>;

    open spec fn view(&self) -> Map<(Seq<char>, Seq<char>, Seq<char>), CountModel> {
        rows_map(count_rows(self.rows@))
    }
}

/// One more, up to the largest number.
pub open spec fn bumped(count: int) -> int {
    if count < i64::MAX {
        count + 1
    } else {
        count
    }
}

/// When a name was last seen, if that never goes back.
pub open spec fn latest(before: int, now: int) -> int {
    if before < now {
        now
    } else {
        before
    }
}

/// What is known of a name once it is seen again; `monotone` keeps the later of the two instants.
pub open spec fn seen_again(
    known: Option<CountModel>,
    label: Seq<char>,
    now: int,
    monotone: bool,
) -> CountModel {
    match known {
        Some(m) => CountModel {
            label,
            last_seen: if monotone {
                latest(m.last_seen, now)
            } else {
                now
            },
            count: bumped(m.count),
        },
        None => CountModel { label, last_seen: now, count: 1 },
    }
}

/// What a table knows of a key.
pub open spec fn known(
    table: Map<(Seq<char>, Seq<char>, Seq<char>), CountModel>,
    key: (Seq<char>, Seq<char>, Seq<char>),
) -> Option<CountModel> {
    if table.contains_key(key) {
        Some(table[key])
    } else {
        None
    }
}

impl CountTable {
    /// No key occurs twice.
    pub open spec fn well_formed(&self) -> bool {
        distinct_rows(count_rows(self.rows@))
    }

    /// An empty table.
    pub fn new() -> (r: CountTable)
        ensures
            r.well_formed(),
            r@ == Map::<(Seq<char>, Seq<char>, Seq<char>), CountModel>::empty(),
            r.rows.len() == 0,
    {
        CountTable { rows: Vec::new() }
    }

    fn find(&self, owner: &str, group: &str, name: &str) -> (r: Option<usize>)
        requires
            self.well_formed(),
        ensures
            match r {
                Some(i) => i < self.rows.len() && count_rows(self.rows@)[i as int] == (
                    (owner@, group@, name@),
                    self@[(owner@, group@, name@)],
                ) && self@.contains_key((owner@, group@, name@)),
                None => !self@.contains_key((owner@, group@, name@)),
            },
    {
        let ghost rows = count_rows(self.rows@);
        let ghost key = (owner@, group@, name@);
        let mut i: usize = 0;
        while i < self.rows.len()
            invariant
                i <= self.rows.len(),
                rows == count_rows(self.rows@),
                key == (owner@, group@, name@),
                distinct_rows(rows),
                forall|j: int| 0 <= j < i ==> (#[trigger] rows[j]).0 != key,
            decreases self.rows.len() - i,
        {
            assert(rows[i as int].0 == self.rows@[i as int]@.key);
            if same(self.rows[i].owner.as_str(), owner) && same(self.rows[i].group.as_str(), group)
                && same(self.rows[i].name.as_str(), name) {
                proof {
                    lemma_row_at(rows, i as int);
                }
                return Some(i);
            }
            i += 1;
        }
        proof {
            lemma_row_absent(rows, key);
        }
        None
    }

    /// Counts a name once more.
    pub fn touch(
        &mut self,
        owner: &str,
        group: &str,
        name: &str,
        label: &str,
        now: i128,
        monotone: bool,
    )
        requires
            old(self).well_formed(),
        ensures
            final(self).well_formed(),
            final(self)@ == old(self)@.insert(
                (owner@, group@, name@),
                seen_again(
                    known(old(self)@, (owner@, group@, name@)),
                    label@,
                    now as int,
                    monotone,
                ),
            ),
    {
        let ghost rows = count_rows(self.rows@);
        let ghost key = (owner@, group@, name@);
        let ghost model = seen_again(known(self@, key), label@, now as int, monotone);
        match self.find(owner, group, name) {
            Some(i) => {
                let seen: i128 = self.rows[i].last_seen;
                let last_seen: i128 = if monotone && seen >= now {
                    seen
                } else {
                    now
                };
                let count: i64 = if self.rows[i].count < i64::MAX {
                    self.rows[i].count + 1
                } else {
                    self.rows[i].count
                };
                self.rows[i].label = label.to_owned();
                self.rows[i].last_seen = last_seen;
                self.rows[i].count = count;
                proof {
                    assert(count_rows(self.rows@) =~= rows.update(
                        i as int,
                        (rows[i as int].0, model),
                    ));
                    lemma_row_update(rows, i as int, model);
                }
            },
            None => {
                self.rows.push(
                    CountRow {
                        owner: owner.to_owned(),
                        group: group.to_owned(),
                        name: name.to_owned(),
                        label: label.to_owned(),
                        last_seen: now,
                        count: 1,
                    },
                );
                proof {
                    assert(count_rows(self.rows@) =~= rows.push((key, model)));
                    lemma_row_push(rows, (key, model));
                }
            },
        }
    }
}

// ── Queries ───────────────────────────────────────────────────────────────────

/// Rows by how often they were seen, and then by name.
pub struct ByCount {
    pub row: CountRow,
}

impl View for ByCount {
    type V = CountRowModel;

    open spec fn view(&self) -> CountRowModel {
        self.row@
    }
}

impl Ranked for ByCount {
    open spec fn ahead(a: CountRowModel, b: CountRowModel) -> bool {
        a.value.count > b.value.count || (a.value.count == b.value.count && a.key.2 != b.key.2
            && text_le(a.key.2, b.key.2))
    }

    fn is_ahead(&self, other: &Self) -> (r: bool) {
        self.row.count > other.row.count || (self.row.count == other.row.count && !same(
            self.row.name.as_str(),
            other.row.name.as_str(),
        ) && text_at_most(self.row.name.as_str(), other.row.name.as_str()))
    }
}

/// Rows by when they were last seen, the latest first.
pub struct BySeen {
    pub row: CountRow,
}

impl View for BySeen {
    type V = CountRowModel;

    open spec fn view(&self) -> CountRowModel {
        self.row@
    }
}

impl Ranked for BySeen {
    open spec fn ahead(a: CountRowModel, b: CountRowModel) -> bool {
        a.value.last_seen > b.value.last_seen
    }

    fn is_ahead(&self, other: &Self) -> (r: bool) {
        self.row.last_seen > other.row.last_seen
    }
}

/// The rows of an owner and a group whose name matches a pattern, in order.
pub open spec fn matching(
    rows: Seq<CountRowModel>,
    owner: Seq<char>,
    group: Seq<char>,
    pattern: Option<Seq<char>>,
    escape: Option<char>,
) -> Seq<CountRowModel>
    decreases rows.len(),
{
    if rows.len() == 0 {
        Seq::empty()
    } else {
        let before = matching(rows.drop_last(), owner, group, pattern, escape);
        let row = rows.last();
        if row.key.0 == owner && row.key.1 == group && (match pattern {
            Some(p) => like(p, row.key.2, escape),
            None => true,
        }) {
            before.push(row)
        } else {
            before
        }
    }
}

/// The view of an optional pattern.
pub open spec fn pattern_view(pattern: Option<&str>) -> Option<Seq<char>> {
    match pattern {
        Some(p) => Some(p@),
        None => None,
    }
}

fn row_matches(
    row: &CountRow,
    owner: &str,
    group: &str,
    pattern: Option<&str>,
    escape: Option<char>,
) -> (r: bool)
    ensures
        r == (row@.key.0 == owner@ && row@.key.1 == group@ && (match pattern_view(pattern) {
            Some(p) => like(p, row@.key.2, escape),
            None => true,
        })),
{
    same(row.owner.as_str(), owner) && same(row.group.as_str(), group) && match pattern {
        Some(p) => is_like(p, row.name.as_str(), escape),
        None => true,
    }
}

impl CountTable {
    /// The matching rows by count, at most `limit` of them.
    pub fn most_frequent(
        &self,
        owner: &str,
        group: &str,
        pattern: Option<&str>,
        escape: Option<char>,
        limit: usize,
    ) -> (r: Vec<ByCount>)
        ensures
            views(r@) == first(
                ranked::<ByCount>(
                    matching(
                        views(self.rows@),
                        owner@,
                        group@,
                        pattern_view(pattern),
                        escape,
                    ),
                ),
                limit as int,
            ),
    {
        let ghost all = views(self.rows@);
        let mut out: Vec<ByCount> = Vec::new();
        let mut i: usize = 0;
        assert(all.take(0) =~= Seq::<CountRowModel>::empty());
        assert(views(out@) =~= Seq::<CountRowModel>::empty());
        while i < self.rows.len()
            invariant
                i <= self.rows.len(),
                all == views(self.rows@),
                views(out@) == ranked::<ByCount>(
                    matching(all.take(i as int), owner@, group@, pattern_view(pattern), escape),
                ),
            decreases self.rows.len() - i,
        {
            assert(all.take(i + 1).drop_last() =~= all.take(i as int));
            assert(all.take(i + 1).last() == self.rows@[i as int]@);
            let ghost before = matching(
                all.take(i as int),
                owner@,
                group@,
                pattern_view(pattern),
                escape,
            );
            if row_matches(&self.rows[i], owner, group, pattern, escape) {
                let row = self.rows[i].copy();
                assert(before.push(row@).drop_last() =~= before);
                insert_ranked(&mut out, ByCount { row });
            }
            i += 1;
        }
        assert(all.take(self.rows.len() as int) =~= all);
        keep_first(&mut out, limit);
        out
    }

    /// The matching rows by when they were last seen, at most `limit` of them.
    pub fn most_recent(
        &self,
        owner: &str,
        group: &str,
        pattern: Option<&str>,
        escape: Option<char>,
        limit: usize,
    ) -> (r: Vec<BySeen>)
        ensures
            views(r@) == first(
                ranked::<BySeen>(
                    matching(
                        views(self.rows@),
                        owner@,
                        group@,
                        pattern_view(pattern),
                        escape,
                    ),
                ),
                limit as int,
            ),
    {
        let ghost all = views(self.rows@);
        let mut out: Vec<BySeen> = Vec::new();
        let mut i: usize = 0;
        assert(all.take(0) =~= Seq::<CountRowModel>::empty());
        assert(views(out@) =~= Seq::<CountRowModel>::empty());
        while i < self.rows.len()
            invariant
                i <= self.rows.len(),
                all == views(self.rows@),
                views(out@) == ranked::<BySeen>(
                    matching(all.take(i as int), owner@, group@, pattern_view(pattern), escape),
                ),
            decreases self.rows.len() - i,
        {
            assert(all.take(i + 1).drop_last() =~= all.take(i as int));
            assert(all.take(i + 1).last() == self.rows@[i as int]@);
            let ghost before = matching(
                all.take(i as int),
                owner@,
                group@,
                pattern_view(pattern),
                escape,
            );
            if row_matches(&self.rows[i], owner, group, pattern, escape) {
                let row = self.rows[i].copy();
                assert(before.push(row@).drop_last() =~= before);
                insert_ranked(&mut out, BySeen { row });
            }
            i += 1;
        }
        assert(all.take(self.rows.len() as int) =~= all);
        keep_first(&mut out, limit);
        out
    }
}

/// The names of rows, in order.
pub open spec fn row_names(rows: Seq<CountRowModel>) -> Seq<Seq<char>> {
    rows.map_values(|r: CountRowModel| r.key.2)
}

/// Nobody else's names, and no name that does not match, is ever found.
pub proof fn law_matching_is_scoped(
    rows: Seq<CountRowModel>,
    owner: Seq<char>,
    group: Seq<char>,
    pattern: Option<Seq<char>>,
    escape: Option<char>,
)
    ensures
        forall|i: int|
            0 <= i < matching(rows, owner, group, pattern, escape).len() ==> (#[trigger] matching(
                rows,
                owner,
                group,
                pattern,
                escape,
            )[i]).key.0 == owner && matching(rows, owner, group, pattern, escape)[i].key.1 == group
                && (pattern matches Some(p) ==> like(
                p,
                matching(rows, owner, group, pattern, escape)[i].key.2,
                escape,
            )),
    decreases rows.len(),
{
    if rows.len() > 0 {
        law_matching_is_scoped(rows.drop_last(), owner, group, pattern, escape);
        let before = matching(rows.drop_last(), owner, group, pattern, escape);
        let all = matching(rows, owner, group, pattern, escape);
        assert forall|i: int| 0 <= i < all.len() implies (#[trigger] all[i]).key.0 == owner
            && all[i].key.1 == group && (pattern matches Some(p) ==> like(
            p,
            all[i].key.2,
            escape,
        )) by {
            if i < before.len() {
                assert(all[i] == before[i]);
            }
        }
    }
}

} // verus!
