//! A cache of query responses, bounded in entries and in bytes. What was used least recently goes first.
use std::collections::hash_map::DefaultHasher;
use std::hash::Hasher;

use vstd::prelude::*;
use vstd::std_specs::hash::DefaultHasherAdditionalSpecFns;

use crate::capture::decompress::copy_bytes;
use crate::json::{rendered, Json};
use crate::order::views;
use crate::rows::{
    append, find, found, index_of, lemma_index_is, lemma_index_none, lemma_index_of,
    lemma_push_contains, lemma_removed, remove, removed, Query,
};
use crate::text::same;

verus! {

/// How many bytes of responses a cache holds unless it is told otherwise.
pub const MAX_CACHE_BYTES: usize = 16_777_216;

// ── Keys and entries ──────────────────────────────────────────────────────────

/// What a response answers: a query of a project, on one version of the data.
#[derive(Debug)]
pub struct CacheKey {
    pub token: String,
    pub ir_hash: u64,
    pub data_version: u64,
}

/// The mathematical value of a [`CacheKey`].
pub struct KeyModel {
    pub token: Seq<char>,
    pub ir_hash: u64,
    pub data_version: u64,
}

impl View for CacheKey {
    type V = KeyModel;

    open spec fn view(&self) -> KeyModel {
        KeyModel {
            token: self.token@,
            ir_hash: self.ir_hash,
            data_version: self.data_version,
        }
    }
}

impl CacheKey {
    fn matches(&self, other: &CacheKey) -> (r: bool)
        ensures
            r == (self@ == other@),
    {
        same(self.token.as_str(), other.token.as_str()) && self.ir_hash == other.ir_hash
            && self.data_version == other.data_version
    }
}

/// A response with its key.
pub struct CacheEntry {
    pub key: CacheKey,
    pub response_json: Vec<u8>,
}

/// The mathematical value of a [`CacheEntry`].
pub struct EntryModel {
    pub key: KeyModel,
    pub response: Seq<u8>,
}

impl View for CacheEntry {
    type V = EntryModel;

    open spec fn view(&self) -> EntryModel {
        EntryModel { key: self.key@, response: self.response_json@ }
    }
}

/// The entry with a key.
pub open spec fn entry_is(key: KeyModel) -> spec_fn(EntryModel) -> bool {
    |entry: EntryModel| entry.key == key
}

/// Tests [`entry_is`].
pub struct EntryByKey<'a> {
    pub key: &'a CacheKey,
}

impl<'a> Query<CacheEntry> for EntryByKey<'a> {
    open spec fn pred(&self) -> spec_fn(EntryModel) -> bool {
        entry_is(self.key@)
    }

    fn test(&self, row: &CacheEntry) -> (r: bool) {
        row.key.matches(self.key)
    }
}

// ── Bounds ────────────────────────────────────────────────────────────────────

/// The bytes of all responses.
pub open spec fn total_bytes(entries: Seq<EntryModel>) -> nat
    decreases entries.len(),
{
    if entries.len() == 0 {
        0
    } else {
        total_bytes(entries.drop_last()) + entries.last().response.len()
    }
}

/// The entries that are left once the least recently used have made room.
pub open spec fn fitted(entries: Seq<EntryModel>, max_entries: int, max_bytes: int) -> Seq<
    EntryModel,
>
    decreases entries.len(),
{
    if entries.len() > 0 && (entries.len() > max_entries || total_bytes(entries) > max_bytes) {
        fitted(entries.drop_first(), max_entries, max_bytes)
    } else {
        entries
    }
}

/// The entries once a response is put under a key: it replaces what was there, and it is the last to go.
/// A response that cannot fit is not kept.
pub open spec fn stored(
    entries: Seq<EntryModel>,
    key: KeyModel,
    response: Seq<u8>,
    max_entries: int,
    max_bytes: int,
) -> Seq<EntryModel> {
    let rest = removed(entries, entry_is(key));
    if max_entries == 0 || response.len() > max_bytes {
        rest
    } else {
        fitted(rest.push(EntryModel { key, response }), max_entries, max_bytes)
    }
}

/// The entries once one was used: it is the last to go.
pub open spec fn used(entries: Seq<EntryModel>, key: KeyModel) -> Seq<EntryModel> {
    match found(entries, entry_is(key)) {
        Some(entry) => removed(entries, entry_is(key)).push(entry),
        None => entries,
    }
}

/// The response under a key.
pub open spec fn response_of(entries: Seq<EntryModel>, key: KeyModel) -> Option<Seq<u8>> {
    match found(entries, entry_is(key)) {
        Some(entry) => Some(entry.response),
        None => None,
    }
}

/// No key occurs twice.
pub open spec fn distinct_entries(entries: Seq<EntryModel>) -> bool {
    forall|i: int, j: int|
        0 <= i < j < entries.len() ==> (#[trigger] entries[i]).key != (#[trigger] entries[j]).key
}

proof fn lemma_total_front(entries: Seq<EntryModel>)
    requires
        entries.len() > 0,
    ensures
        total_bytes(entries) == entries[0].response.len() + total_bytes(entries.drop_first()),
    decreases entries.len(),
{
    if entries.len() > 1 {
        lemma_total_front(entries.drop_last());
        assert(entries.drop_last().drop_first() =~= entries.drop_first().drop_last());
    } else {
        assert(entries.drop_first() =~= Seq::<EntryModel>::empty());
        assert(entries.drop_last() =~= Seq::<EntryModel>::empty());
    }
}

proof fn lemma_removed_distinct(entries: Seq<EntryModel>, key: KeyModel)
    requires
        distinct_entries(entries),
    ensures
        distinct_entries(removed(entries, entry_is(key))),
        distinct_entries(removed(entries, entry_is(key)).push(EntryModel { key, response: Seq::empty() })),
        removed(entries, entry_is(key)).len() <= entries.len(),
        match found(entries, entry_is(key)) {
            Some(entry) => total_bytes(removed(entries, entry_is(key))) == total_bytes(entries)
                - entry.response.len() && removed(entries, entry_is(key)).len() == entries.len()
                - 1,
            None => removed(entries, entry_is(key)) == entries,
        },
    decreases entries.len(),
{
    let p = entry_is(key);
    let left = removed(entries, p);
    if entries.len() > 0 {
        let rest = entries.drop_last();
        assert forall|i: int, j: int| 0 <= i < j < rest.len() implies (#[trigger] rest[i]).key != (
        #[trigger] rest[j]).key by {
            assert(entries[i].key != entries[j].key);
        }
        lemma_removed_distinct(rest, key);
        lemma_index_of(rest, p);
        if p(entries.last()) {
            if let Some(i) = index_of(rest, p) {
                assert(entries[i].key != entries[entries.len() - 1].key);
            }
        } else {
            assert(left.drop_last() =~= removed(rest, p));
            assert(index_of(entries, p) == index_of(rest, p));
            if let Some(i) = index_of(rest, p) {
                assert(rest[i] == entries[i]);
            } else {
                assert(left =~= entries);
            }
            assert forall|i: int, j: int| 0 <= i < j < left.len() implies (#[trigger] left[i]).key
                != (#[trigger] left[j]).key by {
                if j < left.len() - 1 {
                    assert(removed(rest, p)[i].key != removed(rest, p)[j].key);
                } else {
                    let x = removed(rest, p)[i];
                    lemma_removed(rest, p, x);
                    assert(removed(rest, p).contains(x));
                    let k = choose|k: int| 0 <= k < rest.len() && rest[k] == x;
                    assert(entries[k].key != entries[entries.len() - 1].key);
                }
            }
        }
    }
    let extended = left.push(EntryModel { key, response: Seq::empty() });
    assert forall|i: int, j: int| 0 <= i < j < extended.len() implies (#[trigger] extended[i]).key
        != (#[trigger] extended[j]).key by {
        if j < left.len() {
            assert(left[i].key != left[j].key);
        } else {
            lemma_removed(entries, p, left[i]);
            assert(left.contains(left[i]));
        }
    }
}

proof fn lemma_push_distinct(entries: Seq<EntryModel>, key: KeyModel, response: Seq<u8>)
    requires
        distinct_entries(entries),
    ensures
        distinct_entries(removed(entries, entry_is(key)).push(EntryModel { key, response })),
        total_bytes(removed(entries, entry_is(key)).push(EntryModel { key, response }))
            == total_bytes(removed(entries, entry_is(key))) + response.len(),
{
    lemma_removed_distinct(entries, key);
    let left = removed(entries, entry_is(key));
    let plain = left.push(EntryModel { key, response: Seq::empty() });
    let extended = left.push(EntryModel { key, response });
    assert forall|i: int, j: int| 0 <= i < j < extended.len() implies (#[trigger] extended[i]).key
        != (#[trigger] extended[j]).key by {
        assert(plain[i].key != plain[j].key);
    }
    assert(extended.drop_last() =~= left);
}

// ── Cache ─────────────────────────────────────────────────────────────────────

/// A cache of responses, the least recently used first.
pub struct ResultCache {
    entries: Vec<CacheEntry>,
    response_bytes: u128,
    max_entries: usize,
    max_bytes: usize,
}

/// The mathematical value of a [`ResultCache`].
pub struct CacheModel {
    pub entries: Seq<EntryModel>,
    pub max_entries: int,
    pub max_bytes: int,
}

impl View for ResultCache {
    type V = CacheModel;

    closed spec fn view(&self) -> CacheModel {
        CacheModel {
            entries: views(self.entries@),
            max_entries: self.max_entries as int,
            max_bytes: self.max_bytes as int,
        }
    }
}

impl ResultCache {
    /// The entries have different keys and stay within both bounds.
    pub closed spec fn well_formed(&self) -> bool {
        &&& distinct_entries(self@.entries)
        &&& self@.entries.len() <= self@.max_entries
        &&& self.response_bytes == total_bytes(self@.entries)
        &&& total_bytes(self@.entries) <= self@.max_bytes
    }

    /// A cache that is well formed is within its bounds, and no key occurs twice in it.
    pub proof fn law_cache_is_bounded(self)
        requires
            self.well_formed(),
        ensures
            self@.entries.len() <= self@.max_entries,
            total_bytes(self@.entries) <= self@.max_bytes,
            distinct_entries(self@.entries),
    {
    }

    /// An empty cache with room for some entries.
    pub fn new(max_entries: usize) -> (r: ResultCache)
        ensures
            r.well_formed(),
            r@ == (CacheModel {
                entries: Seq::empty(),
                max_entries: max_entries as int,
                max_bytes: MAX_CACHE_BYTES as int,
            }),
    {
        ResultCache::with_limits(max_entries, MAX_CACHE_BYTES)
    }

    /// An empty cache with room for some entries and some bytes of responses.
    pub fn with_limits(max_entries: usize, max_bytes: usize) -> (r: ResultCache)
        ensures
            r.well_formed(),
            r@ == (CacheModel {
                entries: Seq::empty(),
                max_entries: max_entries as int,
                max_bytes: max_bytes as int,
            }),
    {
        let entries: Vec<CacheEntry> = Vec::new();
        assert(views(entries@) =~= Seq::<EntryModel>::empty());
        ResultCache { entries, response_bytes: 0, max_entries, max_bytes }
    }

    /// The response under a key, which is then the last to go.
    pub fn get(&mut self, key: &CacheKey) -> (r: Option<Vec<u8>>)
        requires
            old(self).well_formed(),
        ensures
            final(self).well_formed(),
            match response_of(old(self)@.entries, key@) {
                Some(response) => r matches Some(bytes) && bytes@ == response,
                None => r is None,
            },
            final(self)@ == (CacheModel {
                entries: used(old(self)@.entries, key@),
                ..old(self)@
            }),
    {
        let ghost before = self@.entries;
        match find(&self.entries, &EntryByKey { key }) {
            Some(i) => {
                let ghost p = entry_is(key@);
                proof {
                    lemma_removed_distinct(before, key@);
                    lemma_push_distinct(before, key@, before[i as int].response);
                    lemma_removed_at(before, p, i as int);
                }
                assert(before[i as int] == self.entries@[i as int]@);
                let entry = self.entries.remove(i);
                assert(views(self.entries@) =~= before.remove(i as int));
                let response = copy_bytes(entry.response_json.as_slice());
                append(&mut self.entries, entry);
                Some(response)
            },
            None => None,
        }
    }

    /// Keeps a response under a key, in place of what was there. The least recently used responses make
    /// room for it.
    pub fn put(&mut self, key: CacheKey, response_json: Vec<u8>)
        requires
            old(self).well_formed(),
        ensures
            final(self).well_formed(),
            final(self)@ == (CacheModel {
                entries: stored(
                    old(self)@.entries,
                    key@,
                    response_json@,
                    old(self)@.max_entries,
                    old(self)@.max_bytes,
                ),
                ..old(self)@
            }),
    {
        let ghost before = self@.entries;
        let ghost model = EntryModel { key: key@, response: response_json@ };
        proof {
            lemma_push_distinct(before, key@, response_json@);
            lemma_removed_distinct(before, key@);
        }
        match find(&self.entries, &EntryByKey { key: &key }) {
            Some(i) => {
                proof {
                    lemma_removed_at(before, entry_is(key@), i as int);
                    lemma_entry_within(before, i as int);
                }
                assert(before[i as int] == self.entries@[i as int]@);
                let replaced = self.entries.remove(i);
                assert(views(self.entries@) =~= before.remove(i as int));
                self.response_bytes = self.response_bytes - replaced.response_json.len() as u128;
            },
            None => {},
        }
        assert(views(self.entries@) == removed(before, entry_is(key@)));
        if self.max_entries == 0 || response_json.len() > self.max_bytes {
            return;
        }
        self.response_bytes = self.response_bytes + response_json.len() as u128;
        append(&mut self.entries, CacheEntry { key, response_json });
        self.fit();
    }

    fn fit(&mut self)
        requires
            distinct_entries(old(self)@.entries),
            old(self).response_bytes == total_bytes(old(self)@.entries),
        ensures
            final(self).well_formed(),
            final(self)@ == (CacheModel {
                entries: fitted(
                    old(self)@.entries,
                    old(self)@.max_entries,
                    old(self)@.max_bytes,
                ),
                ..old(self)@
            }),
    {
        while self.entries.len() > 0 && (self.entries.len() > self.max_entries
            || self.response_bytes > self.max_bytes as u128)
            invariant
                distinct_entries(self@.entries),
                self.response_bytes == total_bytes(self@.entries),
                self@.max_entries == old(self)@.max_entries,
                self@.max_bytes == old(self)@.max_bytes,
                fitted(self@.entries, self@.max_entries, self@.max_bytes) == fitted(
                    old(self)@.entries,
                    old(self)@.max_entries,
                    old(self)@.max_bytes,
                ),
            decreases self.entries.len(),
        {
            let ghost before = self@.entries;
            proof {
                lemma_total_front(before);
            }
            assert(before[0] == self.entries@[0]@);
            let evicted = self.entries.remove(0);
            assert(self@.entries =~= before.drop_first());
            assert forall|i: int, j: int| 0 <= i < j < self@.entries.len() implies (
            #[trigger] self@.entries[i]).key != (#[trigger] self@.entries[j]).key by {
                assert(before[i + 1].key != before[j + 1].key);
            }
            self.response_bytes = self.response_bytes - evicted.response_json.len() as u128;
        }
        assert(self@.entries.len() == 0 ==> total_bytes(self@.entries) == 0);
    }

    /// Empties the cache.
    pub fn clear(&mut self)
        requires
            old(self).well_formed(),
        ensures
            final(self).well_formed(),
            final(self)@ == (CacheModel { entries: Seq::empty(), ..old(self)@ }),
    {
        self.entries = Vec::new();
        self.response_bytes = 0;
        assert(views(self.entries@) =~= Seq::<EntryModel>::empty());
    }
}

proof fn lemma_entry_within(entries: Seq<EntryModel>, i: int)
    requires
        0 <= i < entries.len(),
    ensures
        entries[i].response.len() <= total_bytes(entries),
    decreases entries.len(),
{
    if i < entries.len() - 1 {
        lemma_entry_within(entries.drop_last(), i);
        assert(entries.drop_last()[i] == entries[i]);
    }
}

/// Where one row meets a condition, removing what meets it removes that row.
proof fn lemma_removed_at(entries: Seq<EntryModel>, p: spec_fn(EntryModel) -> bool, i: int)
    requires
        0 <= i < entries.len(),
        forall|j: int| 0 <= j < entries.len() ==> (p(#[trigger] entries[j]) <==> j == i),
    ensures
        removed(entries, p) == entries.remove(i),
    decreases entries.len(),
{
    let rest = entries.drop_last();
    assert forall|j: int| 0 <= j < rest.len() implies rest[j] == entries[j] by {}
    if i == entries.len() - 1 {
        lemma_removed_none(rest, p);
        assert(p(entries[i]));
        assert(entries.remove(i) =~= rest);
    } else {
        assert forall|j: int| 0 <= j < rest.len() implies (p(#[trigger] rest[j]) <==> j == i) by {
            assert(rest[j] == entries[j]);
        }
        lemma_removed_at(rest, p, i);
        assert(!p(entries[entries.len() - 1]));
        assert(entries.remove(i) =~= rest.remove(i).push(entries.last()));
    }
}

proof fn lemma_removed_none(entries: Seq<EntryModel>, p: spec_fn(EntryModel) -> bool)
    requires
        forall|j: int| 0 <= j < entries.len() ==> !p(#[trigger] entries[j]),
    ensures
        removed(entries, p) == entries,
    decreases entries.len(),
{
    if entries.len() > 0 {
        let rest = entries.drop_last();
        assert forall|j: int| 0 <= j < rest.len() implies !p(#[trigger] rest[j]) by {
            assert(rest[j] == entries[j]);
        }
        lemma_removed_none(rest, p);
        assert(!p(entries[entries.len() - 1]));
        assert(rest.push(entries.last()) =~= entries);
    }
}

// ── Laws ──────────────────────────────────────────────────────────────────────

/// What makes room is the least recently used: what is left is the most recently used end.
pub proof fn law_eviction_takes_the_least_recently_used(
    entries: Seq<EntryModel>,
    max_entries: int,
    max_bytes: int,
)
    ensures
        fitted(entries, max_entries, max_bytes).len() <= entries.len(),
        fitted(entries, max_entries, max_bytes) == entries.skip(
            entries.len() - fitted(entries, max_entries, max_bytes).len(),
        ),
    decreases entries.len(),
{
    if entries.len() > 0 && (entries.len() > max_entries || total_bytes(entries) > max_bytes) {
        law_eviction_takes_the_least_recently_used(entries.drop_first(), max_entries, max_bytes);
        let left = fitted(entries, max_entries, max_bytes);
        assert(left =~= entries.skip(entries.len() - left.len()));
    } else {
        assert(entries.skip(0) =~= entries);
    }
}

proof fn lemma_last_stays(entries: Seq<EntryModel>, max_entries: int, max_bytes: int)
    requires
        entries.len() > 0,
        max_entries > 0,
        entries.last().response.len() <= max_bytes,
    ensures
        fitted(entries, max_entries, max_bytes).len() > 0,
    decreases entries.len(),
{
    if entries.len() == 1 {
        assert(entries.drop_last() =~= Seq::<EntryModel>::empty());
        assert(total_bytes(entries.drop_last()) == 0);
    } else if entries.len() > max_entries || total_bytes(entries) > max_bytes {
        lemma_last_stays(entries.drop_first(), max_entries, max_bytes);
    }
}

/// A response that fits is read back as it was put.
pub proof fn law_responses_are_read_back(
    entries: Seq<EntryModel>,
    key: KeyModel,
    response: Seq<u8>,
    max_entries: int,
    max_bytes: int,
)
    requires
        distinct_entries(entries),
        max_entries > 0,
        response.len() <= max_bytes,
    ensures
        response_of(stored(entries, key, response, max_entries, max_bytes), key) == Some(response),
{
    let rest = removed(entries, entry_is(key));
    let all = rest.push(EntryModel { key, response });
    lemma_push_distinct(entries, key, response);
    law_eviction_takes_the_least_recently_used(all, max_entries, max_bytes);
    lemma_last_stays(all, max_entries, max_bytes);
    let left = fitted(all, max_entries, max_bytes);
    let n = all.len() - left.len();
    assert(left.last() == all.last());
    assert forall|j: int| 0 <= j < left.len() - 1 implies !(entry_is(key))(#[trigger] left[j]) by {
        assert(left[j] == all[j + n]);
        assert(all[j + n].key != all[all.len() - 1].key);
    }
    lemma_index_is(left, entry_is(key), left.len() - 1);
}

proof fn lemma_fitted_is_the_longest(
    entries: Seq<EntryModel>,
    max_entries: int,
    max_bytes: int,
    j: int,
)
    requires
        max_entries >= 0,
        max_bytes >= 0,
    ensures
        fitted(entries, max_entries, max_bytes).len() <= max_entries,
        total_bytes(fitted(entries, max_entries, max_bytes)) <= max_bytes,
        0 <= j < entries.len() - fitted(entries, max_entries, max_bytes).len() ==> entries.skip(
            j,
        ).len() > max_entries || total_bytes(entries.skip(j)) > max_bytes,
    decreases entries.len(),
{
    if entries.len() > 0 && (entries.len() > max_entries || total_bytes(entries) > max_bytes) {
        lemma_fitted_is_the_longest(entries.drop_first(), max_entries, max_bytes, j - 1);
        if j == 0 {
            assert(entries.skip(j) =~= entries);
        } else if 0 < j < entries.len() {
            assert(entries.drop_first().skip(j - 1) =~= entries.skip(j));
        }
    }
}

/// No more is evicted than has to be. Beside a response that fits, exactly the longest run of the most
/// recently used others stays that fits both bounds together with it, each as it was; a longer run would
/// break a bound.
pub proof fn law_no_more_is_evicted_than_needed(
    entries: Seq<EntryModel>,
    key: KeyModel,
    response: Seq<u8>,
    max_entries: int,
    max_bytes: int,
    longer: int,
)
    requires
        max_entries > 0,
        response.len() <= max_bytes,
    ensures
        ({
            let others = removed(entries, entry_is(key));
            let entry = EntryModel { key, response };
            let left = stored(entries, key, response, max_entries, max_bytes);
            let n = left.len() - 1;
            &&& 0 <= n <= others.len()
            &&& left == others.skip(others.len() - n).push(entry)
            &&& left.len() <= max_entries
            &&& total_bytes(left) <= max_bytes
            &&& n < longer <= others.len() ==> longer + 1 > max_entries || total_bytes(
                others.skip(others.len() - longer).push(entry),
            ) > max_bytes
        }),
{
    let others = removed(entries, entry_is(key));
    let entry = EntryModel { key, response };
    let all = others.push(entry);
    let left = stored(entries, key, response, max_entries, max_bytes);
    let n = left.len() - 1;
    law_eviction_takes_the_least_recently_used(all, max_entries, max_bytes);
    lemma_last_stays(all, max_entries, max_bytes);
    lemma_fitted_is_the_longest(all, max_entries, max_bytes, others.len() - longer);
    assert(all.skip(others.len() - n) =~= others.skip(others.len() - n).push(entry));
    if n < longer <= others.len() {
        assert(all.skip(others.len() - longer) =~= others.skip(others.len() - longer).push(entry));
    }
}

/// A response that cannot fit leaves nothing under its key, not even what was there.
pub proof fn law_oversize_responses_leave_nothing(
    entries: Seq<EntryModel>,
    key: KeyModel,
    response: Seq<u8>,
    max_entries: int,
    max_bytes: int,
)
    requires
        max_entries == 0 || response.len() > max_bytes,
    ensures
        response_of(stored(entries, key, response, max_entries, max_bytes), key) is None,
{
    let rest = removed(entries, entry_is(key));
    assert forall|j: int| 0 <= j < rest.len() implies !(entry_is(key))(#[trigger] rest[j]) by {
        lemma_removed(entries, entry_is(key), rest[j]);
        assert(rest.contains(rest[j]));
    }
    lemma_index_none(rest, entry_is(key));
}

/// Putting a response never changes what is read under another key: it is as it was, or gone.
pub proof fn law_other_keys_keep_their_responses(
    entries: Seq<EntryModel>,
    key: KeyModel,
    response: Seq<u8>,
    max_entries: int,
    max_bytes: int,
    other: KeyModel,
)
    requires
        distinct_entries(entries),
        other != key,
    ensures
        response_of(stored(entries, key, response, max_entries, max_bytes), other) matches Some(x)
            ==> response_of(entries, other) == Some(x),
{
    let rest = removed(entries, entry_is(key));
    let left = stored(entries, key, response, max_entries, max_bytes);
    let all = rest.push(EntryModel { key, response });
    lemma_index_of(left, entry_is(other));
    if let Some(i) = index_of(left, entry_is(other)) {
        let entry = left[i];
        if max_entries == 0 || response.len() > max_bytes {
            assert(rest.contains(entry));
        } else {
            law_eviction_takes_the_least_recently_used(all, max_entries, max_bytes);
            let n = all.len() - left.len();
            assert(entry == all[i + n]);
            assert(i + n < rest.len());
            assert(rest[i + n] == entry);
        }
        lemma_removed(entries, entry_is(key), entry);
        let k = choose|k: int| 0 <= k < entries.len() && entries[k] == entry;
        assert forall|j: int| 0 <= j < k implies !(entry_is(other))(#[trigger] entries[j]) by {
            assert(entries[j].key != entries[k].key);
        }
        lemma_index_is(entries, entry_is(other), k);
    }
}

// ── Hashing ───────────────────────────────────────────────────────────────────

/// Reading a response makes it the one that is evicted last, and changes no response; the others keep their order.
pub proof fn law_used_responses_are_evicted_last(entries: Seq<EntryModel>, key: KeyModel, other: KeyModel)
    requires
        distinct_entries(entries),
    ensures
        ({
            let after = used(entries, key);
            &&& response_of(entries, key) is Some ==> after.len() > 0 && after.last().key == key
                && after.last().response == response_of(entries, key)->Some_0 && after.drop_last()
                == removed(entries, entry_is(key))
            &&& response_of(entries, key) is None ==> after == entries
            &&& response_of(after, other) == response_of(entries, other)
        }),
{
    let p = entry_is(key);
    let q = entry_is(other);
    let after = used(entries, key);
    lemma_index_of(entries, p);
    lemma_index_of(entries, q);
    lemma_index_of(after, q);
    if let Some(entry) = found(entries, p) {
        let rest = removed(entries, p);
        let at = index_of(entries, p)->Some_0;
        assert(p(entries[at]) && entries[at] == entry);
        assert(after.drop_last() =~= rest);
        if let Some(x) = found(entries, q) {
            let i = index_of(entries, q)->Some_0;
            assert(q(entries[i]));
            lemma_removed(entries, p, x);
            assert(entries.contains(x));
            lemma_push_contains(rest, entry, x);
            let k = choose|k: int| 0 <= k < after.len() && after[k] == x;
            assert(q(after[k]));
            let y = found(after, q)->Some_0;
            let m = index_of(after, q)->Some_0;
            assert(q(after[m]) && after.contains(after[m]));
            lemma_push_contains(rest, entry, y);
            lemma_removed(entries, p, y);
            assert(entries.contains(y));
            let n = choose|n: int| 0 <= n < entries.len() && entries[n] == y;
            assert(entries[n].key == entries[i].key);
            if n < i {
                assert(entries[n].key != entries[i].key);
            } else if i < n {
                assert(entries[i].key != entries[n].key);
            }
        } else if let Some(y) = found(after, q) {
            let m = index_of(after, q)->Some_0;
            assert(q(after[m]) && after.contains(after[m]));
            lemma_push_contains(rest, entry, y);
            lemma_removed(entries, p, y);
            assert(entries.contains(y));
            let n = choose|n: int| 0 <= n < entries.len() && entries[n] == y;
            assert(q(entries[n]));
        }
    }
}

/// The writes that hashing a text makes.
pub uninterp spec fn text_writes(text: Seq<char>) -> Seq<Seq<u8>>;

/// `std::hash::Hash::hash` of a `str`: what it writes into a hasher is a function of the text.
#[verifier::external_body]
fn write_text(text: &str, hasher: &mut DefaultHasher)
    ensures
        final(hasher)@ == old(hasher)@ + text_writes(text@),
{
    std::hash::Hash::hash(text, hasher)
}

/// The hash of a text.
pub open spec fn text_hash(text: Seq<char>) -> u64 {
    DefaultHasher::spec_finish(text_writes(text))
}

/// Hashes a text.
pub(crate) fn hash_text(text: &str) -> (r: u64)
    ensures
        r == text_hash(text@),
{
    let mut hasher = DefaultHasher::new();
    write_text(text, &mut hasher);
    assert(hasher@ =~= text_writes(text@));
    hasher.finish()
}

/// The hash of a query, for its key.
pub fn hash_ir(ir: &Json) -> (r: u64)
    ensures
        r == text_hash(rendered(ir@)),
{
    hash_text(ir.render().as_str())
}

} // verus!
