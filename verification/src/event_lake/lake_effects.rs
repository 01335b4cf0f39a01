//! What the event lake promises of publications: which files they show, which they refuse, and what is stored of
//! them.
use vstd::prelude::*;
use vstd::string::*;
use vstd::utf8::{encode_utf8, encode_utf8_decode_utf8};

use crate::digest::{be8, sha256_text, twos};
use crate::event_lake::versions::{file_loaded, files_loaded, published, LakeModel, LoadedModel};
use crate::event_lake::{
    all_normal, below, blank_scope, candidate_of, components, count_bytes, file_bytes, file_checked,
    manifest_bytes, manifest_of, metadata_persisted, scope_bytes, scope_fault, stored_by_id,
    stored_by_path, stored_of, CandidateModel, FileModel, FileObservation, LakeFault, PreparedModel,
    ScopeModel, StoredModel,
};
use crate::text::blank;
use crate::text_effects::law_eight_bytes_hold_a_number;

verus! {

// ── What is published ─────────────────────────────────────────────────────────

proof fn lemma_manifest(candidates: Seq<CandidateModel>, i: int)
    requires
        manifest_of(candidates) is Ok,
        0 <= i < candidates.len(),
    ensures
        manifest_of(candidates)->Ok_0.len() == candidates.len(),
        candidates[i].outcome == Ok::<PreparedModel, LakeFault>(manifest_of(candidates)->Ok_0[i]),
        !blank_scope(candidates[i].scope),
    decreases candidates.len(),
{
    let rest = candidates.drop_last();
    if i < candidates.len() - 1 {
        lemma_manifest(rest, i);
        assert(rest[i] == candidates[i]);
    } else if rest.len() > 0 {
        lemma_manifest(rest, 0);
    }
}

/// A publication shows every file that was given to it, in order, and nothing else.
pub proof fn law_publications_show_every_file(lake: LakeModel, candidates: Seq<CandidateModel>, i: int)
    requires
        published(lake, candidates) is Ok,
    ensures
        ({
            let next = published(lake, candidates)->Ok_0;
            &&& next.visible.len() == candidates.len()
            &&& 0 <= i < candidates.len() ==> {
                &&& candidates[i].outcome is Ok
                &&& next.visible[i].path == candidates[i].outcome->Ok_0.absolute_path
                &&& next.visible[i].scope == candidates[i].outcome->Ok_0.scope
                &&& next.manifests.last().file_ids.len() == candidates.len()
                &&& next.manifests.last().file_ids[i] == candidates[i].outcome->Ok_0.file_id
            }
        }),
{
    if 0 <= i < candidates.len() {
        lemma_manifest(candidates, i);
    } else if candidates.len() > 0 {
        lemma_manifest(candidates, 0);
    }
}

/// One file that cannot be published, has no project, or repeats a path or the content of another, has the whole
/// publication refused.
pub proof fn law_one_bad_file_refuses_a_publication(
    lake: LakeModel,
    candidates: Seq<CandidateModel>,
    i: int,
    j: int,
)
    requires
        0 <= i < candidates.len(),
        0 <= j < i,
        candidates[i].outcome is Err || (candidates[i].scope is ProjectDate && blank(
            candidates[i].scope->ProjectDate_0,
        )) || (candidates[i].outcome is Ok && candidates[j].outcome is Ok && (
        candidates[i].outcome->Ok_0.relative_path == candidates[j].outcome->Ok_0.relative_path
            || candidates[i].outcome->Ok_0.file_id == candidates[j].outcome->Ok_0.file_id)),
    ensures
        published(lake, candidates) is Err,
{
    if manifest_of(candidates) is Ok {
        lemma_manifest(candidates, i);
        lemma_manifest(candidates, j);
        crate::event_lake::law_manifests_have_no_duplicates(candidates);
        let files = manifest_of(candidates)->Ok_0;
        assert(files[j].relative_path != files[i].relative_path && files[j].file_id != files[i].file_id);
    }
}

/// Files that can be published, each with a path and content of its own, make a manifest.
pub proof fn law_good_files_make_a_manifest(candidates: Seq<CandidateModel>)
    requires
        forall|i: int|
            0 <= i < candidates.len() ==> (#[trigger] candidates[i]).outcome is Ok && !(
            candidates[i].scope is ProjectDate && blank(candidates[i].scope->ProjectDate_0)),
        forall|i: int, j: int|
            0 <= i < j < candidates.len() ==> (#[trigger] candidates[i]).outcome->Ok_0.relative_path != (
            #[trigger] candidates[j]).outcome->Ok_0.relative_path && candidates[i].outcome->Ok_0.file_id
                != candidates[j].outcome->Ok_0.file_id,
    ensures
        manifest_of(candidates) is Ok,
    decreases candidates.len(),
{
    if candidates.len() > 0 {
        let rest = candidates.drop_last();
        let last = candidates.len() - 1;
        assert forall|i: int| 0 <= i < rest.len() implies (#[trigger] rest[i]).outcome is Ok && !(
        rest[i].scope is ProjectDate && blank(rest[i].scope->ProjectDate_0)) by {
            assert(rest[i] == candidates[i]);
        }
        assert forall|i: int, j: int| 0 <= i < j < rest.len() implies (
        #[trigger] rest[i]).outcome->Ok_0.relative_path != (#[trigger] rest[j]).outcome->Ok_0.relative_path
            && rest[i].outcome->Ok_0.file_id != rest[j].outcome->Ok_0.file_id by {
            assert(rest[i] == candidates[i] && rest[j] == candidates[j]);
        }
        law_good_files_make_a_manifest(rest);
        let files = manifest_of(rest)->Ok_0;
        let file = candidates[last].outcome->Ok_0;
        if rest.len() > 0 {
            lemma_manifest(rest, 0);
        }
        assert forall|i: int| 0 <= i < files.len() implies (#[trigger] files[i]).relative_path
            != file.relative_path && files[i].file_id != file.file_id by {
            lemma_manifest(rest, i);
            assert(rest[i] == candidates[i]);
            assert(candidates[i].outcome->Ok_0 == files[i]);
        }
        assert(candidates[last] == candidates.last());
    }
}

// ── One file ──────────────────────────────────────────────────────────────────

/// A file is published only if it is a regular file below the root, not reached over a link or over a step out of
/// it, and the same while it is read. It is known by the digest of its content.
pub proof fn law_published_files_are_safe(root: Seq<char>, o: FileObservation, scope: ScopeModel, i: int)
    requires
        file_checked(root, o, scope) is Ok,
    ensures
        ({
            let file = file_checked(root, o, scope)->Ok_0;
            &&& !o.requested.is_symlink && o.requested.is_file && o.opened.is_file
            &&& !o.current.is_symlink && o.current.is_file
            &&& o.current_path@ == o.absolute_path@
            &&& o.opened.length == o.content@.len() && o.current.length == o.content@.len()
            &&& file.absolute_path == o.absolute_path@
            &&& file.relative_path.len() > 0
            &&& root.len() > 0 && root.last() != '/' ==> file.absolute_path == root + "/"@
                + file.relative_path
            &&& root.len() > 0 && root.last() == '/' ==> file.absolute_path == root + file.relative_path
            &&& 0 <= i < components(file.relative_path).len() ==> components(file.relative_path)[i] != ".."@
                && components(file.relative_path)[i] != "."@ && components(file.relative_path)[i].len() > 0
            &&& file.file_id == sha256_text(o.content@) && file.sha256 == sha256_text(o.content@)
            &&& file.size_bytes == o.content@.len()
            &&& file.scope == scope
            &&& file.row_count is None
        }),
{
    let path = o.absolute_path@;
    let stem = if root.len() > 0 && root.last() == '/' {
        root
    } else {
        root + "/"@
    };
    let relative = below(root, path)->Some_0;
    assert(path.take(stem.len() as int) + path.skip(stem.len() as int) =~= path);
    assert(stem + relative == path);
    if 0 <= i < components(relative).len() {
        assert(crate::event_lake::normal(components(relative)[i]));
    }
}

/// A regular file below the root that stays the same is published.
pub proof fn law_safe_files_are_published(
    root: Seq<char>,
    relative: Seq<char>,
    o: FileObservation,
    scope: ScopeModel,
)
    requires
        root.len() > 0,
        root.last() != '/',
        relative.len() > 0,
        all_normal(relative),
        o.absolute_path@ == root + "/"@ + relative,
        !o.requested.is_symlink && o.requested.is_file && o.opened.is_file,
        !o.current.is_symlink && o.current.is_file,
        o.current_path@ == o.absolute_path@,
        o.opened.length == o.content@.len(),
        o.current.length == o.content@.len(),
        o.content@.len() <= i64::MAX,
    ensures
        file_checked(root, o, scope) is Ok,
        file_checked(root, o, scope)->Ok_0.relative_path == relative,
{
    let stem = root + "/"@;
    let path = o.absolute_path@;
    reveal_strlit("/");
    assert(path.take(stem.len() as int) =~= stem);
    assert(path.skip(stem.len() as int) =~= relative);
    assert(path != root) by {
        assert(path.len() > root.len());
    }
}

/// A path that does not begin at the top is taken from the root on.
pub proof fn law_paths_are_taken_from_the_root(root: Seq<char>, path: Seq<char>)
    requires
        path.len() > 0,
    ensures
        path[0] == '/' ==> candidate_of(root, path) == path,
        path[0] != '/' && root.len() > 0 && root.last() == '/' ==> candidate_of(root, path) == root + path,
        path[0] != '/' && root.len() > 0 && root.last() != '/' ==> candidate_of(root, path) == root + "/"@
            + path,
{
}

/// A query names a project, and days of which the first comes before the end.
pub proof fn law_queries_name_a_project_and_days(project: Seq<char>, start: i32, end: i32)
    ensures
        scope_fault(project, start, end) is None <==> !blank(project) && start < end,
{
}

// ── What is stored ────────────────────────────────────────────────────────────

proof fn lemma_stored(stored: Seq<StoredModel>, id: Seq<char>, path: Seq<char>)
    ensures
        match stored_by_id(stored, id) {
            Some(row) => row.id == id && stored.contains(row),
            None => forall|i: int| 0 <= i < stored.len() ==> (#[trigger] stored[i]).id != id,
        },
        match stored_by_path(stored, path) {
            Some(row) => row.relative_path == path && stored.contains(row),
            None => forall|i: int| 0 <= i < stored.len() ==> (#[trigger] stored[i]).relative_path != path,
        },
    decreases stored.len(),
{
    if stored.len() > 0 {
        let rest = stored.drop_last();
        lemma_stored(rest, id, path);
        assert(stored[stored.len() - 1] == stored.last());
        if let Some(row) = stored_by_id(rest, id) {
            let k = choose|k: int| 0 <= k < rest.len() && rest[k] == row;
            assert(stored[k] == row);
        } else if stored.last().id != id {
            assert forall|i: int| 0 <= i < stored.len() implies (#[trigger] stored[i]).id != id by {
                if i < rest.len() {
                    assert(rest[i] == stored[i]);
                }
            }
        }
        if let Some(row) = stored_by_path(rest, path) {
            let k = choose|k: int| 0 <= k < rest.len() && rest[k] == row;
            assert(stored[k] == row);
        } else if stored.last().relative_path != path {
            assert forall|i: int| 0 <= i < stored.len() implies (#[trigger] stored[i]).relative_path
                != path by {
                if i < rest.len() {
                    assert(rest[i] == stored[i]);
                }
            }
        }
    }
}

/// What is stored of a file never changes: content that is known is stored once, as it was, and a path is never
/// given to other content.
pub proof fn law_stored_files_never_change(stored: Seq<StoredModel>, file: PreparedModel)
    ensures
        ({
            let r = metadata_persisted(stored, file);
            let known = exists|i: int| 0 <= i < stored.len() && (#[trigger] stored[i]).id == file.file_id;
            let placed = exists|i: int|
                0 <= i < stored.len() && (#[trigger] stored[i]).relative_path == file.relative_path;
            &&& !known && !placed ==> r == Ok::<Seq<StoredModel>, LakeFault>(
                stored.push(stored_of(file)),
            )
            &&& !known && placed ==> r is Err
            &&& known && r is Ok ==> r->Ok_0 == stored && stored.contains(stored_of(file))
            &&& known && !stored.contains(stored_of(file)) ==> r is Err
        }),
{
    lemma_stored(stored, file.file_id, file.relative_path);
    if let Some(row) = stored_by_id(stored, file.file_id) {
        let k = choose|k: int| 0 <= k < stored.len() && stored[k] == row;
        assert(stored[k].id == file.file_id);
    }
    if let Some(row) = stored_by_path(stored, file.relative_path) {
        let k = choose|k: int| 0 <= k < stored.len() && stored[k] == row;
        assert(stored[k].relative_path == file.relative_path);
    }
}

/// What is stored of a file says what it is: its content, its path, its size, and whose and of which day it is.
pub proof fn law_stored_files_say_what_they_are(file: PreparedModel)
    ensures
        ({
            let row = stored_of(file);
            &&& row.id == file.file_id && row.sha256 == file.sha256
            &&& row.relative_path == file.relative_path
            &&& row.size_bytes == file.size_bytes && row.row_count == file.row_count
            &&& file.scope is ProjectDate ==> row.project_id == Some(file.scope->ProjectDate_0)
                && row.partition_day == Some(crate::event_lake::day_text(file.scope->ProjectDate_1))
            &&& file.scope is LegacyUnknown ==> row.project_id is None && row.partition_day is None
        }),
{
}

/// The files of a generation are loaded in order, all or none, and none whose content is not what was stored.
pub proof fn law_generations_load_whole(rows: Seq<LoadedModel>, i: int)
    requires
        files_loaded(rows) is Ok,
    ensures
        files_loaded(rows)->Ok_0.len() == rows.len(),
        0 <= i < rows.len() ==> {
            let stored = rows[i].metadata;
            let file = rows[i].outcome;
            &&& file_loaded(rows[i]) == Ok::<FileModel, LakeFault>(files_loaded(rows)->Ok_0[i])
            &&& file is Ok
            &&& file->Ok_0.file_id == stored.id && file->Ok_0.sha256 == stored.sha256
                && file->Ok_0.relative_path == stored.relative_path && file->Ok_0.size_bytes
                == stored.size_bytes
            &&& files_loaded(rows)->Ok_0[i].path == file->Ok_0.absolute_path
        },
    decreases rows.len(),
{
    if rows.len() > 0 {
        let rest = rows.drop_last();
        if i < rest.len() {
            law_generations_load_whole(rest, i);
            if 0 <= i {
                assert(rest[i] == rows[i]);
            }
        } else {
            law_generations_load_whole(rest, 0);
        }
    }
}

// ── Checksums ─────────────────────────────────────────────────────────────────

/// A manifest is the bytes of its files, one after another.
pub proof fn law_manifests_are_their_files(files: Seq<PreparedModel>, file: PreparedModel)
    ensures
        manifest_bytes(files.push(file)) == manifest_bytes(files) + file_bytes(file),
        manifest_bytes(Seq::empty()) == Seq::<u8>::empty(),
{
    assert(files.push(file).drop_last() =~= files);
}

proof fn lemma_middle(before: Seq<u8>, a: Seq<u8>, b: Seq<u8>, after: Seq<u8>)
    requires
        before + a + after == before + b + after,
    ensures
        a == b,
{
    let x = before + a + after;
    let y = before + b + after;
    assert(x.len() == before.len() + a.len() + after.len());
    assert(y.len() == before.len() + b.len() + after.len());
    assert(x.subrange(before.len() as int, (before.len() + a.len()) as int) =~= a);
    assert(y.subrange(before.len() as int, (before.len() + b.len()) as int) =~= b);
}

/// Two manifests tell apart a file under another path, of another project or day, of another size, or of another
/// count.
pub proof fn law_checksums_cover_every_field(
    f: PreparedModel,
    path: Seq<char>,
    scope: ScopeModel,
    size: i64,
    count: Option<i64>,
)
    ensures
        file_bytes(f) == file_bytes(PreparedModel { relative_path: path, ..f }) ==> path
            == f.relative_path,
        file_bytes(f) == file_bytes(PreparedModel { scope, ..f }) ==> scope_bytes(scope) == scope_bytes(
            f.scope,
        ),
        file_bytes(f) == file_bytes(PreparedModel { size_bytes: size, ..f }) ==> size == f.size_bytes,
        file_bytes(f) == file_bytes(PreparedModel { row_count: count, ..f }) ==> count == f.row_count,
{
    let zero = seq![0u8];
    let id = encode_utf8(f.file_id) + zero;
    let p = encode_utf8(f.relative_path);
    let s = scope_bytes(f.scope);
    let n = be8(twos(f.size_bytes as int));
    let c = count_bytes(f.row_count);
    let end = seq![255u8];
    assert(file_bytes(f) =~= id + p + (zero + s + zero + n + c + end));
    assert(file_bytes(f) =~= (id + p + zero) + s + (zero + n + c + end));
    assert(file_bytes(f) =~= (id + p + zero + s + zero) + n + (c + end));
    assert(file_bytes(f) =~= (id + p + zero + s + zero + n) + c + end);
    let q = encode_utf8(path);
    assert(file_bytes(PreparedModel { relative_path: path, ..f }) =~= id + q + (zero + s + zero + n + c
        + end));
    if file_bytes(f) == file_bytes(PreparedModel { relative_path: path, ..f }) {
        lemma_middle(id, p, q, zero + s + zero + n + c + end);
        encode_utf8_decode_utf8(path);
        encode_utf8_decode_utf8(f.relative_path);
    }
    let t = scope_bytes(scope);
    assert(file_bytes(PreparedModel { scope, ..f }) =~= (id + p + zero) + t + (zero + n + c + end));
    if file_bytes(f) == file_bytes(PreparedModel { scope, ..f }) {
        lemma_middle(id + p + zero, s, t, zero + n + c + end);
    }
    let k = be8(twos(size as int));
    assert(file_bytes(PreparedModel { size_bytes: size, ..f }) =~= (id + p + zero + s + zero) + k + (c
        + end));
    if file_bytes(f) == file_bytes(PreparedModel { size_bytes: size, ..f }) {
        lemma_middle(id + p + zero + s + zero, n, k, c + end);
        law_eight_bytes_hold_a_number(twos(f.size_bytes as int));
        law_eight_bytes_hold_a_number(twos(size as int));
    }
    let d = count_bytes(count);
    assert(file_bytes(PreparedModel { row_count: count, ..f }) =~= (id + p + zero + s + zero + n) + d + end);
    if file_bytes(f) == file_bytes(PreparedModel { row_count: count, ..f }) {
        lemma_middle(id + p + zero + s + zero + n, c, d, end);
        lemma_counts(f.row_count, count);
    }
}

proof fn lemma_counts(a: Option<i64>, b: Option<i64>)
    requires
        count_bytes(a) == count_bytes(b),
    ensures
        a == b,
{
    let x = count_bytes(a);
    let y = count_bytes(b);
    if a is Some {
        law_eight_bytes_hold_a_number(twos(a->Some_0 as int));
    }
    if b is Some {
        law_eight_bytes_hold_a_number(twos(b->Some_0 as int));
    }
    assert(x[0] == y[0]);
    if a is Some && b is Some {
        assert(x.skip(1) =~= be8(twos(a->Some_0 as int)));
        assert(y.skip(1) =~= be8(twos(b->Some_0 as int)));
    }
}

} // verus!
