//! What a storage migration promises: which state leads where, what is checked before and after publishing, and
//! what a marker stands for.
use vstd::prelude::*;
use vstd::string::*;
use vstd::utf8::{encode_utf8, encode_utf8_decode_utf8};

use crate::control::access::{token_is, ProjectRowModel};
use crate::digest::{be8, sha256_text};
use crate::event_lake::below;
use crate::migration::{
    advanced, attributed, candidate_fault, extension_is, fingerprint_of, fingerprint_prefix,
    manifest_fault, marker_fault, opened, path_pushed, places, preparation, publication, report_of,
    route_of, row_paths, source_bytes, source_order, source_pushed, sqlite_fault, steps_of, text_order,
    DispositionModel, FilesPresent, FoundMarker, ManifestRowModel, MarkerModel, MetadataModel,
    MigrationFault, MigrationStep, Place, ReportModel, Route, RunModel, SourceModel, StepResult,
};
use crate::rows::{holds_somewhere, law_sorting_keeps_every_row, lemma_index_of, sorted, steps};
use crate::text_effects::law_eight_bytes_hold_a_number;

verus! {

// ── Markers ───────────────────────────────────────────────────────────────────

/// A marker is accepted only for the pair of databases and the source that it was written for, by this migration.
pub proof fn law_foreign_markers_are_refused(
    marker: MarkerModel,
    pair_id: Seq<char>,
    fingerprint: Seq<char>,
)
    requires
        marker.pair_id != pair_id || marker.source_fingerprint != fingerprint || marker.migration
            != "legacy-v1-to-v2"@ || marker.version != 1,
    ensures
        marker_fault(marker, pair_id, fingerprint) is Some,
{
}

/// A migration that is complete is not run again, and says so. Where there is nothing to migrate, nothing is.
pub proof fn law_complete_migrations_are_not_repeated(
    initial: DispositionModel,
    found: Option<FoundMarker>,
    has_legacy: bool,
)
    ensures
        ({
            let r = opened(initial, found, has_legacy);
            &&& initial is ReadyV2 && found is Some && marker_fault(
                found->Some_0.marker@,
                initial->ReadyV2_0.pair_id,
                found->Some_0.source_fingerprint@,
            ) is None ==> r is Ok && r->Ok_0 is Some && r->Ok_0->Some_0.already_complete
                && !r->Ok_0->Some_0.resumed && r->Ok_0->Some_0.pair_id == initial->ReadyV2_0.pair_id
                && r->Ok_0->Some_0.imported is None
            &&& initial is ReadyV2 && found is Some && marker_fault(
                found->Some_0.marker@,
                initial->ReadyV2_0.pair_id,
                found->Some_0.source_fingerprint@,
            ) is Some ==> r is Err
            &&& initial is Fresh ==> r == Err::<Option<ReportModel>, MigrationFault>(
                MigrationFault::NotLegacy(initial),
            )
            &&& !has_legacy && !(initial is ReadyV2) ==> r == Err::<Option<ReportModel>, MigrationFault>(
                MigrationFault::NotLegacy(initial),
            )
            &&& has_legacy && (initial is LegacyOnly || initial is MigrationIncomplete) ==> r == Ok::<
                Option<ReportModel>,
                MigrationFault,
            >(None)
        }),
{
}

// ── Routes ────────────────────────────────────────────────────────────────────

/// A migration that was cut short goes on where it stopped: from two staged databases, from published
/// projections and a staged control database, or from two published ones without a marker.
pub proof fn law_states_lead_on(disposition: DispositionModel, files: FilesPresent)
    ensures
        disposition is LegacyOnly ==> route_of(disposition, files) == Ok::<Route, MigrationFault>(
            Route::Begin,
        ),
        disposition is MigrationIncomplete && !files.control && !files.projections && files.shadow_control
            && files.shadow_projections ==> route_of(disposition, files) == Ok::<Route, MigrationFault>(
            Route::ResumeShadow,
        ),
        disposition is MigrationIncomplete && !files.control && files.projections && files.shadow_control
            && !files.shadow_projections ==> route_of(disposition, files) == Ok::<Route, MigrationFault>(
            Route::ResumePublished,
        ),
        disposition is ReadyV2 && !files.marker ==> route_of(disposition, files) == Ok::<
            Route,
            MigrationFault,
        >(Route::Finish),
        disposition is ReadyV2 && files.marker ==> route_of(disposition, files) is Err,
        disposition is Fresh ==> route_of(disposition, files) is Err,
{
}

/// Before anything is published, what is to be published is filled and frozen: the control data and the manifest
/// of files are there, and both databases are frozen.
pub proof fn law_everything_is_prepared_before_publishing(route: Route, p: int)
    requires
        0 <= p < steps_of(route).len(),
        steps_of(route)[p] == MigrationStep::PublishProjections || steps_of(route)[p]
            == MigrationStep::PublishControl,
    ensures
        exists|i: int|
            0 <= i < p && #[trigger] steps_of(route)[i] == MigrationStep::ImportControl(places(route).0),
        exists|i: int|
            0 <= i < p && #[trigger] steps_of(route)[i] == MigrationStep::RecordPrepared(places(route).0),
        exists|i: int|
            0 <= i < p && #[trigger] steps_of(route)[i] == MigrationStep::EnsureManifest(places(route).1),
        exists|i: int|
            0 <= i < p && #[trigger] steps_of(route)[i] == MigrationStep::FreezeControl(places(route).0),
        exists|i: int|
            0 <= i < p && #[trigger] steps_of(route)[i] == MigrationStep::FreezeProjections(places(route).1),
{
    let all = steps_of(route);
    let ready = preparation(route);
    let rest = publication(places(route).0, places(route).1);
    match route {
        Route::Finish => {
            assert(ready.len() == 5 && rest.len() == 8);
            assert(all[0] == ready[0] && all[1] == ready[1] && all[2] == ready[2] && all[3] == ready[3]
                && all[4] == ready[4]);
            assert(all[5] == rest[0] && all[6] == rest[1] && all[7] == rest[2] && all[8] == rest[3]
                && all[9] == rest[4] && all[10] == rest[5] && all[11] == rest[6] && all[12] == rest[7]);
        },
        _ => {
            assert(ready.len() == 6);
            assert(all[0] == ready[0] && all[1] == ready[1] && all[2] == ready[2] && all[3] == ready[3]
                && all[4] == ready[4] && all[5] == ready[5]);
            assert(all[1] == MigrationStep::ImportControl(places(route).0));
            assert(all[2] == MigrationStep::RecordPrepared(places(route).0));
            assert(all[3] == MigrationStep::EnsureManifest(places(route).1));
            assert(all[4] == MigrationStep::FreezeControl(places(route).0));
            assert(all[5] == MigrationStep::FreezeProjections(places(route).1));
        },
    }
}

/// The marker comes after everything that was published has been checked again: the databases, their content, the
/// manifest of files, and the source.
pub proof fn law_markers_come_after_every_check(route: Route)
    ensures
        ({
            let all = steps_of(route);
            let n = all.len() as int;
            &&& n >= 5
            &&& all[n - 1] == MigrationStep::WriteMarker
            &&& all[n - 2] == MigrationStep::VerifySource
            &&& all[n - 3] == MigrationStep::ValidateManifest
            &&& all[n - 4] == (MigrationStep::ValidateCandidate {
                control: Place::Published,
                projections: Place::Published,
            })
            &&& all[n - 5] == MigrationStep::ValidatePublished
        }),
{
}

/// A failed step ends a run with its fault. Every other step leads to the next, and keeps what is known; metadata
/// that changes after publishing ends it too.
pub proof fn law_runs_advance_step_by_step(run: RunModel, result: StepResult)
    ensures
        ({
            let r = advanced(run, result);
            &&& result is Failed ==> r is Err && r->Err_0 == result->Failed_0@
            &&& r is Ok ==> r->Ok_0.at == run.at + 1 && r->Ok_0.steps == run.steps
                && r->Ok_0.discovered_tokens == run.discovered_tokens && r->Ok_0.source_fingerprint
                == run.source_fingerprint && r->Ok_0.resumed == run.resumed
            &&& result is Done ==> r is Ok && r->Ok_0.metadata == run.metadata && r->Ok_0.imported
                == run.imported
            &&& result is Imported ==> r is Ok && r->Ok_0.imported == Some(result->Imported_0)
            &&& result is Metadata && run.steps[run.at] == MigrationStep::ValidatePublished && run.metadata
                != Some(result->Metadata_0@) ==> r is Err
            &&& result is Metadata && run.steps[run.at] != MigrationStep::ValidatePublished ==> r is Ok
                && r->Ok_0.metadata == Some(result->Metadata_0@)
        }),
{
}

/// A migration is reported once all its steps are done, and not before.
pub proof fn law_only_finished_runs_are_reported(run: RunModel)
    ensures
        run.at < run.steps.len() ==> report_of(run) is None,
        run.at >= run.steps.len() && run.metadata is Some ==> report_of(run) is Some && report_of(
            run,
        )->Some_0.pair_id == run.metadata->Some_0.pair_id && report_of(run)->Some_0.discovered_tokens
            == run.discovered_tokens && report_of(run)->Some_0.source_fingerprint == run.source_fingerprint
            && report_of(run)->Some_0.resumed == run.resumed && report_of(run)->Some_0.imported
            == run.imported && !report_of(run)->Some_0.already_complete,
{
}

// ── Checks ────────────────────────────────────────────────────────────────────

/// Two candidate databases pass exactly if they are the pair that was prepared, both are whole, the record of the
/// preparation is theirs and counts every token, and every token has a project.
pub proof fn law_candidates_are_whole(
    actual: MetadataModel,
    expected: MetadataModel,
    control: Option<MigrationFault>,
    projections: Option<MigrationFault>,
    prepared: Option<(Seq<char>, i64)>,
    projects: Seq<ProjectRowModel>,
    tokens: Seq<Seq<char>>,
)
    ensures
        candidate_fault(actual, expected, control, projections, prepared, projects, tokens) is None <==> {
            &&& actual == expected
            &&& control is None
            &&& projections is None
            &&& prepared is Some
            &&& prepared->Some_0.0 == expected.pair_id
            &&& prepared->Some_0.1 == tokens.len()
            &&& forall|i: int|
                #![trigger tokens[i]]
                0 <= i < tokens.len() ==> exists|k: int|
                    0 <= k < projects.len() && (#[trigger] projects[k]).capture_token == tokens[i]
        },
{
    assert forall|i: int| #![trigger tokens[i]] 0 <= i < tokens.len() implies (holds_somewhere(
        projects,
        token_is(tokens[i]),
    ) <==> exists|k: int| 0 <= k < projects.len() && (#[trigger] projects[k]).capture_token == tokens[i]) by {
        let p = token_is(tokens[i]);
        lemma_index_of(projects, p);
        if holds_somewhere(projects, p) {
            let k = crate::rows::index_of(projects, p)->Some_0;
            assert(p(projects[k]));
            assert(projects[k].capture_token == tokens[i]);
        }
        if exists|k: int| 0 <= k < projects.len() && (#[trigger] projects[k]).capture_token == tokens[i] {
            let k = choose|k: int|
                0 <= k < projects.len() && (#[trigger] projects[k]).capture_token == tokens[i];
            assert(p(projects[k]));
        }
    }
}

/// A database passes exactly if its integrity check says so and no reference dangles.
pub proof fn law_databases_are_whole(
    path: Seq<char>,
    integrity: Seq<char>,
    violation: Option<Seq<char>>,
)
    ensures
        sqlite_fault(path, integrity, violation) is None <==> integrity == "ok"@ && violation is None,
{
}

proof fn lemma_below_all(root: Seq<char>, files: Seq<Seq<char>>)
    ensures
        match steps(Seq::<Seq<char>>::empty(), files, path_pushed(root)) {
            Ok(paths) => paths.len() == files.len() && forall|i: int|
                0 <= i < files.len() ==> below(root, #[trigger] files[i]) == Some(paths[i]),
            Err(_) => exists|i: int| 0 <= i < files.len() && below(root, #[trigger] files[i]) is None,
        },
    decreases files.len(),
{
    if files.len() > 0 {
        let rest = files.drop_last();
        lemma_below_all(root, rest);
        match steps(Seq::<Seq<char>>::empty(), rest, path_pushed(root)) {
            Ok(before) => {
                assert(files[files.len() - 1] == files.last());
                match steps(Seq::<Seq<char>>::empty(), files, path_pushed(root)) {
                    Ok(paths) => {
                        assert forall|i: int| 0 <= i < files.len() implies below(root, #[trigger] files[i])
                            == Some(paths[i]) by {
                            if i < rest.len() {
                                assert(rest[i] == files[i]);
                                assert(paths[i] == before[i]);
                            }
                        }
                    },
                    Err(_) => {},
                }
            },
            Err(_) => {
                let i = choose|i: int| 0 <= i < rest.len() && below(root, #[trigger] rest[i]) is None;
                assert(files[i] == rest[i]);
            },
        }
    }
}

/// A manifest of old files passes only if it lists exactly those files, each as often as it is there, and gives
/// none of them to a project.
pub proof fn law_manifests_cover_the_source(
    generation: i64,
    root: Seq<char>,
    files: Seq<Seq<char>>,
    rows: Seq<ManifestRowModel>,
    paths: Seq<Seq<char>>,
    i: int,
)
    requires
        manifest_fault(generation, root, files, rows) is None,
        files.len() > 0 || generation != 0,
        paths.len() == files.len(),
        forall|k: int| 0 <= k < files.len() ==> below(root, #[trigger] files[k]) == Some(paths[k]),
    ensures
        row_paths(rows).to_multiset() == paths.to_multiset(),
        0 <= i < rows.len() ==> rows[i].project_id is None && rows[i].partition_day is None,
{
    lemma_below_all(root, files);
    let expected = steps(Seq::<Seq<char>>::empty(), files, path_pushed(root))->Ok_0;
    assert(expected =~= paths) by {
        assert forall|k: int| 0 <= k < files.len() implies expected[k] == paths[k] by {
            assert(below(root, files[k]) == Some(expected[k]));
        }
    }
    law_sorting_keeps_every_row(row_paths(rows), text_order());
    law_sorting_keeps_every_row(paths, text_order());
    if 0 <= i < rows.len() {
        assert(!attributed(rows[i]));
    }
}

// ── Fingerprints ──────────────────────────────────────────────────────────────

proof fn lemma_taken_apart(head: Seq<u8>, name: Seq<u8>, size: Seq<u8>, content: Seq<u8>)
    requires
        head.len() == 8,
        size.len() == 8,
    ensures
        ({
            let all = head + name + size + content + seq![255u8];
            &&& all.subrange(0, 8) == head
            &&& all.subrange(8, 8 + name.len() as int) == name
            &&& all.subrange(16 + name.len() as int, all.len() - 1) == content
        }),
{
    let all = head + name + size + content + seq![255u8];
    assert(all.subrange(0, 8) =~= head);
    assert(all.subrange(8, 8 + name.len() as int) =~= name);
    assert(all.subrange(16 + name.len() as int, all.len() - 1) =~= content);
}

proof fn lemma_told_apart(name: Seq<u8>, content: Seq<u8>, other: Seq<u8>, others: Seq<u8>, n: int, m: int)
    requires
        name.len() < 0x1_0000_0000_0000_0000,
        other.len() < 0x1_0000_0000_0000_0000,
        be8(name.len() as int) + name + be8(n) + content + seq![255u8] == be8(other.len() as int) + other
            + be8(m) + others + seq![255u8],
    ensures
        name == other,
        content == others,
{
    law_eight_bytes_hold_a_number(name.len() as int);
    law_eight_bytes_hold_a_number(other.len() as int);
    lemma_taken_apart(be8(name.len() as int), name, be8(n), content);
    lemma_taken_apart(be8(other.len() as int), other, be8(m), others);
}

/// Two files of a source give the same bytes only if they are under the same path with the same content.
pub proof fn law_sources_are_told_apart(data_dir: Seq<char>, a: SourceModel, b: SourceModel)
    requires
        source_bytes(data_dir, a) is Ok,
        source_bytes(data_dir, a) == source_bytes(data_dir, b),
        encode_utf8(below(data_dir, a.path)->Some_0).len() < 0x1_0000_0000_0000_0000,
        encode_utf8(below(data_dir, b.path)->Some_0).len() < 0x1_0000_0000_0000_0000,
    ensures
        below(data_dir, a.path) == below(data_dir, b.path),
        a.content == b.content,
{
    let p = encode_utf8(below(data_dir, a.path)->Some_0);
    let q = encode_utf8(below(data_dir, b.path)->Some_0);
    lemma_told_apart(p, a.content, q, b.content, a.before.length as int, b.before.length as int);
    encode_utf8_decode_utf8(below(data_dir, a.path)->Some_0);
    encode_utf8_decode_utf8(below(data_dir, b.path)->Some_0);
}

/// A file of a source counts only if it is a regular file of the data directory that stays the same while it is
/// read.
pub proof fn law_sources_are_regular_files(data_dir: Seq<char>, file: SourceModel)
    requires
        source_bytes(data_dir, file) is Ok,
    ensures
        below(data_dir, file.path) is Some,
        !file.before.is_symlink && file.before.is_file,
        !file.after.is_symlink && file.after.is_file,
        file.before.length == file.content.len(),
        file.after.length == file.content.len(),
{
}

/// The fingerprint of a source is the digest of a name of its own and of its files; a source of one file is told
/// by that file.
pub proof fn law_fingerprints_cover_the_files(data_dir: Seq<char>, file: SourceModel)
    ensures
        source_bytes(data_dir, file) is Ok ==> fingerprint_of(data_dir, seq![file]) == Ok::<
            Seq<char>,
            MigrationFault,
        >(
            sha256_text(
                encode_utf8("hoglet-legacy-source-v1"@) + seq![0u8] + source_bytes(data_dir, file)->Ok_0,
            ),
        ),
        source_bytes(data_dir, file) is Err ==> fingerprint_of(data_dir, seq![file]) is Err,
        fingerprint_of(data_dir, Seq::empty()) == Ok::<Seq<char>, MigrationFault>(
            sha256_text(encode_utf8("hoglet-legacy-source-v1"@) + seq![0u8]),
        ),
{
    let one = seq![file];
    let start = (fingerprint_prefix(), None::<Seq<char>>);
    assert(one.drop_last() =~= Seq::<SourceModel>::empty());
    assert(one.last() == file);
    let order = source_order();
    assert(sorted(one.drop_last(), order) =~= Seq::<SourceModel>::empty());
    assert(sorted(one, order) =~= one);
    assert(steps(start, one.drop_last(), source_pushed(data_dir)) == Ok::<
        (Seq<u8>, Option<Seq<char>>),
        MigrationFault,
    >(start));
    let none = Seq::<SourceModel>::empty();
    assert(sorted(none, order) =~= none);
}

// ── Names ─────────────────────────────────────────────────────────────────────

/// A file has an extension exactly if its name is something, a full stop, and that extension.
pub proof fn law_extensions_follow_a_full_stop(stem: Seq<char>, extension: Seq<char>, name: Seq<char>)
    requires
        !extension.contains('.'),
    ensures
        stem.len() > 0 ==> extension_is(stem + seq!['.'] + extension, extension),
        extension_is(name, extension) ==> name == name.take(name.len() - extension.len() - 1) + seq!['.']
            + extension,
{
    let whole = stem + seq!['.'] + extension;
    let n = whole.len() - extension.len() - 1;
    assert(whole[n] == '.');
    assert(whole.subrange(n + 1, whole.len() as int) =~= extension);
    if extension_is(name, extension) {
        let k = name.len() - extension.len() - 1;
        assert(name =~= name.take(k) + seq!['.'] + name.subrange(k + 1, name.len() as int));
    }
}

} // verus!
