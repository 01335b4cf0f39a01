//! What flushing, starting, asking the catalog and handling commands do.
use vstd::prelude::*;
use vstd::string::*;

use crate::application::{limit_of, startup_fault, PairFiles};
use crate::capture::event::{CapturedEvent, EventModel};
use crate::catalog_effects::{law_frequent_rows_come_first, law_matching_misses_nothing};
use crate::control::access::{
    law_closed_sessions_are_refused, session_is, ControlModel, Fresh, KeyRowModel,
    SessionRowModel,
};
use crate::control::access_effects::{
    law_logging_in_opens_a_session, law_managers_make_projects, law_only_open_sessions_let_in,
    law_tokens_are_for_their_project, law_users_revoke_own_keys,
};
use crate::control::grants::law_new_keys_authenticate;
use crate::control::worker::{handled, Command, Moment, ReplyModel};
use crate::control::{
    AccessFault, Authentication, CaptureModel, LoginRequest, Principal, PrincipalModel,
};
use crate::counters::{
    begins_with, escaped_text, law_escaped_prefix_is_literal, matching, ByCount, CountRowModel,
};
use crate::flush::{all_events, event_of, fatal, flush_steps, FlushStep};
use crate::migration::DispositionModel;
use crate::order::{first, law_ranking_keeps_every_item, ranked, views};
use crate::projection_catalog::{key_models, names_found};
use crate::rows::{lemma_removed, lemma_selected, selected};
use crate::text::{decimal, digits};
use crate::text_effects::lemma_decimal_reads_back;

verus! {

// ── Flushing ──────────────────────────────────────────────────────────────────

/// A flush covers the events of each segment, segment by segment.
pub proof fn law_segments_are_flushed_in_turn(segments: Seq<Vec<CapturedEvent>>, last: Vec<CapturedEvent>, s: int, i: int)
    ensures
        all_events(segments.push(last)) == all_events(segments) + views(last@),
        all_events(Seq::<Vec<CapturedEvent>>::empty()).len() == 0,
        0 <= s < segments.len() && 0 <= i < segments[s]@.len() ==> all_events(segments).contains(
            segments[s]@[i]@,
        ),
    decreases segments.len(),
{
    assert(segments.push(last).drop_last() =~= segments);
    if segments.len() > 0 {
        let rest = segments.drop_last();
        let end = segments.last();
        law_segments_are_flushed_in_turn(rest, end, s, i);
        let all = all_events(rest) + views(end@);
        if 0 <= s < segments.len() && 0 <= i < segments[s]@.len() {
            let event = segments[s]@[i]@;
            if s < rest.len() {
                let k = choose|k: int| 0 <= k < all_events(rest).len() && all_events(rest)[k] == event;
                assert(all[k] == event);
            } else {
                assert(views(end@)[i] == event);
                assert(all[all_events(rest).len() + i] == event);
            }
        }
    }
}

/// A token's events are those that carry it.
pub proof fn law_tokens_get_their_own_events(events: Seq<EventModel>, token: Seq<char>, event: EventModel)
    ensures
        selected(events, event_of(token)).contains(event) <==> events.contains(event) && event.token == token,
{
    lemma_selected(events, event_of(token), event);
}

/// A flush that could not write, remove a segment or compact stops; what only serves the catalog or the sessions
/// does not stop it.
pub proof fn law_failures_that_lose_events_stop_the_flush(place: usize)
    ensures
        fatal(FlushStep::Write),
        fatal(FlushStep::Remove(place)),
        fatal(FlushStep::Compact),
        !fatal(FlushStep::Catalog(place)),
        !fatal(FlushStep::Sessions(place)),
{
}

/// Each token's catalog and sessions are brought up to date where they are kept, a compaction ends the flush, and
/// without events only segments are removed.
pub proof fn law_flushes_bring_everything_up_to_date(
    segments: nat,
    events: nat,
    tokens: nat,
    catalog: bool,
    session: bool,
    place: usize,
    i: int,
)
    ensures
        ({
            let steps = flush_steps(segments, events, tokens, catalog, session);
            &&& place < tokens && events > 0 && catalog ==> steps.contains(FlushStep::Catalog(place))
            &&& place < tokens && events > 0 && session ==> steps.contains(FlushStep::Sessions(place))
            &&& events > 0 ==> steps.len() > 0 && steps[0] == FlushStep::Write && steps.last()
                == FlushStep::Compact
            &&& events > 0 ==> steps.len() == 2 + segments + (if catalog {
                tokens
            } else {
                0
            }) + (if session {
                tokens
            } else {
                0
            })
            &&& events == 0 ==> steps.len() == segments
            &&& events == 0 && 0 <= i < steps.len() ==> steps[i] is Remove
        }),
{
    let steps = flush_steps(segments, events, tokens, catalog, session);
    if events > 0 && place < tokens {
        if catalog {
            assert(steps[1 + place] == FlushStep::Catalog(place));
        }
        if session {
            let skipped: int = if catalog {
                tokens as int
            } else {
                0
            };
            assert(steps[1 + skipped + place] == FlushStep::Sessions(place));
        }
    }
}

// ── Starting ──────────────────────────────────────────────────────────────────

/// A limit that is written as a number is that number; a negative one or another text is no limit.
pub proof fn law_limits_read_back(n: u32, text: Seq<char>)
    ensures
        limit_of(decimal(n as nat)) == Some(n),
        text.len() > 0 && text[0] == '-' ==> limit_of(text) is None,
        !digits(text) && (text.len() == 0 || text[0] != '+' || !digits(text.skip(1))) ==> limit_of(text) is None,
{
    lemma_decimal_reads_back(n as nat);
    let t = decimal(n as nat);
    assert(t.len() > 0);
    assert('0' <= t[0] && t[0] <= '9');
}

/// The server starts on nothing at all and on what is ready; never on legacy storage alone; and on what
/// was cut short only where it was setting up for the first time and had the one file in place and the other
/// not yet.
pub proof fn law_the_server_starts_only_on_its_own(
    disposition: DispositionModel,
    files: PairFiles,
    has_legacy: bool,
    data_dir: Seq<char>,
)
    ensures
        disposition is Fresh ==> startup_fault(disposition, files, has_legacy, data_dir) is None,
        disposition is ReadyV2 ==> startup_fault(disposition, files, has_legacy, data_dir) is None,
        disposition is LegacyOnly ==> startup_fault(disposition, files, has_legacy, data_dir) is Some,
        disposition is MigrationIncomplete ==> (startup_fault(disposition, files, has_legacy, data_dir)
            is None <==> !has_legacy && !files.control_exists && files.projections_is_file
            && files.control_migrating_is_file && !files.projections_migrating_exists),
{
}

// ── Asking the catalog ────────────────────────────────────────────────────────

/// The names that are found are those of the project and the group that begin with the prefix: as many as are
/// asked for, within one and two hundred, and all of them where there are no more.
pub proof fn law_names_are_found_by_prefix(
    rows: Seq<CountRowModel>,
    owner: Seq<char>,
    group: Seq<char>,
    prefix: Seq<char>,
    limit: int,
    row: CountRowModel,
    i: int,
)
    ensures
        ({
            let names = names_found(rows, owner, group, prefix, limit);
            &&& names.len() <= 200
            &&& 1 <= limit ==> names.len() <= limit
            &&& limit < 1 ==> names.len() <= 1
            &&& rows.contains(row) && row.key.0 == owner && row.key.1 == group && begins_with(
                row.key.2,
                prefix,
            ) && names.len() < limit && names.len() < 200 ==> names.contains(row.key.2)
            &&& 0 <= i < names.len() ==> begins_with(names[i], prefix) && exists|k: int|
                0 <= k < rows.len() && (#[trigger] rows[k]).key == (owner, group, names[i])
        }),
{
    broadcast use vstd::seq_lib::group_to_multiset_ensures;

    reveal_strlit("%");
    assert("%"@ =~= seq!['%']);
    let pattern = escaped_text(prefix) + "%"@;
    let fitting = matching(rows, owner, group, Some(pattern), Some('\\'));
    let all = ranked::<ByCount>(fitting);
    law_ranking_keeps_every_item::<ByCount>(fitting);
    let names = names_found(rows, owner, group, prefix, limit);
    if 0 <= i < names.len() {
        let one = all[i];
        assert(names[i] == one.key.2);
        assert(all.contains(one));
        assert(all.to_multiset().contains(one));
        assert(fitting.contains(one));
        law_matching_misses_nothing(rows, owner, group, Some(pattern), Some('\\'), one);
        law_escaped_prefix_is_literal(prefix, one.key.2);
        let k = choose|k: int| 0 <= k < rows.len() && rows[k] == one;
        assert(rows[k].key == (owner, group, names[i]));
    }
    law_matching_misses_nothing(rows, owner, group, Some(pattern), Some('\\'), row);
    law_escaped_prefix_is_literal(prefix, row.key.2);
    if fitting.contains(row) && names.len() < limit && names.len() < 200 {
        assert(fitting.to_multiset().contains(row));
        assert(all.contains(row));
        let k = choose|k: int| 0 <= k < all.len() && all[k] == row;
        assert(names[k] == row.key.2);
    }
}

/// The property keys that are listed are those of the project and the source, with their kind and how often they
/// were seen: five hundred of them, or all where there are no more, and the most frequent first.
pub proof fn law_property_keys_are_listed(
    rows: Seq<CountRowModel>,
    project: Seq<char>,
    source: Seq<char>,
    row: CountRowModel,
    i: int,
    j: int,
)
    ensures
        ({
            let keys = key_models(
                first(ranked::<ByCount>(matching(rows, project, source, None, None)), 500),
            );
            &&& keys.len() <= 500
            &&& 0 <= i < keys.len() ==> keys[i].source == source && exists|k: int|
                0 <= k < rows.len() && (#[trigger] rows[k]).key == (project, source, keys[i].key)
                    && rows[k].value.count == keys[i].count && rows[k].value.label == keys[i].type_guess
            &&& 0 <= i < j < keys.len() ==> keys[i].count >= keys[j].count
            &&& rows.contains(row) && row.key.0 == project && row.key.1 == source && keys.len() < 500
                ==> exists|k: int| 0 <= k < keys.len() && (#[trigger] keys[k]).key == row.key.2
        }),
{
    broadcast use vstd::seq_lib::group_to_multiset_ensures;

    let fitting = matching(rows, project, source, None, None);
    let all = ranked::<ByCount>(fitting);
    let keys = key_models(first(all, 500));
    law_ranking_keeps_every_item::<ByCount>(fitting);
    if 0 <= i < keys.len() {
        let one = all[i];
        assert(all.contains(one));
        assert(all.to_multiset().contains(one));
        assert(fitting.contains(one));
        law_matching_misses_nothing(rows, project, source, None, None, one);
        let k = choose|k: int| 0 <= k < rows.len() && rows[k] == one;
        assert(rows[k].key == (project, source, keys[i].key));
    }
    if 0 <= i < j < keys.len() {
        law_frequent_rows_come_first(fitting, 500, i, j);
    }
    law_matching_misses_nothing(rows, project, source, None, None, row);
    if fitting.contains(row) && keys.len() < 500 {
        assert(fitting.to_multiset().contains(row));
        assert(all.contains(row));
        let k = choose|k: int| 0 <= k < all.len() && all[k] == row;
        assert(keys[k].key == row.key.2);
    }
}

// ── Handling commands ─────────────────────────────────────────────────────────

/// Commands that only ask leave everything as it is, and setup is asked for as long as there is no user.
pub proof fn law_asking_changes_nothing(
    m: ControlModel,
    command: Command,
    moment: Moment,
    fresh: Fresh,
    hash: Option<Seq<char>>,
)
    ensures
        command is Shutdown || command is SetupRequired || command is ListPersonalKeys || command is Workspace
            || command is AuthorizeProject || command is AuthorizeCapture ==> handled(
            m,
            command,
            moment,
            fresh,
            hash,
        ).0 == m,
        command is SetupRequired ==> handled(m, command, moment, fresh, hash).1
            == ReplyModel::SetupRequired(m.users.len() == 0),
        command is Setup && m.users.len() > 0 ==> handled(m, command, moment, fresh, hash).0 == m && handled(
            m,
            command,
            moment,
            fresh,
            hash,
        ).1 is Setup && handled(m, command, moment, fresh, hash).1->Setup_0 is Err,
{
}

/// Logging out closes that session and no other.
pub proof fn law_logging_out_closes_one_session(
    m: ControlModel,
    session: String,
    moment: Moment,
    later: Moment,
    fresh: Fresh,
    hash: Option<Seq<char>>,
    row: SessionRowModel,
)
    ensures
        ({
            let next = handled(m, Command::Logout(session), moment, fresh, hash).0;
            &&& handled(next, Command::ValidateSession(session), later, fresh, hash).1
                == ReplyModel::Principal(Err(AccessFault::Unauthorized))
            &&& next.sessions.contains(row) <==> m.sessions.contains(row) && row.id != session@
            &&& next.users == m.users && next.keys == m.keys && next.projects == m.projects
            &&& next.members == m.members && next.organizations == m.organizations
        }),
{
    law_closed_sessions_are_refused(m, session@, later.seconds);
    lemma_removed(m.sessions, session_is(session@), row);
}

/// Whoever logs in is let in with the session that they got, until it expires.
pub proof fn law_logins_let_in(
    m: ControlModel,
    request: LoginRequest,
    session: String,
    moment: Moment,
    later: Moment,
    fresh: Fresh,
    hash: Option<Seq<char>>,
)
    requires
        moment.seconds <= i64::MAX - 604_800,
        handled(m, Command::Login(request), moment, fresh, hash).1 is Setup,
        handled(m, Command::Login(request), moment, fresh, hash).1->Setup_0 is Ok,
        handled(m, Command::Login(request), moment, fresh, hash).1->Setup_0->Ok_0.session_id == session@,
        later.seconds < moment.seconds + 604_800,
    ensures
        ({
            let next = handled(m, Command::Login(request), moment, fresh, hash).0;
            let reply = handled(next, Command::ValidateSession(session), later, fresh, hash).1;
            &&& reply is Principal
            &&& reply->Principal_0 is Ok
            &&& reply->Principal_0->Ok_0.authentication == Authentication::Session
        }),
{
    let next = handled(m, Command::Login(request), moment, fresh, hash).0;
    law_logging_in_opens_a_session(m, request, moment.seconds, fresh, next.sessions.last());
    law_only_open_sessions_let_in(next, session@, later.seconds, next.sessions.last());
    let i = next.sessions.len() - 1;
    assert(next.sessions[i].id == session@);
}

/// Whoever makes a key is let in with its secret.
pub proof fn law_new_secrets_let_in(
    m: ControlModel,
    principal: Principal,
    name: String,
    secret: String,
    moment: Moment,
    later: Moment,
    fresh: Fresh,
    hash: Option<Seq<char>>,
)
    requires
        handled(m, Command::CreatePersonalKey(principal, name), moment, fresh, hash).1 is CreatedKey,
        handled(m, Command::CreatePersonalKey(principal, name), moment, fresh, hash).1->CreatedKey_0 is Ok,
        handled(
            m,
            Command::CreatePersonalKey(principal, name),
            moment,
            fresh,
            hash,
        ).1->CreatedKey_0->Ok_0.secret == secret@,
    ensures
        handled(
            handled(m, Command::CreatePersonalKey(principal, name), moment, fresh, hash).0,
            Command::ValidatePersonalKey(secret),
            later,
            fresh,
            hash,
        ).1 == ReplyModel::Principal(
            Ok(
                PrincipalModel {
                    user_id: principal@.user_id,
                    authentication: Authentication::PersonalKey,
                },
            ),
        ),
{
    law_new_keys_authenticate(m, principal@, name@, moment.seconds, fresh, later.seconds);
}

/// A key that its owner revokes is gone, and no other key is.
pub proof fn law_revoking_takes_one_key(
    m: ControlModel,
    principal: Principal,
    key: String,
    moment: Moment,
    fresh: Fresh,
    hash: Option<Seq<char>>,
    row: KeyRowModel,
)
    requires
        handled(m, Command::RevokePersonalKey(principal, key), moment, fresh, hash).1 == ReplyModel::Revoked(
            Ok(()),
        ),
    ensures
        ({
            let next = handled(m, Command::RevokePersonalKey(principal, key), moment, fresh, hash).0;
            &&& next.keys.contains(row) <==> m.keys.contains(row) && !(row.id == key@ && row.user_id
                == principal@.user_id)
            &&& next.users == m.users && next.sessions == m.sessions && next.projects == m.projects
        }),
{
    law_users_revoke_own_keys(m, principal@, key@, row);
}

/// What a project captures under its new token is for that project, once the token is found well formed.
pub proof fn law_new_projects_capture(
    m: ControlModel,
    principal: Principal,
    organization_id: String,
    name: String,
    token: String,
    moment: Moment,
    later: Moment,
    fresh: Fresh,
    hash: Option<Seq<char>>,
)
    requires
        handled(
            m,
            Command::CreateProject { principal, organization_id, name },
            moment,
            fresh,
            hash,
        ).1 is Project,
        handled(
            m,
            Command::CreateProject { principal, organization_id, name },
            moment,
            fresh,
            hash,
        ).1->Project_0 is Ok,
        handled(
            m,
            Command::CreateProject { principal, organization_id, name },
            moment,
            fresh,
            hash,
        ).1->Project_0->Ok_0.token == token@,
        later.token_valid,
    ensures
        ({
            let (next, made) = handled(
                m,
                Command::CreateProject { principal, organization_id, name },
                moment,
                fresh,
                hash,
            );
            &&& handled(next, Command::AuthorizeCapture(token), later, fresh, hash).1
                == ReplyModel::Capture(
                Ok(CaptureModel { project_id: Some(made->Project_0->Ok_0.id), token: token@ }),
            )
            &&& next.projects.last().organization_id == organization_id@
        }),
{
    let next = handled(
        m,
        Command::CreateProject { principal, organization_id, name },
        moment,
        fresh,
        hash,
    ).0;
    law_managers_make_projects(m, principal@, organization_id@, name@, moment.millis, fresh, 0);
    law_tokens_are_for_their_project(next, token@, true, next.projects.len() - 1);
}

} // verus!
