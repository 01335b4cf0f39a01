//! That sound requests to make something succeed.
use vstd::prelude::*;
use vstd::utf8::encode_utf8;

use crate::control::access::{
    hash_is, key_is, member_is, organization_is, project_is, token_is, user_is, ControlModel, Fresh,
};
use crate::control::access_effects::first_role;
use crate::control::grants::{key_made, organization_made, project_made, secret_of};
use crate::control::{name_ok, Authentication, PrincipalModel, Role};
use crate::control_resources::{
    dashboard_at, dashboard_created, insight_at, insight_created, required_fault, resource_name_fault,
    share_at, share_created, share_token, share_token_is, target_known, DashboardDraftModel,
    InsightDraftModel, QueryModel, ResourceModel, ShareTarget,
};
use crate::digest::{sha256_text, simple_text_of, uuid_text_of};
use crate::rows::{lemma_index_is, lemma_index_none, lemma_index_of};
use crate::text::trimmed;

verus! {

/// A user who is logged in makes a personal key, and an organization, under any name that is allowed.
pub proof fn law_users_make_keys_and_organizations(
    m: ControlModel,
    principal: PrincipalModel,
    name: Seq<char>,
    now: i64,
    fresh: Fresh,
    u: int,
)
    requires
        principal.authentication == Authentication::Session,
        name_ok(trimmed(name)),
        0 <= u < m.users.len(),
        m.users[u].id == principal.user_id,
    ensures
        (forall|k: int|
            0 <= k < m.keys.len() ==> (#[trigger] m.keys[k]).id != uuid_text_of(fresh.second)
                && m.keys[k].key_hash != sha256_text(encode_utf8(secret_of(fresh.first)))) ==> key_made(
            m,
            principal,
            name,
            now,
            fresh,
        ).1 is Ok,
        (forall|k: int|
            0 <= k < m.organizations.len() ==> (#[trigger] m.organizations[k]).id != uuid_text_of(
                fresh.first,
            )) ==> organization_made(m, principal, name, now, fresh).1 is Ok,
{
    lemma_index_of(m.users, user_is(principal.user_id));
    lemma_index_of(m.keys, key_is(uuid_text_of(fresh.second)));
    lemma_index_of(m.keys, hash_is(sha256_text(encode_utf8(secret_of(fresh.first)))));
    lemma_index_of(m.organizations, organization_is(uuid_text_of(fresh.first)));
}

/// An owner or an admin of an organization makes a project in it, under any name that is allowed.
pub proof fn law_managers_succeed_in_making_projects(
    m: ControlModel,
    principal: PrincipalModel,
    organization: Seq<char>,
    name: Seq<char>,
    now: i64,
    fresh: Fresh,
    i: int,
)
    requires
        principal.authentication == Authentication::Session,
        name_ok(trimmed(name)),
        first_role(m, organization, principal.user_id, i),
        m.members[i].role == Role::Owner || m.members[i].role == Role::Admin,
        forall|k: int|
            0 <= k < m.projects.len() ==> (#[trigger] m.projects[k]).id != uuid_text_of(fresh.first)
                && m.projects[k].capture_token != "phc_"@ + simple_text_of(fresh.second),
    ensures
        project_made(m, principal, organization, name, now, fresh).1 is Ok,
{
    lemma_index_is(m.members, member_is(organization, principal.user_id), i);
    lemma_index_none(m.projects, project_is(uuid_text_of(fresh.first)));
    lemma_index_none(m.projects, token_is("phc_"@ + simple_text_of(fresh.second)));
}

/// An insight with a name and a query that can be run, and a dashboard with a name, are made in a project that is
/// known.
pub proof fn law_projects_get_insights_and_dashboards(
    m: ResourceModel,
    project: Seq<char>,
    created_by: Seq<char>,
    insight: InsightDraftModel,
    verdict: QueryModel,
    dashboard: DashboardDraftModel,
    now: i64,
    number: u128,
)
    requires
        required_fault("created_by"@, created_by, 512) is None,
    ensures
        resource_name_fault(insight.name) is None && verdict is Supported && (forall|k: int|
            0 <= k < m.insights.len() ==> (#[trigger] m.insights[k]).insight.id != uuid_text_of(number))
            ==> insight_created(m, true, project, created_by, insight, verdict, now, number).1 is Ok,
        resource_name_fault(dashboard.name) is None && (forall|k: int|
            0 <= k < m.dashboards.len() ==> (#[trigger] m.dashboards[k]).id != uuid_text_of(number))
            ==> dashboard_created(m, true, project, created_by, dashboard, now, number).1 is Ok,
{
    lemma_index_of(m.insights, insight_at(project, uuid_text_of(number)));
    lemma_index_of(m.dashboards, dashboard_at(project, uuid_text_of(number)));
    let next = dashboard_created(m, true, project, created_by, dashboard, now, number).0;
    lemma_index_of(next.dashboards, dashboard_at(project, uuid_text_of(number)));
    if next.dashboards.len() > m.dashboards.len() {
        assert(next.dashboards[m.dashboards.len() as int].id == uuid_text_of(number));
    }
}

/// What is there can be shared.
pub proof fn law_what_is_there_can_be_shared(
    m: ResourceModel,
    project: Seq<char>,
    target: ShareTarget,
    object: Seq<char>,
    created_by: Seq<char>,
    expires_at: Option<i64>,
    now: i64,
    id_number: u128,
    token_number: u128,
    i: int,
)
    requires
        required_fault("created_by"@, created_by, 512) is None,
        target == ShareTarget::Insight ==> 0 <= i < m.insights.len() && m.insights[i].insight.project_id
            == project && m.insights[i].insight.id == object,
        target == ShareTarget::Dashboard ==> 0 <= i < m.dashboards.len() && m.dashboards[i].project_id
            == project && m.dashboards[i].id == object,
        forall|k: int|
            0 <= k < m.shares.len() ==> (#[trigger] m.shares[k]).link.id != uuid_text_of(id_number)
                && m.shares[k].link.token != share_token(token_number),
    ensures
        share_created(
            m,
            project,
            target,
            object,
            created_by,
            expires_at,
            now,
            id_number,
            token_number,
        ).1 is Ok,
{
    lemma_index_of(m.insights, insight_at(project, object));
    lemma_index_of(m.dashboards, dashboard_at(project, object));
    lemma_index_of(m.shares, share_at(project, uuid_text_of(id_number)));
    lemma_index_of(m.shares, share_token_is(share_token(token_number)));
    assert(target_known(m, project, target, object));
}

} // verus!
