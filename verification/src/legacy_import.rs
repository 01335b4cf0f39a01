//! Offline import of the accounts of an earlier installation.
//!
//! The import is all or nothing, and running it again is safe.
use vstd::prelude::*;
use vstd::string::*;
use vstd::utf8::encode_utf8;

use crate::control::access::{
    email_is, hash_is, key_is, member_is, organization_is, organization_order, project_is,
    project_order, session_is, token_is, user_is, ControlModel, KeyByHash, KeyById, KeyRow,
    KeyRowModel, MemberOf, MemberRow, MemberRowModel, OrganizationById, OrganizationOrder,
    OrganizationRow, OrganizationRowModel, ProjectAccess, ProjectById, ProjectByToken,
    ProjectOrder, ProjectRow, ProjectRowModel, SessionById, SessionRow, SessionRowModel,
    UserByEmail, UserById, UserRow, UserRowModel,
};
use crate::control::{role_named, Role};
use crate::digest::{hyphenate, hyphenated, sha256_hex, sha256_text};
use crate::order::views;
use crate::rows::{
    add_text, add_texts, append, duplicate_all, find, holds_somewhere, index_of, lemma_index_of,
    lemma_push_contains, lemma_steps_error, lemma_texts_added, replace, sort, sorted, steps, texts_added,
    Row, Sort,
};
use crate::text::{joined, same, text_at_most, text_le};
use crate::text_map::TextMap;

verus! {

/// How many rows there are once an import is done.
#[derive(Debug, Clone, Copy, PartialEq, Eq, Structural)]
pub struct LegacyImportReport {
    pub users: usize,
    pub organizations: usize,
    pub projects: usize,
    pub personal_keys: usize,
    pub sessions: usize,
}

/// Why an import fails.
#[derive(Debug)]
pub enum LegacyImportError {
    Control(String),
    Discovery(String),
    Database { path: String, message: String },
    InvalidToken(String),
}

/// The mathematical value of a [`LegacyImportError`].
pub enum ImportFault {
    Control(Seq<char>),
    Discovery(Seq<char>),
    Database(Seq<char>, Seq<char>),
    InvalidToken(Seq<char>),
}

impl View for LegacyImportError {
    type V = ImportFault;

    open spec fn view(&self) -> ImportFault {
        match self {
            LegacyImportError::Control(s) => ImportFault::Control(s@),
            LegacyImportError::Discovery(s) => ImportFault::Discovery(s@),
            LegacyImportError::Database { path, message } => ImportFault::Database(
                path@,
                message@,
            ),
            LegacyImportError::InvalidToken(s) => ImportFault::InvalidToken(s@),
        }
    }
}

/// The message of an error. It does not show a token.
pub open spec fn import_message(fault: ImportFault) -> Seq<char> {
    match fault {
        ImportFault::Control(s) => "cannot initialize control state: "@ + s,
        ImportFault::Discovery(s) => "cannot discover legacy projects: "@ + s,
        ImportFault::Database(path, message) => path + ": "@ + message,
        ImportFault::InvalidToken(_) => "a legacy project token is invalid"@,
    }
}

impl LegacyImportError {
    /// What the error says.
    pub fn message(&self) -> (r: String)
        ensures
            r@ == import_message(self@),
    {
        match self {
            LegacyImportError::Control(s) => joined(
                "cannot initialize control state: ",
                s.as_str(),
            ),
            LegacyImportError::Discovery(s) => joined(
                "cannot discover legacy projects: ",
                s.as_str(),
            ),
            LegacyImportError::Database { path, message } => {
                let mut out = joined(path.as_str(), ": ");
                out.append(message.as_str());
                out
            },
            LegacyImportError::InvalidToken(_) => "a legacy project token is invalid".to_owned(),
        }
    }
}

// ── What there is to import ───────────────────────────────────────────────────

/// A membership, with the role as it was written.
pub struct LegacyMembership {
    pub organization_id: String,
    pub user_id: String,
    pub role: String,
}

/// The mathematical value of a [`LegacyMembership`].
pub struct MembershipModel {
    pub organization_id: Seq<char>,
    pub user_id: Seq<char>,
    pub role: Seq<char>,
}

impl View for LegacyMembership {
    type V = MembershipModel;

    open spec fn view(&self) -> MembershipModel {
        MembershipModel {
            organization_id: self.organization_id@,
            user_id: self.user_id@,
            role: self.role@,
        }
    }
}

impl Row for LegacyMembership {
    fn duplicate(&self) -> (r: Self) {
        LegacyMembership {
            organization_id: self.organization_id.clone(),
            user_id: self.user_id.clone(),
            role: self.role.clone(),
        }
    }
}

/// The tables of the accounts; one that was not there is `None`.
pub struct LegacyTables {
    pub users: Option<Vec<UserRow>>,
    pub organizations: Option<Vec<OrganizationRow>>,
    pub memberships: Option<Vec<LegacyMembership>>,
    pub projects: Option<Vec<ProjectRow>>,
    pub personal_keys: Option<Vec<KeyRow>>,
    pub sessions: Option<Vec<SessionRow>>,
}

/// The accounts, each kind of row in the order in which it is imported.
pub struct LegacyAuth {
    pub users: Vec<UserRow>,
    pub organizations: Vec<OrganizationRow>,
    pub memberships: Vec<LegacyMembership>,
    pub projects: Vec<ProjectRow>,
    pub personal_keys: Vec<KeyRow>,
    pub sessions: Vec<SessionRow>,
}

/// The mathematical value of the accounts.
pub struct LegacyModel {
    pub users: Seq<UserRowModel>,
    pub organizations: Seq<OrganizationRowModel>,
    pub memberships: Seq<MembershipModel>,
    pub projects: Seq<ProjectRowModel>,
    pub personal_keys: Seq<KeyRowModel>,
    pub sessions: Seq<SessionRowModel>,
}

impl View for LegacyAuth {
    type V = LegacyModel;

    open spec fn view(&self) -> LegacyModel {
        LegacyModel {
            users: views(self.users@),
            organizations: views(self.organizations@),
            memberships: views(self.memberships@),
            projects: views(self.projects@),
            personal_keys: views(self.personal_keys@),
            sessions: views(self.sessions@),
        }
    }
}

/// The rows of a table that may be absent.
pub open spec fn table_rows<T: View>(table: Option<Vec<T>>) -> Seq<T::V> {
    match table {
        Some(rows) => views(rows@),
        None => Seq::empty(),
    }
}

/// Users by age, then by id.
pub open spec fn user_age() -> spec_fn(UserRowModel, UserRowModel) -> bool {
    |a: UserRowModel, b: UserRowModel| a.created_at < b.created_at || a.created_at == b.created_at && a.id != b.id && text_le(a.id, b.id)
}

/// Decides [`user_age`].
pub struct UserAge;

impl Sort<UserRow> for UserAge {
    open spec fn before(&self) -> spec_fn(UserRowModel, UserRowModel) -> bool {
        user_age()
    }

    fn is_before(&self, a: &UserRow, b: &UserRow) -> (r: bool) {
        a.created_at < b.created_at || a.created_at == b.created_at && !same(a.id.as_str(), b.id.as_str()) && text_at_most(a.id.as_str(), b.id.as_str())
    }
}

/// Personal keys by age, then by id.
pub open spec fn key_age() -> spec_fn(KeyRowModel, KeyRowModel) -> bool {
    |a: KeyRowModel, b: KeyRowModel| a.created_at < b.created_at || a.created_at == b.created_at && a.id != b.id && text_le(a.id, b.id)
}

/// Decides [`key_age`].
pub struct KeyAge;

impl Sort<KeyRow> for KeyAge {
    open spec fn before(&self) -> spec_fn(KeyRowModel, KeyRowModel) -> bool {
        key_age()
    }

    fn is_before(&self, a: &KeyRow, b: &KeyRow) -> (r: bool) {
        a.created_at < b.created_at || a.created_at == b.created_at && !same(a.id.as_str(), b.id.as_str()) && text_at_most(a.id.as_str(), b.id.as_str())
    }
}

/// Sessions by age, then by id.
pub open spec fn session_age() -> spec_fn(SessionRowModel, SessionRowModel) -> bool {
    |a: SessionRowModel, b: SessionRowModel| a.created_at < b.created_at || a.created_at == b.created_at && a.id != b.id && text_le(a.id, b.id)
}

/// Decides [`session_age`].
pub struct SessionAge;

impl Sort<SessionRow> for SessionAge {
    open spec fn before(&self) -> spec_fn(SessionRowModel, SessionRowModel) -> bool {
        session_age()
    }

    fn is_before(&self, a: &SessionRow, b: &SessionRow) -> (r: bool) {
        a.created_at < b.created_at || a.created_at == b.created_at && !same(a.id.as_str(), b.id.as_str()) && text_at_most(a.id.as_str(), b.id.as_str())
    }
}

/// Memberships by organization, then by user.
pub open spec fn membership_order() -> spec_fn(MembershipModel, MembershipModel) -> bool {
    |a: MembershipModel, b: MembershipModel| a.organization_id != b.organization_id && text_le(a.organization_id, b.organization_id) || a.organization_id == b.organization_id && a.user_id != b.user_id && text_le(a.user_id, b.user_id)
}

/// Decides [`membership_order`].
pub struct MembershipOrder;

impl Sort<LegacyMembership> for MembershipOrder {
    open spec fn before(&self) -> spec_fn(MembershipModel, MembershipModel) -> bool {
        membership_order()
    }

    fn is_before(&self, a: &LegacyMembership, b: &LegacyMembership) -> (r: bool) {
        { let equal = same(a.organization_id.as_str(), b.organization_id.as_str()); !equal && text_at_most(a.organization_id.as_str(), b.organization_id.as_str()) || equal && !same(a.user_id.as_str(), b.user_id.as_str()) && text_at_most(a.user_id.as_str(), b.user_id.as_str()) }
    }
}

fn in_order<T: View, S: Sort<T>>(table: Option<Vec<T>>, order: &S) -> (r: Vec<T>)
    ensures
        views(r@) == sorted(table_rows(table), order.before()),
{
    match table {
        Some(rows) => sort(rows, order),
        None => {
            let out: Vec<T> = Vec::new();
            assert(views(out@) =~= Seq::<T::V>::empty());
            out
        },
    }
}

/// The accounts of tables: each table in its order, and what is absent is empty.
pub open spec fn legacy_loaded(tables: Option<LegacyTables>) -> LegacyModel {
    match tables {
        None => LegacyModel {
            users: Seq::empty(),
            organizations: Seq::empty(),
            memberships: Seq::empty(),
            projects: Seq::empty(),
            personal_keys: Seq::empty(),
            sessions: Seq::empty(),
        },
        Some(t) => LegacyModel {
            users: sorted(table_rows(t.users), user_age()),
            organizations: sorted(table_rows(t.organizations), organization_order()),
            memberships: sorted(table_rows(t.memberships), membership_order()),
            projects: sorted(table_rows(t.projects), project_order()),
            personal_keys: sorted(table_rows(t.personal_keys), key_age()),
            sessions: sorted(table_rows(t.sessions), session_age()),
        },
    }
}

/// Reads the accounts out of their tables. Without a database there are none.
pub fn load_legacy_auth(tables: Option<LegacyTables>) -> (r: LegacyAuth)
    ensures
        r@ == legacy_loaded(tables),
{
    match tables {
        None => {
            let r = LegacyAuth {
                users: Vec::new(),
                organizations: Vec::new(),
                memberships: Vec::new(),
                projects: Vec::new(),
                personal_keys: Vec::new(),
                sessions: Vec::new(),
            };
            assert(r@.users =~= Seq::<UserRowModel>::empty());
            assert(r@.organizations =~= Seq::<OrganizationRowModel>::empty());
            assert(r@.memberships =~= Seq::<MembershipModel>::empty());
            assert(r@.projects =~= Seq::<ProjectRowModel>::empty());
            assert(r@.personal_keys =~= Seq::<KeyRowModel>::empty());
            assert(r@.sessions =~= Seq::<SessionRowModel>::empty());
            r
        },
        Some(t) => LegacyAuth {
            users: in_order(t.users, &UserAge),
            organizations: in_order(t.organizations, &OrganizationOrder),
            memberships: in_order(t.memberships, &MembershipOrder),
            projects: in_order(t.projects, &ProjectOrder),
            personal_keys: in_order(t.personal_keys, &KeyAge),
            sessions: in_order(t.sessions, &SessionAge),
        },
    }
}

// ── Importing rows ────────────────────────────────────────────────────────────

/// The fault of a row that names something that is not there.
pub open spec fn dangling() -> Seq<char> {
    "FOREIGN KEY constraint failed"@
}

/// One step of an import.
pub trait ImportStep<T: View> {
    /// The state after a row, or what the database says against it.
    spec fn step(&self) -> spec_fn(ControlModel, T::V) -> Result<ControlModel, Seq<char>>;

    /// Imports a row.
    fn apply(&self, access: &mut ProjectAccess, row: &T) -> (r: Result<(), String>)
        ensures
            match (self.step())(old(access)@, row@) {
                Ok(next) => r is Ok && final(access)@ == next,
                Err(fault) => r matches Err(s) && s@ == fault,
            },
    ;
}

fn apply_all<T: View, P: ImportStep<T>>(access: &mut ProjectAccess, rows: &Vec<T>, each: &P) -> (r:
    Result<(), String>)
    ensures
        match steps(old(access)@, views(rows@), each.step()) {
            Ok(next) => r is Ok && final(access)@ == next,
            Err(fault) => r matches Err(s) && s@ == fault,
        },
{
    let ghost all = views(rows@);
    let ghost start = access@;
    let mut i: usize = 0;
    assert(all.take(0) =~= Seq::<T::V>::empty());
    while i < rows.len()
        invariant
            i <= rows.len(),
            all == views(rows@),
            start == old(access)@,
            steps(start, all.take(i as int), each.step()) == Ok::<_, Seq<char>>(access@),
        decreases rows.len() - i,
    {
        assert(all.take(i + 1).drop_last() =~= all.take(i as int));
        assert(all.take(i + 1).last() == rows@[i as int]@);
        proof {
            lemma_steps_error(start, all, each.step(), i + 1);
        }
        match each.apply(access, &rows[i]) {
            Ok(()) => {},
            Err(s) => {
                return Err(s);
            },
        }
        i += 1;
    }
    assert(all.take(all.len() as int) =~= all);
    Ok(())
}

/// A user comes in unless the id or the address is taken.
pub open spec fn user_step() -> spec_fn(ControlModel, UserRowModel) -> Result<
    ControlModel,
    Seq<char>,
> {
    |m: ControlModel, row: UserRowModel|
        if holds_somewhere(m.users, user_is(row.id)) || holds_somewhere(
            m.users,
            email_is(row.email),
        ) {
            Ok(m)
        } else {
            Ok(ControlModel { users: m.users.push(row), ..m })
        }
}

/// Performs [`user_step`].
pub struct ImportUser;

impl ImportStep<UserRow> for ImportUser {
    open spec fn step(&self) -> spec_fn(ControlModel, UserRowModel) -> Result<
        ControlModel,
        Seq<char>,
    > {
        user_step()
    }

    fn apply(&self, access: &mut ProjectAccess, row: &UserRow) -> (r: Result<(), String>) {
        if find(&access.users, &UserById { id: row.id.as_str() }).is_none() && find(
            &access.users,
            &UserByEmail { email: row.email.as_str() },
        ).is_none() {
            append(&mut access.users, row.duplicate());
        }
        Ok(())
    }
}

/// An organization comes in unless its id is taken.
pub open spec fn organization_step() -> spec_fn(ControlModel, OrganizationRowModel) -> Result<
    ControlModel,
    Seq<char>,
> {
    |m: ControlModel, row: OrganizationRowModel|
        if holds_somewhere(m.organizations, organization_is(row.id)) {
            Ok(m)
        } else {
            Ok(
                ControlModel {
                    organizations: m.organizations.push(
                        OrganizationRowModel { imported: false, ..row },
                    ),
                    ..m
                },
            )
        }
}

/// Performs [`organization_step`].
pub struct ImportOrganization;

impl ImportStep<OrganizationRow> for ImportOrganization {
    open spec fn step(&self) -> spec_fn(ControlModel, OrganizationRowModel) -> Result<
        ControlModel,
        Seq<char>,
    > {
        organization_step()
    }

    fn apply(&self, access: &mut ProjectAccess, row: &OrganizationRow) -> (r: Result<(), String>) {
        if find(&access.organizations, &OrganizationById { id: row.id.as_str() }).is_none() {
            let mut copy = row.duplicate();
            copy.imported = false;
            append(&mut access.organizations, copy);
        }
        Ok(())
    }
}

/// A membership comes in unless it is there or its role is unknown. Its organization and its user have to
/// be there.
pub open spec fn membership_step() -> spec_fn(ControlModel, MembershipModel) -> Result<
    ControlModel,
    Seq<char>,
> {
    |m: ControlModel, row: MembershipModel|
        match role_named(row.role) {
            None => Ok(m),
            Some(role) => if holds_somewhere(
                m.members,
                member_is(row.organization_id, row.user_id),
            ) {
                Ok(m)
            } else if !holds_somewhere(m.organizations, organization_is(row.organization_id))
                || !holds_somewhere(m.users, user_is(row.user_id)) {
                Err(dangling())
            } else {
                Ok(
                    ControlModel {
                        members: m.members.push(
                            MemberRowModel {
                                organization_id: row.organization_id,
                                user_id: row.user_id,
                                role,
                            },
                        ),
                        ..m
                    },
                )
            },
        }
}

/// Performs [`membership_step`].
pub struct ImportMembership;

impl ImportStep<LegacyMembership> for ImportMembership {
    open spec fn step(&self) -> spec_fn(ControlModel, MembershipModel) -> Result<
        ControlModel,
        Seq<char>,
    > {
        membership_step()
    }

    fn apply(&self, access: &mut ProjectAccess, row: &LegacyMembership) -> (r: Result<
        (),
        String,
    >) {
        let role = match Role::parse(row.role.as_str()) {
            Ok(role) => role,
            Err(_) => {
                return Ok(());
            },
        };
        if find(
            &access.members,
            &MemberOf {
                organization: row.organization_id.as_str(),
                user: row.user_id.as_str(),
            },
        ).is_some() {
            return Ok(());
        }
        if find(
            &access.organizations,
            &OrganizationById { id: row.organization_id.as_str() },
        ).is_none() || find(&access.users, &UserById { id: row.user_id.as_str() }).is_none() {
            return Err("FOREIGN KEY constraint failed".to_owned());
        }
        append(
            &mut access.members,
            MemberRow {
                organization_id: row.organization_id.clone(),
                user_id: row.user_id.clone(),
                role,
            },
        );
        Ok(())
    }
}

/// A project takes the place of one with the same token, which keeps its id, or else comes in if its id is
/// free. Its organization has to be there.
pub open spec fn project_step() -> spec_fn(ControlModel, ProjectRowModel) -> Result<
    ControlModel,
    Seq<char>,
> {
    |m: ControlModel, row: ProjectRowModel|
        match index_of(m.projects, token_is(row.capture_token)) {
            Some(i) => if !holds_somewhere(
                m.organizations,
                organization_is(row.organization_id),
            ) {
                Err(dangling())
            } else {
                Ok(
                    ControlModel {
                        projects: m.projects.update(
                            i,
                            ProjectRowModel { id: m.projects[i].id, imported: false, ..row },
                        ),
                        ..m
                    },
                )
            },
            None => if holds_somewhere(m.projects, project_is(row.id)) {
                Err("UNIQUE constraint failed: projects.id"@)
            } else if !holds_somewhere(m.organizations, organization_is(row.organization_id)) {
                Err(dangling())
            } else {
                Ok(
                    ControlModel {
                        projects: m.projects.push(ProjectRowModel { imported: false, ..row }),
                        ..m
                    },
                )
            },
        }
}

/// Performs [`project_step`].
pub struct ImportProject;

impl ImportStep<ProjectRow> for ImportProject {
    open spec fn step(&self) -> spec_fn(ControlModel, ProjectRowModel) -> Result<
        ControlModel,
        Seq<char>,
    > {
        project_step()
    }

    fn apply(&self, access: &mut ProjectAccess, row: &ProjectRow) -> (r: Result<(), String>) {
        let organization_there = find(
            &access.organizations,
            &OrganizationById { id: row.organization_id.as_str() },
        ).is_some();
        let mut copy = row.duplicate();
        copy.imported = false;
        match find(&access.projects, &ProjectByToken { token: row.capture_token.as_str() }) {
            Some(i) => {
                if !organization_there {
                    return Err("FOREIGN KEY constraint failed".to_owned());
                }
                copy.id = access.projects[i].id.clone();
                replace(&mut access.projects, i, copy);
            },
            None => {
                if find(&access.projects, &ProjectById { id: row.id.as_str() }).is_some() {
                    return Err("UNIQUE constraint failed: projects.id".to_owned());
                }
                if !organization_there {
                    return Err("FOREIGN KEY constraint failed".to_owned());
                }
                append(&mut access.projects, copy);
            },
        }
        Ok(())
    }
}

/// A personal key comes in unless its id or its digest is taken. Its user has to be there.
pub open spec fn key_step() -> spec_fn(ControlModel, KeyRowModel) -> Result<
    ControlModel,
    Seq<char>,
> {
    |m: ControlModel, row: KeyRowModel|
        if holds_somewhere(m.keys, key_is(row.id)) || holds_somewhere(
            m.keys,
            hash_is(row.key_hash),
        ) {
            Ok(m)
        } else if !holds_somewhere(m.users, user_is(row.user_id)) {
            Err(dangling())
        } else {
            Ok(ControlModel { keys: m.keys.push(row), ..m })
        }
}

/// Performs [`key_step`].
pub struct ImportKey;

impl ImportStep<KeyRow> for ImportKey {
    open spec fn step(&self) -> spec_fn(ControlModel, KeyRowModel) -> Result<
        ControlModel,
        Seq<char>,
    > {
        key_step()
    }

    fn apply(&self, access: &mut ProjectAccess, row: &KeyRow) -> (r: Result<(), String>) {
        if find(&access.keys, &KeyById { id: row.id.as_str() }).is_some() || find(
            &access.keys,
            &KeyByHash { hash: row.key_hash.as_str() },
        ).is_some() {
            return Ok(());
        }
        if find(&access.users, &UserById { id: row.user_id.as_str() }).is_none() {
            return Err("FOREIGN KEY constraint failed".to_owned());
        }
        append(&mut access.keys, row.duplicate());
        Ok(())
    }
}

/// A session comes in unless its id is taken. Its user has to be there.
pub open spec fn session_step() -> spec_fn(ControlModel, SessionRowModel) -> Result<
    ControlModel,
    Seq<char>,
> {
    |m: ControlModel, row: SessionRowModel|
        if holds_somewhere(m.sessions, session_is(row.id)) {
            Ok(m)
        } else if !holds_somewhere(m.users, user_is(row.user_id)) {
            Err(dangling())
        } else {
            Ok(ControlModel { sessions: m.sessions.push(row), ..m })
        }
}

/// Performs [`session_step`].
pub struct ImportSession;

impl ImportStep<SessionRow> for ImportSession {
    open spec fn step(&self) -> spec_fn(ControlModel, SessionRowModel) -> Result<
        ControlModel,
        Seq<char>,
    > {
        session_step()
    }

    fn apply(&self, access: &mut ProjectAccess, row: &SessionRow) -> (r: Result<(), String>) {
        if find(&access.sessions, &SessionById { id: row.id.as_str() }).is_some() {
            return Ok(());
        }
        if find(&access.users, &UserById { id: row.user_id.as_str() }).is_none() {
            return Err("FOREIGN KEY constraint failed".to_owned());
        }
        append(&mut access.sessions, row.duplicate());
        Ok(())
    }
}

/// The state after the accounts.
pub open spec fn auth_imported(m: ControlModel, legacy: LegacyModel) -> Result<
    ControlModel,
    Seq<char>,
> {
    match steps(m, legacy.users, user_step()) {
        Err(fault) => Err(fault),
        Ok(m1) => match steps(m1, legacy.organizations, organization_step()) {
            Err(fault) => Err(fault),
            Ok(m2) => match steps(m2, legacy.memberships, membership_step()) {
                Err(fault) => Err(fault),
                Ok(m3) => match steps(m3, legacy.projects, project_step()) {
                    Err(fault) => Err(fault),
                    Ok(m4) => match steps(m4, legacy.personal_keys, key_step()) {
                        Err(fault) => Err(fault),
                        Ok(m5) => steps(m5, legacy.sessions, session_step()),
                    },
                },
            },
        },
    }
}

/// Imports the accounts.
fn import_auth_rows(access: &mut ProjectAccess, legacy: &LegacyAuth) -> (r: Result<(), String>)
    ensures
        match auth_imported(old(access)@, legacy@) {
            Ok(next) => r is Ok && final(access)@ == next,
            Err(fault) => r matches Err(s) && s@ == fault,
        },
{
    match apply_all(access, &legacy.users, &ImportUser) {
        Ok(()) => {},
        Err(s) => {
            return Err(s);
        },
    }
    match apply_all(access, &legacy.organizations, &ImportOrganization) {
        Ok(()) => {},
        Err(s) => {
            return Err(s);
        },
    }
    match apply_all(access, &legacy.memberships, &ImportMembership) {
        Ok(()) => {},
        Err(s) => {
            return Err(s);
        },
    }
    match apply_all(access, &legacy.projects, &ImportProject) {
        Ok(()) => {},
        Err(s) => {
            return Err(s);
        },
    }
    match apply_all(access, &legacy.personal_keys, &ImportKey) {
        Ok(()) => {},
        Err(s) => {
            return Err(s);
        },
    }
    apply_all(access, &legacy.sessions, &ImportSession)
}

// ── Projects of tokens that no account owns ───────────────────────────────────

/// The organization of projects that no account owns.
pub open spec fn imported_organization() -> Seq<char> {
    "00000000-0000-0000-0000-000000000001"@
}

/// The id of the project of a token that no account owns.
pub open spec fn project_id_of(token: Seq<char>) -> Seq<char> {
    hyphenated(sha256_text(encode_utf8(token)))
}

/// The id of the project of a token that no account owns: it depends on the token alone.
pub fn deterministic_project_id(token: &str) -> (r: String)
    ensures
        r@ == project_id_of(token@),
{
    let digest = sha256_hex(token.as_bytes());
    hyphenate(digest.as_str())
}

/// The tokens that have no project, in order.
pub open spec fn orphans(m: ControlModel, tokens: Seq<Seq<char>>) -> Seq<Seq<char>>
    decreases tokens.len(),
{
    if tokens.len() == 0 {
        Seq::empty()
    } else {
        let before = orphans(m, tokens.drop_last());
        if holds_somewhere(m.projects, token_is(tokens.last())) {
            before
        } else {
            before.push(tokens.last())
        }
    }
}

/// The oldest user.
pub open spec fn oldest(users: Seq<UserRowModel>) -> Option<UserRowModel> {
    let by_age = sorted(users, user_age());
    if by_age.len() == 0 {
        None
    } else {
        Some(by_age[0])
    }
}

/// The state with the organization for projects that no account owns. The oldest user owns it.
pub open spec fn organization_prepared(m: ControlModel) -> ControlModel {
    let organizations = if holds_somewhere(
        m.organizations,
        organization_is(imported_organization()),
    ) {
        m.organizations
    } else {
        m.organizations.push(
            OrganizationRowModel {
                id: imported_organization(),
                name: "Imported Projects"@,
                created_at: 0,
                imported: true,
            },
        )
    };
    let members = match oldest(m.users) {
        Some(owner) => if holds_somewhere(
            m.members,
            member_is(imported_organization(), owner.id),
        ) {
            m.members
        } else {
            m.members.push(
                MemberRowModel {
                    organization_id: imported_organization(),
                    user_id: owner.id,
                    role: Role::Owner,
                },
            )
        },
        None => m.members,
    };
    ControlModel { organizations, members, ..m }
}

/// A project for each token, named as the registry names it.
pub open spec fn adopted(
    m: ControlModel,
    tokens: Seq<Seq<char>>,
    registry: Map<Seq<char>, Seq<char>>,
) -> ControlModel
    decreases tokens.len(),
{
    if tokens.len() == 0 {
        m
    } else {
        let before = adopted(m, tokens.drop_last(), registry);
        let token = tokens.last();
        if holds_somewhere(before.projects, project_is(project_id_of(token))) || holds_somewhere(
            before.projects,
            token_is(token),
        ) {
            before
        } else {
            ControlModel {
                projects: before.projects.push(
                    ProjectRowModel {
                        id: project_id_of(token),
                        organization_id: imported_organization(),
                        name: if registry.contains_key(token) {
                            registry[token]
                        } else {
                            "Imported Project"@
                        },
                        capture_token: token,
                        created_at: 0,
                        imported: true,
                    },
                ),
                ..before
            }
        }
    }
}

/// The state with a project for every token.
pub open spec fn orphans_imported(
    m: ControlModel,
    tokens: Seq<Seq<char>>,
    registry: Map<Seq<char>, Seq<char>>,
) -> ControlModel {
    let missing = orphans(m, tokens);
    if missing.len() == 0 {
        m
    } else {
        adopted(organization_prepared(m), missing, registry)
    }
}

fn find_orphans(access: &ProjectAccess, tokens: &Vec<String>) -> (r: Vec<String>)
    ensures
        views(r@) == orphans(access@, views(tokens@)),
{
    let ghost all = views(tokens@);
    let mut out: Vec<String> = Vec::new();
    let mut i: usize = 0;
    assert(all.take(0) =~= Seq::<Seq<char>>::empty());
    assert(views(out@) =~= Seq::<Seq<char>>::empty());
    while i < tokens.len()
        invariant
            i <= tokens.len(),
            all == views(tokens@),
            views(out@) == orphans(access@, all.take(i as int)),
        decreases tokens.len() - i,
    {
        assert(all.take(i + 1).drop_last() =~= all.take(i as int));
        assert(all.take(i + 1).last() == tokens@[i as int]@);
        if find(&access.projects, &ProjectByToken { token: tokens[i].as_str() }).is_none() {
            append(&mut out, tokens[i].clone());
        }
        i += 1;
    }
    assert(all.take(all.len() as int) =~= all);
    out
}

fn prepare_organization(access: &mut ProjectAccess)
    ensures
        final(access)@ == organization_prepared(old(access)@),
{
    let id = "00000000-0000-0000-0000-000000000001";
    let by_age = sort(duplicate_all(&access.users), &UserAge);
    let add = if by_age.len() > 0 {
        find(
            &access.members,
            &MemberOf { organization: id, user: by_age[0].id.as_str() },
        ).is_none()
    } else {
        false
    };
    assert(by_age@.len() == views(by_age@).len());
    if by_age.len() > 0 {
        assert(views(by_age@)[0] == by_age@[0]@);
    }
    if find(&access.organizations, &OrganizationById { id }).is_none() {
        append(
            &mut access.organizations,
            OrganizationRow {
                id: id.to_owned(),
                name: "Imported Projects".to_owned(),
                created_at: 0,
                imported: true,
            },
        );
    }
    if add {
        append(
            &mut access.members,
            MemberRow {
                organization_id: id.to_owned(),
                user_id: by_age[0].id.clone(),
                role: Role::Owner,
            },
        );
    }
}

/// Gives every token that has no project one of its own.
pub fn import_orphan_projects(access: &mut ProjectAccess, tokens: &Vec<String>, registry: &TextMap)
    ensures
        final(access)@ == orphans_imported(old(access)@, views(tokens@), registry@),
{
    let missing = find_orphans(access, tokens);
    assert(missing@.len() == views(missing@).len());
    if missing.len() == 0 {
        return;
    }
    prepare_organization(access);
    let ghost all = views(missing@);
    let ghost start = access@;
    let mut i: usize = 0;
    assert(all.take(0) =~= Seq::<Seq<char>>::empty());
    while i < missing.len()
        invariant
            i <= missing.len(),
            all == views(missing@),
            access@ == adopted(start, all.take(i as int), registry@),
        decreases missing.len() - i,
    {
        assert(all.take(i + 1).drop_last() =~= all.take(i as int));
        assert(all.take(i + 1).last() == missing@[i as int]@);
        let token = missing[i].as_str();
        let id = deterministic_project_id(token);
        if find(&access.projects, &ProjectById { id: id.as_str() }).is_none() && find(
            &access.projects,
            &ProjectByToken { token },
        ).is_none() {
            let name = match registry.get(token) {
                Some(name) => name.clone(),
                None => "Imported Project".to_owned(),
            };
            append(
                &mut access.projects,
                ProjectRow {
                    id,
                    organization_id: "00000000-0000-0000-0000-000000000001".to_owned(),
                    name,
                    capture_token: token.to_owned(),
                    created_at: 0,
                    imported: true,
                },
            );
        }
        i += 1;
    }
    assert(all.take(all.len() as int) =~= all);
}

// ── The import ────────────────────────────────────────────────────────────────

/// The tokens of projects.
pub open spec fn project_tokens(projects: Seq<ProjectRowModel>) -> Seq<Seq<char>> {
    projects.map_values(|p: ProjectRowModel| p.capture_token)
}

/// Every token that is known of, in order.
pub open spec fn all_tokens(
    legacy: LegacyModel,
    discovered: Seq<Seq<char>>,
    extra: Seq<Seq<char>>,
) -> Seq<Seq<char>> {
    texts_added(
        texts_added(
            texts_added(Seq::empty(), discovered),
            project_tokens(legacy.projects),
        ),
        extra,
    )
}

/// The first token that is not among the valid ones.
pub open spec fn invalid_token(tokens: Seq<Seq<char>>, valid: Seq<Seq<char>>) -> Option<Seq<char>>
    decreases tokens.len(),
{
    if tokens.len() == 0 {
        None
    } else if invalid_token(tokens.drop_last(), valid) is Some {
        invalid_token(tokens.drop_last(), valid)
    } else if valid.contains(tokens.last()) {
        None
    } else {
        Some(tokens.last())
    }
}

/// The state after an import.
pub open spec fn control_imported(
    m: ControlModel,
    path: Seq<char>,
    legacy: LegacyModel,
    discovered: Seq<Seq<char>>,
    extra: Seq<Seq<char>>,
    registry: Map<Seq<char>, Seq<char>>,
    valid: Seq<Seq<char>>,
) -> Result<ControlModel, ImportFault> {
    let tokens = all_tokens(legacy, discovered, extra);
    match invalid_token(tokens, valid) {
        Some(token) => Err(ImportFault::InvalidToken(token)),
        None => match auth_imported(m, legacy) {
            Err(message) => Err(ImportFault::Database(path, message)),
            Ok(next) => Ok(orphans_imported(next, tokens, registry)),
        },
    }
}

/// How many rows of each kind a state holds.
pub open spec fn counted(report: LegacyImportReport, m: ControlModel) -> bool {
    &&& report.users == m.users.len()
    &&& report.organizations == m.organizations.len()
    &&& report.projects == m.projects.len()
    &&& report.personal_keys == m.keys.len()
    &&& report.sessions == m.sessions.len()
}

fn gather_tokens(legacy: &LegacyAuth, discovered: &Vec<String>, extra: &Vec<String>) -> (r: Vec<
    String,
>)
    ensures
        views(r@) == all_tokens(legacy@, views(discovered@), views(extra@)),
{
    let mut tokens: Vec<String> = Vec::new();
    assert(views(tokens@) =~= Seq::<Seq<char>>::empty());
    add_texts(&mut tokens, discovered);
    let ghost start = views(tokens@);
    let ghost all = project_tokens(views(legacy.projects@));
    let mut i: usize = 0;
    assert(all.take(0) =~= Seq::<Seq<char>>::empty());
    while i < legacy.projects.len()
        invariant
            i <= legacy.projects.len(),
            all == project_tokens(views(legacy.projects@)),
            views(tokens@) == texts_added(start, all.take(i as int)),
        decreases legacy.projects.len() - i,
    {
        assert(all.take(i + 1).drop_last() =~= all.take(i as int));
        assert(all.take(i + 1).last() == legacy.projects@[i as int]@.capture_token);
        add_text(&mut tokens, legacy.projects[i].capture_token.as_str());
        i += 1;
    }
    assert(all.take(all.len() as int) =~= all);
    add_texts(&mut tokens, extra);
    tokens
}

fn lists(texts: &Vec<String>, text: &str) -> (r: bool)
    ensures
        r == views(texts@).contains(text@),
{
    let mut i: usize = 0;
    while i < texts.len()
        invariant
            i <= texts.len(),
            forall|j: int| 0 <= j < i ==> (#[trigger] views(texts@)[j]) != text@,
        decreases texts.len() - i,
    {
        assert(views(texts@)[i as int] == texts@[i as int]@);
        if same(texts[i].as_str(), text) {
            return true;
        }
        i += 1;
    }
    false
}

proof fn lemma_invalid_stays(tokens: Seq<Seq<char>>, valid: Seq<Seq<char>>, k: int)
    requires
        0 <= k <= tokens.len(),
    ensures
        invalid_token(tokens.take(k), valid) is Some ==> invalid_token(tokens, valid)
            == invalid_token(tokens.take(k), valid),
    decreases tokens.len() - k,
{
    if k < tokens.len() {
        lemma_invalid_stays(tokens, valid, k + 1);
        assert(tokens.take(k + 1).drop_last() =~= tokens.take(k));
    } else {
        assert(tokens.take(k) =~= tokens);
    }
}

fn find_invalid(tokens: &Vec<String>, valid: &Vec<String>) -> (r: Option<usize>)
    ensures
        match r {
            Some(i) => i < tokens.len() && invalid_token(views(tokens@), views(valid@)) == Some(
                tokens@[i as int]@,
            ),
            None => invalid_token(views(tokens@), views(valid@)) is None,
        },
{
    let ghost all = views(tokens@);
    let mut i: usize = 0;
    assert(all.take(0) =~= Seq::<Seq<char>>::empty());
    while i < tokens.len()
        invariant
            i <= tokens.len(),
            all == views(tokens@),
            invalid_token(all.take(i as int), views(valid@)) is None,
        decreases tokens.len() - i,
    {
        assert(all.take(i + 1).drop_last() =~= all.take(i as int));
        assert(all.take(i + 1).last() == tokens@[i as int]@);
        proof {
            lemma_invalid_stays(all, views(valid@), i + 1);
        }
        if !lists(valid, tokens[i].as_str()) {
            return Some(i);
        }
        i += 1;
    }
    assert(all.take(all.len() as int) =~= all);
    None
}

fn copy_access(access: &ProjectAccess) -> (r: ProjectAccess)
    ensures
        r@ == access@,
{
    ProjectAccess {
        users: duplicate_all(&access.users),
        organizations: duplicate_all(&access.organizations),
        members: duplicate_all(&access.members),
        projects: duplicate_all(&access.projects),
        sessions: duplicate_all(&access.sessions),
        keys: duplicate_all(&access.keys),
    }
}

/// Imports accounts, and gives every token that they do not own a project. Given are the tokens that were
/// discovered, the names in the registry, and which tokens are valid. On an error nothing changes.
pub fn import_legacy_control_with_tokens(
    access: &mut ProjectAccess,
    control_path: &str,
    legacy: &LegacyAuth,
    discovered: &Vec<String>,
    extra_tokens: &Vec<String>,
    registry: &TextMap,
    valid: &Vec<String>,
) -> (r: Result<LegacyImportReport, LegacyImportError>)
    ensures
        match control_imported(
            old(access)@,
            control_path@,
            legacy@,
            views(discovered@),
            views(extra_tokens@),
            registry@,
            views(valid@),
        ) {
            Ok(next) => r matches Ok(report) && final(access)@ == next && counted(report, next),
            Err(fault) => r matches Err(e) && e@ == fault && final(access)@ == old(access)@,
        },
{
    let tokens = gather_tokens(legacy, discovered, extra_tokens);
    if let Some(i) = find_invalid(&tokens, valid) {
        return Err(LegacyImportError::InvalidToken(tokens[i].clone()));
    }
    let mut next = copy_access(access);
    match import_auth_rows(&mut next, legacy) {
        Ok(()) => {},
        Err(message) => {
            return Err(LegacyImportError::Database { path: control_path.to_owned(), message });
        },
    }
    import_orphan_projects(&mut next, &tokens, registry);
    let report = LegacyImportReport {
        users: next.users.len(),
        organizations: next.organizations.len(),
        projects: next.projects.len(),
        personal_keys: next.keys.len(),
        sessions: next.sessions.len(),
    };
    *access = next;
    Ok(report)
}

/// Imports accounts, and gives every token that they do not own a project: it is
/// [`import_legacy_control_with_tokens`] without further tokens.
pub fn import_legacy_control(
    access: &mut ProjectAccess,
    control_path: &str,
    legacy: &LegacyAuth,
    discovered: &Vec<String>,
    registry: &TextMap,
    valid: &Vec<String>,
) -> (r: Result<LegacyImportReport, LegacyImportError>)
    ensures
        match control_imported(
            old(access)@,
            control_path@,
            legacy@,
            views(discovered@),
            Seq::empty(),
            registry@,
            views(valid@),
        ) {
            Ok(next) => r matches Ok(report) && final(access)@ == next && counted(report, next),
            Err(fault) => r matches Err(e) && e@ == fault && final(access)@ == old(access)@,
        },
{
    let none: Vec<String> = Vec::new();
    assert(views(none@) =~= Seq::<Seq<char>>::empty());
    import_legacy_control_with_tokens(
        access,
        control_path,
        legacy,
        discovered,
        &none,
        registry,
        valid,
    )
}

// ── Laws ──────────────────────────────────────────────────────────────────────

proof fn lemma_still_there<V>(rows: Seq<V>, row: V, p: spec_fn(V) -> bool)
    ensures
        holds_somewhere(rows, p) ==> holds_somewhere(rows.push(row), p),
        index_of(rows, p) is Some ==> index_of(rows.push(row), p) == index_of(rows, p),
        p(row) ==> holds_somewhere(rows.push(row), p),
{
    assert(rows.push(row).drop_last() =~= rows);
}

/// Whether whatever is found among some rows is found among others.
spec fn keeps<V>(before: Seq<V>, after: Seq<V>) -> bool {
    forall|p: spec_fn(V) -> bool|
        holds_somewhere(before, p) ==> #[trigger] holds_somewhere(after, p)
}

/// Whether a state has all accounts of another.
spec fn grown(before: ControlModel, after: ControlModel) -> bool {
    &&& keeps(before.users, after.users)
    &&& keeps(before.organizations, after.organizations)
    &&& keeps(before.members, after.members)
    &&& keeps(before.keys, after.keys)
    &&& keeps(before.sessions, after.sessions)
}

proof fn lemma_keeps_push<V>(rows: Seq<V>, row: V)
    ensures
        keeps(rows, rows.push(row)),
{
    assert forall|p: spec_fn(V) -> bool| holds_somewhere(rows, p) implies #[trigger] holds_somewhere(
        rows.push(row),
        p,
    ) by {
        lemma_still_there(rows, row, p);
    }
}

/// A step that keeps all accounts.
spec fn growing<V>(step: spec_fn(ControlModel, V) -> Result<ControlModel, Seq<char>>) -> bool {
    forall|m: ControlModel, row: V|
        #[trigger] step(m, row) matches Ok(next) ==> grown(m, next)
}

proof fn lemma_steps_grow<V>(
    m: ControlModel,
    rows: Seq<V>,
    step: spec_fn(ControlModel, V) -> Result<ControlModel, Seq<char>>,
)
    requires
        growing(step),
    ensures
        steps(m, rows, step) matches Ok(next) ==> grown(m, next),
    decreases rows.len(),
{
    if rows.len() > 0 {
        lemma_steps_grow(m, rows.drop_last(), step);
        if let Ok(before) = steps(m, rows.drop_last(), step) {
            assert(step(before, rows.last()) matches Ok(next) ==> grown(before, next));
        }
    }
}

/// A step that leaves its row settled, in a way that lasts.
spec fn settling<V>(
    step: spec_fn(ControlModel, V) -> Result<ControlModel, Seq<char>>,
    done: spec_fn(ControlModel, V) -> bool,
) -> bool {
    &&& forall|m: ControlModel, row: V|
        #[trigger] step(m, row) matches Ok(next) ==> done(next, row)
    &&& forall|m: ControlModel, next: ControlModel, row: V|
        #![trigger done(m, row), done(next, row)]
        done(m, row) && grown(m, next) ==> done(next, row)
}

/// Whether every row is settled.
spec fn settled<V>(m: ControlModel, rows: Seq<V>, done: spec_fn(ControlModel, V) -> bool) -> bool {
    forall|i: int| 0 <= i < rows.len() ==> done(m, #[trigger] rows[i])
}

proof fn lemma_steps_settle<V>(
    m: ControlModel,
    rows: Seq<V>,
    step: spec_fn(ControlModel, V) -> Result<ControlModel, Seq<char>>,
    done: spec_fn(ControlModel, V) -> bool,
)
    requires
        growing(step),
        settling(step, done),
    ensures
        steps(m, rows, step) matches Ok(next) ==> settled(next, rows, done),
    decreases rows.len(),
{
    if rows.len() > 0 {
        let rest = rows.drop_last();
        lemma_steps_settle(m, rest, step, done);
        if let Ok(before) = steps(m, rest, step) {
            if let Ok(next) = step(before, rows.last()) {
                assert(grown(before, next));
                assert forall|i: int| 0 <= i < rows.len() implies done(next, #[trigger] rows[i]) by {
                    if i < rest.len() {
                        assert(rest[i] == rows[i]);
                        assert(done(before, rest[i]));
                    }
                }
            }
        }
    }
}

proof fn lemma_settled_grows<V>(
    m: ControlModel,
    next: ControlModel,
    rows: Seq<V>,
    step: spec_fn(ControlModel, V) -> Result<ControlModel, Seq<char>>,
    done: spec_fn(ControlModel, V) -> bool,
)
    requires
        settling(step, done),
        settled(m, rows, done),
        grown(m, next),
    ensures
        settled(next, rows, done),
{
    assert forall|i: int| 0 <= i < rows.len() implies done(next, #[trigger] rows[i]) by {
        assert(done(m, rows[i]));
    }
}

proof fn lemma_settled_again<V>(
    m: ControlModel,
    rows: Seq<V>,
    step: spec_fn(ControlModel, V) -> Result<ControlModel, Seq<char>>,
    done: spec_fn(ControlModel, V) -> bool,
)
    requires
        settled(m, rows, done),
        forall|row: V| done(m, row) ==> #[trigger] step(m, row) == Ok::<ControlModel, Seq<char>>(m),
    ensures
        steps(m, rows, step) == Ok::<ControlModel, Seq<char>>(m),
    decreases rows.len(),
{
    if rows.len() > 0 {
        let rest = rows.drop_last();
        assert forall|i: int| 0 <= i < rest.len() implies done(m, #[trigger] rest[i]) by {
            assert(rest[i] == rows[i]);
        }
        lemma_settled_again(m, rest, step, done);
        assert(done(m, rows[rows.len() - 1]));
        assert(step(m, rows.last()) == Ok::<ControlModel, Seq<char>>(m));
    }
}

spec fn user_done() -> spec_fn(ControlModel, UserRowModel) -> bool {
    |m: ControlModel, row: UserRowModel|
        holds_somewhere(m.users, user_is(row.id)) || holds_somewhere(m.users, email_is(row.email))
}

spec fn organization_done() -> spec_fn(ControlModel, OrganizationRowModel) -> bool {
    |m: ControlModel, row: OrganizationRowModel|
        holds_somewhere(m.organizations, organization_is(row.id))
}

spec fn membership_done() -> spec_fn(ControlModel, MembershipModel) -> bool {
    |m: ControlModel, row: MembershipModel|
        role_named(row.role) is None || holds_somewhere(
            m.members,
            member_is(row.organization_id, row.user_id),
        )
}

spec fn project_done() -> spec_fn(ControlModel, ProjectRowModel) -> bool {
    |m: ControlModel, row: ProjectRowModel|
        holds_somewhere(m.organizations, organization_is(row.organization_id))
}

spec fn key_done() -> spec_fn(ControlModel, KeyRowModel) -> bool {
    |m: ControlModel, row: KeyRowModel|
        holds_somewhere(m.keys, key_is(row.id)) || holds_somewhere(m.keys, hash_is(row.key_hash))
}

spec fn session_done() -> spec_fn(ControlModel, SessionRowModel) -> bool {
    |m: ControlModel, row: SessionRowModel| holds_somewhere(m.sessions, session_is(row.id))
}

proof fn lemma_user_step()
    ensures
        growing(user_step()),
        settling(user_step(), user_done()),
{
    assert forall|m: ControlModel, row: UserRowModel|
        (#[trigger] user_step()(m, row) matches Ok(next) ==> grown(m, next) && user_done()(
            next,
            row,
        )) by {
        lemma_keeps_push(m.users, row);
        lemma_still_there(m.users, row, user_is(row.id));
    }
}

proof fn lemma_organization_step()
    ensures
        growing(organization_step()),
        settling(organization_step(), organization_done()),
{
    assert forall|m: ControlModel, row: OrganizationRowModel|
        (#[trigger] organization_step()(m, row) matches Ok(next) ==> grown(m, next)
            && organization_done()(next, row)) by {
        let added = OrganizationRowModel { imported: false, ..row };
        lemma_keeps_push(m.organizations, added);
        lemma_still_there(m.organizations, added, organization_is(row.id));
    }
}

proof fn lemma_membership_step()
    ensures
        growing(membership_step()),
        settling(membership_step(), membership_done()),
{
    assert forall|m: ControlModel, row: MembershipModel|
        (#[trigger] membership_step()(m, row) matches Ok(next) ==> grown(m, next)
            && membership_done()(next, row)) by {
        if let Some(role) = role_named(row.role) {
            let added = MemberRowModel {
                organization_id: row.organization_id,
                user_id: row.user_id,
                role,
            };
            lemma_keeps_push(m.members, added);
            lemma_still_there(m.members, added, member_is(row.organization_id, row.user_id));
        }
    }
}

proof fn lemma_project_step()
    ensures
        growing(project_step()),
        settling(project_step(), project_done()),
{
}

proof fn lemma_key_step()
    ensures
        growing(key_step()),
        settling(key_step(), key_done()),
{
    assert forall|m: ControlModel, row: KeyRowModel|
        (#[trigger] key_step()(m, row) matches Ok(next) ==> grown(m, next) && key_done()(
            next,
            row,
        )) by {
        lemma_keeps_push(m.keys, row);
        lemma_still_there(m.keys, row, key_is(row.id));
    }
}

proof fn lemma_session_step()
    ensures
        growing(session_step()),
        settling(session_step(), session_done()),
{
    assert forall|m: ControlModel, row: SessionRowModel|
        (#[trigger] session_step()(m, row) matches Ok(next) ==> grown(m, next) && session_done()(
            next,
            row,
        )) by {
        lemma_keeps_push(m.sessions, row);
        lemma_still_there(m.sessions, row, session_is(row.id));
    }
}

/// The last row with a token.
spec fn last_with(rows: Seq<ProjectRowModel>, token: Seq<char>) -> Option<ProjectRowModel>
    decreases rows.len(),
{
    if rows.len() == 0 {
        None
    } else if rows.last().capture_token == token {
        Some(rows.last())
    } else {
        last_with(rows.drop_last(), token)
    }
}

/// Whether the project of every token of some rows is as the last row with that token says.
spec fn overlaid(projects: Seq<ProjectRowModel>, rows: Seq<ProjectRowModel>) -> bool {
    forall|token: Seq<char>|
        #[trigger] last_with(rows, token) matches Some(row) ==> (index_of(projects, token_is(token))
            matches Some(i) && 0 <= i < projects.len() && projects[i] == (ProjectRowModel {
            id: projects[i].id,
            imported: false,
            ..row
        }))
}

proof fn lemma_overlaid_push(
    projects: Seq<ProjectRowModel>,
    rows: Seq<ProjectRowModel>,
    added: ProjectRowModel,
)
    requires
        overlaid(projects, rows),
    ensures
        overlaid(projects.push(added), rows),
{
    assert forall|token: Seq<char>|
        (#[trigger] last_with(rows, token) matches Some(row) ==> (index_of(
            projects.push(added),
            token_is(token),
        ) matches Some(i) && 0 <= i < projects.push(added).len() && projects.push(added)[i] == (
        ProjectRowModel { id: projects.push(added)[i].id, imported: false, ..row }))) by {
        lemma_still_there(projects, added, token_is(token));
    }
}

proof fn lemma_same_tokens(a: Seq<ProjectRowModel>, b: Seq<ProjectRowModel>, token: Seq<char>)
    requires
        a.len() == b.len(),
        forall|i: int|
            0 <= i < a.len() ==> (#[trigger] a[i]).capture_token == (#[trigger] b[i]).capture_token,
    ensures
        index_of(a, token_is(token)) == index_of(b, token_is(token)),
    decreases a.len(),
{
    if a.len() > 0 {
        let x = a.drop_last();
        let y = b.drop_last();
        assert forall|i: int| 0 <= i < x.len() implies (#[trigger] x[i]).capture_token == (
        #[trigger] y[i]).capture_token by {
            assert(a[i].capture_token == b[i].capture_token);
        }
        lemma_same_tokens(x, y, token);
        assert(a[a.len() - 1].capture_token == b[b.len() - 1].capture_token);
    }
}

proof fn lemma_projects_overlaid(m: ControlModel, rows: Seq<ProjectRowModel>)
    ensures
        steps(m, rows, project_step()) matches Ok(next) ==> overlaid(next.projects, rows)
            && next == (ControlModel { projects: next.projects, ..m }),
    decreases rows.len(),
{
    if rows.len() > 0 {
        let rest = rows.drop_last();
        let row = rows.last();
        lemma_projects_overlaid(m, rest);
        if let Ok(before) = steps(m, rest, project_step()) {
            let p = before.projects;
            lemma_index_of(p, token_is(row.capture_token));
            if let Ok(next) = project_step()(before, row) {
                let q = next.projects;
                match index_of(p, token_is(row.capture_token)) {
                    Some(k) => {
                        assert forall|token: Seq<char>|
                            (#[trigger] last_with(rows, token) matches Some(last) ==> (index_of(
                                q,
                                token_is(token),
                            ) matches Some(i) && 0 <= i < q.len() && q[i] == (ProjectRowModel {
                                id: q[i].id,
                                imported: false,
                                ..last
                            }))) by {
                            lemma_same_tokens(p, q, token);
                            if token != row.capture_token {
                                assert(last_with(rows, token) == last_with(rest, token));
                                lemma_index_of(p, token_is(token));
                            }
                        }
                    },
                    None => {
                        let added = ProjectRowModel { imported: false, ..row };
                        assert(q == p.push(added));
                        lemma_overlaid_push(p, rest, added);
                        assert forall|token: Seq<char>|
                            (#[trigger] last_with(rows, token) matches Some(last) ==> (index_of(
                                q,
                                token_is(token),
                            ) matches Some(i) && 0 <= i < q.len() && q[i] == (ProjectRowModel {
                                id: q[i].id,
                                imported: false,
                                ..last
                            }))) by {
                            if token == row.capture_token {
                                assert(q.drop_last() =~= p);
                            } else {
                                assert(last_with(rows, token) == last_with(rest, token));
                            }
                        }
                    },
                }
            }
        }
    }
}

/// A project once the rows of its token were imported again.
spec fn again_at(projects: Seq<ProjectRowModel>, rows: Seq<ProjectRowModel>, j: int) -> ProjectRowModel {
    match last_with(rows, projects[j].capture_token) {
        Some(row) if index_of(projects, token_is(projects[j].capture_token)) == Some(j) =>
            ProjectRowModel { id: projects[j].id, imported: false, ..row },
        _ => projects[j],
    }
}

/// Projects once rows were imported again.
spec fn again(projects: Seq<ProjectRowModel>, rows: Seq<ProjectRowModel>) -> Seq<ProjectRowModel> {
    Seq::new(projects.len(), |j: int| again_at(projects, rows, j))
}

proof fn lemma_last_with(rows: Seq<ProjectRowModel>, token: Seq<char>)
    ensures
        last_with(rows, token) matches Some(row) ==> row.capture_token == token,
    decreases rows.len(),
{
    if rows.len() > 0 {
        lemma_last_with(rows.drop_last(), token);
    }
}

proof fn lemma_listed_with(rows: Seq<ProjectRowModel>, i: int)
    requires
        0 <= i < rows.len(),
    ensures
        last_with(rows, rows[i].capture_token) is Some,
    decreases rows.len(),
{
    if i < rows.len() - 1 {
        lemma_listed_with(rows.drop_last(), i);
        assert(rows.drop_last()[i] == rows[i]);
    }
}

proof fn lemma_projects_again(m: ControlModel, rows: Seq<ProjectRowModel>)
    requires
        settled(m, rows, project_done()),
        forall|i: int|
            0 <= i < rows.len() ==> holds_somewhere(
                m.projects,
                token_is((#[trigger] rows[i]).capture_token),
            ),
    ensures
        steps(m, rows, project_step()) == Ok::<ControlModel, Seq<char>>(
            ControlModel { projects: again(m.projects, rows), ..m },
        ),
    decreases rows.len(),
{
    let n = m.projects;
    if rows.len() == 0 {
        assert(again(n, rows) =~= n);
    } else {
        let rest = rows.drop_last();
        let row = rows.last();
        assert forall|i: int| 0 <= i < rest.len() implies project_done()(m, #[trigger] rest[i])
            && holds_somewhere(n, token_is(rest[i].capture_token)) by {
            assert(rest[i] == rows[i]);
        }
        lemma_projects_again(m, rest);
        let before = ControlModel { projects: again(n, rest), ..m };
        let p = before.projects;
        assert forall|i: int| 0 <= i < n.len() implies (#[trigger] n[i]).capture_token == (
        #[trigger] p[i]).capture_token && p[i].id == n[i].id by {
            lemma_last_with(rest, n[i].capture_token);
        }
        lemma_same_tokens(n, p, row.capture_token);
        assert(rows[rows.len() - 1] == row);
        assert(project_done()(m, row));
        lemma_index_of(n, token_is(row.capture_token));
        let k = index_of(n, token_is(row.capture_token))->Some_0;
        let next = p.update(k, ProjectRowModel { id: p[k].id, imported: false, ..row });
        assert(again(n, rows) =~= next) by {
            assert forall|j: int| 0 <= j < n.len() implies again_at(n, rows, j) == next[j] by {
                if n[j].capture_token == row.capture_token {
                    assert(last_with(rows, n[j].capture_token) == Some(row));
                } else {
                    assert(last_with(rows, n[j].capture_token) == last_with(
                        rest,
                        n[j].capture_token,
                    ));
                    assert(j != k);
                }
            }
        }
    }
}

proof fn lemma_adopted(m: ControlModel, tokens: Seq<Seq<char>>, registry: Map<Seq<char>, Seq<char>>)
    ensures
        adopted(m, tokens, registry) == (ControlModel {
            projects: adopted(m, tokens, registry).projects,
            ..m
        }),
        keeps(m.projects, adopted(m, tokens, registry).projects),
        forall|i: int|
            0 <= i < tokens.len() ==> holds_somewhere(
                adopted(m, tokens, registry).projects,
                project_is(project_id_of(#[trigger] tokens[i])),
            ) || holds_somewhere(
                adopted(m, tokens, registry).projects,
                token_is(tokens[i]),
            ),
    decreases tokens.len(),
{
    if tokens.len() > 0 {
        let rest = tokens.drop_last();
        lemma_adopted(m, rest, registry);
        let before = adopted(m, rest, registry).projects;
        let after = adopted(m, tokens, registry).projects;
        if after != before {
            lemma_keeps_push(before, after.last());
            assert(after == before.push(after.last()));
            lemma_still_there(before, after.last(), token_is(tokens.last()));
        }
        assert forall|i: int| 0 <= i < tokens.len() implies holds_somewhere(
            after,
            project_is(project_id_of(#[trigger] tokens[i])),
        ) || holds_somewhere(after, token_is(tokens[i])) by {
            if i < rest.len() {
                assert(rest[i] == tokens[i]);
            }
        }
    }
}

proof fn lemma_adopted_again(
    m: ControlModel,
    tokens: Seq<Seq<char>>,
    registry: Map<Seq<char>, Seq<char>>,
)
    requires
        forall|i: int|
            0 <= i < tokens.len() ==> holds_somewhere(
                m.projects,
                project_is(project_id_of(#[trigger] tokens[i])),
            ) || holds_somewhere(m.projects, token_is(tokens[i])),
    ensures
        adopted(m, tokens, registry) == m,
    decreases tokens.len(),
{
    if tokens.len() > 0 {
        let rest = tokens.drop_last();
        assert forall|i: int| 0 <= i < rest.len() implies holds_somewhere(
            m.projects,
            project_is(project_id_of(#[trigger] rest[i])),
        ) || holds_somewhere(m.projects, token_is(rest[i])) by {
            assert(rest[i] == tokens[i]);
        }
        lemma_adopted_again(m, rest, registry);
        assert(tokens[tokens.len() - 1] == tokens.last());
    }
}

/// The orphans are the tokens that no project has.
pub proof fn lemma_orphans(m: ControlModel, tokens: Seq<Seq<char>>, token: Seq<char>)
    ensures
        orphans(m, tokens).contains(token) <==> tokens.contains(token) && !holds_somewhere(
            m.projects,
            token_is(token),
        ),
    decreases tokens.len(),
{
    if tokens.len() > 0 {
        let rest = tokens.drop_last();
        lemma_orphans(m, rest, token);
        assert(tokens =~= rest.push(tokens.last()));
        lemma_push_contains(rest, tokens.last(), token);
        lemma_push_contains(orphans(m, rest), tokens.last(), token);
    }
}

proof fn lemma_overlaid_adopted(
    m: ControlModel,
    tokens: Seq<Seq<char>>,
    registry: Map<Seq<char>, Seq<char>>,
    rows: Seq<ProjectRowModel>,
)
    requires
        overlaid(m.projects, rows),
    ensures
        overlaid(adopted(m, tokens, registry).projects, rows),
    decreases tokens.len(),
{
    if tokens.len() > 0 {
        lemma_overlaid_adopted(m, tokens.drop_last(), registry, rows);
        let before = adopted(m, tokens.drop_last(), registry).projects;
        let after = adopted(m, tokens, registry).projects;
        if after != before {
            assert(after == before.push(after.last()));
            lemma_overlaid_push(before, rows, after.last());
        }
    }
}

proof fn lemma_orphans_again(
    m: ControlModel,
    tokens: Seq<Seq<char>>,
    registry: Map<Seq<char>, Seq<char>>,
)
    ensures
        orphans_imported(orphans_imported(m, tokens, registry), tokens, registry)
            == orphans_imported(m, tokens, registry),
        grown(m, orphans_imported(m, tokens, registry)),
        orphans_imported(m, tokens, registry).users == m.users,
{
    let missing = orphans(m, tokens);
    let next = orphans_imported(m, tokens, registry);
    if missing.len() > 0 {
        let prepared = organization_prepared(m);
        lemma_adopted(prepared, missing, registry);
        let p = organization_is(imported_organization());
        let organization = OrganizationRowModel {
            id: imported_organization(),
            name: "Imported Projects"@,
            created_at: 0,
            imported: true,
        };
        lemma_keeps_push(m.organizations, organization);
        lemma_still_there(m.organizations, organization, p);
        if let Some(owner) = oldest(m.users) {
            let member = MemberRowModel {
                organization_id: imported_organization(),
                user_id: owner.id,
                role: Role::Owner,
            };
            lemma_keeps_push(m.members, member);
            lemma_still_there(
                m.members,
                member,
                member_is(imported_organization(), owner.id),
            );
        }
        let left = orphans(next, tokens);
        assert(organization_prepared(next) == next);
        assert forall|i: int| 0 <= i < left.len() implies holds_somewhere(
            next.projects,
            project_is(project_id_of(#[trigger] left[i])),
        ) || holds_somewhere(next.projects, token_is(left[i])) by {
            let token = left[i];
            assert(left.contains(token));
            lemma_orphans(next, tokens, token);
            lemma_orphans(m, tokens, token);
            assert(missing.contains(token));
            let k = choose|k: int| 0 <= k < missing.len() && missing[k] == token;
            assert(missing[k] == token);
        }
        lemma_adopted_again(next, left, registry);
    }
}

/// Importing again what was imported changes nothing.
pub proof fn law_rerunning_the_import_is_safe(
    m: ControlModel,
    path: Seq<char>,
    legacy: LegacyModel,
    discovered: Seq<Seq<char>>,
    extra: Seq<Seq<char>>,
    registry: Map<Seq<char>, Seq<char>>,
    valid: Seq<Seq<char>>,
)
    ensures
        control_imported(m, path, legacy, discovered, extra, registry, valid) matches Ok(next)
            ==> control_imported(next, path, legacy, discovered, extra, registry, valid) == Ok::<
            ControlModel,
            ImportFault,
        >(next),
{
    let tokens = all_tokens(legacy, discovered, extra);
    if let Ok(next) = control_imported(m, path, legacy, discovered, extra, registry, valid) {
        lemma_user_step();
        lemma_organization_step();
        lemma_membership_step();
        lemma_project_step();
        lemma_key_step();
        lemma_session_step();
        let m1 = steps(m, legacy.users, user_step())->Ok_0;
        let m2 = steps(m1, legacy.organizations, organization_step())->Ok_0;
        let m3 = steps(m2, legacy.memberships, membership_step())->Ok_0;
        let m4 = steps(m3, legacy.projects, project_step())->Ok_0;
        let m5 = steps(m4, legacy.personal_keys, key_step())->Ok_0;
        let m6 = steps(m5, legacy.sessions, session_step())->Ok_0;
        lemma_steps_grow(m1, legacy.organizations, organization_step());
        lemma_steps_grow(m2, legacy.memberships, membership_step());
        lemma_steps_grow(m3, legacy.projects, project_step());
        lemma_steps_grow(m4, legacy.personal_keys, key_step());
        lemma_steps_grow(m5, legacy.sessions, session_step());
        lemma_orphans_again(m6, tokens, registry);
        assert(grown(m5, next));
        assert(grown(m4, next));
        assert(grown(m3, next));
        assert(grown(m2, next));
        assert(grown(m1, next));

        lemma_steps_settle(m, legacy.users, user_step(), user_done());
        lemma_settled_grows(m1, next, legacy.users, user_step(), user_done());
        lemma_settled_again(next, legacy.users, user_step(), user_done());

        lemma_steps_settle(m1, legacy.organizations, organization_step(), organization_done());
        lemma_settled_grows(
            m2,
            next,
            legacy.organizations,
            organization_step(),
            organization_done(),
        );
        lemma_settled_again(
            next,
            legacy.organizations,
            organization_step(),
            organization_done(),
        );

        lemma_steps_settle(m2, legacy.memberships, membership_step(), membership_done());
        lemma_settled_grows(m3, next, legacy.memberships, membership_step(), membership_done());
        lemma_settled_again(next, legacy.memberships, membership_step(), membership_done());

        lemma_steps_settle(m4, legacy.personal_keys, key_step(), key_done());
        lemma_settled_grows(m5, next, legacy.personal_keys, key_step(), key_done());
        lemma_settled_again(next, legacy.personal_keys, key_step(), key_done());

        lemma_steps_settle(m5, legacy.sessions, session_step(), session_done());
        lemma_settled_grows(m6, next, legacy.sessions, session_step(), session_done());
        lemma_settled_again(next, legacy.sessions, session_step(), session_done());

        lemma_steps_settle(m3, legacy.projects, project_step(), project_done());
        lemma_settled_grows(m4, next, legacy.projects, project_step(), project_done());
        lemma_projects_overlaid(m3, legacy.projects);
        lemma_projects_kept(m4, legacy.personal_keys, key_step());
        lemma_projects_kept(m5, legacy.sessions, session_step());
        lemma_overlaid_adopted(
            organization_prepared(m6),
            orphans(m6, tokens),
            registry,
            legacy.projects,
        );
        assert(overlaid(next.projects, legacy.projects));
        assert forall|i: int| 0 <= i < legacy.projects.len() implies holds_somewhere(
            next.projects,
            token_is((#[trigger] legacy.projects[i]).capture_token),
        ) by {
            lemma_listed_with(legacy.projects, i);
        }
        lemma_projects_again(next, legacy.projects);
        assert(again(next.projects, legacy.projects) =~= next.projects) by {
            assert forall|j: int| 0 <= j < next.projects.len() implies again_at(
                next.projects,
                legacy.projects,
                j,
            ) == next.projects[j] by {
                assert(last_with(legacy.projects, next.projects[j].capture_token) matches Some(_)
                    ==> true);
            }
        }
        assert(auth_imported(next, legacy) == Ok::<ControlModel, Seq<char>>(next));
    }
}

/// A step that leaves projects alone.
spec fn sparing<V>(step: spec_fn(ControlModel, V) -> Result<ControlModel, Seq<char>>) -> bool {
    forall|m: ControlModel, row: V|
        #[trigger] step(m, row) matches Ok(next) ==> next.projects == m.projects
}

proof fn lemma_projects_kept<V>(
    m: ControlModel,
    rows: Seq<V>,
    step: spec_fn(ControlModel, V) -> Result<ControlModel, Seq<char>>,
)
    requires
        sparing(step),
    ensures
        steps(m, rows, step) matches Ok(next) ==> next.projects == m.projects,
    decreases rows.len(),
{
    if rows.len() > 0 {
        lemma_projects_kept(m, rows.drop_last(), step);
        if let Ok(before) = steps(m, rows.drop_last(), step) {
            assert(step(before, rows.last()) matches Ok(next) ==> next.projects
                == before.projects);
        }
    }
}

/// Whether every project has a token of its own.
pub open spec fn tokens_keyed(projects: Seq<ProjectRowModel>) -> bool {
    forall|i: int, j: int|
        0 <= i < j < projects.len() ==> (#[trigger] projects[i]).capture_token != (
        #[trigger] projects[j]).capture_token
}

/// Whether no project of another token has the id that a token leads to.
pub open spec fn id_free(projects: Seq<ProjectRowModel>, token: Seq<char>) -> bool {
    forall|i: int|
        0 <= i < projects.len() && (#[trigger] projects[i]).id == project_id_of(token)
            ==> projects[i].capture_token == token
}

/// Whether exactly one project has a token.
pub open spec fn one_project(projects: Seq<ProjectRowModel>, token: Seq<char>) -> bool {
    exists|i: int|
        0 <= i < projects.len() && (#[trigger] projects[i]).capture_token == token && forall|j: int|
            0 <= j < projects.len() && (#[trigger] projects[j]).capture_token == token ==> j == i
}

proof fn lemma_keyed_push(projects: Seq<ProjectRowModel>, added: ProjectRowModel)
    requires
        tokens_keyed(projects),
        !holds_somewhere(projects, token_is(added.capture_token)),
    ensures
        tokens_keyed(projects.push(added)),
{
    lemma_index_of(projects, token_is(added.capture_token));
    let all = projects.push(added);
    assert forall|i: int, j: int| 0 <= i < j < all.len() implies (
    #[trigger] all[i]).capture_token != (#[trigger] all[j]).capture_token by {
        assert(all[i] == projects[i]);
        if j < projects.len() {
            assert(all[j] == projects[j]);
        } else {
            assert(!token_is(added.capture_token)(projects[i]));
        }
    }
}

proof fn lemma_projects_keyed(m: ControlModel, rows: Seq<ProjectRowModel>)
    requires
        tokens_keyed(m.projects),
    ensures
        steps(m, rows, project_step()) matches Ok(next) ==> tokens_keyed(next.projects),
    decreases rows.len(),
{
    if rows.len() > 0 {
        let row = rows.last();
        lemma_projects_keyed(m, rows.drop_last());
        if let Ok(before) = steps(m, rows.drop_last(), project_step()) {
            let p = before.projects;
            lemma_index_of(p, token_is(row.capture_token));
            if let Ok(next) = project_step()(before, row) {
                let q = next.projects;
                if let Some(k) = index_of(p, token_is(row.capture_token)) {
                    assert forall|i: int, j: int| 0 <= i < j < q.len() implies (
                    #[trigger] q[i]).capture_token != (#[trigger] q[j]).capture_token by {
                        assert(q[i].capture_token == p[i].capture_token);
                        assert(q[j].capture_token == p[j].capture_token);
                    }
                } else {
                    lemma_keyed_push(p, ProjectRowModel { imported: false, ..row });
                }
            }
        }
    }
}

proof fn lemma_adopted_keyed(
    m: ControlModel,
    tokens: Seq<Seq<char>>,
    registry: Map<Seq<char>, Seq<char>>,
)
    requires
        tokens_keyed(m.projects),
    ensures
        tokens_keyed(adopted(m, tokens, registry).projects),
    decreases tokens.len(),
{
    if tokens.len() > 0 {
        lemma_adopted_keyed(m, tokens.drop_last(), registry);
        let before = adopted(m, tokens.drop_last(), registry).projects;
        let after = adopted(m, tokens, registry).projects;
        if after != before {
            lemma_keyed_push(before, after.last());
        }
    }
}

/// After an import every token that is known of has exactly one project: every token that was discovered, that
/// a project of an account has, or that was given. Left out are tokens whose project would get the id of a
/// project of another token: such a token gets none.
pub proof fn law_every_token_has_one_project(
    m: ControlModel,
    path: Seq<char>,
    legacy: LegacyModel,
    discovered: Seq<Seq<char>>,
    extra: Seq<Seq<char>>,
    registry: Map<Seq<char>, Seq<char>>,
    valid: Seq<Seq<char>>,
    token: Seq<char>,
)
    requires
        tokens_keyed(m.projects),
        discovered.contains(token) || project_tokens(legacy.projects).contains(token)
            || extra.contains(token),
    ensures
        control_imported(m, path, legacy, discovered, extra, registry, valid) matches Ok(next) ==> {
            &&& tokens_keyed(next.projects)
            &&& id_free(next.projects, token) ==> one_project(next.projects, token)
        },
{
    let tokens = all_tokens(legacy, discovered, extra);
    let first = texts_added(Seq::empty(), discovered);
    lemma_texts_added(Seq::empty(), discovered, token);
    lemma_texts_added(first, project_tokens(legacy.projects), token);
    lemma_texts_added(texts_added(first, project_tokens(legacy.projects)), extra, token);
    if let Ok(next) = control_imported(m, path, legacy, discovered, extra, registry, valid) {
        lemma_projects_kept(m, legacy.users, user_step());
        let m1 = steps(m, legacy.users, user_step())->Ok_0;
        lemma_projects_kept(m1, legacy.organizations, organization_step());
        let m2 = steps(m1, legacy.organizations, organization_step())->Ok_0;
        lemma_projects_kept(m2, legacy.memberships, membership_step());
        let m3 = steps(m2, legacy.memberships, membership_step())->Ok_0;
        lemma_projects_keyed(m3, legacy.projects);
        let m4 = steps(m3, legacy.projects, project_step())->Ok_0;
        lemma_projects_kept(m4, legacy.personal_keys, key_step());
        let m5 = steps(m4, legacy.personal_keys, key_step())->Ok_0;
        lemma_projects_kept(m5, legacy.sessions, session_step());
        let imported = auth_imported(m, legacy)->Ok_0;
        let missing = orphans(imported, tokens);
        lemma_orphans(imported, tokens, token);
        if missing.len() > 0 {
            let prepared = organization_prepared(imported);
            lemma_adopted(prepared, missing, registry);
            lemma_adopted_keyed(prepared, missing, registry);
        }
        if missing.contains(token) {
            let k = choose|k: int| 0 <= k < missing.len() && missing[k] == token;
            assert(missing[k] == token);
        }
        let projects = next.projects;
        if !missing.contains(token) {
            assert(holds_somewhere(imported.projects, token_is(token)));
            assert(holds_somewhere(projects, token_is(token)));
        }
        assert(holds_somewhere(projects, project_is(project_id_of(token))) || holds_somewhere(
            projects,
            token_is(token),
        ));
        if id_free(projects, token) {
            lemma_index_of(projects, project_is(project_id_of(token)));
            lemma_index_of(projects, token_is(token));
            let i = match index_of(projects, token_is(token)) {
                Some(i) => i,
                None => index_of(projects, project_is(project_id_of(token)))->Some_0,
            };
            assert(projects[i].capture_token == token);
        }
    }
}

} // verus!
