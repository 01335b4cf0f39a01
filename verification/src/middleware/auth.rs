//! Which requests need a session or a personal key.
//!
//! The capture edge has its tokens and is never gated. Without a store of accounts nothing is.
use vstd::prelude::*;
use vstd::string::*;

use crate::auth::{secret_led, session_user, AuthModel, AuthStore, User, UserModel};
use crate::capture::decompress::{split, split_text};
use crate::enrichment::str_view;
use crate::order::views;
use crate::rows::{find, found, lemma_index_is, lemma_index_none, Query};
use crate::text::{has_prefix, joined, same, starts_with, strip_prefix, trim, trimmed};

verus! {

// ── Cookies ───────────────────────────────────────────────────────────────────

/// The cookies that hold a session.
pub open spec fn session_cookie() -> spec_fn(Seq<char>) -> bool {
    |cookie: Seq<char>| has_prefix(trimmed(cookie), "hoglet_sid="@)
}

/// Tests [`session_cookie`].
pub struct SessionCookie;

impl Query<String> for SessionCookie {
    open spec fn pred(&self) -> spec_fn(Seq<char>) -> bool {
        session_cookie()
    }

    fn test(&self, row: &String) -> (r: bool) {
        starts_with(trim(row.as_str()).as_str(), "hoglet_sid=")
    }
}

/// The session among cookies: that of the first cookie that holds one.
pub open spec fn session_of(cookies: Seq<char>) -> Option<Seq<char>> {
    match found(split(cookies, ';'), session_cookie()) {
        Some(cookie) => Some(trimmed(cookie).skip("hoglet_sid="@.len() as int)),
        None => None,
    }
}

/// Finds the session among cookies.
pub fn extract_session(cookies: &str) -> (r: Option<String>)
    ensures
        match session_of(cookies@) {
            Some(session) => r matches Some(s) && s@ == session,
            None => r is None,
        },
{
    let pieces = split_text(cookies, ';');
    match find(&pieces, &SessionCookie) {
        Some(i) => {
            assert(views(pieces@)[i as int] == pieces@[i as int]@);
            strip_prefix(trim(pieces[i].as_str()).as_str(), "hoglet_sid=")
        },
        None => None,
    }
}

// ── Paths ─────────────────────────────────────────────────────────────────────

/// Whether a path is an endpoint or below it.
pub open spec fn at_or_below(path: Seq<char>, endpoint: Seq<char>) -> bool {
    path == endpoint || has_prefix(path, endpoint + "/"@)
}

fn is_at_or_below(path: &str, endpoint: &str) -> (r: bool)
    ensures
        r == at_or_below(path@, endpoint@),
{
    same(path, endpoint) || starts_with(path, joined(endpoint, "/").as_str())
}

/// Whether a path belongs to the capture edge.
pub open spec fn capture_path(path: Seq<char>) -> bool {
    at_or_below(path, "/e"@) || at_or_below(path, "/batch"@) || at_or_below(path, "/capture"@)
        || at_or_below(path, "/track"@) || at_or_below(path, "/engage"@) || at_or_below(
        path,
        "/i/v0/e"@,
    )
}

/// Whether a path is a page.
pub open spec fn page_path(path: Seq<char>) -> bool {
    path == "/"@ || has_prefix(path, "/dashboard"@)
}

/// Whether a path is gated: pages and the interface are, but for the capture edge, the ways in and out, and
/// what is shared.
pub open spec fn gated(path: Seq<char>) -> bool {
    &&& !capture_path(path)
    &&& path != "/api/auth/setup"@ && path != "/api/auth/login"@ && path != "/api/auth/logout"@
    &&& !has_prefix(path, "/shared/"@)
    &&& has_prefix(path, "/api/"@) || page_path(path)
}

fn is_capture_path(path: &str) -> (r: bool)
    ensures
        r == capture_path(path@),
{
    is_at_or_below(path, "/e") || is_at_or_below(path, "/batch") || is_at_or_below(path, "/capture")
        || is_at_or_below(path, "/track") || is_at_or_below(path, "/engage") || is_at_or_below(
        path,
        "/i/v0/e",
    )
}

fn is_page(path: &str) -> (r: bool)
    ensures
        r == page_path(path@),
{
    same(path, "/") || starts_with(path, "/dashboard")
}

/// Decides [`gated`].
pub fn is_gated(path: &str) -> (r: bool)
    ensures
        r == gated(path@),
{
    if is_capture_path(path) {
        return false;
    }
    if same(path, "/api/auth/setup") || same(path, "/api/auth/login") || same(
        path,
        "/api/auth/logout",
    ) {
        return false;
    }
    if starts_with(path, "/shared/") {
        return false;
    }
    starts_with(path, "/api/") || is_page(path)
}

// ── Decisions ─────────────────────────────────────────────────────────────────

/// What becomes of a request.
pub enum Verdict {
    Pass,
    /// It passes as one of a user.
    PassAs(User),
    ToSetup,
    ToLogin,
    Unauthorized,
}

/// The mathematical value of a [`Verdict`].
pub enum VerdictModel {
    Pass,
    PassAs(UserModel),
    ToSetup,
    ToLogin,
    Unauthorized,
}

impl View for Verdict {
    type V = VerdictModel;

    open spec fn view(&self) -> VerdictModel {
        match self {
            Verdict::Pass => VerdictModel::Pass,
            Verdict::PassAs(user) => VerdictModel::PassAs(user@),
            Verdict::ToSetup => VerdictModel::ToSetup,
            Verdict::ToLogin => VerdictModel::ToLogin,
            Verdict::Unauthorized => VerdictModel::Unauthorized,
        }
    }
}

/// Where a verdict leads, if it leads elsewhere.
pub open spec fn location_of(verdict: VerdictModel) -> Option<Seq<char>> {
    match verdict {
        VerdictModel::ToSetup => Some("/setup.html"@),
        VerdictModel::ToLogin => Some("/login.html"@),
        _ => None,
    }
}

impl Verdict {
    /// Where the verdict leads, if it leads elsewhere.
    pub fn location(&self) -> (r: Option<&'static str>)
        ensures
            str_view(r) == location_of(self@),
    {
        match self {
            Verdict::ToSetup => Some("/setup.html"),
            Verdict::ToLogin => Some("/login.html"),
            _ => None,
        }
    }
}

/// The session of a request.
pub open spec fn request_session(cookies: Option<Seq<char>>) -> Option<Seq<char>> {
    match cookies {
        Some(c) => session_of(c),
        None => None,
    }
}

/// The personal key of a request.
pub open spec fn bearer(authorization: Option<Seq<char>>) -> Option<Seq<char>> {
    match authorization {
        Some(a) if has_prefix(a, "Bearer "@) => Some(a.skip("Bearer "@.len() as int)),
        _ => None,
    }
}

/// Where someone unknown is led: a page leads to setup or login, anything else is refused.
pub open spec fn turned_away(m: AuthModel, path: Seq<char>) -> VerdictModel {
    if !page_path(path) {
        VerdictModel::Unauthorized
    } else if m.users.len() == 0 {
        VerdictModel::ToSetup
    } else {
        VerdictModel::ToLogin
    }
}

/// What becomes of a request, and of the accounts: a personal key that is presented is marked as used.
pub open spec fn judged(
    accounts: Option<AuthModel>,
    path: Seq<char>,
    cookies: Option<Seq<char>>,
    authorization: Option<Seq<char>>,
    now: i64,
) -> (Option<AuthModel>, VerdictModel) {
    match accounts {
        None => (accounts, VerdictModel::Pass),
        Some(m) => {
            let session = request_session(cookies);
            if !gated(path) {
                (accounts, VerdictModel::Pass)
            } else if session is Some && session_user(m, session->Some_0, now) is Ok {
                (accounts, VerdictModel::Pass)
            } else {
                match bearer(authorization) {
                    None => (accounts, turned_away(m, path)),
                    Some(key) => match secret_led(m, key, now) {
                        (next, Ok(user)) => (Some(next), VerdictModel::PassAs(user)),
                        (next, Err(_)) => (Some(next), turned_away(next, path)),
                    },
                }
            }
        },
    }
}

/// The accounts that requests are judged by, if there are any.
pub struct AuthLayerState {
    pub store: Option<AuthStore>,
}

/// The value of accounts that may be absent.
pub open spec fn accounts_view(store: Option<AuthStore>) -> Option<AuthModel> {
    match store {
        Some(s) => Some(s@),
        None => None,
    }
}

fn turn_away(store: &AuthStore, path: &str) -> (r: Verdict)
    ensures
        r@ == turned_away(store@, path@),
{
    if !is_page(path) {
        return Verdict::Unauthorized;
    }
    assert(store.users@.len() == views(store.users@).len());
    if store.users.len() == 0 {
        Verdict::ToSetup
    } else {
        Verdict::ToLogin
    }
}

fn judge(
    store: &mut AuthStore,
    path: &str,
    cookies: Option<&str>,
    authorization: Option<&str>,
    now: i64,
) -> (r: Verdict)
    ensures
        (Some(final(store)@), r@) == judged(
            Some(old(store)@),
            path@,
            str_view(cookies),
            str_view(authorization),
            now,
        ),
{
    if !is_gated(path) {
        return Verdict::Pass;
    }
    if let Some(cookies) = cookies {
        if let Some(session) = extract_session(cookies) {
            if store.validate_session(session.as_str(), now).is_ok() {
                return Verdict::Pass;
            }
        }
    }
    if let Some(authorization) = authorization {
        if let Some(key) = strip_prefix(authorization, "Bearer ") {
            match store.validate_api_key(key.as_str(), now) {
                Ok(user) => {
                    return Verdict::PassAs(user);
                },
                Err(_) => {},
            }
        }
    }
    turn_away(store, path)
}

impl AuthLayerState {
    /// Judges a request by its path, its cookies and its authorization.
    pub fn require_auth(
        &mut self,
        path: &str,
        cookies: Option<&str>,
        authorization: Option<&str>,
        now: i64,
    ) -> (r: Verdict)
        ensures
            (accounts_view(final(self).store), r@) == judged(
                accounts_view(old(self).store),
                path@,
                str_view(cookies),
                str_view(authorization),
                now,
            ),
    {
        match &mut self.store {
            Some(store) => judge(store, path, cookies, authorization, now),
            None => Verdict::Pass,
        }
    }
}

// ── Laws ──────────────────────────────────────────────────────────────────────

/// The capture edge is never gated.
pub proof fn law_capture_is_never_gated(
    accounts: Option<AuthModel>,
    path: Seq<char>,
    cookies: Option<Seq<char>>,
    authorization: Option<Seq<char>>,
    now: i64,
)
    requires
        capture_path(path),
    ensures
        judged(accounts, path, cookies, authorization, now) == (accounts, VerdictModel::Pass),
{
}

/// Whatever is gated passes only with a session or a personal key that lets someone in.
pub proof fn law_gated_requests_need_credentials(
    m: AuthModel,
    path: Seq<char>,
    cookies: Option<Seq<char>>,
    authorization: Option<Seq<char>>,
    now: i64,
)
    requires
        gated(path),
        judged(Some(m), path, cookies, authorization, now).1 is Pass || judged(
            Some(m),
            path,
            cookies,
            authorization,
            now,
        ).1 is PassAs,
    ensures
        (request_session(cookies) matches Some(session) && session_user(m, session, now) is Ok) || (
        bearer(authorization) matches Some(key) && secret_led(m, key, now).1 is Ok),
{
}

proof fn lemma_api_is_no_capture(path: Seq<char>)
    requires
        has_prefix(path, "/api/"@) || path == "/"@ || has_prefix(path, "/dashboard"@),
    ensures
        !capture_path(path),
        !has_prefix(path, "/shared/"@),
{
    reveal_strlit("/api/");
    reveal_strlit("/");
    reveal_strlit("/dashboard");
    reveal_strlit("/shared/");
    reveal_strlit("/e");
    reveal_strlit("/batch");
    reveal_strlit("/capture");
    reveal_strlit("/track");
    reveal_strlit("/engage");
    reveal_strlit("/i/v0/e");
    if has_prefix(path, "/api/"@) {
        assert(path.take(5)[1] == 'a' && path[1] == path.take(5)[1]);
    }
    if has_prefix(path, "/dashboard"@) {
        assert(path.take(10)[1] == 'd' && path[1] == path.take(10)[1]);
    }
    if has_prefix(path, "/shared/"@) {
        assert(path.take(8)[1] == 's' && path[1] == path.take(8)[1]);
    }
    lemma_second_char(path, "/e"@);
    lemma_second_char(path, "/batch"@);
    lemma_second_char(path, "/capture"@);
    lemma_second_char(path, "/track"@);
    lemma_second_char(path, "/engage"@);
    lemma_second_char(path, "/i/v0/e"@);
}

proof fn lemma_second_char(path: Seq<char>, endpoint: Seq<char>)
    requires
        endpoint.len() >= 2,
    ensures
        at_or_below(path, endpoint) ==> path.len() >= 2 && path[1] == endpoint[1],
{
    reveal_strlit("/");
    if at_or_below(path, endpoint) && path != endpoint {
        let below = endpoint + "/"@;
        assert(path.take(below.len() as int)[1] == below[1]);
    }
}

/// Where there are accounts, nobody passes to the interface without a session or a key. An interface request is
/// refused; a page leads to logging in, and before there is any user to setting up.
pub proof fn law_the_interface_is_closed_to_strangers(
    m: AuthModel,
    path: Seq<char>,
    cookies: Option<Seq<char>>,
    now: i64,
)
    requires
        has_prefix(path, "/api/"@) || path == "/"@ || has_prefix(path, "/dashboard"@),
        path != "/api/auth/setup"@ && path != "/api/auth/login"@ && path != "/api/auth/logout"@,
        cookies is None,
    ensures
        ({
            let verdict = judged(Some(m), path, cookies, None, now).1;
            &&& has_prefix(path, "/api/"@) ==> verdict == VerdictModel::Unauthorized
            &&& !has_prefix(path, "/api/"@) && m.users.len() == 0 ==> verdict == VerdictModel::ToSetup
                && location_of(verdict) == Some("/setup.html"@)
            &&& !has_prefix(path, "/api/"@) && m.users.len() > 0 ==> verdict == VerdictModel::ToLogin
                && location_of(verdict) == Some("/login.html"@)
        }),
{
    lemma_api_is_no_capture(path);
    reveal_strlit("/api/");
    reveal_strlit("/");
    reveal_strlit("/dashboard");
    if has_prefix(path, "/api/"@) && has_prefix(path, "/dashboard"@) {
        assert(path.take(5)[1] == 'a' && path[1] == path.take(5)[1]);
        assert(path.take(10)[1] == 'd' && path[1] == path.take(10)[1]);
    }
}

/// A session or a key opens what is gated; whoever comes with a key is known by it.
pub proof fn law_credentials_open_what_is_gated(
    m: AuthModel,
    path: Seq<char>,
    session: Seq<char>,
    cookies: Seq<char>,
    secret: Seq<char>,
    authorization: Option<Seq<char>>,
    now: i64,
)
    ensures
        session_of(cookies) == Some(session) && session_user(m, session, now) is Ok ==> judged(
            Some(m),
            path,
            Some(cookies),
            authorization,
            now,
        ) == (Some(m), VerdictModel::Pass),
        gated(path) && secret_led(m, secret, now).1 is Ok ==> judged(
            Some(m),
            path,
            None,
            Some("Bearer "@ + secret),
            now,
        ) == (Some(secret_led(m, secret, now).0), VerdictModel::PassAs(secret_led(m, secret, now).1->Ok_0)),
        gated(path) && secret_led(m, secret, now).1 is Err ==> !(judged(
            Some(m),
            path,
            None,
            Some("Bearer "@ + secret),
            now,
        ).1 is Pass) && !(judged(Some(m), path, None, Some("Bearer "@ + secret), now).1 is PassAs),
{
    reveal_strlit("Bearer ");
    let header = "Bearer "@ + secret;
    assert(header.take(7) =~= "Bearer "@);
    assert(header.skip(7) =~= secret);
}

/// What is shared, and logging in itself, is open to everybody.
pub proof fn law_shared_pages_are_open(
    accounts: Option<AuthModel>,
    path: Seq<char>,
    cookies: Option<Seq<char>>,
    authorization: Option<Seq<char>>,
    now: i64,
)
    requires
        has_prefix(path, "/shared/"@) || path == "/api/auth/setup"@ || path == "/api/auth/login"@ || path
            == "/api/auth/logout"@,
    ensures
        judged(accounts, path, cookies, authorization, now) == (accounts, VerdictModel::Pass),
{
}

/// The session among cookies is what follows its name, in the first cookie of that name.
pub proof fn law_sessions_are_read_from_cookies(cookies: Seq<char>, i: int, session: Seq<char>)
    ensures
        0 <= i < split(cookies, ';').len() && trimmed(split(cookies, ';')[i]) == "hoglet_sid="@ + session && (
        forall|j: int|
            0 <= j < i ==> !has_prefix(trimmed(#[trigger] split(cookies, ';')[j]), "hoglet_sid="@))
            ==> session_of(cookies) == Some(session),
        (forall|j: int|
            0 <= j < split(cookies, ';').len() ==> !has_prefix(
                trimmed(#[trigger] split(cookies, ';')[j]),
                "hoglet_sid="@,
            )) ==> session_of(cookies) is None,
{
    let parts = split(cookies, ';');
    let p = session_cookie();
    let name = "hoglet_sid="@;
    if 0 <= i < parts.len() && trimmed(parts[i]) == name + session && (forall|j: int|
        0 <= j < i ==> !has_prefix(trimmed(#[trigger] parts[j]), name)) {
        assert((name + session).take(name.len() as int) =~= name);
        assert((name + session).skip(name.len() as int) =~= session);
        assert forall|j: int| 0 <= j < i implies !p(#[trigger] parts[j]) by {}
        lemma_index_is(parts, p, i);
    }
    if forall|j: int| 0 <= j < parts.len() ==> !has_prefix(trimmed(#[trigger] parts[j]), name) {
        assert forall|j: int| 0 <= j < parts.len() implies !p(#[trigger] parts[j]) by {}
        lemma_index_none(parts, p);
    }
}

} // verus!
