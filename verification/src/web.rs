//! The dashboard's HTTP side: who is admitted, what is answered.
use crate::cli::long_enough;
use crate::screen::text_view;
use crate::text::{
    begins_with, chars_of, int_shown, int_text, pieces, same_text, split_at, stands_at, text_of, texts, trim, trimmed,
};
use crate::time::{day_of, split_second, zone_instant, Timestamp, Zone, FIRST_SECOND, LAST_SECOND};
use crate::tools::{ToolCode, ToolError};
use crate::venue::local_second;
use vstd::prelude::*;

pub mod accounts;
pub mod auth;
pub mod panel;

use auth::{
    argon2_matches, failed, lock_fits, record_of, verify_password, wait_of, Limiter, LimiterView, Session, User,
};

verus! {

/// An answer that refuses a request.
#[derive(Debug)]
pub struct ApiError {
    pub status: u16,
    pub error: &'static str,
    pub message: String,
}

/// What a refusal says.
pub ghost struct RefusalView {
    pub status: u16,
    pub error: Seq<char>,
    pub message: Seq<char>,
}

impl View for ApiError {
    type V = RefusalView;

    open spec fn view(&self) -> RefusalView {
        RefusalView { status: self.status, error: self.error@, message: self.message@ }
    }
}

/// A refusal.
pub open spec fn refused(status: u16, error: Seq<char>, message: Seq<char>) -> RefusalView {
    RefusalView { status, error, message }
}

/// A request that makes no sense.
pub open spec fn senseless_request(message: Seq<char>) -> RefusalView {
    refused(400, "bad_request"@, message)
}

pub(crate) fn refuse(status: u16, error: &'static str, message: &str) -> (r: ApiError)
    ensures
        r@ == refused(status, error@, message@),
{
    ApiError { status, error, message: message.to_owned() }
}

/// What is answered when something fails inside; what failed is only logged.
pub fn internal() -> (r: ApiError)
    ensures
        r@ == refused(500, "internal"@, "something went wrong"@),
{
    refuse(500, "internal", "something went wrong")
}

pub fn bad_request(message: &str) -> (r: ApiError)
    ensures
        r@ == senseless_request(message@),
{
    refuse(400, "bad_request", message)
}

/// The HTTP status of a tool error.
pub open spec fn tool_status(code: Option<Seq<char>>) -> u16 {
    match code {
        Some(c) => if c == "UNKNOWN_ACCOUNT"@ || c == "UNKNOWN_INSTRUMENT"@ || c == "NOT_FOUND"@ {
            404
        } else if c == "UPSTREAM_ERROR"@ {
            502
        } else {
            400
        },
        None => 400,
    }
}

/// Maps a tool error onto HTTP.
pub fn tool_error(e: ToolError) -> (r: ApiError)
    ensures
        r@ == refused(tool_status(e@.code), "request"@, e@.message),
{
    let status: u16 = match e.code {
        ToolCode::Coded(c) => if same_text(c, "UNKNOWN_ACCOUNT") || same_text(c, "UNKNOWN_INSTRUMENT") || same_text(
            c,
            "NOT_FOUND",
        ) {
            404
        } else if same_text(c, "UPSTREAM_ERROR") {
            502
        } else {
            400
        },
        ToolCode::InvalidParams => 400,
    };
    ApiError { status, error: "request", message: e.message }
}

/// The other end of a connection.
#[derive(Debug)]
pub struct Peer {
    pub ip: String,
    pub loopback: bool,
}

/// The first address that a proxy forwards a request for.
pub open spec fn first_forwarded(header: Seq<char>) -> Seq<char> {
    trimmed(pieces(header, ',')[0])
}

/// The caller's address.
pub open spec fn caller(peer: Option<(Seq<char>, bool)>, forwarded: Option<Seq<char>>) -> Seq<char> {
    match peer {
        Some((ip, false)) => ip,
        _ => match forwarded {
            Some(h) => first_forwarded(h),
            None => match peer {
                Some((ip, _)) => ip,
                None => "unknown"@,
            },
        },
    }
}

/// A connection's other end as what is known of it.
pub open spec fn peer_view(p: Option<Peer>) -> Option<(Seq<char>, bool)> {
    match p {
        Some(p) => Some((p.ip@, p.loopback)),
        None => None,
    }
}

/// The caller's address. `X-Forwarded-For` is trusted only from loopback (`tailscale serve` proxies
/// from there), so a direct client cannot pick its own rate-limit key.
pub fn client_ip(peer: Option<Peer>, forwarded: Option<&str>) -> (r: String)
    ensures
        r@ == caller(
            peer_view(peer),
            match forwarded {
                Some(h) => Some(h@),
                None => None,
            },
        ),
{
    if let Some(p) = &peer {
        if !p.loopback {
            return p.ip.clone();
        }
    }
    if let Some(h) = forwarded {
        let parts = split_at(&chars_of(h), ',');
        proof {
            lemma_some_piece(h@, ',', 0, 0);
        }
        assert(texts(parts@)[0] == parts@[0]@);
        return trim(parts[0].as_str());
    }
    match peer {
        Some(p) => p.ip,
        None => "unknown".to_owned(),
    }
}

proof fn lemma_some_piece(s: Seq<char>, sep: char, from: int, i: int)
    requires
        0 <= from <= i <= s.len(),
    ensures
        crate::text::pieces_from(s, sep, from, i).len() > 0,
    decreases s.len() - i,
{
    if i < s.len() && s[i] != sep {
        lemma_some_piece(s, sep, from, i + 1);
    }
}

/// A direct client cannot pick its own rate-limit key: what it says of itself does not matter.
pub proof fn law_direct_clients_are_known_by_their_address(
    ip: Seq<char>,
    a: Option<Seq<char>>,
    b: Option<Seq<char>>,
)
    ensures
        caller(Some((ip, false)), a) == ip,
        caller(Some((ip, false)), a) == caller(Some((ip, false)), b),
{
}

/// The session token among the cookies from index `i` on.
pub open spec fn token_among(cookies: Seq<Seq<char>>, i: int) -> Option<Seq<char>>
    decreases cookies.len() - i,
{
    if i >= cookies.len() {
        None
    } else if stands_at(trimmed(cookies[i]), "atrader_session="@, 0) {
        Some(trimmed(cookies[i]).skip("atrader_session="@.len() as int))
    } else {
        token_among(cookies, i + 1)
    }
}

/// The session token in the cookie headers from index `i` on.
pub open spec fn token_in(headers: Seq<Seq<char>>, i: int) -> Option<Seq<char>>
    decreases headers.len() - i,
{
    if i >= headers.len() {
        None
    } else {
        match token_among(pieces(headers[i], ';'), 0) {
            Some(t) => Some(t),
            None => token_in(headers, i + 1),
        }
    }
}

fn find_token(header: &str) -> (r: Option<String>)
    ensures
        text_view(r) == token_among(pieces(header@, ';'), 0),
{
    let cookies = split_at(&chars_of(header), ';');
    let ghost all = pieces(header@, ';');
    let mut i: usize = 0;
    while i < cookies.len()
        invariant
            i <= cookies@.len(),
            texts(cookies@) == all,
            token_among(all, 0) == token_among(all, i as int),
            all == pieces(header@, ';'),
        decreases cookies@.len() - i,
    {
        assert(all[i as int] == cookies@[i as int]@);
        let c = trim(cookies[i].as_str());
        if begins_with(c.as_str(), "atrader_session=") {
            let v = chars_of(c.as_str());
            let n: usize = v.len();
            let skip: usize = chars_of("atrader_session=").len();
            let t = text_of(&v, skip, n);
            assert(t@ =~= c@.skip("atrader_session="@.len() as int));
            return Some(t);
        }
        i += 1;
    }
    None
}

/// The session token in the cookie headers of a request, if there is one.
pub fn session_cookie(headers: &[String]) -> (r: Option<String>)
    ensures
        text_view(r) == token_in(texts(headers@), 0),
{
    let ghost all = texts(headers@);
    let mut i: usize = 0;
    while i < headers.len()
        invariant
            i <= headers@.len(),
            all == texts(headers@),
            token_in(all, 0) == token_in(all, i as int),
        decreases headers@.len() - i,
    {
        assert(all[i as int] == headers@[i as int]@);
        if let Some(t) = find_token(headers[i].as_str()) {
            return Some(t);
        }
        i += 1;
    }
    None
}

/// Whether a path is one of the API.
pub open spec fn api_path(path: Seq<char>) -> bool {
    stands_at(path, "/api/"@, 0)
}

/// Whether a request is turned away because it may come from another site: an API call that can
/// change something must carry a header that other sites cannot set.
pub open spec fn forged(path: Seq<char>, method: Seq<char>, requested_with: Option<Seq<char>>) -> bool {
    api_path(path) && method != "GET"@ && method != "HEAD"@ && requested_with != Some("atrader"@)
}

/// The refusal of a request that may come from another site.
pub fn csrf_error(path: &str, method: &str, requested_with: Option<&str>) -> (r: Option<ApiError>)
    ensures
        match r {
            Some(e) => e@ == refused(403, "csrf"@, "missing X-Requested-With header"@),
            None => true,
        },
        r is Some == forged(
            path@,
            method@,
            match requested_with {
                Some(h) => Some(h@),
                None => None,
            },
        ),
{
    let marked = match requested_with {
        Some(h) => same_text(h, "atrader"),
        None => false,
    };
    if begins_with(path, "/api/") && !same_text(method, "GET") && !same_text(method, "HEAD") && !marked {
        Some(refuse(403, "csrf", "missing X-Requested-With header"))
    } else {
        None
    }
}

/// The security headers of a response; those of the API are not to be stored.
pub open spec fn guard_headers(api: bool) -> Seq<(Seq<char>, Seq<char>)> {
    let all = seq![
        (
            "content-security-policy"@,
            "default-src 'self'; img-src 'self' data:; style-src 'self' 'unsafe-inline'; frame-ancestors 'none'"@,
        ),
        ("x-frame-options"@, "DENY"@),
        ("x-content-type-options"@, "nosniff"@),
        ("referrer-policy"@, "no-referrer"@),
    ];
    if api {
        all.push(("cache-control"@, "no-store"@))
    } else {
        all
    }
}

/// The security headers of the response to a request for a path.
pub fn security_headers(path: &str) -> (r: Vec<(&'static str, &'static str)>)
    ensures
        r@.map_values(|h: (&'static str, &'static str)| (h.0@, h.1@)) == guard_headers(api_path(path@)),
{
    let mut v: Vec<(&'static str, &'static str)> = Vec::new();
    v.push(
        (
            "content-security-policy",
            "default-src 'self'; img-src 'self' data:; style-src 'self' 'unsafe-inline'; frame-ancestors 'none'",
        ),
    );
    v.push(("x-frame-options", "DENY"));
    v.push(("x-content-type-options", "nosniff"));
    v.push(("referrer-policy", "no-referrer"));
    if begins_with(path, "/api/") {
        v.push(("cache-control", "no-store"));
    }
    assert(v@.map_values(|h: (&'static str, &'static str)| (h.0@, h.1@)) =~= guard_headers(api_path(path@)));
    v
}

/// What is answered to someone who is not logged in.
pub fn unauthenticated() -> (r: ApiError)
    ensures
        r@ == refused(401, "unauthenticated"@, "log in first"@),
{
    refuse(401, "unauthenticated", "log in first")
}

/// Whether a session is admitted: it must exist, be alive and, unless a pending one will do, have
/// passed the second factor.
pub fn let_in(session: Option<Session>, allow_pending: bool, now: Timestamp) -> (r: Result<Session, ApiError>)
    ensures
        match session {
            Some(s) => if !s.alive(now) {
                r matches Err(e) && e@ == refused(401, "unauthenticated"@, "log in first"@)
            } else if s.mfa_pending && !allow_pending {
                r matches Err(e) && e@ == refused(403, "mfa_required"@, "finish two-factor enrolment"@)
            } else {
                r == Ok::<Session, ApiError>(s)
            },
            None => r matches Err(e) && e@ == refused(401, "unauthenticated"@, "log in first"@),
        },
{
    match session {
        Some(s) => if !s.is_alive(now) {
            Err(unauthenticated())
        } else if s.mfa_pending && !allow_pending {
            Err(refuse(403, "mfa_required", "finish two-factor enrolment"))
        } else {
            Ok(s)
        },
        None => Err(unauthenticated()),
    }
}

/// The part of a cookie that says how it may be used.
pub open spec fn cookie_rules(secure: bool) -> Seq<char> {
    "; HttpOnly"@ + (if secure {
        "; Secure"@
    } else {
        ""@
    }) + "; SameSite=Strict; Path=/; Max-Age="@
}

fn rules(secure: bool) -> (r: String)
    ensures
        r@ == cookie_rules(secure),
{
    let mut s = "; HttpOnly".to_owned();
    s.append(
        if secure {
            "; Secure"
        } else {
            ""
        },
    );
    s.append("; SameSite=Strict; Path=/; Max-Age=");
    s
}

/// The cookie that starts a session: it lasts as long as a session may.
pub fn issued_cookie(token: &str, secure: bool) -> (r: String)
    ensures
        r@ == "atrader_session="@ + token@ + cookie_rules(secure) + "604800"@,
{
    let mut s = "atrader_session=".to_owned();
    s.append(token);
    s.append(rules(secure).as_str());
    s.append("604800");
    s
}

/// The cookie that ends a session.
pub fn cleared_cookie(secure: bool) -> (r: String)
    ensures
        r@ == "atrader_session="@ + cookie_rules(secure) + "0"@,
{
    let mut s = "atrader_session=".to_owned();
    s.append(rules(secure).as_str());
    s.append("0");
    s
}

/// The beginning of a user name that counts for limits.
pub open spec fn short_name(username: Seq<char>) -> Seq<char> {
    if username.len() <= 64 {
        username
    } else {
        username.take(64)
    }
}

/// The beginning of a user name that counts for limits: 64 characters.
pub fn shorten(username: &str) -> (r: String)
    ensures
        r@ == short_name(username@),
{
    let v = chars_of(username);
    let n: usize = v.len();
    if n <= 64 {
        username.to_owned()
    } else {
        let s = text_of(&v, 0, 64);
        assert(s@ =~= username@.take(64));
        s
    }
}

/// The key under which the failures of a user count.
pub fn user_key(username: &str) -> (r: String)
    ensures
        r@ == "u:"@ + username@,
{
    let mut s = "u:".to_owned();
    s.append(username);
    s
}

/// The key under which the failures of an address count.
pub fn address_key(ip: &str) -> (r: String)
    ensures
        r@ == "ip:"@ + ip@,
{
    let mut s = "ip:".to_owned();
    s.append(ip);
    s
}

/// The refusal of someone who has to wait.
pub open spec fn locked_out(seconds: int) -> RefusalView {
    refused(429, "locked"@, "too many attempts; try again in "@ + int_shown(seconds) + " s"@)
}

fn lock_out(seconds: i64) -> (r: ApiError)
    ensures
        r@ == locked_out(seconds as int),
{
    let mut m = "too many attempts; try again in ".to_owned();
    m.append(int_text(seconds).as_str());
    m.append(" s");
    ApiError { status: 429, error: "locked", message: m }
}

/// Whether a login attempt has to wait: for the user, else for the address.
pub fn attempt(l: &Limiter, user: &str, address: &str, now: Timestamp) -> (r: Result<(), ApiError>)
    requires
        l.wf(),
    ensures
        match (wait_of(l@, user@, now), wait_of(l@, address@, now)) {
            (Some(s), _) => r matches Err(e) && e@ == locked_out(s),
            (None, Some(s)) => r matches Err(e) && e@ == locked_out(s),
            (None, None) => r is Ok,
        },
{
    match l.check(user, now) {
        Err(s) => Err(lock_out(s)),
        Ok(()) => match l.check(address, now) {
            Err(s) => Err(lock_out(s)),
            Ok(()) => Ok(()),
        },
    }
}

/// Whether a password is a user's. Where there is no such user it is held against another hash, so
/// both cases cost one hash run, and it is never right.
pub fn password_right(user: Option<&User>, other_hash: &str, password: &str) -> (r: bool)
    ensures
        r == (match user {
            Some(u) => argon2_matches(password@, u.password_hash@),
            None => false,
        }),
{
    match user {
        Some(u) => verify_password(password, u.password_hash.as_str()),
        None => {
            let _ = verify_password(password, other_hash);
            false
        },
    }
}

/// What a login still needs once the password has been looked at.
#[derive(Debug, Clone, Copy, PartialEq, Eq, Structural)]
pub enum Second {
    /// A code of the authenticator, or a recovery code.
    Code,
    /// Nothing: the second factor is not enrolled yet, and the session starts pending.
    Nothing,
    /// There is no way in.
    Refused,
}

/// What a login still needs once the password has been looked at.
pub fn second_factor(user: Option<&User>, password_ok: bool) -> (r: Second)
    ensures
        r == (match user {
            Some(u) => if !password_ok {
                Second::Refused
            } else if u.totp_enabled {
                Second::Code
            } else {
                Second::Nothing
            },
            None => Second::Refused,
        }),
{
    match user {
        Some(u) => if !password_ok {
            Second::Refused
        } else if u.totp_enabled {
            Second::Code
        } else {
            Second::Nothing
        },
        None => Second::Refused,
    }
}

/// A limiter after a login by a user from an address.
pub open spec fn login_counted(
    l: LimiterView,
    user: Seq<char>,
    address: Seq<char>,
    ok: bool,
    now: Timestamp,
) -> LimiterView {
    if ok {
        LimiterView { failures: l.failures.remove(user).remove(address), ..l }
    } else {
        failed(failed(l, user, now), address, now)
    }
}

/// Counts a login for the user and for the address, and answers a failed one.
pub fn conclude_login(l: &mut Limiter, user: &str, address: &str, ok: bool, now: Timestamp) -> (r: Result<(), ApiError>)
    requires
        old(l).wf(),
        !ok ==> lock_fits(record_of(old(l)@.failures, user@), now) && lock_fits(
            record_of(failed(old(l)@, user@, now).failures, address@),
            now,
        ),
    ensures
        final(l).wf(),
        final(l)@ == login_counted(old(l)@, user@, address@, ok, now),
        if ok {
            r is Ok
        } else {
            r matches Err(e) && e@ == refused(401, "login_failed"@, "wrong username, password or code"@)
        },
{
    if ok {
        l.succeed(user);
        l.succeed(address);
        Ok(())
    } else {
        l.fail(user, now);
        l.fail(address, now);
        Err(refuse(401, "login_failed", "wrong username, password or code"))
    }
}

/// Whether a second factor may be set up. Doing it again would switch the factor off; that goes
/// through `atrader user reset-2fa`.
pub fn may_set_up(user: &User) -> (r: Result<(), ApiError>)
    ensures
        if user.totp_enabled {
            r matches Err(e) && e@ == refused(
                409,
                "already_enrolled"@,
                "two-factor is already on; reset it with `atrader user reset-2fa`"@,
            )
        } else {
            r is Ok
        },
{
    if user.totp_enabled {
        Err(refuse(409, "already_enrolled", "two-factor is already on; reset it with `atrader user reset-2fa`"))
    } else {
        Ok(())
    }
}

/// The secret that is about to be enabled.
pub fn pending_secret(user: &User) -> (r: Result<String, ApiError>)
    ensures
        if user.totp_enabled {
            r matches Err(e) && e@ == refused(409, "already_enrolled"@, "two-factor is already on"@)
        } else {
            match user.totp_secret {
                Some(s) => r matches Ok(x) && x@ == s@,
                None => r matches Err(e) && e@ == senseless_request("call /api/auth/totp/setup first"@),
            }
        },
{
    if user.totp_enabled {
        return Err(refuse(409, "already_enrolled", "two-factor is already on"));
    }
    match &user.totp_secret {
        Some(s) => Ok(s.clone()),
        None => Err(bad_request("call /api/auth/totp/setup first")),
    }
}

/// What comes of a change of password, and the limiter after it.
pub open spec fn password_changed(
    l: LimiterView,
    username: Seq<char>,
    right: bool,
    new_len: nat,
    now: Timestamp,
) -> (LimiterView, Result<(), RefusalView>) {
    let key = "u:"@ + username;
    match wait_of(l, key, now) {
        Some(s) => (l, Err(locked_out(s))),
        None => if !right {
            (failed(l, key, now), Err(refused(401, "wrong_password"@, "the current password is wrong"@)))
        } else if new_len < 12 {
            (l, Err(senseless_request("the new password needs at least 12 characters"@)))
        } else {
            (l, Ok(()))
        },
    }
}

/// Whether a user may change the password from `current` to `new`.
pub fn change_password(l: &mut Limiter, user: &User, current: &str, new: &str, now: Timestamp) -> (r: Result<(), ApiError>)
    requires
        old(l).wf(),
        lock_fits(record_of(old(l)@.failures, "u:"@ + user.username@), now),
    ensures
        final(l).wf(),
        ({
            let (after, result) = password_changed(
                old(l)@,
                user.username@,
                argon2_matches(current@, user.password_hash@),
                new@.len(),
                now,
            );
            &&& final(l)@ == after
            &&& match result {
                Ok(()) => r is Ok,
                Err(m) => r matches Err(e) && e@ == m,
            }
        }),
{
    let key = user_key(user.username.as_str());
    if let Err(s) = l.check(key.as_str(), now) {
        return Err(lock_out(s));
    }
    if !verify_password(current, user.password_hash.as_str()) {
        l.fail(key.as_str(), now);
        return Err(refuse(401, "wrong_password", "the current password is wrong"));
    }
    if !long_enough(new) {
        return Err(bad_request("the new password needs at least 12 characters"));
    }
    Ok(())
}

/// Midnight in Seoul on the day that an instant falls on there.
pub open spec fn midnight_in_seoul(now: Timestamp) -> Timestamp {
    let local = day_of(local_second(Zone::Seoul, now)) * 86_400;
    if FIRST_SECOND <= local <= LAST_SECOND {
        match zone_instant(Zone::Seoul, local) {
            Some(t) => crate::time::instant(t * crate::time::NANOS_PER_SEC),
            None => now,
        }
    } else {
        now
    }
}

/// Midnight in Seoul on the day that an instant falls on there; the instant itself where the clock
/// there does not show that midnight exactly once.
pub fn kst_midnight(now: Timestamp) -> (r: Timestamp)
    ensures
        r == midnight_in_seoul(now),
        r == now || local_second(Zone::Seoul, r) == local_second(Zone::Seoul, now) / 86_400 * 86_400,
{
    proof {
        use_type_invariant(now);
    }
    let second = now.secs();
    let offset = crate::time::offset_at(Zone::Seoul, second);
    let (day, _) = split_second(second + offset);
    let local = day * 86_400;
    if local < FIRST_SECOND || local > LAST_SECOND {
        return now;
    }
    match crate::time::instant_at(Zone::Seoul, local) {
        Some(t) => match Timestamp::from_secs(t) {
            Some(x) => x,
            None => now,
        },
        None => now,
    }
}

/// A password is changed exactly if the user is not locked out, knows the current one and the new one has
/// twelve characters; only a wrong password counts as a failure.
pub proof fn law_passwords_change_for_those_who_know_them(
    l: LimiterView,
    username: Seq<char>,
    right: bool,
    new_len: nat,
    now: Timestamp,
)
    ensures
        ({
            let key = "u:"@ + username;
            let (after, result) = password_changed(l, username, right, new_len, now);
            &&& result is Ok <==> wait_of(l, key, now) is None && right && new_len >= 12
            &&& right || wait_of(l, key, now) is Some ==> after == l
            &&& !right && wait_of(l, key, now) is None ==> after == failed(l, key, now)
            &&& wait_of(l, key, now) is Some ==> (result matches Err(e) && e.status == 429)
        }),
{
}

} // verus!
