//! The dashboard: logging in, accounts and settings.
use atrader::broker::{Fill, Liquidity};
use atrader::decimal::Decimal;
use atrader::domain::{Currency, InstrumentId, Side};
use atrader::settings::{editable, Given, Source};
use atrader::time::Timestamp;
use atrader::tools::{bad, upstream};
use atrader::web::accounts::{
    account_id_for, alert_session, by_symbol, curve, daily_profits, markers, new_account, no_account, parse_cash,
    valid_account_id,
};
use atrader::web::auth::{
    accept_totp, check_totp, current_code_for_tests, hash_password, hex_bytes, new_recovery_codes, new_token,
    new_totp_secret, recovery_code, token_hash, totp_step, totp_url, verify_password, Limiter, Session, User,
};
use atrader::web::panel::{
    asset, asset_name, audit_detail, check_changes, key_view, may_enroll, mime_of, Asset, Change, EnrollStatus,
    EnrollView, Outcome,
};
use atrader::web::{
    address_key, attempt, change_password, cleared_cookie, client_ip, conclude_login, csrf_error, issued_cookie,
    kst_midnight, let_in, may_set_up, password_right, pending_secret, second_factor, security_headers, session_cookie,
    shorten, tool_error, user_key, Peer, Second,
};

fn d(s: &str) -> Decimal {
    Decimal::parse(s).unwrap()
}

fn on(y: i32, mo: u32, day: u32, h: u32, m: u32, s: u32) -> Timestamp {
    let t = chrono::NaiveDate::from_ymd_opt(y, mo, day).unwrap().and_hms_opt(h, m, s).unwrap().and_utc();
    Timestamp::from_secs(t.timestamp()).unwrap()
}

fn later(t: Timestamp, secs: i64) -> Timestamp {
    t.checked_add(secs * 1_000_000_000).unwrap()
}

#[test]
fn passwords_hash_and_verify() {
    let h = hash_password("correct horse battery");
    assert!(h.starts_with("$argon2id$"));
    assert!(verify_password("correct horse battery", &h));
    assert!(!verify_password("wrong", &h));
    assert!(!verify_password("x", "not a hash"));
}

#[test]
fn totp_codes_verify_for_the_current_step_only() {
    let secret = new_totp_secret();
    let now = on(2026, 9, 25, 0, 0, 0);
    let code = current_code_for_tests(&secret, now).unwrap();
    assert!(check_totp(&secret, &code, now));
    assert!(!check_totp(&secret, &code, later(now, 5 * 60)));
    assert!(!check_totp(&secret, "abc", now));
    assert!(totp_url(&secret, "ruma").starts_with("otpauth://totp/ATrader:ruma?secret="));
}

#[test]
fn a_code_is_taken_once() {
    let secret = new_totp_secret();
    let now = on(2026, 9, 25, 0, 0, 0);
    let code = current_code_for_tests(&secret, now).unwrap();
    let step = accept_totp(&secret, &code, now, 0).unwrap();
    assert_eq!(step, now.secs() / 30);
    assert_eq!(totp_step(&secret, &code, now), Some(step));
    assert_eq!(accept_totp(&secret, &code, now, step), None);
    assert_eq!(accept_totp(&secret, "abc", now, 0), None);
    assert_eq!(current_code_for_tests("not base32!", now), None);
}

#[test]
fn tokens_are_random_and_hashed() {
    let (a, b) = (new_token(), new_token());
    assert_eq!(a.len(), 64);
    assert_ne!(a, b);
    assert_eq!(token_hash(&a), token_hash(&a));
    assert_ne!(token_hash(&a), a);
    let codes = new_recovery_codes();
    assert_eq!(codes.len(), 10);
    assert!(codes.iter().all(|c| c.len() == 9 && c.as_bytes()[4] == b'-'));
    assert_eq!(token_hash("abc"), "ba7816bf8f01cfea414140de5dae2223b00361a396177a9cb410ff61f20015ad");
    assert_eq!(hex_bytes(&[0, 255, 16]), "00ff10");
    assert_eq!(recovery_code(&[0, 1, 2, 3, 4, 5, 6, 7]), "abcd-efgh");
}

#[test]
fn limiter_locks_out_after_five_failures_and_backs_off() {
    let mut l = Limiter::default();
    let t = on(2026, 9, 25, 0, 0, 0);
    for _ in 0..4 {
        l.fail("u:ruma", t);
        assert!(l.check("u:ruma", t).is_ok());
    }
    l.fail("u:ruma", t);
    assert_eq!(l.check("u:ruma", t), Err(60));
    assert!(l.check("u:ruma", later(t, 61)).is_ok());
    l.fail("u:ruma", later(t, 61));
    assert_eq!(l.check("u:ruma", later(t, 61)), Err(120));
    l.succeed("u:ruma");
    assert!(l.check("u:ruma", later(t, 62)).is_ok());
    assert!(l.check("ip:1.2.3.4", t).is_ok());
}

#[test]
fn limiter_forgets_stale_keys() {
    let mut l = Limiter::default();
    let t = on(2026, 9, 25, 0, 0, 0);
    for i in 0..5000 {
        l.fail(&format!("u:guess{i}"), t);
    }
    // Once their window has passed, the old keys are swept as new ones arrive.
    for i in 0..5000 {
        l.fail(&format!("u:later{i}"), later(t, 16 * 60));
    }
    assert!(l.len() <= 5000, "{}", l.len());
    assert!(!l.is_empty());
}

fn user(hash: &str, enabled: bool) -> User {
    User { id: 1, username: "ruma".into(), password_hash: hash.into(), totp_secret: Some("S".into()), totp_enabled: enabled }
}

#[test]
fn wrong_factors_look_alike_and_lock_out() {
    let h = hash_password("long enough pass");
    let u = user(&h, true);
    let other = hash_password("nobody");
    let now = on(2026, 9, 25, 0, 0, 0);
    assert!(password_right(Some(&u), &other, "long enough pass"));
    assert!(!password_right(Some(&u), &other, "wrong"));
    assert!(!password_right(None, &other, "nobody"));
    assert_eq!(second_factor(Some(&u), true), Second::Code);
    assert_eq!(second_factor(Some(&user(&h, false)), true), Second::Nothing);
    assert_eq!(second_factor(Some(&u), false), Second::Refused);
    assert_eq!(second_factor(None, true), Second::Refused);
    let (uk, ak) = (user_key("ruma"), address_key("1.2.3.4"));
    let mut l = Limiter::default();
    for _ in 0..5 {
        assert!(attempt(&l, &uk, &ak, now).is_ok());
        let e = conclude_login(&mut l, &uk, &ak, false, now).unwrap_err();
        assert_eq!((e.status, e.error), (401, "login_failed"));
    }
    let locked = attempt(&l, &uk, &ak, now).unwrap_err();
    assert_eq!((locked.status, locked.message.as_str()), (429, "too many attempts; try again in 60 s"));
    assert!(conclude_login(&mut l, &uk, &ak, true, now).is_ok());
    assert!(attempt(&l, &uk, &ak, now).is_ok());
    assert_eq!(shorten(&"x".repeat(80)).len(), 64);
}

#[test]
fn a_new_password_must_be_long_and_the_old_one_right() {
    let u = user(&hash_password("long enough pass"), true);
    let now = on(2026, 9, 25, 0, 0, 0);
    let mut l = Limiter::default();
    assert_eq!(change_password(&mut l, &u, "long enough pass", "short", now).unwrap_err().status, 400);
    assert_eq!(change_password(&mut l, &u, "not the password", "another long pass", now).unwrap_err().status, 401);
    assert!(change_password(&mut l, &u, "long enough pass", "another long pass", now).is_ok());
    assert_eq!(l.len(), 1);
    assert_eq!(may_set_up(&u).unwrap_err().status, 409);
    assert_eq!(pending_secret(&u).unwrap_err().status, 409);
    let mut fresh = user("h", false);
    assert!(may_set_up(&fresh).is_ok());
    assert_eq!(pending_secret(&fresh).unwrap(), "S");
    fresh.totp_secret = None;
    assert_eq!(pending_secret(&fresh).unwrap_err().status, 400);
}

#[test]
fn sessions_expire() {
    let now = on(2026, 9, 25, 0, 0, 0);
    let s = |created: Timestamp, seen: Timestamp, pending: bool| Session {
        id_hash: "h".into(),
        user_id: 1,
        mfa_pending: pending,
        created_at: created,
        last_seen: seen,
    };
    assert!(s(now, now, true).is_alive(now));
    assert!(!s(now, now, false).is_alive(later(now, 13 * 3600)), "idle");
    let old = later(now, 7 * 86_400 + 60);
    assert!(!s(now, old, false).is_alive(old), "absolute");
    assert!(let_in(Some(s(now, now, false)), false, now).is_ok());
    assert_eq!(let_in(Some(s(now, now, true)), false, now).unwrap_err().status, 403);
    assert!(let_in(Some(s(now, now, true)), true, now).is_ok());
    assert_eq!(let_in(Some(s(now, now, false)), false, old).unwrap_err().status, 401);
    assert_eq!(let_in(None, true, now).unwrap_err().status, 401);
}

#[test]
fn cookies_and_headers() {
    let set = issued_cookie("tok", true);
    assert!(set.starts_with("atrader_session=tok; ") && set.contains("HttpOnly") && set.contains("Secure"), "{set}");
    assert!(set.contains("SameSite=Strict") && set.contains("Path=/") && set.ends_with("Max-Age=604800"), "{set}");
    assert!(!issued_cookie("tok", false).contains("Secure"));
    assert!(cleared_cookie(false).ends_with("Max-Age=0"));
    assert_eq!(session_cookie(&["a=b; atrader_session=tok".to_string()]), Some("tok".to_string()));
    assert_eq!(session_cookie(&["a=b".to_string()]), None);
    assert_eq!(csrf_error("/api/auth/logout", "POST", None).unwrap().status, 403);
    assert!(csrf_error("/api/auth/logout", "POST", Some("atrader")).is_none());
    assert!(csrf_error("/api/overview", "GET", None).is_none());
    let h = security_headers("/api/overview");
    assert!(h.contains(&("x-frame-options", "DENY")) && h.contains(&("cache-control", "no-store")));
    assert!(h.iter().any(|(k, v)| *k == "content-security-policy" && v.contains("default-src 'self'")));
    assert!(!security_headers("/").contains(&("cache-control", "no-store")));
}

#[test]
fn only_a_local_proxy_names_the_client() {
    let peer = |ip: &str, loopback: bool| Some(Peer { ip: ip.into(), loopback });
    assert_eq!(client_ip(peer("9.9.9.9", false), Some("1.1.1.1")), "9.9.9.9");
    assert_eq!(client_ip(peer("127.0.0.1", true), Some(" 1.1.1.1 , 2.2.2.2")), "1.1.1.1");
    assert_eq!(client_ip(peer("127.0.0.1", true), None), "127.0.0.1");
    assert_eq!(client_ip(None, None), "unknown");
    assert_eq!(tool_error(bad("x".into())).status, 400);
    assert_ne!(tool_error(upstream("x".into())).status, 400);
}

#[test]
fn account_ids_come_from_names() {
    let none: [String; 0] = [];
    assert_eq!(account_id_for("Swing bot!", &none), "swing-bot");
    assert_eq!(account_id_for("가상 계좌", &none), "account");
    assert_eq!(account_id_for("가상 계좌", &["account".to_string(), "account-2".to_string()]), "account-3");
}

#[test]
fn new_accounts_are_checked() {
    let none: [String; 0] = [];
    assert_eq!(new_account(Some("Bad Id!"), "x", &none).unwrap_err().status, 400);
    assert_eq!(new_account(Some("swing"), "Swing", &none).unwrap(), ("swing".to_string(), "Swing".to_string()));
    assert_eq!(new_account(None, "Swing bot", &none).unwrap().0, "swing-bot");
    assert!(new_account(None, " ", &none).is_err());
    assert!(valid_account_id("a_b-9") && !valid_account_id("") && !valid_account_id(&"a".repeat(33)));
    assert_eq!(parse_cash(&[]).unwrap_err().status, 400);
    assert_eq!(parse_cash(&[("KRW".to_string(), d("-1"))]).unwrap_err().status, 400);
    assert_eq!(parse_cash(&[("EUR".to_string(), d("1"))]).unwrap_err().status, 400);
    assert_eq!(parse_cash(&[("KRW".to_string(), d("5000000"))]).unwrap(), vec![(Currency::Krw, d("5000000"))]);
    assert_eq!(no_account("missing").status, 404);
    assert_eq!(alert_session(Some("s-7")).unwrap(), Some("s-7".to_string()));
    assert_eq!(alert_session(Some("  ")).unwrap(), None);
    assert!(alert_session(Some("a\nb")).is_err());
}

fn fill(symbol: &str, pnl: Option<&str>, fee: &str, secs: i64) -> Fill {
    Fill {
        order_id: 1,
        account: "a".into(),
        instrument: InstrumentId::parse(symbol).unwrap(),
        side: Side::Sell,
        qty: d("1"),
        notional: d("10"),
        price: d("10"),
        fee: d(fee),
        tax: d("0"),
        realized_pnl: pnl.map(d),
        liquidity: Liquidity::Taker,
        at: Timestamp::from_secs(secs).unwrap(),
    }
}

#[test]
fn profits_are_told_by_day_and_by_instrument() {
    let t = on(2026, 9, 23, 16, 0, 0);
    assert_eq!(kst_midnight(t), on(2026, 9, 23, 15, 0, 0));
    let p = daily_profits(&[(t, d("100")), (later(t, 86_400), d("110"))], d("105")).unwrap();
    assert!(p[0].1.same(d("10")) && p[1].1.same(d("-5")));
    assert_eq!(p[1].0, p[0].0 + 1);
    let fills = [fill("KRX:005930", Some("5"), "1", 0), fill("US:AAPL", Some("9"), "2", 1), fill("KRX:005930", None, "3", 2)];
    let totals = by_symbol(&fills).unwrap();
    assert_eq!(totals.len(), 2);
    let krx = totals.iter().find(|t| t.instrument == "KRX:005930").unwrap();
    assert!(krx.realized.same(d("5")) && krx.fees.same(d("4")));
    let m = markers(&fills, "KRX:005930");
    assert_eq!((m.len(), m[1].at.secs()), (2, 2));
    assert_eq!(curve(Some("all")).unwrap(), (None, true));
    assert_eq!(curve(None).unwrap(), (Some(31), true));
    assert_eq!(curve(Some("1y")).unwrap_err().status, 400);
}

fn change(name: &str, value: &str, source: Option<Source>) -> Change {
    Change { name: name.into(), value: value.into(), source }
}

#[test]
fn settings_are_write_only_and_checked() {
    assert_eq!(check_changes(&[]).unwrap_err().status, 400);
    assert_eq!(check_changes(&[change("DATABASE_URL", "x", None)]).unwrap_err().status, 400);
    assert_eq!(check_changes(&[change("KIS_ENV", "paper", None)]).unwrap_err().status, 400);
    assert_eq!(check_changes(&[change("KIS_APP_KEY", "a\nb", None)]).unwrap_err().status, 400);
    assert_eq!(check_changes(&[change("KIS_APP_KEY", "x", Some(Source::Env))]).unwrap_err().status, 409);
    let good = [change("KIS_ENV", "mock", None), change("KIS_APP_KEY", "PSabc123", Some(Source::Dashboard))];
    assert!(check_changes(&good).is_ok());
    assert_eq!(audit_detail(&good), "KIS_APP_KEY,KIS_ENV");
    let given = |v: &str| Given { env: None, file: None, dashboard: Some(v.into()) };
    for e in editable() {
        let v = key_view(e, &given("PSabc123"));
        assert_eq!(v.source, Some(Source::Dashboard));
        assert_eq!(v.value.is_none(), v.secret, "secrets are never returned");
    }
    assert_eq!(may_enroll(Some(Source::File)).unwrap_err().status, 409);
    assert!(may_enroll(Some(Source::Dashboard)).is_ok() && may_enroll(None).is_ok());
}

#[test]
fn an_enrollment_runs_its_course() {
    let now = on(2026, 9, 25, 0, 0, 0);
    assert_eq!(EnrollView::default().status.code(), "idle");
    let make = || EnrollView::pending("ABCD".into(), "https://x".into(), later(now, 60));
    assert!(make().in_progress(now) && !make().in_progress(later(now, 60)));
    let done = make().settled(Outcome::Stored);
    assert_eq!((done.status, done.user_code), (EnrollStatus::Granted, None));
    assert_eq!(make().settled(Outcome::Lapsed).status, EnrollStatus::Expired);
    assert_eq!(make().settled(Outcome::Denied).status, EnrollStatus::Denied);
    assert_eq!(make().settled(Outcome::NotStored).message.as_deref(), Some("could not store the credential"));
    assert_eq!(make().settled(Outcome::Failed("why".into())).message.as_deref(), Some("why"));
}

#[test]
fn files_are_served_with_their_type() {
    assert_eq!(asset_name("//app.js"), "app.js");
    assert_eq!(asset("api/x", true, true), Asset::NoEndpoint);
    assert_eq!(asset("app.js", true, true), Asset::File);
    assert_eq!(asset("accounts", false, true), Asset::Index);
    assert_eq!(asset("", true, false), Asset::NotBuilt);
    assert_eq!(mime_of("index.html"), "text/html; charset=utf-8");
    assert_eq!(mime_of("a.b.js"), "text/javascript");
    assert_eq!(mime_of("noext"), "application/octet-stream");
}
