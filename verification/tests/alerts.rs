//! Alerts, how they are delivered, and scheduled briefings.
use atrader::alerts::briefing::{briefing_text, told_venues, AccountBrief, Cadence, Moment, Mover, Movers, PositionLine, Schedule};
use atrader::alerts::deliver::{
    account_line, addressed, after_attempt, digest_text, dropped_with, mark_retry, message, session_preamble,
    session_title, DeliveryStep, Digests, Firing,
};
use atrader::alerts::pace::{Limiter, MESSAGES_AN_HOUR};
use atrader::alerts::watch::Watcher;
use atrader::alerts::{Alert, Condition};
use atrader::broker::{Fill, Liquidity};
use atrader::decimal::Decimal;
use atrader::domain::{Currency, InstrumentId, Side, Trade, Venue};
use atrader::time::Timestamp;

fn d(s: &str) -> Decimal {
    Decimal::parse(s).unwrap()
}

fn btc() -> InstrumentId {
    InstrumentId::parse("UPBIT:KRW-BTC").unwrap()
}

#[test]
fn briefs_on_open_close_and_every_few_hours_between() {
    let t0 = Timestamp::from_secs(
        chrono::NaiveDate::from_ymd_opt(2026, 9, 28).unwrap().and_hms_opt(0, 0, 0).unwrap().and_utc().timestamp(),
    )
    .unwrap();
    let at = |m: i64| t0.checked_add(m * 60_000_000_000).unwrap();
    let accounts =
        vec![("a".to_string(), Cadence::Hours(2)), ("e".to_string(), Cadence::Edges), ("x".to_string(), Cadence::Off)];
    let mut s = Schedule::new();

    assert!(s.tick(at(0), false, false, &accounts).is_empty(), "first look only learns the state");
    let opened = s.tick(at(1), true, false, &accounts);
    assert_eq!(
        opened,
        vec![("a".to_string(), vec![Moment::Opened(Venue::Krx)]), ("e".to_string(), vec![Moment::Opened(Venue::Krx)])]
    );
    assert!(s.tick(at(60), true, false, &accounts).is_empty());
    assert_eq!(s.tick(at(121), true, false, &accounts), vec![("a".to_string(), vec![Moment::During(Venue::Krx)])]);
    assert!(s.tick(at(200), true, false, &accounts).is_empty());
    let closed = s.tick(at(390), false, false, &accounts);
    assert_eq!(closed.len(), 2);
    assert!(s.tick(at(600), false, false, &accounts).is_empty(), "nothing while closed");

    // Starting mid-session briefs neither at once nor as an open.
    let mut fresh = Schedule::new();
    assert!(fresh.tick(at(0), true, false, &accounts).is_empty());
    assert_eq!(fresh.tick(at(121), true, false, &accounts), vec![("a".to_string(), vec![Moment::During(Venue::Krx)])]);
}

#[test]
fn cadences_have_names() {
    assert_eq!(Cadence::parse("off"), Some(Cadence::Off));
    assert_eq!(Cadence::parse("edges"), Some(Cadence::Edges));
    assert_eq!(Cadence::parse("4h"), Some(Cadence::Hours(4)));
    assert_eq!(Cadence::parse("3h"), None);
}

#[test]
fn a_briefing_tells_the_account_its_positions_and_the_movers() {
    let account = AccountBrief {
        name: "Swing".into(),
        id: "swing".into(),
        equity_krw: d("1000000.4"),
        cash: vec![(Currency::Krw, d("500.125"))],
    };
    let position = PositionLine {
        instrument: "UPBIT:KRW-BTC".into(),
        name: "Bitcoin".into(),
        qty: d("0.1"),
        avg_cost: d("100"),
        price: None,
        unrealized_pct: d("1.5"),
        unrealized_pnl: d("-2"),
        currency: Currency::Krw,
    };
    let movers = Movers {
        venue: Venue::Krx,
        ranking: "gainers".into(),
        rows: vec![Mover { id: "KRX:005930".into(), name: "S".into(), change_pct: d("3") }],
    };
    let text = briefing_text(&[Moment::Opened(Venue::Krx)], &Some(account), &Some(vec![position]), &vec![movers]);
    assert!(text.starts_with("[ATrader briefing] "), "{text}");
    assert!(text.contains("\nAccount Swing (swing): equity ₩1000000, cash KRW 500.12."), "{text}");
    assert!(text.contains("\n- UPBIT:KRW-BTC Bitcoin: 0.1 @ avg 100, now ? (+1.5%, -2 KRW)"), "{text}");
    assert!(text.contains("\nKRX top gainers: KRX:005930 S (+3%)"), "{text}");
    assert!(text.ends_with("give a reason with every order."), "{text}");
    let bare = briefing_text(&[], &None, &Some(vec![]), &vec![]);
    assert!(bare.contains("\nNo positions."), "{bare}");
    assert_eq!(told_venues(&[]), vec![Venue::Krx, Venue::Us]);
    assert_eq!(told_venues(&[Moment::Closed(Venue::Krx), Moment::During(Venue::Us)]), vec![Venue::Us]);
}

fn firing(id: i64, text: &str) -> Firing {
    Firing { alert_id: id, account: "a".into(), text: text.into(), deactivate: false, note: "sell half".into() }
}

#[test]
fn messages_name_the_alert_the_account_and_the_note() {
    let line = account_line(d("10"), &[(Currency::Usd, d("1.005")), (Currency::Krw, d("2"))]);
    assert_eq!(line, " Account: equity ₩10, cash USD 1.00, KRW 2.");
    let m = message(&firing(7, "BTC above 1"), &line);
    assert_eq!(
        m,
        "ATrader alert #7 on account a: BTC above 1. Your note: \"sell half\". Account: equity ₩10, cash USD 1.00, KRW 2. Use the trader tools on node {node} to act; give a reason for any order."
    );
    assert!(message(&firing(-1, "x"), "").starts_with("ATrader alert digest on account a: x."));
    assert_eq!(addressed("on {node}, {node}", "me/x"), "on me/x, me/x");
    assert_eq!(session_title("a"), "ATrader alerts: a");
    assert!(session_preamble("a", "n").starts_with("You manage the ATrader paper-trading account \"a\""));
}

#[test]
fn a_failed_delivery_is_made_once_more() {
    assert_eq!(after_attempt(0, None, None), DeliveryStep::WaitAndSend);
    assert_eq!(after_attempt(1, None, None), DeliveryStep::GiveUp);
    assert_eq!(after_attempt(0, Some("s"), Some("s")), DeliveryStep::Delivered { keep: false });
    assert_eq!(after_attempt(0, Some("s"), Some("t")), DeliveryStep::Delivered { keep: true });
    assert_eq!((mark_retry(0), mark_retry(1), mark_retry(4), mark_retry(5)), (None, Some(1), Some(4), None));
}

#[test]
fn alerts_held_by_the_rate_limit_are_told_in_a_digest() {
    let mut q = Digests::new();
    assert_eq!(q.route(firing(1, "x"), true).unwrap().alert_id, 1);
    assert!(q.route(firing(2, "y"), false).is_none());
    assert!(q.route(firing(3, "z"), false).is_none());
    assert!(q.has_waiting("a") && !q.has_waiting("b"));
    assert!(q.flush("a", false).is_none());
    let digest = q.flush("a", true).unwrap();
    assert_eq!(digest.alert_id, -1);
    assert_eq!(digest.text, "2 alerts fired while messages were rate-limited: #2: y | #3: z");
    assert_eq!(digest.text, digest_text(&[(2, "y".to_string()), (3, "z".to_string())]));
    assert!(!q.has_waiting("a"));
    assert!(q.route(digest, false).is_some(), "a digest is not held");
}

fn parts(c: &Condition) -> Option<Condition> {
    let id = c.instrument().map(|i| InstrumentId::parse(&i.to_text()).unwrap());
    Condition::from_parts(c.kind(), id, c.venue(), c.threshold(), c.window_minutes())
}

#[test]
fn conditions_are_rebuilt_from_their_columns() {
    let all = vec![
        Condition::PriceAbove { id: btc(), price: d("1") },
        Condition::PriceBelow { id: btc(), price: d("2") },
        Condition::Move { id: btc(), pct: d("3"), window_minutes: 5 },
        Condition::VolumeSurge { id: btc(), factor: d("4"), window_minutes: 15 },
        Condition::OrderFilled { id: None },
        Condition::SessionOpen { venue: Venue::Krx },
        Condition::SessionClose { venue: Venue::Us },
    ];
    for c in &all {
        assert_eq!(format!("{:?}", parts(c).unwrap()), format!("{c:?}"));
    }
    assert!(Condition::from_parts("price_above", None, None, Some(d("1")), None).is_none());
    assert!(Condition::from_parts("move", Some(btc()), None, Some(d("1")), None).is_none());
    assert!(Condition::from_parts("session_open", None, None, None, None).is_none());
    assert!(Condition::from_parts("other", None, None, None, None).is_none());
}

#[test]
fn a_reset_drops_the_alerts_of_its_account() {
    let alert = |id: i64, account: &str| Alert {
        id,
        account: account.into(),
        generation: 1,
        condition: Condition::OrderFilled { id: None },
        note: String::new(),
        once: false,
        created_at: Timestamp::from_secs(0).unwrap(),
        last_fired_at: None,
    };
    assert_eq!(dropped_with(&[alert(1, "a"), alert(2, "b"), alert(3, "a")], "a"), vec![1, 3]);
}

fn watched(id: i64, condition: Condition, once: bool) -> Alert {
    Alert {
        id,
        account: "bot".into(),
        generation: 1,
        condition,
        note: "breakout".into(),
        once,
        created_at: secs(0),
        last_fired_at: None,
    }
}

fn secs(s: i64) -> Timestamp {
    Timestamp::from_secs(1_790_000_000 + s).unwrap()
}

fn print(price: &str, qty: &str, at: i64) -> Trade {
    Trade { instrument: btc(), price: d(price), qty: d(qty), at: secs(at) }
}

#[test]
fn price_alerts_fire_at_their_level_and_one_shots_only_once() {
    let mut w = Watcher::new();
    w.upsert(watched(1, Condition::PriceAbove { id: btc(), price: d("100000000") }, true));
    w.upsert(watched(2, Condition::PriceBelow { id: btc(), price: d("90000000") }, true));
    assert!(w.on_trade(&print("99999999", "1", 1), None, secs(1)).is_empty());
    let fired = w.on_trade(&print("100000000", "1", 2), None, secs(2));
    assert_eq!(fired.len(), 1);
    let f = &fired[0];
    assert_eq!((f.alert_id, f.account.as_str(), f.note.as_str(), f.deactivate), (1, "bot", "breakout", true));
    assert_eq!(f.text, "UPBIT:KRW-BTC traded at 100000000, at or above 100000000");
    assert!(w.on_trade(&print("100100000", "1", 3), None, secs(3)).is_empty());
    assert_eq!(w.on_trade(&print("90000000", "1", 4), None, secs(4))[0].alert_id, 2);
    assert!(w.alerts.is_empty());
}

#[test]
fn alerts_that_stay_on_cool_down_for_five_minutes() {
    let mut w = Watcher::new();
    w.upsert(watched(1, Condition::PriceAbove { id: btc(), price: d("100") }, false));
    assert_eq!(w.on_trade(&print("101", "1", 0), None, secs(0)).len(), 1);
    assert!(w.on_trade(&print("101", "1", 299), None, secs(299)).is_empty());
    assert_eq!(w.on_trade(&print("101", "1", 300), None, secs(300)).len(), 1);
}

#[test]
fn sessions_wait_for_the_cooldown_too() {
    let mut w = Watcher::new();
    w.upsert(watched(1, Condition::SessionOpen { venue: Venue::Krx }, false));
    assert!(w.on_tick(false, false, secs(0)).is_empty());
    assert_eq!(w.on_tick(true, false, secs(1)).len(), 1);
    assert!(w.on_tick(false, false, secs(2)).is_empty());
    assert!(w.on_tick(true, false, secs(300)).is_empty());
    assert!(w.on_tick(false, false, secs(301)).is_empty());
    assert_eq!(w.on_tick(true, false, secs(302)).len(), 1);
}

#[test]
fn moves_are_measured_over_their_window() {
    let mut w = Watcher::new();
    w.upsert(watched(1, Condition::Move { id: btc(), pct: d("3"), window_minutes: 30 }, true));
    assert!(w.on_trade(&print("100", "1", 0), None, secs(0)).is_empty());
    assert!(w.on_trade(&print("102", "1", 60), None, secs(60)).is_empty());
    // The first trade is out of the window by now: the move is from 102.
    assert!(w.on_trade(&print("103", "1", 1_830), None, secs(1_830)).is_empty());
    let fired = w.on_trade(&print("98", "1", 1_840), None, secs(1_840));
    assert_eq!(fired[0].text, "UPBIT:KRW-BTC moved -3.92% in 30 minutes, to 98");
}

#[test]
fn surges_are_measured_against_an_average_day() {
    let mut w = Watcher::new();
    w.upsert(watched(1, Condition::VolumeSurge { id: btc(), factor: d("2"), window_minutes: 10 }, true));
    // 1440 a day is 10 in ten minutes; twice that is 20.
    assert!(w.on_trade(&print("1", "19", 0), Some(d("1440")), secs(0)).is_empty());
    assert!(w.on_trade(&print("1", "1", 1), None, secs(1)).is_empty(), "nothing is known of the average day");
    assert_eq!(w.on_trade(&print("1", "1", 2), Some(d("1440")), secs(2)).len(), 1);
}

#[test]
fn fills_and_sessions_fire_alerts() {
    let mut w = Watcher::new();
    w.upsert(watched(1, Condition::OrderFilled { id: None }, false));
    w.upsert(watched(2, Condition::SessionOpen { venue: Venue::Krx }, true));
    w.upsert(watched(3, Condition::SessionClose { venue: Venue::Us }, true));
    let fill = |account: &str| Fill {
        order_id: 7,
        account: account.into(),
        instrument: btc(),
        side: Side::Buy,
        qty: d("0.1"),
        notional: d("10000000"),
        price: d("100000000"),
        fee: d("5000"),
        tax: d("0"),
        realized_pnl: None,
        liquidity: Liquidity::Taker,
        at: secs(0),
    };
    assert!(w.on_fill(&fill("other"), secs(0)).is_empty());
    assert_eq!(w.on_fill(&fill("bot"), secs(0))[0].text, "order 7 filled: buy 0.1 UPBIT:KRW-BTC at 100000000");
    assert!(w.on_tick(false, true, secs(1)).is_empty(), "the first look only learns the state");
    let fired = w.on_tick(true, false, secs(2));
    assert_eq!(fired.iter().map(|f| f.text.as_str()).collect::<Vec<_>>(), ["KRX session opened", "US session closed"]);
    assert!(w.on_tick(false, true, secs(3)).is_empty());
}

#[test]
fn alerts_are_replaced_and_removed_by_id() {
    let mut w = Watcher::new();
    w.upsert(watched(1, Condition::PriceAbove { id: btc(), price: d("100") }, true));
    w.upsert(watched(1, Condition::PriceAbove { id: btc(), price: d("200") }, true));
    w.upsert(watched(2, Condition::SessionOpen { venue: Venue::Krx }, true));
    assert_eq!(w.alerts.len(), 2);
    assert_eq!(w.instruments().len(), 1);
    assert!(w.on_trade(&print("150", "1", 0), None, secs(0)).is_empty());
    w.remove(1);
    assert!(w.instruments().is_empty());
}

#[test]
fn an_account_is_sent_so_many_messages_an_hour() {
    let at = |s: i64| Timestamp::from_secs(1_790_000_000 + s).unwrap();
    let mut l = Limiter::new();
    for i in 0..MESSAGES_AN_HOUR {
        assert!(l.room("a", at(i as i64 * 60)));
    }
    assert!(!l.room("a", at(1800)));
    assert!(!l.room("a", at(3599)));
    assert!(l.room("b", at(3599)), "every account has its own");
    // The first message is an hour old: there is room for one.
    assert!(l.room("a", at(3600)));
    assert!(!l.room("a", at(3601)));
}
