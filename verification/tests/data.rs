//! Candles, screens, subscriptions, performance, statistics, rates, settings and the command line.
use atrader::accounts::{agent_account, agent_accounts, krw_per, AccountRow};
use atrader::broker::{Fill, Liquidity};
use atrader::candles::{lookback_start, merge, resample, BarBuilder, Candle, Interval};
use atrader::cli::{account_line, default_cash, parse, password_fault, Command, USAGE};
use atrader::decimal::Decimal;
use atrader::domain::{Currency, InstrumentId, Side, Trade, Venue};
use atrader::fx::{parse_frankfurter, FxCache};
use atrader::indicators::IndicatorSpec;
use atrader::performance::{daily_equity, performance, Snapshot, SnapshotKind};
use atrader::persist::{is_permanent, next_step, WriteOutcome, WriteStep};
use atrader::screen::{rank, Ranking, ScreenRow};
use atrader::settings::{editable, get_in, settings_path, source_in, state_dir, stored_value, Given, Source};
use atrader::stats::daily_stats;
use atrader::subs::{select, Subscriptions};
use atrader::table::Key;
use atrader::time::Timestamp;
use std::collections::VecDeque;

fn d(s: &str) -> Decimal {
    Decimal::parse(s).unwrap()
}

fn f(x: Decimal) -> f64 {
    x.to_text().parse().unwrap()
}

fn on(y: i32, mo: u32, day: u32, h: u32, m: u32, s: u32) -> Timestamp {
    let t = chrono::NaiveDate::from_ymd_opt(y, mo, day).unwrap().and_hms_opt(h, m, s).unwrap().and_utc();
    Timestamp::from_secs(t.timestamp()).unwrap()
}

fn t(h: u32, m: u32, s: u32) -> Timestamp {
    on(2026, 9, 23, h, m, s)
}

fn bar(h: u32, m: u32, o: &str, hi: &str, lo: &str, c: &str) -> Candle {
    Candle { start: t(h, m, 0), open: d(o), high: d(hi), low: d(lo), close: d(c), volume: d("1"), value: d(c) }
}

#[test]
fn intervals_parse_and_measure() {
    assert_eq!(Interval::parse("15m"), Some(Interval::M15));
    assert_eq!(Interval::parse("1w").map(Interval::secs), Some(7 * 86400));
    assert_eq!(Interval::parse("2h"), None);
    assert_eq!(Interval::parse(" 1d\u{3000}"), Some(Interval::D1));
    assert_eq!(Interval::parse("1 d"), None);
    assert!(Interval::H1.is_intraday() && !Interval::D1.is_intraday());
}

#[test]
fn interval_codes_read_back() {
    for i in [Interval::M1, Interval::M5, Interval::M15, Interval::H1, Interval::D1, Interval::W1] {
        assert_eq!(Interval::parse(i.code()), Some(i));
    }
    // Weeks start on Monday: the 23rd of September 2026 is a Wednesday.
    assert_eq!(Interval::W1.bucket(t(12, 0, 0)), Some(on(2026, 9, 21, 0, 0, 0)));
    assert_eq!(Interval::D1.bucket(t(12, 0, 0)), Some(t(0, 0, 0)));
}

#[test]
fn resample_aligns_buckets_across_gaps() {
    let bars = vec![
        bar(1, 3, "10", "11", "9", "10"),
        bar(1, 4, "10", "15", "10", "14"),
        bar(1, 7, "14", "14", "8", "9"),
        bar(1, 59, "9", "9", "9", "9"),
        bar(2, 0, "9", "12", "9", "12"),
    ];
    let five = resample(&bars, Interval::M5).unwrap();
    assert_eq!(
        five.iter().map(|c| c.start).collect::<Vec<_>>(),
        vec![t(1, 0, 0), t(1, 5, 0), t(1, 55, 0), t(2, 0, 0)]
    );
    assert_eq!((five[0].open, five[0].high, five[0].low, five[0].close), (d("10"), d("15"), d("9"), d("14")));
    assert_eq!(five[0].volume, d("2"));
    let hour = resample(&bars, Interval::H1).unwrap();
    assert_eq!(hour.len(), 2);
    assert_eq!((hour[0].open, hour[0].high, hour[0].low, hour[0].close), (d("10"), d("15"), d("8"), d("9")));
}

#[test]
fn late_bar_fragments_merge_instead_of_overwriting() {
    let candle = |o: &str, hi: &str, lo: &str, c: &str, volume: &str, value: &str| Candle {
        start: t(1, 0, 0),
        open: d(o),
        high: d(hi),
        low: d(lo),
        close: d(c),
        volume: d(volume),
        value: d(value),
    };
    let full = candle("100", "105", "99", "104", "10", "1020");
    let late = candle("103", "103", "103", "103", "1", "103");
    let b = merge(full, late).unwrap();
    assert_eq!((b.open, b.high, b.low, b.close), (d("100"), d("105"), d("99"), d("103")));
    assert_eq!((b.volume, b.value), (d("11"), d("1123")));
}

#[test]
fn bar_builder_closes_minutes() {
    let mut b = BarBuilder::new();
    let id = InstrumentId::parse("KRX:005930").unwrap();
    let tr = |p: &str, q: &str, at| Trade { instrument: id.clone(), price: d(p), qty: d(q), at };
    assert!(b.on_trade(&tr("100", "2", t(1, 0, 5))).unwrap().is_none());
    assert!(b.on_trade(&tr("103", "1", t(1, 0, 40))).unwrap().is_none());
    assert!(b.on_trade(&tr("99", "1", t(1, 0, 59))).unwrap().is_none());
    let (done_id, done) = b.on_trade(&tr("101", "1", t(1, 1, 2))).unwrap().unwrap();
    assert!(done_id.same_key(&id));
    assert_eq!(
        (done.start, done.open, done.high, done.low, done.close),
        (t(1, 0, 0), d("100"), d("103"), d("99"), d("99"))
    );
    assert_eq!((done.volume, done.value), (d("4"), d("402")));
    let flushed = b.flush_before(t(1, 2, 0));
    assert_eq!(flushed.len(), 1);
    assert_eq!(flushed[0].1.start, t(1, 1, 0));
    assert!(b.flush_before(t(1, 3, 0)).is_empty());
}

#[test]
fn late_prints_are_ignored_by_the_bar_builder() {
    let mut b = BarBuilder::new();
    let id = InstrumentId::parse("KRX:005930").unwrap();
    let tr = |p: &str, at| Trade { instrument: id.clone(), price: d(p), qty: d("1"), at };
    assert!(b.on_trade(&tr("100", t(1, 1, 0))).unwrap().is_none());
    assert!(b.on_trade(&tr("1", t(1, 0, 59))).unwrap().is_none());
    let flushed = b.flush_before(t(2, 0, 0));
    assert_eq!((flushed[0].1.low, flushed[0].1.volume), (d("100"), d("1")));
}

fn row(sym: &str, chg: &str, vol: &str, val: &str) -> ScreenRow {
    ScreenRow {
        id: InstrumentId::parse(&format!("UPBIT:{sym}")).unwrap(),
        name: None,
        price: d("1"),
        change_pct: d(chg),
        volume: d(vol),
        value: d(val),
    }
}

#[test]
fn ranks_by_the_chosen_metric() {
    let rows = || vec![row("A", "5", "1", "30"), row("B", "-7", "9", "10"), row("C", "1", "3", "20")];
    let syms = |r: Vec<ScreenRow>| r.into_iter().map(|x| x.id.symbol).collect::<Vec<_>>();
    assert_eq!(syms(rank(rows(), Ranking::Gainers, 2)), vec!["A", "C"]);
    assert_eq!(syms(rank(rows(), Ranking::Losers, 1)), vec!["B"]);
    assert_eq!(syms(rank(rows(), Ranking::Volume, 3)), vec!["B", "C", "A"]);
    assert_eq!(syms(rank(rows(), Ranking::Value, 1)), vec!["A"]);
    let tied = || vec![row("A", "2", "1", "1"), row("B", "3", "1", "1"), row("C", "2.0", "1", "1")];
    assert_eq!(syms(rank(tied(), Ranking::Gainers, 3)), vec!["B", "A", "C"]);
    assert_eq!(syms(rank(tied(), Ranking::Losers, 3)), vec!["A", "C", "B"]);
    assert_eq!(syms(rank(tied(), Ranking::Volume, 3)), vec!["A", "B", "C"]);
    assert_eq!(Ranking::parse("value"), Some(Ranking::Value));
    assert_eq!(Ranking::parse("hot"), None);
}

fn ids(s: &[&str]) -> Vec<InstrumentId> {
    s.iter().map(|x| InstrumentId::parse(&format!("UPBIT:{x}")).unwrap()).collect()
}

fn symbols(v: &[InstrumentId]) -> Vec<String> {
    v.iter().map(|i| i.to_text()).collect()
}

#[test]
fn pinned_come_first_then_recent_up_to_cap() {
    let recent: VecDeque<InstrumentId> = ids(&["C", "A", "D"]).into();
    assert_eq!(symbols(&select(&ids(&["A", "B"]), &recent, 3)), symbols(&ids(&["A", "B", "C"])));
}

#[test]
fn heavy_querying_never_evicts_a_pinned_instrument() {
    let mut subs = Subscriptions::new(3);
    subs.pin(ids(&["HELD"]));
    for x in ["Q1", "Q2", "Q3", "Q4", "Q5"] {
        subs.touch(&ids(&[x])[0]);
    }
    let set = symbols(subs.current());
    assert_eq!(set.len(), 3);
    assert_eq!(set[0], symbols(&ids(&["HELD"]))[0]);
    assert_eq!(&set[1..], &symbols(&ids(&["Q5", "Q4"]))[..]);
}

#[test]
fn unchanged_set_does_not_notify() {
    let mut subs = Subscriptions::new(3);
    assert!(subs.touch(&ids(&["A"])[0]));
    assert!(!subs.touch(&ids(&["A"])[0]));
    assert_eq!(symbols(subs.current()), symbols(&ids(&["A"])));
}

fn snap(day: u32, kind: SnapshotKind, equity: &str) -> Snapshot {
    Snapshot {
        account: "a".into(),
        generation: 1,
        at: on(2026, 9, day, 0, 0, 0),
        kind,
        equity_krw: d(equity),
        cash_krw: d(equity),
        positions_krw: d("0"),
    }
}

fn sell(pnl: &str) -> Fill {
    Fill {
        order_id: 1,
        account: "a".into(),
        instrument: InstrumentId::parse("UPBIT:KRW-BTC").unwrap(),
        side: Side::Sell,
        qty: d("1"),
        notional: d("1000"),
        price: d("1000"),
        fee: d("1"),
        tax: d("0"),
        realized_pnl: Some(d(pnl)),
        liquidity: Liquidity::Taker,
        at: on(2026, 9, 2, 0, 0, 0),
    }
}

/// Mean and sample deviation of the log returns of a series.
fn log_returns(equity: &[Decimal]) -> Option<(f64, f64)> {
    let r: Vec<f64> = equity.windows(2).map(|w| (f(w[1]) / f(w[0])).ln()).filter(|x| x.is_finite()).collect();
    if r.len() < 2 {
        return None;
    }
    let mean = r.iter().sum::<f64>() / r.len() as f64;
    let var = r.iter().map(|x| (x - mean).powi(2)).sum::<f64>() / (r.len() - 1) as f64;
    Some((mean, var.sqrt()))
}

#[test]
fn returns_drawdown_and_trade_stats() {
    let s = vec![
        snap(1, SnapshotKind::Daily, "100"),
        snap(2, SnapshotKind::Daily, "120"),
        snap(3, SnapshotKind::Daily, "90"),
        snap(4, SnapshotKind::Daily, "110"),
    ];
    let p = performance(&s, &[sell("50"), sell("-10")], d("1400")).unwrap();
    assert!(p.return_pct.same(d("10")));
    assert!(p.max_drawdown_pct.same(d("25")));
    assert_eq!((p.trades, p.sells), (2, 2));
    assert!(p.win_rate_pct.unwrap().same(d("50")));
    assert!(p.realized_pnl_krw.same(d("40")));
    assert!(p.fees_krw.same(d("2")));
    let (_, deviation) = log_returns(&daily_equity(&s)).unwrap();
    assert!(deviation > 0.0);
    assert!(p.turnover.unwrap().same(d("2000").checked_div(d("105")).unwrap().round_dp(2)));
}

#[test]
fn degenerate_inputs_do_not_divide_by_zero() {
    let empty = performance(&[], &[], d("1400")).unwrap();
    assert!(empty.return_pct.is_zero() && empty.max_drawdown_pct.is_zero());
    assert_eq!((empty.win_rate_pct, empty.turnover), (None, None));
    let minute = [snap(1, SnapshotKind::Minute, "100")];
    let one = performance(&minute, &[], d("1400")).unwrap();
    assert!(one.return_pct.is_zero());
    assert_eq!(log_returns(&daily_equity(&minute)), None);
    let zero = performance(
        &[snap(1, SnapshotKind::Daily, "0"), snap(2, SnapshotKind::Daily, "0")],
        &[],
        d("1400"),
    )
    .unwrap();
    assert!(zero.return_pct.is_zero());
}

/// The bits of the sample deviation of the log returns, where there are two of them.
fn sigma(closes: &[Decimal]) -> Option<u64> {
    log_returns(closes).map(|(_, s)| s.to_bits())
}

#[test]
fn sigma_is_sample_stdev_of_log_returns() {
    let closes = [d("100"), d("110"), d("99")];
    let s = daily_stats(&closes, &[d("10"), d("20"), d("30")], sigma(&closes)).unwrap().unwrap();
    let got = f64::from_bits(s.sigma_bits);
    assert!((got - 0.141895).abs() < 1e-5, "sigma {got}");
    assert!(s.adv_notional.same(d("20")));
}

#[test]
fn flat_prices_have_zero_sigma() {
    let closes = [d("5"), d("5"), d("5"), d("5")];
    let s = daily_stats(&closes, &[d("1")], sigma(&closes)).unwrap().unwrap();
    assert_eq!(f64::from_bits(s.sigma_bits), 0.0);
}

#[test]
fn too_little_history_is_none() {
    let two = [d("1"), d("2")];
    assert_eq!(daily_stats(&two, &[d("1")], sigma(&two)), Some(None));
    let three = [d("1"), d("2"), d("3")];
    assert_eq!(daily_stats(&three, &[], sigma(&three)), Some(None));
    let zeros = [d("0"), d("0"), d("0")];
    assert_eq!(daily_stats(&zeros, &[d("1")], sigma(&zeros)), Some(None));
}

#[test]
fn parses_frankfurter_rate_exactly() {
    let body = br#"{"amount":1.0,"base":"USD","date":"2026-09-23","rates":{"KRW":1365.35}}"#;
    assert_eq!(parse_frankfurter(body).unwrap(), d("1365.35"));
    assert!(parse_frankfurter(br#"{"rates":{}}"#).is_err());
    assert!(parse_frankfurter(b"not json").is_err());
    let none = parse_frankfurter(br#"{"rates":{"EUR":1}}"#);
    assert_eq!(none, Err("no KRW rate in response".to_string()));
    assert_eq!(parse_frankfurter(br#"{"rates":{"KRW":1,"EUR":2,"KRW":3}}"#).unwrap(), d("3"));
    assert!(parse_frankfurter(br#"{"rates":{"KRW":1},"rates":{"KRW":1}}"#).is_err());
    assert!(parse_frankfurter(br#"{"rates":{"KRW":1,"EUR":"x"}}"#).is_err());
    assert!(parse_frankfurter(br#"{"rates":{"KRW":1},"note":"\ud800"}"#).is_ok());
}

#[test]
fn a_rate_is_kept_until_it_is_too_old_and_covers_an_outage() {
    let mut fx = FxCache::new();
    let now = t(0, 0, 0);
    assert_eq!(fx.usd_krw(now, Some(0)), None);
    assert_eq!(fx.refreshed(None, None, now), None);
    assert_eq!(fx.refreshed(None, Some(d("1359")), now), Some(d("1359")));
    assert_eq!(fx.usd_krw(now, Some(0)), None, "asked every time when nothing may be kept");
    assert_eq!(fx.usd_krw(t(0, 0, 1), None), Some(d("1359")));
    assert_eq!(fx.usd_krw(t(2, 0, 0), None), None);
    assert_eq!(fx.refreshed(None, None, t(2, 0, 0)), Some(d("1359")), "the last rate covers an outage");
    assert_eq!(FxCache::fixed(d("1400"), now).usd_krw(t(23, 0, 0), Some(0)), Some(d("1400")));
}

#[test]
fn a_live_source_comes_first_and_its_last_rate_covers_an_outage() {
    let mut fx = FxCache::new();
    let now = t(0, 0, 0);
    assert_eq!(fx.refreshed(Some(d("1359")), Some(d("1300")), now), Some(d("1359")));
    assert_eq!(fx.usd_krw(now, Some(0)), None, "max_age zero: asked every time");
    assert_eq!(fx.refreshed(Some(d("1361.5")), None, now), Some(d("1361.5")));
    assert_eq!(fx.refreshed(None, Some(d("1300")), now), Some(d("1300")), "the reference rate stands in");
    assert_eq!(fx.refreshed(None, None, now), Some(d("1300")));
}

fn spec(s: &str) -> Result<IndicatorSpec, String> {
    let read = IndicatorSpec::width_text(s).and_then(|w| w.parse::<f64>().ok()).map(f64::to_bits);
    IndicatorSpec::parse(s, read)
}

#[test]
fn specs_parse_with_defaults_and_limits() {
    assert_eq!(spec("sma:20"), Ok(IndicatorSpec::Sma(20)));
    assert_eq!(spec("rsi"), Ok(IndicatorSpec::Rsi(14)));
    assert_eq!(spec("macd"), Ok(IndicatorSpec::Macd(12, 26, 9)));
    assert_eq!(spec("bb:20:2.5"), Ok(IndicatorSpec::Bollinger(20, 2.5f64.to_bits())));
    assert!(spec("sma").is_err());
    assert!(spec("sma:0").is_err());
    assert!(spec("sma:5000").is_err());
    assert!(spec("magic:3").is_err());
}

#[test]
fn widths_are_read_as_doubles() {
    assert_eq!(spec("bb"), Ok(IndicatorSpec::Bollinger(20, 2.0f64.to_bits())));
    assert_eq!(spec("bb:20:2e0"), Ok(IndicatorSpec::Bollinger(20, 2.0f64.to_bits())));
    assert_eq!(spec("Bollinger:10:10"), Ok(IndicatorSpec::Bollinger(10, 10.0f64.to_bits())));
    assert_eq!(spec("bb:20:0_5"), Err("bb:20:0_5: 0_5 is not a number".to_string()));
    for out in ["bb:20:0", "bb:20:-1", "bb:20:10.1", "bb:20:inf", "bb:20:nan"] {
        assert_eq!(spec(out), Err(format!("{out}: width must be in (0, 10]")));
    }
}

#[test]
fn indicators_name_their_lines() {
    assert_eq!(IndicatorSpec::Sma(20).line_names(), vec!["sma_20"]);
    assert_eq!(IndicatorSpec::Macd(12, 26, 9).line_names(), vec!["macd", "macd_signal", "macd_hist"]);
    assert_eq!(IndicatorSpec::Bollinger(20, 2.0f64.to_bits()).line_names(), vec!["bb_upper", "bb_middle", "bb_lower"]);
}

fn given(env: Option<&str>, file: Option<&str>, dashboard: Option<&str>) -> Given {
    Given { env: env.map(String::from), file: file.map(String::from), dashboard: dashboard.map(String::from) }
}

#[test]
fn values_come_from_env_then_file_then_the_dashboard() {
    let saved = stored_value(" saved \n");
    assert_eq!(saved.as_deref(), Some("saved"));
    let g = given(None, None, saved.as_deref());
    assert_eq!(get_in(&g).as_deref(), Some("saved"));
    assert_eq!(source_in(&g), Some(Source::Dashboard));
    let g = given(None, Some("from-file\n"), saved.as_deref());
    assert_eq!((get_in(&g).as_deref(), source_in(&g)), (Some("from-file"), Some(Source::File)));
    let g = given(Some("direct"), Some("from-file\n"), saved.as_deref());
    assert_eq!(source_in(&g), Some(Source::Env));
    assert_eq!(stored_value(""), None);
    assert_eq!(get_in(&given(None, None, None)), None);
    assert_eq!(get_in(&given(Some(" \n"), None, Some("x"))).as_deref(), Some("x"), "blank counts as unset");
}

#[test]
fn settings_have_their_places() {
    assert_eq!(settings_path("/state", "KIS_ENV"), "/state/settings/KIS_ENV");
    assert_eq!(state_dir(Some("/x".into()), None, None), "/x");
    assert_eq!(state_dir(None, Some("/s".into()), Some("/h".into())), "/s/atrader");
    assert_eq!(state_dir(None, None, Some("/h".into())), "/h/.local/state/atrader");
    assert_eq!(state_dir(None, None, None), "./.local/state/atrader");
    let secrets: Vec<&str> = editable().iter().filter(|e| e.secret).map(|e| e.name).collect();
    assert_eq!(secrets, vec!["KIS_APP_KEY", "KIS_APP_SECRET", "DART_API_KEY"]);
}

#[test]
fn writes_are_retried_unless_they_can_never_work() {
    assert_eq!(next_step(1, WriteOutcome::Written), WriteStep::Done);
    assert_eq!(next_step(1, WriteOutcome::Refused), WriteStep::Drop);
    assert!(matches!(next_step(1, WriteOutcome::Failed), WriteStep::Retry { .. }));
    assert!(is_permanent("23505"));
    assert!(!is_permanent("40001"));
}

fn account(id: &str, agent: Option<&str>) -> AccountRow {
    AccountRow { id: id.into(), name: id.to_uppercase(), agent_id: agent.map(String::from), generation: 1 }
}

#[test]
fn agents_see_their_accounts_in_order() {
    let rows = [account("manual", None), account("b", Some("agent-2")), account("a", Some("agent-1"))];
    let seen: Vec<String> = agent_accounts(&rows).into_iter().map(|a| a.id).collect();
    assert_eq!(seen, vec!["a", "b"]);
    assert_eq!(agent_account(&rows, "b").unwrap().name, "B");
    assert!(agent_account(&rows, "manual").is_none());
    assert!(agent_account(&rows, "nobody").is_none());
    assert_eq!(krw_per(Currency::Krw, d("1400")), d("1"));
    assert_eq!(krw_per(Currency::Usdt, d("1400")), d("1400"));
}

fn args(s: &[&str]) -> Vec<String> {
    s.iter().map(|x| x.to_string()).collect()
}

#[test]
fn parses_commands() {
    assert_eq!(parse(&args(&["serve"])), Ok(Command::Serve { zyris: true }));
    assert_eq!(parse(&args(&["serve", "--no-zyris"])), Ok(Command::Serve { zyris: false }));
    assert_eq!(parse(&args(&["account", "list"])), Ok(Command::AccountList));
    assert_eq!(
        parse(&args(&["account", "create", "bot", "My Bot", "--cash", "KRW=10000000", "--cash", "usd=1000"])),
        Ok(Command::AccountCreate {
            id: "bot".into(),
            name: "My Bot".into(),
            cash: vec![(Currency::Krw, d("10000000")), (Currency::Usd, d("1000"))],
        })
    );
    assert_eq!(
        parse(&args(&["account", "reset", "bot"])),
        Ok(Command::AccountReset { id: "bot".into(), cash: default_cash() })
    );
    assert_eq!(parse(&args(&[])), Ok(Command::Help));
    assert_eq!(parse(&args(&["--version"])), Ok(Command::Version));
}

#[test]
fn parses_user_commands() {
    assert_eq!(parse(&args(&["user", "create", "ruma"])), Ok(Command::UserCreate { username: "ruma".into() }));
    assert_eq!(parse(&args(&["user", "reset-2fa", "ruma"])), Ok(Command::UserReset2fa { username: "ruma".into() }));
    assert!(parse(&args(&["user", "create"])).is_err());
    assert_eq!(parse(&args(&["zyris", "enroll"])), Ok(Command::ZyrisEnroll));
}

#[test]
fn rejects_bad_input() {
    assert!(parse(&args(&["trade"])).is_err());
    assert!(parse(&args(&["account", "create", "bot"])).is_err());
    assert!(parse(&args(&["account", "create", "bot", "Bot", "--cash", "KRW10"])).is_err());
    assert!(parse(&args(&["account", "create", "bot", "Bot", "--cash", "EUR=5"])).is_err());
    assert!(parse(&args(&["account", "create", "bot", "Bot", "--cash", "KRW=-5"])).is_err());
    assert!(parse(&args(&["account", "create", "bot", "Bot", "--agent", "ag1"])).is_err());
    assert!(parse(&args(&["serve", "--fast"])).is_err());
}

#[test]
fn command_errors_say_what_is_wrong() {
    let e = |s: &[&str]| parse(&args(s)).unwrap_err();
    assert_eq!(e(&["account", "reset", "b", "--cash", "KRW10"]), "--cash wants CURRENCY=AMOUNT, got \"KRW10\"");
    assert_eq!(e(&["account", "reset", "b", "--cash", "EUR=5"]), "unknown currency \"EUR\"; use KRW, USD or USDT");
    assert_eq!(e(&["account", "reset", "b", "--cash", "KRW=x"]), "bad amount \"x\"");
    assert_eq!(e(&["account", "reset", "b", "--cash", "KRW=-5"]), "cash cannot be negative");
    assert_eq!(e(&["account", "reset", "b", "--cash"]), "--cash needs a value");
    assert_eq!(e(&["account", "reset", "b", "--agent", "x"]), "unknown option --agent");
    assert_eq!(e(&["serve", "now"]), format!("unrecognised command: serve now\n\n{USAGE}"));
    assert_eq!(password_fault("short", "short"), Some("the password must be at least 12 characters"));
    assert_eq!(password_fault("long enough to do", "another"), Some("the passwords differ"));
    assert_eq!(password_fault("long enough to do", "long enough to do"), None);
}

#[test]
fn accounts_are_listed_in_columns() {
    let a = AccountRow { id: "bot".into(), name: "봇".into(), agent_id: None, generation: 2 };
    let cash = [(Currency::Krw, d("10000000")), (Currency::Usd, d("7.50"))];
    let want = format!("{:<16} {:<24} gen={} {}", "bot", "봇", 2, "KRW=10000000 USD=7.50");
    assert_eq!(account_line(&a, &cash), want);
    assert_eq!(Venue::Krx.tag(), "KRX");
}

#[test]
fn recorded_bars_are_looked_up_far_enough_back() {
    let now = Timestamp::from_secs(1_790_000_000).unwrap();
    let since = lookback_start(now, Interval::M5, 100).unwrap();
    assert_eq!(since.secs(), 1_790_000_000 - 8 * 100 * 300);
    assert!(lookback_start(now, Interval::W1, usize::MAX).is_none());
}
