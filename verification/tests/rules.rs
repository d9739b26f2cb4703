//! Venues, ticks, lots, fees, sessions, the shadow book and the ledger.
use atrader::decimal::Decimal;
use atrader::domain::{Clock, Currency, InstrumentId, Level, ManualClock, Side, SystemClock, Venue};
use atrader::ledger::{LedgerError, Portfolio};
use atrader::sim::{passive_fill, totals, walk, Drift, Resting, ShadowLevel, ShadowState, SimParams, Size, Slice};
use atrader::time::Timestamp;
use atrader::venue::{price_band, whole_shares, Calendar, FeeSchedule, LotRule, TickRule};

fn d(s: &str) -> Decimal {
    Decimal::parse(s).unwrap()
}

fn utc(y: i32, m: u32, day: u32, h: u32, mi: u32) -> Timestamp {
    let t = chrono::NaiveDate::from_ymd_opt(y, m, day).unwrap().and_hms_opt(h, mi, 0).unwrap().and_utc();
    Timestamp::from_secs(t.timestamp()).unwrap()
}

fn day(y: i32, m: u32, dd: u32) -> i64 {
    utc(y, m, dd, 0, 0).secs() / 86_400
}

#[test]
fn instrument_id_round_trips() {
    let id = InstrumentId::parse("UPBIT:KRW-BTC").unwrap();
    assert_eq!(id.venue, Venue::Upbit);
    assert_eq!(id.symbol, "KRW-BTC");
    assert_eq!(id.to_text(), "UPBIT:KRW-BTC");
}

#[test]
fn instrument_id_rejects_garbage() {
    assert!(InstrumentId::parse("AAPL").is_err());
    assert!(InstrumentId::parse("NASDAQ:AAPL").is_err());
    assert!(InstrumentId::parse("US:").is_err());
}

#[test]
fn instrument_id_errors_say_what_is_wrong() {
    assert_eq!(InstrumentId::parse("A\"B").unwrap_err(), "expected VENUE:SYMBOL, got \"A\\\"B\"");
    assert_eq!(InstrumentId::parse("NASDAQ:AAPL").unwrap_err(), "unknown venue \"NASDAQ\"");
    assert_eq!(InstrumentId::parse("US:").unwrap_err(), "empty symbol");
    assert_eq!(InstrumentId::parse("US:A:B").unwrap().symbol, "A:B");
}

#[test]
fn venues_know_their_currency_and_session() {
    assert_eq!(Venue::Krx.currency(), Currency::Krw);
    assert_eq!(Venue::Binance.currency(), Currency::Usdt);
    assert!(Venue::Us.has_session());
    assert!(!Venue::Upbit.has_session());
    assert_eq!(Currency::from_code("USD"), Some(Currency::Usd));
    assert_eq!(Currency::Krw.decimals(), 0);
}

#[test]
fn tags_and_codes_read_back() {
    for v in [Venue::Krx, Venue::Us, Venue::Upbit, Venue::Binance] {
        assert_eq!(Venue::from_tag(v.tag()), Some(v));
    }
    for c in [Currency::Krw, Currency::Usd, Currency::Usdt] {
        assert_eq!(Currency::from_code(c.code()), Some(c));
    }
    for s in [Side::Buy, Side::Sell] {
        assert_eq!(Side::from_code(s.code()), Some(s));
        assert_eq!(s.opposite().opposite(), s);
    }
    assert_eq!(Venue::from_tag("krx"), None);
    assert_eq!(Currency::from_code("EUR"), None);
    assert_eq!(Side::from_code("hold"), None);
}

#[test]
fn manual_clock_advances() {
    let t0 = SystemClock.now();
    let mut c = ManualClock::new(t0);
    c.advance(5_000_000_000);
    assert_eq!(c.now(), t0.checked_add(5_000_000_000).unwrap());
}

#[test]
fn krx_ticks_follow_price_bands() {
    let t = TickRule::Krx;
    assert_eq!(t.size_at(d("1999")), d("1"));
    assert_eq!(t.size_at(d("2000")), d("5"));
    assert_eq!(t.size_at(d("49950")), d("50"));
    assert_eq!(t.size_at(d("50000")), d("100"));
    assert_eq!(t.size_at(d("600000")), d("1000"));
    assert!(!t.is_valid(d("50050")));
    assert!(t.is_valid(d("50100")));
    assert_eq!((t.floor(d("50050")), t.ceil(d("50050"))), (Some(d("50000")), Some(d("50100"))));
}

#[test]
fn a_price_lies_between_its_ticks() {
    for (t, p) in [(TickRule::Krx, "50050"), (TickRule::Us, "12.345"), (TickRule::Upbit, "0.00000123456"), (TickRule::Fixed(d("0.3")), "1")] {
        let p = d(p);
        let size = t.size_at(p);
        let (low, high) = (t.floor(p).unwrap(), t.ceil(p).unwrap());
        assert!(low.le(p) && p.le(high));
        assert!(high.checked_sub(low).unwrap().le(size));
        assert!(low.checked_rem(size).unwrap().is_zero() && high.checked_rem(size).unwrap().is_zero());
    }
    assert_eq!(TickRule::Fixed(d("0")).floor(d("1")), None);
    assert_eq!(TickRule::Krx.round(d("50050")), Some(d("50000")));
    assert_eq!(TickRule::Krx.round(d("50051")), Some(d("50100")));
}

#[test]
fn us_ticks() {
    let t = TickRule::Us;
    assert_eq!(t.size_at(d("12.345")), d("0.01"));
    assert_eq!(t.size_at(d("0.5")), d("0.0001"));
    assert!(t.is_valid(d("12.34")));
    assert!(!t.is_valid(d("12.345")));
    assert!(!t.is_valid(d("0")));
}

#[test]
fn lot_rules() {
    let shares = whole_shares();
    assert!(shares.is_valid(d("1"), d("100")));
    assert!(!shares.is_valid(d("0"), d("100")));
    assert!(!shares.is_valid(d("-1"), d("100")));
    assert!(!shares.is_valid(d("1.5"), d("100")));
    let btc = LotRule { step: d("0.00000001"), min_qty: d("0.00000001"), min_notional: d("5000") };
    assert!(btc.is_valid(d("0.0001"), d("100000000")));
    assert!(!btc.is_valid(d("0.00001"), d("100000000")));
    assert!(!btc.is_valid(d("0.000000001"), d("100000000")));
}

#[test]
fn krx_price_band_is_thirty_percent() {
    assert_eq!(price_band(Venue::Krx, &TickRule::Krx, Some(d("70000"))), Ok(Some((d("49000"), d("91000")))));
    assert_eq!(price_band(Venue::Krx, &TickRule::Krx, None), Ok(None));
    assert_eq!(price_band(Venue::Us, &TickRule::Us, Some(d("100"))), Ok(None));
}

#[test]
fn fees_and_taxes() {
    let krx = FeeSchedule::default_for(Venue::Krx);
    assert_eq!(krx.cost(Side::Sell, d("1000000"), 0), Some((d("150"), d("2000"))));
    assert_eq!(krx.cost(Side::Buy, d("1000000"), 0), Some((d("150"), d("0"))));
    let us = FeeSchedule::default_for(Venue::Us);
    assert_eq!(us.cost(Side::Sell, d("10000"), 2), Some((d("0.27"), d("0"))));
    let upbit = FeeSchedule::default_for(Venue::Upbit);
    assert_eq!(upbit.cost(Side::Buy, d("1000000"), 0), Some((d("500"), d("0"))));
}

#[test]
fn krx_session_in_seoul_time() {
    let c = Calendar::default();
    assert!(c.is_open(Venue::Krx, utc(2026, 9, 23, 1, 0))); // Wed 10:00 KST
    assert!(!c.is_open(Venue::Krx, utc(2026, 9, 22, 23, 59))); // Wed 08:59 KST
    assert!(!c.is_open(Venue::Krx, utc(2026, 9, 23, 6, 30))); // Wed 15:30 KST
    assert!(!c.is_open(Venue::Krx, utc(2026, 9, 26, 1, 0))); // Sat
}

#[test]
fn next_open_skips_weekend_and_holidays() {
    let c = Calendar::new(vec![(Venue::Krx, day(2026, 9, 28))]);
    // Fri 16:00 KST -> Mon is a holiday -> Tue 09:00 KST.
    assert_eq!(c.next_open(Venue::Krx, utc(2026, 9, 25, 7, 0)), Some(utc(2026, 9, 29, 0, 0)));
    assert!(!c.is_open(Venue::Krx, utc(2026, 9, 28, 1, 0)));
    assert!(c.is_open(Venue::Krx, utc(2026, 9, 29, 0, 0)));
}

#[test]
fn the_next_open_is_the_first_moment_of_a_session() {
    let c = Calendar::default();
    for (venue, from) in [(Venue::Krx, utc(2026, 9, 25, 7, 0)), (Venue::Us, utc(2026, 10, 31, 0, 0))] {
        let open = c.next_open(venue, from).unwrap();
        assert!(c.is_open(venue, open));
        assert!(!c.is_open(venue, open.checked_add(-1_000_000_000).unwrap()));
    }
}

#[test]
fn us_session_tracks_dst() {
    let c = Calendar::default();
    assert!(c.is_open(Venue::Us, utc(2026, 9, 23, 13, 30))); // 09:30 EDT
    assert!(!c.is_open(Venue::Us, utc(2026, 9, 23, 13, 29)));
    assert!(c.is_open(Venue::Us, utc(2026, 11, 2, 14, 30))); // 09:30 EST
    assert!(!c.is_open(Venue::Us, utc(2026, 11, 2, 13, 30))); // 08:30 EST
    assert!(!c.is_open(Venue::Us, utc(2026, 11, 2, 21, 0))); // 16:00 EST
}

#[test]
fn crypto_is_always_open() {
    let c = Calendar::default();
    assert!(c.is_open(Venue::Upbit, utc(2026, 9, 26, 3, 0)));
    assert_eq!(c.next_open(Venue::Binance, utc(2026, 9, 26, 3, 0)), None);
}

#[test]
fn holidays_parse_from_toml() {
    let c = Calendar::from_toml("KRX = [\"2026-09-25\"]\nUS = []").unwrap();
    assert!(!c.is_open(Venue::Krx, utc(2026, 9, 25, 1, 0)));
    assert!(c.is_open(Venue::Us, utc(2026, 9, 25, 14, 0)));
    assert!(Calendar::from_toml("NASDAQ = []").is_err());
    assert_eq!(Calendar::from_toml("NASDAQ = []").unwrap_err(), "unknown venue \"NASDAQ\"");
    assert!(Calendar::from_toml("KRX = [\"soon\"]").is_err());
}

#[test]
fn upbit_krw_ticks() {
    let t = TickRule::Upbit;
    assert_eq!(t.size_at(d("114851000")), d("1000"));
    assert_eq!(t.size_at(d("1000000")), d("1000"));
    assert_eq!(t.size_at(d("750000")), d("500"));
    assert_eq!(t.size_at(d("120000")), d("100"));
    assert_eq!(t.size_at(d("60000")), d("50"));
    assert_eq!(t.size_at(d("12000")), d("10"));
    assert_eq!(t.size_at(d("7000")), d("5"));
    assert_eq!(t.size_at(d("3000")), d("1"));
    assert_eq!(t.size_at(d("500")), d("1"));
    assert_eq!(t.size_at(d("50")), d("0.1"));
    assert_eq!(t.size_at(d("5")), d("0.01"));
    assert_eq!(t.size_at(d("0.5")), d("0.001"));
    assert_eq!(t.size_at(d("0.000001")), d("0.00000001"));
    assert!(t.is_valid(d("114851000")));
    assert!(!t.is_valid(d("114851500")));
}

fn lv(price: &str, qty: &str) -> ShadowLevel {
    ShadowLevel { price: d(price), qty: d(qty), real_price: d(price) }
}

fn asks() -> Vec<ShadowLevel> {
    vec![lv("100", "5"), lv("101", "5"), lv("102", "10")]
}

#[test]
fn walk_takes_levels_in_order() {
    let s = walk(&asks(), Side::Buy, Size::Qty(d("8")), d("1000"), d("1")).unwrap();
    assert_eq!(s.iter().map(|x| (x.price, x.qty)).collect::<Vec<_>>(), vec![(d("100"), d("5")), (d("101"), d("3"))]);
}

#[test]
fn walk_stops_at_limit() {
    let s = walk(&asks(), Side::Buy, Size::Qty(d("8")), d("100.5"), d("1")).unwrap();
    assert_eq!(totals(&s), Some((d("5"), d("500"))));
}

#[test]
fn walk_by_notional_respects_lot_step() {
    let s = walk(&asks(), Side::Buy, Size::Notional(d("1000")), d("1000"), d("1")).unwrap();
    assert_eq!(totals(&s), Some((d("9"), d("904"))));
}

#[test]
fn walk_takes_whole_steps() {
    // What a level holds beyond a whole step is left to it.
    let s = walk(&[lv("100", "2.5")], Side::Buy, Size::Qty(d("10")), d("1000"), d("1")).unwrap();
    assert_eq!(s.iter().map(|x| (x.price, x.qty)).collect::<Vec<_>>(), vec![(d("100"), d("2"))]);
    // A level that holds less than a step is passed over.
    let some = [lv("100", "0.5"), lv("101", "2")];
    let s = walk(&some, Side::Buy, Size::Qty(d("10")), d("1000"), d("1")).unwrap();
    assert_eq!(s.iter().map(|x| (x.price, x.qty)).collect::<Vec<_>>(), vec![(d("101"), d("2"))]);
    let s = walk(&some, Side::Buy, Size::Notional(d("150")), d("1000"), d("1")).unwrap();
    assert_eq!(totals(&s), Some((d("1"), d("101"))));
    let s = walk(&[lv("100", "2.5")], Side::Buy, Size::Notional(d("1000")), d("1000"), d("1")).unwrap();
    assert_eq!(totals(&s), Some((d("2"), d("200"))));
}

#[test]
fn of_two_equal_decimals_the_first_is_the_greater() {
    let x = d("1.0").max(d("1.00"));
    assert_eq!((x.mantissa_part(), x.scale_part()), (10, 1));
    assert_eq!(d("1").max(d("2")), d("2"));
}

#[test]
fn walk_sells_into_bids() {
    let bids = vec![lv("99", "5"), lv("98", "5")];
    let s = walk(&bids, Side::Sell, Size::Qty(d("7")), d("98.5"), d("1")).unwrap();
    assert_eq!(totals(&s), Some((d("5"), d("495"))));
}

#[test]
fn depletion_hides_liquidity_then_recovers() {
    let p = SimParams::default_for(Venue::Upbit);
    assert_eq!((p.tau_perm_secs, p.tau_res_secs), (600, 60));
    let t0 = utc(2026, 9, 23, 0, 0);
    let still = Drift { recovery: d("1"), multiplier: d("1") };
    let mut st = ShadowState::new();
    assert!(st.decay(t0, still));
    assert!(st.consume(Side::Buy, &[Slice { price: d("100"), qty: d("3"), real_price: d("100") }]));
    let real = [Level { price: d("100"), qty: d("5") }];
    let tick = TickRule::Fixed(d("1"));
    assert_eq!(st.shadow_side(&real, Side::Sell, &tick).unwrap()[0].qty, d("2"));
    // One resilience half-life.
    assert!(st.decay(t0.checked_add(60_000_000_000).unwrap(), Drift { recovery: d("0.5"), multiplier: d("1") }));
    assert_eq!(st.shadow_side(&real, Side::Sell, &tick).unwrap()[0].qty, d("3.5"));
}

#[test]
fn tiny_offset_does_not_shift_the_book() {
    let mut st = ShadowState::new();
    st.multiplier = d("1.000001");
    let real = [Level { price: d("100000000"), qty: d("1") }];
    let shadow = st.shadow_side(&real, Side::Sell, &TickRule::Fixed(d("1000"))).unwrap();
    assert_eq!(shadow[0].price, d("100000000"));
    st.multiplier = d("1.01");
    let shadow = st.shadow_side(&real, Side::Sell, &TickRule::Fixed(d("1000"))).unwrap();
    assert_eq!((shadow[0].price, shadow[0].real_price), (d("101000000"), d("100000000")));
}

#[test]
fn passive_fill_waits_for_queue_then_fills() {
    let mut r = Resting { order_id: 1, side: Side::Buy, price: d("100"), remaining: d("10"), queue_ahead: d("5") };
    let mut avail = d("8");
    assert_eq!(passive_fill(&mut r, d("100"), &mut avail), Some(d("3")));
    assert_eq!((r.queue_ahead, r.remaining, avail), (d("0"), d("7"), d("0")));
    let mut avail = d("20");
    assert_eq!(passive_fill(&mut r, d("99"), &mut avail), Some(d("7"))); // traded through
    let mut avail = d("20");
    assert_eq!(passive_fill(&mut r, d("101"), &mut avail), Some(d("0"))); // above a buy: no fill
}

fn id() -> InstrumentId {
    InstrumentId::parse("KRX:005930").unwrap()
}

#[test]
fn moving_average_cost_and_realised_pnl() {
    let mut p = Portfolio::new(&[(Currency::Krw, d("10000"))]);
    assert_eq!(p.apply_fill(&id(), Side::Buy, d("10"), d("1000"), d("1"), d("0")), Ok(None));
    p.apply_fill(&id(), Side::Buy, d("10"), d("1100"), d("1"), d("0")).unwrap();
    assert_eq!(p.positions.get(&id()).unwrap().avg_cost, d("105"));
    let pnl = p.apply_fill(&id(), Side::Sell, d("5"), d("600"), d("1"), d("2"));
    assert_eq!(pnl, Ok(Some(d("72")))); // 600 - 105*5 - 1 - 2
    assert_eq!(p.positions.get(&id()).unwrap().qty, d("15"));
    assert_eq!(p.cash(Currency::Krw), d("8495")); // 10000 - 1001 - 1101 + 597
}

#[test]
fn flat_position_is_removed() {
    let mut p = Portfolio::new(&[(Currency::Krw, d("10000"))]);
    p.apply_fill(&id(), Side::Buy, d("2"), d("200"), d("0"), d("0")).unwrap();
    p.apply_fill(&id(), Side::Sell, d("2"), d("300"), d("0"), d("0")).unwrap();
    assert_eq!(p.positions.len(), 0);
    assert_eq!(p.available_qty(&id()), Some(d("0")));
    assert_eq!(p.apply_fill(&id(), Side::Sell, d("1"), d("1"), d("0"), d("0")), Err(LedgerError::NoPosition));
}

#[test]
fn reservations_reduce_what_is_available() {
    let mut p = Portfolio::new(&[(Currency::Krw, d("1000"))]);
    assert!(p.reserve_cash(Currency::Krw, d("300")));
    assert_eq!(p.available_cash(Currency::Krw), Some(d("700")));
    assert!(p.release_cash(Currency::Krw, d("500"))); // over-release clamps at zero
    assert_eq!(p.available_cash(Currency::Krw), Some(d("1000")));
    p.apply_fill(&id(), Side::Buy, d("10"), d("100"), d("0"), d("0")).unwrap();
    assert!(p.reserve_qty(&id(), d("4")));
    assert_eq!(p.available_qty(&id()), Some(d("6")));
    assert!(p.release_qty(&id(), d("4")));
    assert_eq!(p.available_qty(&id()), Some(d("10")));
}

#[test]
fn amounts_out_of_range_change_nothing() {
    let max = d("79228162514264337593543950335");
    let mut p = Portfolio::new(&[(Currency::Krw, max)]);
    assert_eq!(p.apply_fill(&id(), Side::Buy, d("1"), max, max, d("0")), Err(LedgerError::Overflow));
    assert_eq!(p.cash(Currency::Krw), max);
    assert!(p.reserve_cash(Currency::Krw, max));
    assert!(!p.reserve_cash(Currency::Krw, max));
    assert_eq!(p.available_cash(Currency::Krw), Some(d("0")));
}

#[test]
fn decimals_compute_and_print() {
    assert_eq!(d("1.50").to_text(), "1.50");
    assert_eq!(d("1.50").normalize().to_text(), "1.5");
    assert_eq!(d("-0.05").to_text(), "-0.05");
    assert_eq!(d("0").to_text(), "0");
    assert_eq!(d("0.00").to_text(), "0.00");
    assert_eq!(d("1.5"), d("1.50"));
    assert_eq!(d("2.5").round_dp(0).to_text(), "2");
    assert_eq!(d("3.5").round_dp(0).to_text(), "4");
    assert_eq!(d("-1.25").round_dp(1).to_text(), "-1.2");
    assert_eq!(d("-1.29").trunc_dp(1).to_text(), "-1.2");
    assert_eq!(d("-1.2").floor().to_text(), "-2");
    assert_eq!(d("-1.2").ceil().to_text(), "-1");
    assert_eq!(d("7").checked_div(d("2")), Some(d("3.5")));
    assert_eq!(d("7").checked_div(d("0")), None);
    assert_eq!(d("7.5").checked_rem(d("2")), Some(d("1.5")));
    assert_eq!(d("7.5").checked_mul(d("2")), Some(d("15")));
    assert_eq!(d("1").neg().abs(), d("1"));
    assert_eq!(d("1").min(d("2")), d("1"));
    assert_eq!(d("1").max(d("2")), d("2"));
    assert!(Decimal::parse("abc").is_none());
}

#[test]
fn prices_round_to_the_nearest_tick_and_halfway_to_the_even_one() {
    let two = TickRule::Fixed(d("2"));
    assert_eq!(two.round(d("2.9")), Some(d("2")));
    assert_eq!(two.round(d("3")), Some(d("4")));
    assert_eq!(two.round(d("5")), Some(d("4")));
    assert_eq!(two.round(d("5.1")), Some(d("6")));
    assert_eq!(TickRule::Fixed(d("0")).round(d("5")), None);
}

#[test]
fn a_print_that_the_queue_takes_up_fills_nothing() {
    let mut r = Resting { order_id: 1, side: Side::Sell, price: d("100"), remaining: d("10"), queue_ahead: d("5") };
    let mut avail = d("5");
    assert_eq!(passive_fill(&mut r, d("100"), &mut avail), Some(d("0")));
    assert_eq!((r.queue_ahead, r.remaining, avail), (d("0"), d("10"), d("0")));
}
