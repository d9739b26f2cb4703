//! The simulated broker, driven the way the node drives it.
use atrader::broker::{
    Conversion, Estimate, Fill, Liquidity, Order, OrderError, OrderRequest, OrderStatus, OrderType, SimBroker, Tif,
};
use atrader::decimal::Decimal;
use atrader::domain::{Book, Clock, Currency, InstrumentId, Level, ManualClock, Side, Trade, Venue};
use atrader::ledger::{Portfolio, Position};
use atrader::sim::{Drift, SimParams, Size};
use atrader::table::Table;
use atrader::time::Timestamp;
use atrader::tools::report::value_account;
use atrader::venue::{whole_shares, Calendar, Instrument, LotRule, TickRule};
use rust_decimal::prelude::{FromPrimitive, ToPrimitive};

fn d(s: &str) -> Decimal {
    Decimal::parse(s).unwrap()
}

fn from_f64(x: f64) -> Decimal {
    let r = rust_decimal::Decimal::from_f64(x).unwrap();
    Decimal::from_i128_with_scale(r.mantissa(), r.scale()).unwrap()
}

fn to_f64(x: Decimal) -> f64 {
    rust_decimal::Decimal::from_i128_with_scale(x.mantissa_part(), x.scale_part()).to_f64().unwrap()
}

fn utc(y: i32, m: u32, day: u32, h: u32, mi: u32, s: u32) -> Timestamp {
    let t = chrono::NaiveDate::from_ymd_opt(y, m, day).unwrap().and_hms_opt(h, mi, s).unwrap().and_utc();
    Timestamp::from_secs(t.timestamp()).unwrap()
}

const SECOND: i64 = 1_000_000_000;

/// The broker, its clock and the price offset of the one instrument that moves.
struct Rig {
    b: SimBroker,
    clock: ManualClock,
    offset: f64,
}

fn btc() -> InstrumentId {
    InstrumentId::parse("UPBIT:KRW-BTC").unwrap()
}

fn samsung() -> InstrumentId {
    InstrumentId::parse("KRX:005930").unwrap()
}

fn levels(xs: &[(&str, &str)]) -> Vec<Level> {
    xs.iter().map(|(price, qty)| Level { price: d(price), qty: d(qty) }).collect()
}

impl Rig {
    fn now(&self) -> Timestamp {
        self.clock.now()
    }

    /// The offset decayed to now, and the drift that goes with it.
    fn drift(&mut self, id: &InstrumentId) -> Drift {
        let p = SimParams::default_for(id.venue);
        match self.b.shadow_updated_at(id) {
            None => Drift { recovery: d("1"), multiplier: d("1") },
            Some(last) => {
                let dt = (self.now().since(last) / 1_000_000).max(0) as f64 / 1000.0;
                let offset = self.offset * 0.5f64.powf(dt / p.tau_perm_secs as f64);
                let offset = if offset.abs() < 1e-7 { 0.0 } else { offset };
                Drift { recovery: from_f64(0.5f64.powf(dt / p.tau_res_secs as f64)), multiplier: from_f64(1.0 + offset) }
            }
        }
    }

    fn shadow_offset(&mut self, id: &InstrumentId) -> f64 {
        let m = self.drift(id).multiplier;
        to_f64(m) - 1.0
    }

    fn impact(side: Side, notional: Decimal, venue: Venue) -> f64 {
        let p = SimParams::default_for(venue);
        let sign = if side == Side::Buy { 1.0 } else { -1.0 };
        sign * to_f64(p.eta) * to_f64(p.default_sigma) * (to_f64(notional) / to_f64(p.default_adv)).sqrt()
    }

    fn place(&mut self, account: &str, req: OrderRequest) -> Result<(Order, Vec<Fill>), OrderError> {
        let id = req.instrument.clone();
        let side = req.side;
        let drift = self.drift(&id);
        let now = self.now();
        let (order, fills) = self.b.place_sync(account, req, now, drift)?;
        if let Some(f) = fills.first() {
            self.offset += Self::impact(side, f.notional, id.venue);
            self.b.set_multiplier(&id, from_f64(1.0 + self.offset));
        }
        Ok((order, fills))
    }

    fn estimate(&mut self, account: &str, req: &OrderRequest) -> Result<Estimate, OrderError> {
        let drift = self.drift(&req.instrument);
        let now = self.now();
        self.b.estimate(account, req, now, drift)
    }

    fn on_book(&mut self, book: Book) -> Vec<Fill> {
        let drift = self.drift(&book.instrument);
        let now = self.now();
        let s = self.b.on_book(book, now, drift);
        assert!(s.stopped.is_none());
        s.fills
    }

    fn on_trade(&mut self, t: Trade) -> Vec<Fill> {
        let drift = self.drift(&t.instrument);
        let now = self.now();
        let s = self.b.on_trade(t, now, drift);
        assert!(s.stopped.is_none());
        s.fills
    }

    fn cash(&self, account: &str) -> Decimal {
        self.b.portfolio(account).unwrap().cash(Currency::Krw)
    }

    fn available(&self, account: &str) -> Decimal {
        self.b.portfolio(account).unwrap().available_cash(Currency::Krw).unwrap()
    }
}

fn book(clock: &ManualClock, id: InstrumentId, bids: &[(&str, &str)], asks: &[(&str, &str)]) -> Book {
    Book { instrument: id, bids: levels(bids), asks: levels(asks), prev_close: Some(d("70000")), received_at: clock.now() }
}

fn btc_book(clock: &ManualClock) -> Book {
    book(clock, btc(), &[("99999000", "1")], &[("100000000", "0.5"), ("100001000", "1")])
}

/// Wednesday 2026-09-23 10:00 KST: KRX is open; crypto always is.
fn setup() -> Rig {
    let clock = ManualClock::new(utc(2026, 9, 23, 1, 0, 0));
    let mut r = Rig { b: SimBroker::new(Calendar::default()), clock, offset: 0.0 };
    assert!(r.b.add_instrument(Instrument {
        id: btc(),
        name: "Bitcoin".to_string(),
        tick: TickRule::Fixed(d("1000")),
        lot: LotRule { step: d("0.00000001"), min_qty: d("0.00000001"), min_notional: d("5000") },
        tradable: true,
    }));
    assert!(r.b.add_instrument(Instrument {
        id: samsung(),
        name: "Samsung Electronics".to_string(),
        tick: TickRule::Krx,
        lot: whole_shares(),
        tradable: true,
    }));
    r.b.open_account("a", &[(Currency::Krw, d("1000000000"))]);
    r.on_book(btc_book(&clock));
    r.on_book(book(&clock, samsung(), &[("70000", "100")], &[("70100", "100")]));
    r
}

fn req(id: InstrumentId, side: Side, kind: OrderType, size: Size, limit_price: Option<Decimal>, tif: Tif) -> OrderRequest {
    OrderRequest { instrument: id, side, kind, size, limit_price, tif, reason: "test".to_string() }
}

fn market_buy(qty: &str) -> OrderRequest {
    req(btc(), Side::Buy, OrderType::Market, Size::Qty(d(qty)), None, Tif::Ioc)
}

fn limit(id: InstrumentId, side: Side, qty: &str, price: &str, tif: Tif) -> OrderRequest {
    req(id, side, OrderType::Limit, Size::Qty(d(qty)), Some(d(price)), tif)
}

fn trade(clock: &ManualClock, id: InstrumentId, price: &str, qty: &str) -> Trade {
    Trade { instrument: id, price: d(price), qty: d(qty), at: clock.now() }
}

fn refusal<T>(r: Result<T, OrderError>) -> OrderError {
    match r {
        Ok(_) => panic!("the order was accepted"),
        Err(e) => e,
    }
}

#[test]
fn market_buy_walks_the_book_and_moves_the_price() {
    let mut r = setup();
    let (order, fills) = r.place("a", market_buy("0.7")).unwrap();
    assert_eq!(order.status, OrderStatus::Filled);
    assert_eq!(fills.len(), 1);
    assert_eq!(fills[0].qty, d("0.7"));
    assert_eq!(fills[0].notional, d("70000200")); // 0.5 @ 100,000,000 + 0.2 @ 100,001,000
    assert_eq!(fills[0].fee, d("35000")); // 5 bps, rounded to whole won
    assert_eq!(fills[0].liquidity, Liquidity::Taker);
    assert!(r.shadow_offset(&btc()) > 0.0);
    assert_eq!(r.cash("a"), d("929964800"));
    let pf = r.b.portfolio("a").unwrap();
    assert_eq!(pf.positions.get(&btc()).unwrap().qty, d("0.7"));
}

#[test]
fn back_to_back_buys_pay_more() {
    let mut r = setup();
    r.place("a", market_buy("0.7")).unwrap();
    let (_, fills) = r.place("a", market_buy("0.3")).unwrap();
    // The first level is depleted and the offset has lifted the rest of the book.
    assert!(d("100001000").lt(fills[0].price));
}

#[test]
fn impact_decays_with_time() {
    let mut r = setup();
    r.place("a", market_buy("0.7")).unwrap();
    let before = r.shadow_offset(&btc());
    r.clock.advance(600 * SECOND); // crypto tau_perm
    assert!((r.shadow_offset(&btc()) - before / 2.0).abs() < 1e-12);
}

#[test]
fn notional_buy_keeps_fees_inside_the_budget() {
    let mut r = setup();
    let q = req(btc(), Side::Buy, OrderType::Market, Size::Notional(d("10000000")), None, Tif::Ioc);
    let (order, fills) = r.place("a", q).unwrap();
    assert_eq!(order.status, OrderStatus::Filled);
    assert_eq!(fills[0].qty, d("0.09995002"));
    assert!(fills[0].notional.checked_add(fills[0].fee).unwrap().le(d("10000000")));
}

#[test]
fn malformed_sizes_are_rejected() {
    let mut r = setup();
    for qty in ["0", "-1", "0.000000001", "0.00001"] {
        assert!(matches!(r.place("a", market_buy(qty)), Err(OrderError::InvalidQty { .. })), "qty {qty}");
    }
    assert_eq!(r.b.portfolio("a").unwrap().positions.len(), 0);
}

#[test]
fn empty_side_is_no_liquidity() {
    let mut r = setup();
    let b = book(&r.clock, btc(), &[("99999000", "1")], &[]);
    r.on_book(b);
    assert_eq!(refusal(r.place("a", market_buy("0.1"))), OrderError::NoLiquidity);
}

#[test]
fn stale_book_is_rejected() {
    let mut r = setup();
    r.clock.advance(6 * SECOND);
    assert_eq!(refusal(r.place("a", market_buy("0.1"))), OrderError::StaleData { age_secs: Some(6) });
}

#[test]
fn insufficient_funds() {
    let mut r = setup();
    r.b.open_account("poor", &[(Currency::Krw, d("1000000"))]);
    assert!(matches!(r.place("poor", market_buy("0.5")), Err(OrderError::InsufficientFunds { .. })));
}

#[test]
fn krx_rejects_when_closed_and_names_next_open() {
    let mut r = setup();
    r.clock.set(utc(2026, 9, 26, 1, 0, 0)); // Saturday
    let q = req(samsung(), Side::Buy, OrderType::Market, Size::Qty(d("1")), None, Tif::Ioc);
    assert_eq!(
        refusal(r.place("a", q)),
        OrderError::MarketClosed { next_open: Some(utc(2026, 9, 28, 0, 0, 0)) }
    );
}

#[test]
fn krx_tick_and_price_limit() {
    let mut r = setup();
    let q = |p: &str| req(samsung(), Side::Buy, OrderType::Limit, Size::Qty(d("1")), Some(d(p)), Tif::Day);
    assert_eq!(refusal(r.place("a", q("70050"))), OrderError::InvalidTick { lower: d("70000"), upper: d("70100") });
    assert_eq!(refusal(r.place("a", q("95000"))), OrderError::PriceLimit { lower: d("49000"), upper: d("91000") });
}

#[test]
fn order_shape_is_checked() {
    let mut r = setup();
    let crypto_day = req(btc(), Side::Buy, OrderType::Limit, Size::Qty(d("0.1")), Some(d("99000000")), Tif::Day);
    assert!(matches!(r.place("a", crypto_day), Err(OrderError::InvalidRequest(_))));
    let limit_without_price = req(btc(), Side::Buy, OrderType::Limit, Size::Qty(d("0.1")), None, Tif::Gtc);
    assert!(matches!(r.place("a", limit_without_price), Err(OrderError::InvalidRequest(_))));
}

#[test]
fn every_shape_error_has_its_message() {
    let mut r = setup();
    let mut message = |q: OrderRequest| match refusal(r.place("a", q)) {
        OrderError::InvalidRequest(m) => m,
        e => panic!("{e:?}"),
    };
    assert_eq!(message(market_buy("1000000000000001")), "size or price is out of range");
    assert_eq!(message(req(btc(), Side::Buy, OrderType::Limit, Size::Qty(d("1")), None, Tif::Gtc)), "limit orders need limit_price");
    assert_eq!(
        message(req(btc(), Side::Buy, OrderType::Limit, Size::Notional(d("1")), Some(d("1")), Tif::Gtc)),
        "limit orders are sized by qty"
    );
    assert_eq!(
        message(req(btc(), Side::Buy, OrderType::Market, Size::Qty(d("1")), Some(d("1")), Tif::Ioc)),
        "market orders take no limit_price"
    );
    assert_eq!(
        message(req(btc(), Side::Sell, OrderType::Market, Size::Notional(d("1")), None, Tif::Ioc)),
        "sell orders are sized by qty"
    );
    assert_eq!(message(limit(samsung(), Side::Buy, "1", "70000", Tif::Gtc)), "gtc is only for crypto; use day");
    assert_eq!(message(limit(btc(), Side::Buy, "1", "70000", Tif::Day)), "day is only for stocks; use gtc");
}

/// All that an account holds: cash, what of it is promised, and positions.
fn holdings(pf: &Portfolio) -> String {
    let cash = |t: &Table<Currency, Decimal>| (0..t.len()).map(|i| (*t.key_at(i), *t.value_at(i))).collect::<Vec<_>>();
    let positions: Vec<_> = (0..pf.positions.len())
        .map(|i| {
            let p = pf.positions.value_at(i);
            (pf.positions.key_at(i).to_text(), p.qty, p.avg_cost, p.reserved)
        })
        .collect();
    format!("{:?}", (cash(&pf.cash), cash(&pf.reserved_cash), positions))
}

#[test]
fn estimate_changes_nothing() {
    let mut r = setup();
    let before = holdings(&r.b.portfolio("a").unwrap());
    let e = r.estimate("a", &market_buy("0.7")).unwrap();
    assert_eq!(e.filled_qty, d("0.7"));
    assert_eq!(e.notional, d("70000200"));
    assert!(d("0").lt(e.slippage_bps));
    assert!(Rig::impact(Side::Buy, e.notional, Venue::Upbit).abs() * 10000.0 > 0.0);
    assert_eq!(holdings(&r.b.portfolio("a").unwrap()), before);
    assert_eq!(r.shadow_offset(&btc()), 0.0);
}

#[test]
fn slippage_is_measured_from_the_mid() {
    let mut r = setup();
    let e = r.estimate("a", &market_buy("0.5")).unwrap();
    assert_eq!(e.avg_price, Some(d("100000000")));
    assert_eq!(e.slippage_bps, d("0.05")); // mid 99,999,500
    assert_eq!(e.rest_qty, d("0"));
}

#[test]
fn works_through_the_broker_trait() {
    let mut r = setup();
    let (order, _) = r.place("a", market_buy("0.1")).unwrap();
    assert_eq!(order.status, OrderStatus::Filled);
}

#[test]
fn resting_buy_reserves_cash_and_fills_on_trades() {
    let mut r = setup();
    let (order, fills) = r.place("a", limit(btc(), Side::Buy, "0.1", "99998000", Tif::Gtc)).unwrap();
    assert_eq!((order.status, fills.len()), (OrderStatus::Open, 0));
    let reserved = d("0.1").checked_mul(d("99998000")).unwrap().checked_mul(d("1.0005")).unwrap();
    assert_eq!(r.available("a"), d("1000000000").checked_sub(reserved).unwrap());

    let t = trade(&r.clock, btc(), "99998000", "0.05");
    let f = r.on_trade(t);
    assert_eq!((f[0].qty, f[0].liquidity), (d("0.05"), Liquidity::Maker));
    let t = trade(&r.clock, btc(), "99990000", "1"); // traded through
    let f = r.on_trade(t);
    assert_eq!(f[0].qty, d("0.05"));
    assert_eq!(r.b.order(order.id).unwrap().status, OrderStatus::Filled);
    assert_eq!(r.available("a"), r.cash("a")); // nothing left reserved
}

#[test]
fn queue_ahead_is_served_first() {
    let mut r = setup();
    let b = book(&r.clock, btc(), &[("99998000", "0.3")], &[("100000000", "0.5")]);
    r.on_book(b);
    let (order, _) = r.place("a", limit(btc(), Side::Buy, "0.1", "99998000", Tif::Gtc)).unwrap();
    let t = trade(&r.clock, btc(), "99998000", "0.2");
    assert!(r.on_trade(t).is_empty());
    let t = trade(&r.clock, btc(), "99998000", "0.2");
    let f = r.on_trade(t);
    assert_eq!(f[0].qty, d("0.1"));
    assert_eq!(r.b.order(order.id).unwrap().status, OrderStatus::Filled);
}

#[test]
fn a_print_is_shared_best_price_first() {
    let mut r = setup();
    let b = book(&r.clock, btc(), &[("99990000", "1")], &[("100000000", "0.5")]);
    r.on_book(b);
    let (low, _) = r.place("a", limit(btc(), Side::Buy, "0.1", "99997000", Tif::Gtc)).unwrap();
    let (high, _) = r.place("a", limit(btc(), Side::Buy, "0.1", "99998000", Tif::Gtc)).unwrap();
    let t = trade(&r.clock, btc(), "99991000", "0.15"); // through both
    let f = r.on_trade(t);
    let got: Vec<_> = f.iter().map(|x| (x.order_id, x.qty, x.price, x.liquidity)).collect();
    assert_eq!(
        got,
        vec![
            (high.id, d("0.1"), d("99998000"), Liquidity::Maker),
            (low.id, d("0.05"), d("99997000"), Liquidity::Maker)
        ]
    );
}

#[test]
fn a_fee_is_within_what_was_reserved_for_it() {
    let mut r = setup();
    let before = r.cash("a");
    r.place("a", limit(btc(), Side::Buy, "0.00012345", "99998000", Tif::Gtc)).unwrap();
    let reserved = before.checked_sub(r.available("a")).unwrap();
    let t = trade(&r.clock, btc(), "99990000", "1");
    let f = r.on_trade(t);
    let spent = before.checked_sub(r.cash("a")).unwrap();
    assert!(spent.same(f[0].notional.checked_add(f[0].fee).unwrap()));
    assert!(!reserved.lt(spent), "{spent:?} of {reserved:?}");
    assert!(f[0].fee.same(d("6"))); // 6.17 of commission, cut off
}

#[test]
fn book_crossing_a_resting_order_fills_it_as_taker() {
    let mut r = setup();
    let (order, _) = r.place("a", limit(btc(), Side::Buy, "0.1", "99998000", Tif::Gtc)).unwrap();
    let b = book(&r.clock, btc(), &[("99990000", "1")], &[("99997000", "0.5")]);
    let f = r.on_book(b);
    assert_eq!((f[0].qty, f[0].price, f[0].liquidity), (d("0.1"), d("99997000"), Liquidity::Taker));
    assert_eq!(r.b.order(order.id).unwrap().status, OrderStatus::Filled);
}

#[test]
fn cancel_releases_the_reservation() {
    let mut r = setup();
    let (order, _) = r.place("a", limit(btc(), Side::Buy, "0.1", "99998000", Tif::Gtc)).unwrap();
    let cancelled = r.b.cancel_sync("a", order.id).unwrap();
    assert_eq!(cancelled.status, OrderStatus::Cancelled);
    assert_eq!(r.available("a"), d("1000000000"));
    assert_eq!(refusal(r.b.cancel_sync("someone-else", order.id)), OrderError::NotFound);
    assert_eq!(r.b.cancel_sync("a", order.id).unwrap().status, OrderStatus::Cancelled);
    assert_eq!(refusal(r.b.cancel_sync("a", 99)), OrderError::NotFound);
}

#[test]
fn cannot_sell_shares_already_promised() {
    let mut r = setup();
    r.place("a", market_buy("0.5")).unwrap();
    r.place("a", limit(btc(), Side::Sell, "0.4", "200000000", Tif::Gtc)).unwrap();
    assert_eq!(
        refusal(r.place("a", limit(btc(), Side::Sell, "0.2", "200000000", Tif::Gtc))),
        OrderError::InsufficientPosition { available: d("0.1") }
    );
}

#[test]
fn day_orders_expire_after_the_close() {
    let mut r = setup();
    let (order, _) = r.place("a", limit(samsung(), Side::Buy, "10", "69900", Tif::Day)).unwrap();
    assert_eq!(order.status, OrderStatus::Open);
    let now = r.now();
    assert!(r.b.expire_day_orders(now).is_empty());
    r.clock.set(utc(2026, 9, 23, 6, 31, 0)); // 15:31 KST
    let now = r.now();
    let expired = r.b.expire_day_orders(now);
    assert_eq!(expired.len(), 1);
    assert_eq!(expired[0].status, OrderStatus::Expired);
    assert_eq!(r.available("a"), d("1000000000"));
}

#[test]
fn expiry_is_done_once_and_leaves_other_orders() {
    let mut r = setup();
    let (day, _) = r.place("a", limit(samsung(), Side::Buy, "10", "69900", Tif::Day)).unwrap();
    let (gtc, _) = r.place("a", limit(btc(), Side::Buy, "0.1", "99998000", Tif::Gtc)).unwrap();
    r.clock.set(utc(2026, 9, 23, 6, 31, 0));
    let now = r.now();
    assert_eq!(r.b.expire_day_orders(now).len(), 1);
    assert!(r.b.expire_day_orders(now).is_empty());
    assert_eq!(r.b.order(day.id).unwrap().status, OrderStatus::Expired);
    assert_eq!(r.b.order(gtc.id).unwrap().status, OrderStatus::Open);
    let reserved = d("0.1").checked_mul(d("99998000")).unwrap().checked_mul(d("1.0005")).unwrap();
    assert_eq!(r.available("a"), d("1000000000").checked_sub(reserved).unwrap());
}

#[test]
fn cancelling_undoes_placing() {
    let mut r = setup();
    r.place("a", market_buy("0.5")).unwrap();
    let before = r.b.portfolio("a").unwrap();
    for q in [
        limit(btc(), Side::Sell, "0.4", "200000000", Tif::Gtc),
        limit(btc(), Side::Buy, "0.1", "99998000", Tif::Gtc),
    ] {
        let (order, fills) = r.place("a", q).unwrap();
        assert!(fills.is_empty());
        r.b.cancel_sync("a", order.id).unwrap();
        let after = r.b.portfolio("a").unwrap();
        assert_eq!(after.cash(Currency::Krw), before.cash(Currency::Krw));
        let free = |pf: &Portfolio| pf.available_cash(Currency::Krw).unwrap();
        assert!(free(&after).same(free(&before)));
        assert!(after.available_qty(&btc()).unwrap().same(d("0.5")));
    }
}

#[test]
fn estimates_fail_as_orders_do() {
    let mut r = setup();
    for q in [
        market_buy("100"),
        market_buy("0.000000001"),
        req(btc(), Side::Sell, OrderType::Market, Size::Qty(d("1")), None, Tif::Ioc),
        req(btc(), Side::Buy, OrderType::Market, Size::Qty(d("1")), Some(d("1")), Tif::Ioc),
        limit(btc(), Side::Buy, "0.1", "99998001", Tif::Gtc),
        limit(btc(), Side::Buy, "100", "99998000", Tif::Gtc),
    ] {
        match r.estimate("a", &q) {
            Ok(e) => {
                let (order, _) = r.place("a", q).unwrap();
                assert_eq!(order.filled_qty, e.filled_qty);
            }
            Err(e) => assert_eq!(refusal(r.place("a", q)), e),
        }
    }
    assert_eq!(refusal(r.estimate("nobody", &market_buy("0.1"))), OrderError::UnknownAccount);
}

#[test]
fn nothing_is_overdrawn() {
    let mut r = setup();
    r.b.open_account("poor", &[(Currency::Krw, d("60000000"))]);
    r.place("poor", req(btc(), Side::Buy, OrderType::Market, Size::Notional(d("50000000")), None, Tif::Ioc)).unwrap();
    let left = r.available("poor");
    assert!(!left.lt(d("10000000")) && left.lt(d("10004000")), "{left:?}"); // the fee is within the notional
    let q = limit(btc(), Side::Buy, "0.1", "99998000", Tif::Gtc);
    match refusal(r.place("poor", q)) {
        OrderError::InsufficientFunds { required, available } => {
            assert!(required.same(d("10004799.9")) && available.same(left));
        }
        e => panic!("{e:?}"),
    }
    assert_eq!(r.available("poor"), left);
}

#[test]
fn cancel_works_through_the_broker_trait() {
    let mut r = setup();
    let (order, _) = r.place("a", limit(btc(), Side::Buy, "0.1", "99998000", Tif::Gtc)).unwrap();
    assert_eq!(r.b.cancel_sync("a", order.id).unwrap().status, OrderStatus::Cancelled);
}

#[test]
fn unknown_accounts_instruments_and_untradable_ones_are_refused() {
    let mut r = setup();
    assert_eq!(refusal(r.place("nobody", market_buy("0.1"))), OrderError::UnknownAccount);
    let eth = InstrumentId::parse("UPBIT:KRW-ETH").unwrap();
    let q = req(eth.clone(), Side::Buy, OrderType::Market, Size::Qty(d("1")), None, Tif::Ioc);
    assert_eq!(refusal(r.place("a", q.clone())), OrderError::UnknownInstrument);
    r.b.add_instrument(Instrument {
        id: eth,
        name: "Ether".to_string(),
        tick: TickRule::Upbit,
        lot: whole_shares(),
        tradable: false,
    });
    assert_eq!(refusal(r.place("a", q)), OrderError::NotTradable);
    let zero_tick = Instrument {
        id: btc(),
        name: "x".to_string(),
        tick: TickRule::Fixed(d("0")),
        lot: whole_shares(),
        tradable: true,
    };
    assert!(!r.b.add_instrument(zero_tick));
}

#[test]
fn an_instrument_without_a_book_has_stale_data() {
    let mut r = setup();
    let eth = InstrumentId::parse("UPBIT:KRW-ETH").unwrap();
    r.b.add_instrument(Instrument {
        id: eth.clone(),
        name: "Ether".to_string(),
        tick: TickRule::Upbit,
        lot: whole_shares(),
        tradable: true,
    });
    assert_eq!(r.b.book_age(&eth, r.now()), None);
    let q = req(eth, Side::Buy, OrderType::Market, Size::Qty(d("1")), None, Tif::Ioc);
    assert_eq!(refusal(r.place("a", q)), OrderError::StaleData { age_secs: None });
}

#[test]
fn the_highest_bid_is_served_first() {
    let mut r = setup();
    let (low, _) = r.place("a", limit(btc(), Side::Buy, "0.1", "99997000", Tif::Gtc)).unwrap();
    let (high, _) = r.place("a", limit(btc(), Side::Buy, "0.1", "99998000", Tif::Gtc)).unwrap();
    let t = trade(&r.clock, btc(), "99990000", "0.15");
    let f = r.on_trade(t);
    assert_eq!(f.len(), 2);
    assert_eq!((f[0].order_id, f[0].qty, f[0].price), (high.id, d("0.1"), d("99998000")));
    assert_eq!((f[1].order_id, f[1].qty, f[1].price), (low.id, d("0.05"), d("99997000")));
}

#[test]
fn conversions_move_cash_and_refuse_nonsense() {
    let mut r = setup();
    let c: Conversion = r.b.convert_sync("a", Currency::Krw, Currency::Usd, d("1400000"), d("1400"), d("0.001")).unwrap();
    assert_eq!((c.debit, c.credit, c.rate), (d("1400000"), d("999"), d("0.00071357")));
    let pf = r.b.portfolio("a").unwrap();
    assert_eq!((pf.cash(Currency::Krw), pf.cash(Currency::Usd)), (d("998600000"), d("999")));
    let e = refusal(r.b.convert_sync("a", Currency::Krw, Currency::Krw, d("1"), d("1400"), d("0")));
    assert_eq!(
        e,
        OrderError::InvalidRequest(
            "convert needs two different currencies, a positive amount in whole KRW units of 0 and a positive rate".to_string()
        )
    );
    assert!(matches!(
        r.b.convert_sync("a", Currency::Krw, Currency::Usd, d("1.5"), d("1400"), d("0")),
        Err(OrderError::InvalidRequest(_))
    ));
    assert!(r.b.convert_sync("a", Currency::Krw, Currency::Usd, d("100.0"), d("1400"), d("0")).is_ok());
    assert_eq!(
        refusal(r.b.convert_sync("a", Currency::Krw, Currency::Usd, d("1"), d("1400"), d("0"))),
        OrderError::InvalidRequest("1 KRW is too small to convert".to_string())
    );
    assert_eq!(
        refusal(r.b.convert_sync("nobody", Currency::Krw, Currency::Usd, d("1"), d("1400"), d("0"))),
        OrderError::UnknownAccount
    );
    assert!(matches!(
        r.b.convert_sync("a", Currency::Usd, Currency::Krw, d("5000"), d("1400"), d("0")),
        Err(OrderError::InsufficientFunds { .. })
    ));
}

#[test]
fn active_instruments_are_listed_once_in_order() {
    let mut r = setup();
    assert!(r.b.active_instruments().is_empty());
    r.place("a", limit(btc(), Side::Buy, "0.1", "99998000", Tif::Gtc)).unwrap();
    r.place("a", market_buy("0.1")).unwrap();
    r.place("a", req(samsung(), Side::Buy, OrderType::Market, Size::Qty(d("1")), None, Tif::Ioc)).unwrap();
    let ids: Vec<String> = r.b.active_instruments().iter().map(|i| i.to_text()).collect();
    assert_eq!(ids, vec!["KRX:005930".to_string(), "UPBIT:KRW-BTC".to_string()]);
}

#[test]
fn order_numbers_go_on_from_where_they_are_set() {
    let mut r = setup();
    r.b.set_next_order_id(42);
    let (a, _) = r.place("a", market_buy("0.1")).unwrap();
    let (b, _) = r.place("a", market_buy("0.1")).unwrap();
    assert_eq!((a.id, b.id), (42, 43));
    assert!(a.avg_price().is_some());
}

#[test]
fn restart_restores_cash_positions_and_open_orders() {
    let mut r = setup();
    r.place("a", market_buy("0.1")).unwrap();
    let (bid, _) = r.place("a", limit(btc(), Side::Buy, "0.5", "99990000", Tif::Gtc)).unwrap();
    let before = r.b.portfolio("a").unwrap();
    // What a store holds of the account: its cash and positions, without what is reserved.
    let held = before.positions.get(&btc()).unwrap();
    let mut stored = Portfolio::new(&[(Currency::Krw, before.cash(Currency::Krw))]);
    stored.positions.insert(btc(), Position { qty: held.qty, avg_cost: held.avg_cost, reserved: d("0") });

    let mut fresh = SimBroker::new(Calendar::default());
    fresh.restore_account("a", stored);
    let order = r.b.order(bid.id).unwrap();
    fresh.restore_order(order).unwrap();
    let after = fresh.portfolio("a").unwrap();
    assert!(after.cash(Currency::Krw).same(before.cash(Currency::Krw)));
    assert!(after.available_cash(Currency::Krw).unwrap().same(before.available_cash(Currency::Krw).unwrap()));
    assert!(after.positions.get(&btc()).unwrap().qty.same(held.qty));
    assert_eq!(fresh.order(bid.id).unwrap().status, OrderStatus::Open);
    // It can be cancelled like any other, which releases the cash.
    fresh.cancel_sync("a", bid.id).unwrap();
    let free = fresh.portfolio("a").unwrap().available_cash(Currency::Krw).unwrap();
    assert!(free.same(before.cash(Currency::Krw)));
}

#[test]
fn orders_that_do_not_rest_are_not_restored() {
    let mut r = setup();
    let (done, _) = r.place("a", market_buy("0.1")).unwrap();
    assert!(matches!(r.b.restore_order(done), Err(OrderError::InvalidRequest(_))));
    let (bid, _) = r.place("a", limit(btc(), Side::Buy, "0.5", "99990000", Tif::Gtc)).unwrap();
    let mut fresh = SimBroker::new(Calendar::default());
    assert!(matches!(fresh.restore_order(bid), Err(OrderError::UnknownAccount)));
}

#[test]
fn instruments_are_found_by_symbol_or_name() {
    let r = setup();
    let ids = |query: &str, venue: Option<Venue>, n: usize| -> Vec<String> {
        r.b.search(query, venue, n).iter().map(|i| i.id.to_text()).collect()
    };
    assert_eq!(ids("bitcoin", None, 20), vec!["UPBIT:KRW-BTC"]);
    assert_eq!(ids("btc", None, 20), vec!["UPBIT:KRW-BTC"]);
    assert_eq!(ids("005", Some(Venue::Krx), 20), vec!["KRX:005930"]);
    assert!(ids("bitcoin", Some(Venue::Krx), 20).is_empty());
    assert_eq!(ids("", None, 1).len(), 1);
    assert_eq!(r.b.instrument(&samsung()).unwrap().name, "Samsung Electronics");
    assert!(r.b.instrument(&InstrumentId::parse("US:AAPL").unwrap()).is_none());
}

#[test]
fn venues_say_whether_they_are_open() {
    let r = setup();
    assert_eq!(r.b.market_open(Venue::Krx, r.now()).0, true);
    assert_eq!(r.b.market_open(Venue::Upbit, r.now()), (true, None));
    let (open, next) = r.b.market_open(Venue::Us, r.now());
    assert!(!open);
    assert_eq!(next.unwrap(), utc(2026, 9, 23, 13, 30, 0));
}

#[test]
fn both_books_are_shown_side_by_side() {
    let mut r = setup();
    let drift = r.drift(&btc());
    let last = Some((d("99999500"), r.now()));
    let v = r.b.book_view(&btc(), 1, last, r.now(), drift).unwrap();
    assert_eq!((v.shadow_asks.len(), v.real_asks.len(), v.real_bids.len()), (1, 1, 1));
    assert!(v.shadow_asks[0].price.same(d("100000000")) && v.shadow_bids[0].price.same(d("99999000")));
    assert!(v.last_trade.unwrap().0.same(d("99999500")));
    assert!(r.b.mid_price(&btc(), r.now(), drift).unwrap().same(d("99999500")));
    // Taking the best ask leaves it in the real book and takes it out of the shadow book.
    r.place("a", market_buy("0.5")).unwrap();
    let drift = Drift { recovery: d("1"), multiplier: d("1") };
    let v = r.b.book_view(&btc(), 5, None, r.now(), drift).unwrap();
    assert_eq!((v.shadow_asks.len(), v.real_asks.len()), (1, 2));
    assert!(r.b.book_view(&InstrumentId::parse("US:AAPL").unwrap(), 1, None, r.now(), drift).is_none());
}

#[test]
fn an_account_is_worth_its_cash_and_positions() {
    let mut r = setup();
    r.b.open_account("b", &[(Currency::Krw, d("1000000")), (Currency::Usd, d("10"))]);
    r.place("b", limit(samsung(), Side::Buy, "10", "70100", Tif::Ioc)).unwrap();
    let pf = r.b.portfolio("b").unwrap();
    let mut marks: Table<InstrumentId, Decimal> = Table::new();
    marks.insert(samsung(), d("71000"));
    let v = value_account(&r.b, &pf, &marks, d("1400")).unwrap();
    assert_eq!(v.lines.len(), 1);
    assert_eq!(v.lines[0].name, "Samsung Electronics");
    assert!(v.positions_krw.same(d("710000")));
    let cash = pf.cash(Currency::Krw).checked_add(d("14000")).unwrap();
    assert!(v.equity_krw.same(cash.checked_add(d("710000")).unwrap()));
    // Without a price the position counts at its cost.
    let none: Table<InstrumentId, Decimal> = Table::new();
    let v = value_account(&r.b, &pf, &none, d("1400")).unwrap();
    assert!(v.lines[0].price.is_none() && v.positions_krw.same(d("701000")));
}
