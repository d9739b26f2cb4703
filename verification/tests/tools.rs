//! What the agent is told, and how what it asks for is read.
use atrader::accounts::AccountRow;
use atrader::alerts::Condition;
use atrader::broker::OrderError::{
    InsufficientFunds, InsufficientPosition, InvalidQty, InvalidRequest, InvalidTick, MarketClosed, NoLiquidity,
    NotFound, NotTradable, PriceLimit, StaleData, UnknownAccount, UnknownInstrument,
};
use atrader::broker::{Conversion, Fill, Liquidity, Order, OrderError, OrderRequest, OrderStatus, OrderType, Tif};
use atrader::candles::{Candle, Interval};
use atrader::decimal::Decimal;
use atrader::domain::{Currency, InstrumentId, Level, Side, Venue};
use atrader::fundamentals::{Fundamentals, PeriodFinancials};
use atrader::json::Json;
use atrader::ledger::Portfolio;
use atrader::sim::Size;
use atrader::store::rows::{fill_row, order_row, read_fill, read_order};
use atrader::store::{cash_legs, conversion_legs, read_totals, replay, size_columns, FillRow, LegKind};
use atrader::time::Timestamp;
use atrader::tools::report::{figures, financials, from_bars, list_cash, positions, recorded_candles, summary, ValueLine};
use atrader::tools::schema::simplify;
use atrader::tools::{
    alert_condition, bad, clamp_limit, feed_error, filer, filing_page, known, limit_or, mid, new_alert, order_error,
    parse_currency, parse_id, parse_ids, parse_indicators, parse_since, parse_venue, period_days, quote_of, stale,
    to_request, upstream, AccountInfo, AlertInput, AlertView, BookSides, ConversionView, Datum, Filer, FillView,
    InstrumentInfo, KindDto, OrderInput, OrderView, SideDto, TifDto, ToolCode, ToolError,
};
use atrader::venue::{Instrument, LotRule, TickRule};

fn d(s: &str) -> Decimal {
    Decimal::parse(s).unwrap()
}

fn at(secs: i64) -> Timestamp {
    Timestamp::from_secs(secs).unwrap()
}

fn code(e: &ToolError) -> String {
    match e.code {
        ToolCode::Coded(c) => c.to_string(),
        ToolCode::InvalidParams => "InvalidParams".to_string(),
    }
}

fn id(s: &str) -> InstrumentId {
    InstrumentId::parse(s).unwrap()
}

fn buy(account: &str, qty: Option<Decimal>, reason: &str) -> OrderInput {
    OrderInput {
        account: account.into(),
        instrument: "UPBIT:KRW-BTC".into(),
        side: SideDto::Buy,
        kind: KindDto::Market,
        qty,
        notional: None,
        limit_price: None,
        tif: None,
        reason: reason.into(),
    }
}

#[test]
fn every_order_error_maps_to_a_code() {
    let cases = [
        (MarketClosed { next_open: None }, "MARKET_CLOSED"),
        (StaleData { age_secs: Some(9) }, "STALE_DATA"),
        (NoLiquidity, "NO_LIQUIDITY"),
        (InvalidTick { lower: d("1"), upper: d("2") }, "INVALID_TICK"),
        (InvalidQty { step: d("1"), min_qty: d("1"), min_notional: d("0") }, "INVALID_QTY"),
        (PriceLimit { lower: d("1"), upper: d("2") }, "PRICE_LIMIT"),
        (InsufficientFunds { required: d("2"), available: d("1") }, "INSUFFICIENT_FUNDS"),
        (InsufficientPosition { available: d("1") }, "INSUFFICIENT_POSITION"),
        (UnknownInstrument, "UNKNOWN_INSTRUMENT"),
        (UnknownAccount, "UNKNOWN_ACCOUNT"),
        (NotTradable, "NOT_TRADABLE"),
        (NotFound, "NOT_FOUND"),
        (InvalidRequest("x".into()), "INVALID_REQUEST"),
    ];
    for (e, want) in cases {
        let z = order_error(e);
        assert_eq!(code(&z), want);
        assert!(!z.retriable);
    }
}

#[test]
fn order_errors_carry_what_is_needed_to_mend_them() {
    let e = order_error(InsufficientFunds { required: d("2"), available: d("1") });
    assert!(e.data.contains(&("available", Datum::Number(d("1")))));
    assert!(e.data.contains(&("required", Datum::Number(d("2")))));
    let closed = order_error(MarketClosed { next_open: Some(at(60)) });
    assert!(closed.data.contains(&("next_open", Datum::Time(Some(at(60))))));
    assert!(closed.message.contains("1970-01-01T00:01:00Z"), "{}", closed.message);
    let old = order_error(StaleData { age_secs: Some(9) });
    assert!(old.data.contains(&("age_secs", Datum::Whole(Some(9)))));
    assert_eq!(code(&bad("x".into())), "InvalidParams");
    assert!(upstream("x".into()).retriable);
    assert!(feed_error("timeout".into()).retriable);
    let none = feed_error("unsupported: no screen".into());
    assert_eq!((code(&none).as_str(), none.retriable), ("INVALID_REQUEST", false));
    assert!(none.message.contains("no screen") && !none.message.contains("unsupported"), "{}", none.message);
}

#[test]
fn orders_are_read_as_they_were_meant() {
    let r = to_request(&buy("bot", Some(d("0.1")), " entry ")).unwrap();
    assert_eq!((r.side, r.kind, r.tif), (Side::Buy, OrderType::Market, Tif::Ioc));
    assert!(matches!(r.size, Size::Qty(q) if q == d("0.1")));
    assert_eq!(code(&to_request(&buy("bot", None, "why")).unwrap_err()), "InvalidParams");
    let mut both = buy("bot", Some(d("1")), "why");
    both.notional = Some(d("1"));
    assert_eq!(code(&to_request(&both).unwrap_err()), "InvalidParams");
    assert_eq!(code(&to_request(&buy("bot", Some(d("0.1")), "  ")).unwrap_err()), "InvalidParams");
    let mut limit = buy("bot", Some(d("0.1")), "bid");
    limit.kind = KindDto::Limit;
    limit.limit_price = Some(d("99000000"));
    assert_eq!(to_request(&limit).unwrap().tif, Tif::Gtc);
    limit.instrument = "KRX:005930".into();
    assert_eq!(to_request(&limit).unwrap().tif, Tif::Day);
    let mut odd = buy("bot", Some(d("1")), "why");
    odd.instrument = "BTC".into();
    assert_eq!(code(&to_request(&odd).unwrap_err()), "UNKNOWN_INSTRUMENT");
}

#[test]
fn choices_carry_over_both_ways() {
    for s in [SideDto::Buy, SideDto::Sell] {
        assert_eq!(SideDto::from(Side::from(s)), s);
    }
    for k in [KindDto::Market, KindDto::Limit] {
        assert_eq!(KindDto::from(OrderType::from(k)), k);
    }
    for t in [TifDto::Gtc, TifDto::Day, TifDto::Ioc] {
        assert_eq!(TifDto::from(Tif::from(t)), t);
    }
}

#[test]
fn malformed_arguments_are_refused() {
    assert_eq!(code(&parse_id("BTC").unwrap_err()), "UNKNOWN_INSTRUMENT");
    assert_eq!(code(&known("UPBIT:KRW-NOPE", false).unwrap_err()), "UNKNOWN_INSTRUMENT");
    assert_eq!(known("UPBIT:KRW-BTC", true).unwrap().to_text(), "UPBIT:KRW-BTC");
    let many: Vec<String> = (0..21).map(|_| "UPBIT:KRW-BTC".to_string()).collect();
    assert!(parse_ids(&many).is_err());
    assert_eq!(parse_ids(&many[..20]).unwrap().len(), 20);
    assert_eq!(code(&parse_venue("NYSE").unwrap_err()), "InvalidParams");
    assert_eq!(parse_venue("UPBIT").unwrap(), Venue::Upbit);
    assert_eq!(parse_currency("krw").unwrap(), Currency::Krw);
    assert_eq!(code(&parse_currency("EUR").unwrap_err()), "InvalidParams");
    assert_eq!(code(&parse_indicators(&["magic".to_string()], &[]).unwrap_err()), "InvalidParams");
    assert_eq!(parse_indicators(&["sma:5".to_string(), "macd".to_string()], &[None, None]).unwrap().len(), 2);
    assert_eq!(code(&period_days("1y").unwrap_err()), "InvalidParams");
    assert_eq!(period_days("all").unwrap(), None);
    assert_eq!(code(&parse_since(Some("yesterday"), at(0)).unwrap_err()), "InvalidParams");
    assert_eq!(parse_since(Some("1970-01-02"), at(0)).unwrap(), 1);
    assert_eq!(parse_since(None, at(100 * 86_400)).unwrap(), 10);
    assert_eq!((limit_or(None, 5, 1, 9), limit_or(Some(0), 5, 1, 9), limit_or(Some(99), 5, 1, 9)), (5, 1, 9));
    assert_eq!((clamp_limit(Some(0)), clamp_limit(Some(7))), (1, 7));
}

#[test]
fn quotes_show_both_books_and_their_age() {
    let lv = |p: &str| Level { price: d(p), qty: d("1") };
    let b = BookSides {
        shadow_bids: vec![lv("99")],
        shadow_asks: vec![lv("101")],
        real_bids: vec![lv("98")],
        real_asks: vec![],
        last_trade: Some((d("100"), at(9))),
        received_at: at(10),
    };
    let q = quote_of(&id("UPBIT:KRW-BTC"), Some(&b), None, at(12));
    assert_eq!((q.bid, q.ask, q.real_bid, q.real_ask), (Some(d("99")), Some(d("101")), Some(d("98")), None));
    assert!(q.mid.unwrap().same(d("100")));
    assert_eq!((q.currency, q.last_trade_price), ("KRW", Some(d("100"))));
    assert!(!stale(at(15), at(10)) && stale(at(16), at(10)) && !stale(at(9), at(10)));
    let none = quote_of(&id("UPBIT:KRW-BTC"), None, Some("unknown".into()), at(12));
    assert_eq!(none.bid, None);
    assert_eq!(mid(&[], &[lv("1")]), None);
}

fn alert_input(kind: &str) -> AlertInput {
    AlertInput {
        kind: kind.into(),
        instrument: Some("UPBIT:KRW-BTC".into()),
        venue: None,
        threshold: Some(d("100000000")),
        window_minutes: None,
        note: "watch".into(),
        once: None,
    }
}

fn account(agent: Option<&str>) -> AccountRow {
    AccountRow { id: "bot".into(), name: "Bot".into(), agent_id: agent.map(String::from), generation: 3 }
}

#[test]
fn alert_requests_are_validated() {
    let a = new_alert(&account(None), &alert_input("price_above"), true, 0, at(5)).unwrap();
    assert!(a.once && a.generation == 3 && a.note == "watch");
    let v = AlertView::from_alert(&a, true);
    assert_eq!((v.kind, v.instrument.as_deref(), v.active), ("price_above", Some("UPBIT:KRW-BTC"), true));
    let mut m = alert_input("move");
    assert_eq!(code(&alert_condition(&m, true).unwrap_err()), "InvalidParams");
    m.window_minutes = Some(0);
    assert_eq!(code(&alert_condition(&m, true).unwrap_err()), "InvalidParams");
    m.window_minutes = Some(30);
    m.threshold = Some(d("3"));
    assert!(matches!(alert_condition(&m, true).unwrap(), Condition::Move { window_minutes: 30, .. }));
    let mut no_threshold = alert_input("price_below");
    no_threshold.threshold = None;
    assert_eq!(code(&alert_condition(&no_threshold, true).unwrap_err()), "InvalidParams");
    assert_eq!(code(&alert_condition(&alert_input("price_above"), false).unwrap_err()), "UNKNOWN_INSTRUMENT");
    let mut session = alert_input("session_open");
    session.instrument = None;
    session.venue = Some("NASDAQ".into());
    assert_eq!(code(&alert_condition(&session, true).unwrap_err()), "InvalidParams");
    session.venue = Some("KRX".into());
    assert!(matches!(alert_condition(&session, true).unwrap(), Condition::SessionOpen { venue: Venue::Krx }));
    assert_eq!(code(&alert_condition(&alert_input("teleport"), true).unwrap_err()), "InvalidParams");
    let mut silent = alert_input("price_above");
    silent.note = " ".into();
    assert_eq!(code(&new_alert(&account(None), &silent, true, 0, at(5)).unwrap_err()), "InvalidParams");
    assert_eq!(code(&new_alert(&account(None), &alert_input("price_above"), true, 50, at(5)).unwrap_err()), "INVALID_REQUEST");
}

#[test]
fn figures_need_a_source() {
    let e = filer(Venue::Upbit, true, true, false).unwrap_err();
    assert_eq!(code(&e), "INVALID_REQUEST");
    assert!(e.message.contains("stocks"), "{}", e.message);
    assert_eq!(filer(Venue::Krx, true, false, false).unwrap(), Filer::Dart);
    assert_eq!(filer(Venue::Us, false, true, true).unwrap(), Filer::Edgar);
    assert!(filer(Venue::Krx, false, true, true).unwrap_err().message.contains("DART_API_KEY"));
    assert!(filer(Venue::Us, true, false, false).unwrap_err().message.contains("EDGAR_USER_AGENT"));
    let page = filing_page("f".into(), "text", None).unwrap();
    assert_eq!((page.page, page.pages, page.text.as_str()), (1, 1, "text"));
    assert_eq!(code(&filing_page("f".into(), "text", Some(2)).unwrap_err()), "InvalidParams");
}

fn line(symbol: &str, qty: &str, cost: &str, value: &str) -> ValueLine {
    ValueLine {
        id: id(symbol),
        name: String::new(),
        qty: d(qty),
        avg_cost: d(cost),
        price: Some(d("1")),
        value: d(value),
        value_krw: d(value),
    }
}

#[test]
fn holdings_are_told_the_most_valuable_first() {
    let lines = [line("KRX:005930", "2", "100", "150"), line("UPBIT:KRW-BTC", "1", "100", "300")];
    let p = positions(&lines, d("1000")).unwrap();
    assert_eq!(p[0].instrument, "UPBIT:KRW-BTC");
    assert!(p[0].figures.weight_pct.same(d("30")) && p[0].figures.unrealized_pct.same(d("200")));
    let f = figures(&lines[0], d("1000")).unwrap();
    assert!(f.unrealized_pnl.same(d("-50")) && f.unrealized_pct.same(d("-25")) && f.weight_pct.same(d("15")));
}

#[test]
fn an_account_is_told_at_a_glance() {
    let mut pf = Portfolio::new(&[(Currency::Krw, d("100")), (Currency::Usd, d("5"))]);
    assert!(pf.reserve_cash(Currency::Krw, d("40")));
    let s = summary(&account(None), &pf, d("10.6"), d("110.4"), d("1400"), at(1)).unwrap();
    assert!(s.positions_value_krw.same(d("11")) && s.equity_krw.same(d("110")));
    let krw = s.cash.iter().find(|c| c.currency == Currency::Krw).unwrap();
    assert!(krw.balance.same(d("100")) && krw.available.same(d("60")));
    assert_eq!(list_cash(&pf).unwrap().len(), 2);
    let a = AccountInfo::of(&account(Some("x")));
    assert_eq!((a.id.as_str(), a.name.as_str(), a.generation), ("bot", "Bot", 3));
}

#[test]
fn companies_are_told_with_their_ratios() {
    let period = PeriodFinancials {
        label: "FY2025".into(),
        end: 0,
        revenue: None,
        operating_income: None,
        net_income: None,
        eps: Some(d("7.5")),
        equity: Some(d("1000")),
    };
    let f = Fundamentals {
        currency: Currency::Usd,
        annual: vec![period],
        latest_quarter: None,
        shares_outstanding: Some(d("100")),
        eps_computed: false,
    };
    let v = financials(&id("US:AAPL"), Filer::Edgar, f, Some(d("150")));
    assert_eq!((v.source, v.currency, v.eps_basis), ("SEC EDGAR", "USD", "reported"));
    assert!(v.per.unwrap().same(d("20")) && v.pbr.unwrap().same(d("15")));
}

#[test]
fn recorded_bars_make_candles() {
    let bar = |secs: i64, c: &str| Candle {
        start: at(secs),
        open: d(c),
        high: d(c),
        low: d(c),
        close: d(c),
        volume: d("1"),
        value: d(c),
    };
    let bars = [bar(0, "1"), bar(60, "2"), bar(300, "3")];
    let all = recorded_candles(&bars, Interval::M5, 10).unwrap();
    assert_eq!(all.len(), 2);
    assert!(all[0].close.same(d("2")) && all[0].volume.same(d("2")));
    assert_eq!(recorded_candles(&bars, Interval::M5, 1).unwrap()[0].start, at(300));
    assert!(from_bars(Venue::Krx, Interval::M5) && !from_bars(Venue::Upbit, Interval::M5));
    assert!(!from_bars(Venue::Krx, Interval::D1));
}

fn fill(side: Side, qty: &str, notional: &str, fee: &str, tax: &str) -> Fill {
    Fill {
        order_id: 1,
        account: "a".into(),
        instrument: id("KRX:005930"),
        side,
        qty: d(qty),
        notional: d(notional),
        price: d(notional).checked_div(d(qty)).unwrap(),
        fee: d(fee),
        tax: d(tax),
        realized_pnl: None,
        liquidity: Liquidity::Taker,
        at: at(0),
    }
}

#[test]
fn orders_fills_and_instruments_are_told() {
    let o = Order {
        id: 7,
        account: "a".into(),
        req: OrderRequest {
            instrument: id("KRX:005930"),
            side: Side::Sell,
            kind: OrderType::Limit,
            size: Size::Notional(d("5")),
            limit_price: Some(d("70000")),
            tif: Tif::Day,
            reason: "r".into(),
        },
        status: OrderStatus::Open,
        filled_qty: d("2"),
        filled_notional: d("140001"),
        created_at: at(3),
    };
    let v = OrderView::of(&o);
    assert_eq!((v.id, v.status, v.tif, v.qty, v.notional), (7, "open", TifDto::Day, None, Some(d("5"))));
    assert!(v.avg_price.unwrap().same(d("70000.5")));
    let f = FillView::of(&fill(Side::Buy, "10", "700000", "105", "0"));
    assert_eq!((f.instrument.as_str(), f.liquidity, f.side), ("KRX:005930", "taker", SideDto::Buy));
    let i = InstrumentInfo::of(&Instrument {
        id: id("BINANCE:BTCUSDT"),
        name: "BTC/USDT".into(),
        tick: TickRule::Fixed(d("0.01")),
        lot: LotRule { step: d("0.00001000"), min_qty: d("0.00001000"), min_notional: d("5.00000000") },
        tradable: true,
    });
    assert_eq!((i.currency, i.qty_step.to_text(), i.min_order_value.to_text()), ("USDT", "0.00001".into(), "5".into()));
    let c = ConversionView::of(&Conversion {
        from: Currency::Krw,
        to: Currency::Usd,
        debit: d("1400000"),
        credit: d("999"),
        rate: d("0.0007"),
    });
    assert_eq!((c.from, c.to, c.credit), ("KRW", "USD", d("999")));
}

#[test]
fn the_ledger_and_a_replay_of_the_fills_agree() {
    let fills = [fill(Side::Buy, "10", "700000", "105", "0"), fill(Side::Sell, "4", "300000", "45", "600")];
    let mut cash = d("1000000");
    for f in &fills {
        for leg in cash_legs(f) {
            cash = cash.checked_add(leg.amount).unwrap();
        }
    }
    assert!(cash.same(d("599250")));
    assert!(cash_legs(&fills[0]).iter().all(|l| l.kind != LegKind::Tax), "a leg of nothing is left out");
    let row = |f: &Fill| FillRow {
        instrument: f.instrument.to_text(),
        side: f.side.code().into(),
        qty: f.qty,
        notional: f.notional,
        fee: f.fee,
        tax: f.tax,
    };
    let pf = replay(&[(Currency::Krw, d("1000000"))], &[row(&fills[0]), row(&fills[1])]).unwrap();
    assert!(pf.cash(Currency::Krw).same(cash));
    let held = pf.positions.get(&id("KRX:005930")).unwrap();
    assert!(held.qty.same(d("6")) && held.avg_cost.same(d("70000")));
}

#[test]
fn stored_rows_that_make_no_sense_are_refused() {
    let row = |instrument: &str, side: &str| FillRow {
        instrument: instrument.into(),
        side: side.into(),
        qty: d("1"),
        notional: d("1"),
        fee: d("0"),
        tax: d("0"),
    };
    assert!(replay(&[], &[row("nothing", "buy")]).is_err());
    assert!(replay(&[], &[row("KRX:005930", "hold")]).is_err());
    assert!(matches!(replay(&[], &[row("KRX:005930", "sell")]), Err(e) if e == "sell of a position that is not held"));
    assert_eq!(read_totals(&vec![("KRW".to_string(), d("5"))]), Ok(vec![(Currency::Krw, d("5"))]));
    assert_eq!(read_totals(&vec![("EUR".to_string(), d("5"))]), Err("unknown currency EUR".to_string()));
    assert_eq!(size_columns(Size::Qty(d("1"))), (Some(d("1")), None));
}

/// The library's value as serde's.
fn value(j: Json) -> serde_json::Value {
    match j {
        Json::Null => serde_json::Value::Null,
        Json::Bool(b) => b.into(),
        Json::Number(n) => serde_json::from_str(&n).unwrap(),
        Json::Text(s) => s.into(),
        Json::List(v) => v.into_iter().map(value).collect(),
        Json::Object(m) => m.into_iter().map(|(k, x)| (k, value(x))).collect(),
    }
}

fn portable(v: &serde_json::Value, path: &str) {
    match v {
        serde_json::Value::Object(m) => {
            for bad in ["$ref", "$defs", "$schema", "anyOf", "oneOf", "allOf", "title", "format"] {
                assert!(!m.contains_key(bad), "{path}: has {bad}");
            }
            if let Some(t) = m.get("type") {
                assert!(t.is_string(), "{path}: type union {t}");
                if t == "object" {
                    assert!(m.contains_key("properties"), "{path}: object without properties");
                }
                if t == "number" || t == "integer" {
                    assert!(!m.contains_key("pattern"), "{path}: pattern on a number");
                }
            }
            assert_ne!(m.get("default"), Some(&serde_json::Value::Null), "{path}: default null");
            for (k, x) in m {
                match (k.as_str(), x) {
                    ("properties", serde_json::Value::Object(fields)) => {
                        fields.iter().for_each(|(f, s)| portable(s, &format!("{path}/properties/{f}")))
                    }
                    _ => portable(x, &format!("{path}/{k}")),
                }
            }
        }
        serde_json::Value::Array(a) => a.iter().for_each(|x| portable(x, path)),
        _ => {}
    }
}

#[test]
fn simplified_schemas_are_portable() {
    let text = r##"{
      "$schema": "https://json-schema.org/draft/2020-12/schema", "title": "place_order", "type": "object",
      "properties": {
        "order": {"$ref": "#/$defs/OrderInput"},
        "since": {"type": ["string", "null"], "format": "date-time", "default": null},
        "limit": {"anyOf": [{"type": "integer", "format": "uint32", "minimum": 0}, {"type": "null"}]}
      },
      "required": ["order"],
      "$defs": {
        "OrderInput": {"type": "object", "properties": {
          "side": {"$ref": "#/$defs/SideDto"},
          "qty": {"anyOf": [{"type": ["string", "number"], "pattern": "^-?[0-9]+$"}, {"type": "null"}]},
          "title": {"type": "string"},
          "more": {"type": "object"}
        }},
        "SideDto": {"type": "string", "enum": ["buy", "sell"], "title": "SideDto"}
      }
    }"##;
    let v = value(simplify(&Json::read(text.as_bytes()).unwrap()));
    portable(&v, "");
    let order = &v["properties"]["order"]["properties"];
    assert_eq!(order["qty"]["type"], "number", "decimals are numbers: {v}");
    assert_eq!(order["side"]["enum"][1], "sell", "enums are inlined: {v}");
    assert_eq!(order["title"]["type"], "string", "a field may have any name: {v}");
    let since = v["properties"]["since"]["description"].as_str().unwrap_or_default();
    assert!(since.contains("RFC 3339"), "a dropped date-time format is spelled out: {since}");
    assert_eq!(v["properties"]["limit"]["type"], "integer");
}

#[test]
fn recursive_schemas_end() {
    let text = r##"{"$ref": "#/$defs/Node", "$defs": {"Node": {"type": "object", "properties": {"next": {"$ref": "#/$defs/Node"}}}}}"##;
    let v = value(simplify(&Json::read(text.as_bytes()).unwrap()));
    portable(&v, "");
    let e: OrderError = UnknownAccount;
    assert_eq!(code(&order_error(e)), "UNKNOWN_ACCOUNT");
}

#[test]
fn orders_and_fills_round_trip() {
    let open = Order {
        id: 2,
        account: "a".into(),
        req: OrderRequest {
            instrument: id("KRX:005930"),
            side: Side::Buy,
            kind: OrderType::Limit,
            size: Size::Qty(d("10")),
            limit_price: Some(d("69000")),
            tif: Tif::Day,
            reason: "test".into(),
        },
        status: OrderStatus::Open,
        filled_qty: d("0"),
        filled_notional: d("0"),
        created_at: at(5),
    };
    let row = order_row(&open).unwrap();
    assert_eq!((row.status.as_str(), row.tif.as_str(), row.kind.as_str(), row.id), ("open", "day", "limit", 2));
    let back = read_order(row).unwrap();
    assert_eq!(format!("{back:?}"), format!("{open:?}"));
    let f = fill(Side::Buy, "10", "700000", "105", "0");
    let back = read_fill(fill_row(&f).unwrap()).unwrap();
    assert_eq!(format!("{back:?}"), format!("{f:?}"));
    let mut row = order_row(&open).unwrap();
    row.status = "lost".into();
    assert_eq!(read_order(row).unwrap_err(), "unknown status lost");
    let mut row = order_row(&open).unwrap();
    row.qty = None;
    assert_eq!(read_order(row).unwrap_err(), "an order without a size");
    let mut row = fill_row(&f).unwrap();
    row.order_id = -1;
    assert_eq!(read_fill(row).unwrap_err(), "a negative order id");
}

#[test]
fn conversions_survive_replay() {
    let c = Conversion {
        from: Currency::Krw,
        to: Currency::Usd,
        debit: d("1365350"),
        credit: d("999"),
        rate: d("0.00073167"),
    };
    let mut cash = vec![(Currency::Krw, d("2000000")), (Currency::Usd, d("0"))];
    for (currency, amount) in conversion_legs(&c) {
        for total in cash.iter_mut().filter(|t| t.0 == currency) {
            total.1 = total.1.checked_add(amount).unwrap();
        }
    }
    let pf = replay(&cash, &[]).unwrap();
    assert!(pf.cash(Currency::Krw).same(d("634650")) && pf.cash(Currency::Usd).same(d("999")));
}
