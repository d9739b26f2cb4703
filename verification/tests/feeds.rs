//! What the venues send, and the loop that keeps a feed streaming.
use atrader::decimal::Decimal;
use atrader::domain::{Book, InstrumentId, Level, Trade, Venue};
use atrader::feed::kis::ws::{parse_frame, record_event, us_tr_key, Frame, KRX_BOOK, KRX_TRADE, US_BOOK, US_TRADE};
use atrader::feed::kis::{
    check_rt, fingerprint, frame_step, is_token_error, last_candles, master, parse_approval, parse_token_response,
    prev_close_cacheable, rest, session_wait, text_step, ws, CachedToken, KisConfig, PrevCloses, StreamStep,
    TokenSource,
};
use atrader::feed::{binance, jitter, upbit, FeedAction, FeedEvent, FeedLoop, MarketEvent, IDLE_TIMEOUT, SETTLE};
use atrader::json::Json;
use atrader::market::{apply_event, needs_book, Market};
use atrader::broker::{OrderRequest, OrderStatus, OrderType, SimBroker, Tif};
use atrader::domain::{Currency, Side};
use atrader::sim::{DailyStats, Drift, Size};
use atrader::stats::{daily_stats, History};
use atrader::time::Timestamp;
use atrader::venue::{Calendar, Instrument, LotRule, TickRule};
use std::io::Write;

const SECOND: i64 = 1_000_000_000;

fn d(s: &str) -> Decimal {
    Decimal::parse(s).unwrap()
}

fn on(y: i32, mo: u32, day: u32, h: u32, m: u32, s: u32) -> Timestamp {
    let t = chrono::NaiveDate::from_ymd_opt(y, mo, day).unwrap().and_hms_opt(h, m, s).unwrap().and_utc();
    Timestamp::from_secs(t.timestamp()).unwrap()
}

fn now() -> Timestamp {
    on(2026, 9, 24, 0, 30, 0)
}

fn json(s: &str) -> Json {
    Json::read(s.as_bytes()).unwrap()
}

fn book(e: Result<Option<MarketEvent>, String>) -> Book {
    match e.unwrap() {
        Some(MarketEvent::Book(b)) => b,
        other => panic!("not a book: {other:?}"),
    }
}

fn trade(e: Result<Option<MarketEvent>, String>) -> Trade {
    match e.unwrap() {
        Some(MarketEvent::Trade(t)) => t,
        other => panic!("not a trade: {other:?}"),
    }
}

fn level(l: &Level, price: &str, qty: &str) -> bool {
    l.price.same(d(price)) && l.qty.same(d(qty))
}

/// Daily statistics of a history, with the sample deviation of its log returns.
fn stats(h: &History) -> DailyStats {
    let x: Vec<f64> = h.closes.iter().map(|c| c.to_text().parse().unwrap()).collect();
    let r: Vec<f64> = x.windows(2).map(|w| (w[1] / w[0]).ln()).collect();
    let mean = r.iter().sum::<f64>() / r.len() as f64;
    let var = r.iter().map(|v| (v - mean).powi(2)).sum::<f64>() / (r.len() - 1) as f64;
    daily_stats(&h.closes, &h.values, Some(var.sqrt().to_bits())).unwrap().unwrap()
}

fn stats_are_right(h: &History) -> bool {
    let s = stats(h);
    (f64::from_bits(s.sigma_bits) - 0.141895).abs() < 1e-5 && s.adv_notional.same(d("20"))
}

const BOOK_WS: &str = r#"{"type":"orderbook","code":"KRW-BTC","timestamp":1790247036776,"total_ask_size":0.87,"total_bid_size":2.47,"orderbook_units":[{"ask_price":114850000,"bid_price":114833000,"ask_size":0.11621747,"bid_size":0.00173353},{"ask_price":114851000,"bid_price":114831000,"ask_size":0.16136247,"bid_size":0.00137989}],"stream_type":"REALTIME"}"#;
const TRADE_WS: &str = r#"{"type":"trade","code":"KRW-BTC","timestamp":1790247036800,"trade_date":"2026-09-24","trade_time":"09:30:36","trade_timestamp":1790247036700,"trade_price":114850000,"trade_volume":0.0021,"ask_bid":"BID","prev_closing_price":115908000,"change":"FALL","change_price":1058000,"sequential_id":1,"stream_type":"REALTIME"}"#;

#[test]
fn parses_orderbook_frames_exactly() {
    let b = book(upbit::parse_ws(BOOK_WS.as_bytes(), now()));
    assert_eq!(b.instrument.to_text(), "UPBIT:KRW-BTC");
    assert_eq!(b.bids[0], Level { price: d("114833000"), qty: d("0.00173353") });
    assert_eq!(b.asks[1], Level { price: d("114851000"), qty: d("0.16136247") });
    assert_eq!(b.received_at, now());
}

#[test]
fn keeps_every_digit_of_long_numbers() {
    let f = r#"{"type":"orderbook","code":"KRW-SHIB","orderbook_units":[{"ask_price":0.01234,"bid_price":0.01233,"ask_size":409234523571.02874,"bid_size":99999999.99999999}]}"#;
    let b = book(upbit::parse_ws(f.as_bytes(), now()));
    assert_eq!(b.asks[0].qty, d("409234523571.02874"));
    assert_eq!(b.bids[0].qty, d("99999999.99999999"));
}

#[test]
fn upbit_parses_trade_frames() {
    let t = trade(upbit::parse_ws(TRADE_WS.as_bytes(), now()));
    assert_eq!((t.price, t.qty), (d("114850000"), d("0.0021")));
    assert_eq!(t.at.nanos(), 1790247036700 * 1_000_000);
}

#[test]
fn ignores_other_frames() {
    assert!(upbit::parse_ws(br#"{"type":"ticker","code":"KRW-BTC"}"#, now()).unwrap().is_none());
    assert!(upbit::parse_ws(br#"{"status":"UP"}"#, now()).unwrap().is_none());
    assert!(upbit::parse_ws(b"{", now()).is_err());
    assert!(upbit::parse_ws(br#"{"type":"trade","code":"KRW-BTC"}"#, now()).is_err());
}

#[test]
fn parses_rest_orderbook() {
    let body = format!("[{}]", BOOK_WS.replace(r#""code""#, r#""market""#));
    let b = upbit::parse_book_rest(body.as_bytes(), now()).unwrap();
    assert_eq!(b.asks.len(), 2);
    assert!(upbit::parse_book_rest(b"[]", now()).is_err());
}

#[test]
fn loads_only_krw_markets() {
    let body = r#"[{"market":"BTC-FIL","korean_name":"파일코인","english_name":"Filecoin"},{"market":"KRW-BTC","korean_name":"비트코인","english_name":"Bitcoin"}]"#;
    let list = upbit::parse_markets(body.as_bytes()).unwrap();
    assert_eq!(list.len(), 1);
    assert_eq!(list[0].id.to_text(), "UPBIT:KRW-BTC");
    assert_eq!(list[0].name, "비트코인 (Bitcoin)");
    assert_eq!(list[0].tick, TickRule::Upbit);
    assert!(list[0].lot.min_notional.same(d("5000")));
}

#[test]
fn candles_newest_first_become_stats() {
    let body = r#"[{"trade_price":99,"candle_acc_trade_price":30},{"trade_price":110,"candle_acc_trade_price":20},{"trade_price":100,"candle_acc_trade_price":10}]"#;
    assert!(stats_are_right(&upbit::parse_candles(body.as_bytes()).unwrap()));
}

#[test]
fn subscribe_message_lists_codes_for_both_types() {
    let ids = [InstrumentId::parse("UPBIT:KRW-BTC").unwrap(), InstrumentId::parse("UPBIT:KRW-ETH").unwrap()];
    let v: serde_json::Value = serde_json::from_str(&upbit::subscribe_message(&ids)).unwrap();
    assert_eq!(v[1]["type"], "orderbook");
    assert_eq!(v[1]["codes"][0], "KRW-BTC");
    assert_eq!(v[1]["codes"][1], "KRW-ETH");
    assert_eq!(v[1]["codes"].as_array().unwrap().len(), 2);
    assert_eq!(v[2]["type"], "trade");
}

#[test]
fn parses_depth_frames() {
    let f = r#"{"stream":"btcusdt@depth20@100ms","data":{"lastUpdateId":1,"bids":[["83532.15000000","1.53981000"]],"asks":[["83532.16000000","4.45844000"],["83532.17000000","0.00039000"]]}}"#;
    let b = book(binance::parse_ws(f.as_bytes(), now()));
    assert_eq!(b.instrument.to_text(), "BINANCE:BTCUSDT");
    assert!(level(&b.bids[0], "83532.15", "1.53981"));
    assert_eq!(b.asks.len(), 2);
}

#[test]
fn binance_parses_trade_frames() {
    let f = r#"{"stream":"btcusdt@trade","data":{"e":"trade","E":1,"s":"BTCUSDT","t":5,"p":"83532.16000000","q":"0.00100000","T":1790247036700,"m":true,"M":true}}"#;
    let t = trade(binance::parse_ws(f.as_bytes(), now()));
    assert!(t.price.same(d("83532.16")) && t.qty.same(d("0.001")));
    assert_eq!(t.at.nanos(), 1790247036700 * 1_000_000);
}

#[test]
fn exchange_info_keeps_trading_usdt_symbols() {
    let body = r#"{"symbols":[
      {"symbol":"BTCUSDT","status":"TRADING","baseAsset":"BTC","quoteAsset":"USDT","filters":[
        {"filterType":"PRICE_FILTER","minPrice":"0.01000000","maxPrice":"1000000.00000000","tickSize":"0.01000000"},
        {"filterType":"LOT_SIZE","minQty":"0.00001000","maxQty":"9000.00000000","stepSize":"0.00001000"},
        {"filterType":"NOTIONAL","minNotional":"5.00000000","applyMinToMarket":true}]},
      {"symbol":"ETHBTC","status":"TRADING","baseAsset":"ETH","quoteAsset":"BTC","filters":[]},
      {"symbol":"OLDUSDT","status":"BREAK","baseAsset":"OLD","quoteAsset":"USDT","filters":[]}]}"#;
    let list = binance::parse_exchange_info(body.as_bytes()).unwrap();
    assert_eq!(list.len(), 1);
    let i = &list[0];
    assert_eq!((i.id.to_text(), i.name.as_str()), ("BINANCE:BTCUSDT".to_string(), "BTC/USDT"));
    assert!(matches!(i.tick, TickRule::Fixed(t) if t.same(d("0.01"))));
    assert!(i.lot.step.same(d("0.00001")) && i.lot.min_qty.same(d("0.00001")) && i.lot.min_notional.same(d("5")));
}

#[test]
fn klines_become_stats() {
    let body = r#"[[0,"1","1","1","100","1",0,"10",1,"1","1","0"],[0,"1","1","1","110","1",0,"20",1,"1","1","0"],[0,"1","1","1","99","1",0,"30",1,"1","1","0"]]"#;
    assert!(stats_are_right(&binance::parse_klines(body.as_bytes()).unwrap()));
}

#[test]
fn a_field_that_comes_twice_is_refused() {
    let once = r#"{"stream":"btcusdt@depth20@100ms","data":{"bids":[["1","2"]],"asks":[]}}"#;
    assert_eq!(book(binance::parse_ws(once.as_bytes(), now())).bids.len(), 1);
    let twice = once.replacen('{', r#"{"stream":"x@trade","#, 1);
    assert!(binance::parse_ws(twice.as_bytes(), now()).is_err());
    assert!(binance::parse_depth("BTCUSDT", br#"{"bids":[],"asks":[]}"#, now()).is_ok());
    assert!(binance::parse_depth("BTCUSDT", br#"{"bids":[],"asks":[],"bids":[]}"#, now()).is_err());
    assert!(binance::parse_exchange_info(br#"{"symbols":[],"symbols":[]}"#).is_err());
    assert!(binance::parse_exchange_info(br#"{"symbols":[],"serverTime":1,"serverTime":2}"#).unwrap().is_empty());
    let both = format!("[{}]", BOOK_WS.replacen('{', r#"{"market":"KRW-BTC","#, 1));
    assert!(upbit::parse_book_rest(both.as_bytes(), now()).is_err());
    let market = r#"[{"market":"KRW-BTC","korean_name":"a","english_name":"b","market":"KRW-BTC"}]"#;
    assert!(upbit::parse_markets(market.as_bytes()).is_err());
    let candle = r#"[{"trade_price":1,"candle_acc_trade_price":2,"trade_price":1}]"#;
    assert!(upbit::parse_candles(candle.as_bytes()).is_err());
}

#[test]
fn a_field_that_nobody_reads_is_passed_over() {
    let market = r#"[{"note":"\ud800","market":"KRW-BTC","korean_name":"a","english_name":"b","deep":[{"x":1e999}]}]"#;
    let list = upbit::parse_markets(market.as_bytes()).unwrap();
    assert_eq!(list[0].name, "a (b)");
    let read = r#"[{"market":"KRW-BTC","korean_name":"\ud800","english_name":"b"}]"#;
    assert!(upbit::parse_markets(read.as_bytes()).is_err());
    let depth = r#"{"note":"\ud800","stream":"btcusdt@depth20@100ms","data":{"bids":[],"asks":[]}}"#;
    assert!(book(binance::parse_ws(depth.as_bytes(), now())).asks.is_empty());
}

#[test]
fn a_value_is_read_as_deep_as_the_parser_goes() {
    for (depth, fits) in [(126, true), (127, false)] {
        let deep = format!("{}{}", "[".repeat(depth), "]".repeat(depth));
        let frame = format!(r#"{{"stream":"btcusdt@other","data":{deep}}}"#);
        assert_eq!(serde_json::from_str::<serde_json::Value>(&frame).is_ok(), fits);
        assert_eq!(binance::parse_ws(frame.as_bytes(), now()).is_ok(), fits);
        let unread = format!(r#"{{"stream":"btcusdt@other","data":1,"note":{deep}}}"#);
        assert!(binance::parse_ws(unread.as_bytes(), now()).unwrap().is_none());
    }
}

#[test]
fn a_record_may_come_as_a_list() {
    let list = upbit::parse_markets(r#"[["KRW-BTC","a","b"]]"#.as_bytes()).unwrap();
    assert_eq!(list[0].id.to_text(), "UPBIT:KRW-BTC");
    assert!(upbit::parse_markets(r#"[["KRW-BTC","a"]]"#.as_bytes()).is_err());
    assert!(upbit::parse_markets(r#"[["KRW-BTC","a","b","c"]]"#.as_bytes()).is_err());
}

#[test]
fn faults_of_numbers_are_handed_on() {
    let body = r#"[[0,"1","1","1","x","1",0,"10"]]"#;
    let fault = "x".parse::<rust_decimal::Decimal>().unwrap_err().to_string();
    assert_eq!(binance::parse_klines(body.as_bytes()).unwrap_err(), fault);
    let shape = serde_json::from_str::<Vec<Vec<serde_json::Value>>>("[{}]").unwrap_err().to_string();
    assert_eq!(binance::parse_klines(b"[{}]").unwrap_err(), shape);
    assert_eq!(binance::parse_klines(b"[[]]").unwrap_err(), "kline field 4 missing");
    assert_eq!(binance::parse_klines(br#"[[0,0,0,0,"1",0,0,7]]"#).unwrap_err(), "kline field 7 missing");
    let count = "a".parse::<usize>().unwrap_err().to_string();
    assert_eq!(parse_frame("0|H0STASP0|a|b").err().unwrap(), count);
}

#[test]
fn stream_url_combines_depth_and_trade() {
    let ids = [InstrumentId::parse("BINANCE:BTCUSDT").unwrap(), InstrumentId::parse("BINANCE:ETHUSDT").unwrap()];
    assert_eq!(
        binance::stream_url(&ids),
        "wss://stream.binance.com:9443/stream?streams=btcusdt@depth20@100ms/btcusdt@trade/ethusdt@depth20@100ms/ethusdt@trade"
    );
}

fn zipped(name: &str, body: &[u8]) -> Vec<u8> {
    let mut buf = std::io::Cursor::new(Vec::new());
    {
        let mut z = zip::ZipWriter::new(&mut buf);
        z.start_file(name, zip::write::SimpleFileOptions::default()).unwrap();
        z.write_all(body).unwrap();
        z.finish().unwrap();
    }
    buf.into_inner()
}

#[test]
fn unzip_reads_the_first_member() {
    assert_eq!(master::unzip_first(&zipped("kospi_code.mst", b"hello")).unwrap(), b"hello");
    assert!(master::unzip_first(b"not a zip").is_err());
}

#[test]
fn krx_master_keeps_six_char_codes_with_korean_names() {
    let line = |code: &str, name: &str| {
        let (bytes, _, _) = encoding_rs::EUC_KR.encode(name);
        let mut l = format!("{code:<9}KR7005930003").into_bytes();
        l.extend_from_slice(&bytes);
        l.resize(70, b' ');
        l.push(b'\n');
        l
    };
    let mut file = line("005930", "삼성전자");
    file.extend(line("F70100022", "펀드"));
    file.extend(line("000660", "SK하이닉스"));
    file.extend(b"short\n");
    file.extend(line("900110", "딥커머스"));
    let list = master::parse_krx_master(&file);
    let names: Vec<(String, String)> = list.iter().map(|i| (i.id.to_text(), i.name.clone())).collect();
    assert_eq!(
        names,
        vec![
            ("KRX:005930".to_string(), "삼성전자".to_string()),
            ("KRX:000660".to_string(), "SK하이닉스".to_string()),
            ("KRX:900110".to_string(), "딥커머스".to_string()),
        ]
    );
    assert_eq!(list[0].tick, TickRule::Krx);
}

#[test]
fn us_master_keeps_usd_stocks_and_etps_with_exchange() {
    let row = |sym: &str, ko: &str, en: &str, kind: &str, cur: &str| {
        format!("US\t1\tNAS\tNASDAQ\t{sym}\tNAS{sym}\t{ko}\t{en}\t{kind}\t{cur}\t4\n")
    };
    let text = row("AAPL", "애플", "APPLE INC", "2", "USD")
        + &row("QQQ", "", "INVESCO QQQ", "3", "USD")
        + &row("MSFT", "마이크로소프트", "MICROSOFT CORP", "2", "USD")
        + &row("IDX", "지수", "INDEX", "1", "USD")
        + &row("EUR", "유로", "EURO", "2", "EUR");
    let (bytes, _, _) = encoding_rs::EUC_KR.encode(&text);
    let list = master::parse_us_master(&bytes);
    assert_eq!(list.len(), 3);
    assert_eq!(list[0].0.id.to_text(), "US:AAPL");
    assert_eq!(list[0].0.name, "애플 (APPLE INC)");
    assert_eq!(list[0].1, "NAS");
    assert_eq!(list[0].0.tick, TickRule::Us);
    assert_eq!(list[1].0.name, "INVESCO QQQ");
    assert_eq!(master::master_url("nasmst.cod"), "https://new.real.download.dws.co.kr/common/master/nasmst.cod.zip");
}

fn cfg() -> KisConfig {
    KisConfig { app_key: "APPKEY123".into(), app_secret: "SECRET456".into(), mock: false, state_dir: "/state".into() }
}

fn token(expires_at: Timestamp, key: &str) -> CachedToken {
    CachedToken { token: "tok".into(), expires_at, key: fingerprint(key) }
}

#[test]
fn tokens_are_reused_only_while_good_and_of_the_same_key() {
    let now = on(2026, 9, 24, 0, 0, 0);
    let good = token(on(2026, 9, 24, 20, 0, 0), "APPKEY123");
    assert!(good.usable(now, &fingerprint("APPKEY123")));
    assert!(!good.usable(now, &fingerprint("OTHERKEY")));
    let late = token(on(2026, 9, 24, 0, 5, 0), "k");
    assert!(!late.usable(now, &fingerprint("k")));
    assert!(token(on(2026, 9, 24, 0, 10, 0), "k").usable(now, &fingerprint("k")));
    assert!(!token(on(2026, 9, 24, 0, 9, 59), "k").usable(now, &fingerprint("k")));
    let even = token(on(2026, 9, 24, 0, 10, 0), "k");
    let k = fingerprint("k");
    assert!(matches!(CachedToken::source(Some(&even), Some(&even), now, &k), TokenSource::Disk));
    assert!(matches!(CachedToken::source(Some(&even), None, now, &k), TokenSource::Issue));
    let key = fingerprint("APPKEY123");
    assert!(matches!(CachedToken::source(Some(&good), None, now, &key), TokenSource::Memory));
    assert!(matches!(CachedToken::source(None, Some(&good), now, &key), TokenSource::Disk));
    assert!(matches!(CachedToken::source(None, None, now, &key), TokenSource::Issue));
    assert!(matches!(CachedToken::source(None, Some(&late), now, &key), TokenSource::Issue));
    assert_eq!(fingerprint(""), "cbf29ce484222325");
    assert_eq!(fingerprint("a"), "af63dc4c8601ec8c");
}

#[test]
fn parses_token_response_expiry_in_kst() {
    let body = json(r#"{"access_token": "abc", "token_type": "Bearer", "expires_in": 86400, "access_token_token_expired": "2026-09-25 09:00:00"}"#);
    let t = parse_token_response(&body, "k").unwrap();
    assert_eq!(t.token, "abc");
    assert_eq!(t.expires_at, on(2026, 9, 25, 0, 0, 0));
    assert!(parse_token_response(&json("{}"), "k").is_err());
    assert!(parse_token_response(&json(r#"{"access_token":"x","access_token_token_expired":"soon"}"#), "k").is_err());
    assert_eq!(parse_approval(&json(r#"{"approval_key":"ak"}"#)), Ok("ak".to_string()));
    assert!(parse_approval(&json("{}")).is_err());
}

#[test]
fn config_hosts_and_debug_redaction() {
    let mut c = cfg();
    assert_eq!(c.rest_base(), "https://openapi.koreainvestment.com:9443");
    assert_eq!(c.ws_url(), "ws://ops.koreainvestment.com:21000");
    c.mock = true;
    assert_eq!(c.rest_base(), "https://openapivts.koreainvestment.com:29443");
    assert_eq!(c.ws_url(), "ws://ops.koreainvestment.com:31000");
    let shown = c.describe();
    assert!(!shown.contains("APPKEY123") && !shown.contains("SECRET456"), "{shown}");
    assert!(KisConfig::from_env(Some("k".into()), None, None, "/s".into()).is_none());
    assert!(KisConfig::from_env(Some("k".into()), Some("s".into()), Some("MOCK".into()), "/s".into()).unwrap().mock);
}

#[test]
fn api_errors_name_the_message_but_not_the_key() {
    let body = json(r#"{"rt_cd": "1", "msg_cd": "EGW00201", "msg1": "초당 거래건수를 초과하였습니다."}"#);
    let e = check_rt(&body, "FHKST01010100").unwrap_err();
    assert!(e.contains("EGW00201") && e.contains("FHKST01010100"), "{e}");
    assert!(check_rt(&json(r#"{"rt_cd": "0"}"#), "x").is_ok());
}

#[test]
fn krx_books_get_the_cached_prev_close() {
    let at = on(2026, 9, 23, 1, 0, 0);
    let mut closes = PrevCloses::new();
    let id = InstrumentId::parse("KRX:005930").unwrap();
    closes.remember_prev_close(&id, d("69800"), at);
    let mut b = Book { instrument: id.clone(), bids: vec![], asks: vec![], prev_close: None, received_at: at };
    closes.attach_prev_close(&mut b, at);
    assert_eq!(b.prev_close, Some(d("69800")));
    assert!(!closes.has_to_fetch(&id, false, at));
    assert!(closes.has_to_fetch(&id, true, at));
    let next_day = on(2026, 9, 24, 1, 0, 0);
    assert!(closes.has_to_fetch(&id, false, next_day), "a close holds for its day");
}

#[test]
fn invalid_token_codes_are_recognised() {
    assert!(is_token_error(&json(r#"{"rt_cd": "1", "msg_cd": "EGW00123", "msg1": "기간이 만료된 token 입니다."}"#)));
    assert!(is_token_error(&json(r#"{"rt_cd": "1", "msg_cd": "EGW00121"}"#)));
    assert!(!is_token_error(&json(r#"{"rt_cd": "1", "msg_cd": "EGW00201"}"#)));
}

#[test]
fn prev_close_is_cached_only_after_the_morning_rollover() {
    // Seoul is nine hours ahead.
    assert!(!prev_close_cacheable(on(2026, 9, 22, 15, 30, 0)));
    assert!(!prev_close_cacheable(on(2026, 9, 22, 23, 29, 0)));
    assert!(prev_close_cacheable(on(2026, 9, 22, 23, 30, 0)));
    assert!(prev_close_cacheable(on(2026, 9, 23, 6, 0, 0)));
}

#[test]
fn pingpong_is_answered_with_a_pong_frame() {
    let ping = "{\"header\":{\"tr_id\":\"PINGPONG\"}}";
    assert!(matches!(text_step(ping, now()), StreamStep::Reply(p) if p == ping));
    assert!(matches!(frame_step(Frame::Ignored, now()), StreamStep::Skip));
    let refused = Frame::Ack { tr_id: "H0STASP0".into(), ok: false, msg: "no".into() };
    assert!(matches!(frame_step(refused, now()), StreamStep::Refused(id, m) if id == "H0STASP0" && m == "no"));
}

#[test]
fn krx_asking_price_levels() {
    let mut fields: Vec<String> = Vec::new();
    for i in 1..=10 {
        let ask = if i == 10 { 0 } else { 70000 + 100 * i };
        fields.push(format!("\"askp{i}\":\"{ask}\",\"bidp{i}\":\"{}\"", 70000 - 100 * (i - 1)));
        fields.push(format!("\"askp_rsqn{i}\":\"{i}\",\"bidp_rsqn{i}\":\"{}\"", i * 2));
    }
    let text = format!("{{\"rt_cd\":\"0\",\"output1\":{{{}}},\"output2\":{{\"stck_sdpr\":\"69800\"}}}}", fields.join(","));
    let b = rest::krx_book("005930", &json(&text), now());
    assert_eq!(b.asks.len(), 9);
    assert_eq!(b.asks[0].price, d("70100"));
    assert_eq!(b.bids[0].qty, d("2"));
    assert_eq!(b.instrument.to_text(), "KRX:005930");
}

#[test]
fn krx_prev_close_and_daily_stats() {
    assert_eq!(rest::krx_prev_close(&json(r#"{"output": {"stck_sdpr": "69800"}}"#)).unwrap(), d("69800"));
    assert!(rest::krx_prev_close(&json(r#"{"output": {}}"#)).is_err());
    let body = json(
        r#"{"output2": [
        {"stck_bsop_date": "20260923", "stck_clpr": "99", "acml_tr_pbmn": "30"},
        {"stck_bsop_date": "20260922", "stck_clpr": "110", "acml_tr_pbmn": "20"},
        {"stck_bsop_date": "20260921", "stck_clpr": "100", "acml_tr_pbmn": "10"}]}"#,
    );
    assert!(stats_are_right(&rest::krx_daily_history(&body).unwrap()));
}

#[test]
fn us_one_level_book_and_daily_stats() {
    let body = json(r#"{"output1": {"base": "185.00"}, "output2": {"pbid1": "187.12", "pask1": "187.15", "vbid1": "300", "vask1": "400"}}"#);
    let b = rest::us_book("AAPL", &body, now());
    assert_eq!((b.bids[0].price, b.asks[0].qty), (d("187.12"), d("400")));
    let body = json(
        r#"{"output2": [
        {"xymd": "20260923", "clos": "99", "tamt": "30"},
        {"xymd": "20260922", "clos": "110", "tamt": "20"},
        {"xymd": "20260921", "clos": "100", "tamt": "10"}]}"#,
    );
    assert!(stats(&rest::us_daily_history(&body).unwrap()).adv_notional.same(d("20")));
    assert!(rest::us_book("AAPL", &json(r#"{"output2": {}}"#), now()).bids.is_empty());
}

#[test]
fn kis_candles_and_rankings() {
    let body = json(
        r#"{"output2": [
        {"stck_bsop_date": "20260923", "stck_oprc": "70000", "stck_hgpr": "71000", "stck_lwpr": "69000", "stck_clpr": "70500", "acml_vol": "10", "acml_tr_pbmn": "705000"},
        {"stck_bsop_date": "20260922", "stck_oprc": "69000", "stck_hgpr": "70000", "stck_lwpr": "68000", "stck_clpr": "70000", "acml_vol": "5", "acml_tr_pbmn": "350000"}]}"#,
    );
    let c = rest::krx_candles(&body).unwrap();
    assert_eq!(c[0].start, on(2026, 9, 21, 15, 0, 0));
    assert_eq!(c[1].close, d("70500"));
    assert_eq!(last_candles(&c, 1)[0].close, d("70500"));
    let us = json(r#"{"output2": [{"xymd": "20260923", "open": "1", "high": "2", "low": "1", "clos": "1.5", "tvol": "10", "tamt": "15"}]}"#);
    assert_eq!(rest::us_candles(&us).unwrap()[0].start, on(2026, 9, 23, 4, 0, 0));
    let krx = json(r#"{"output": [{"stck_shrn_iscd": "005930", "hts_kor_isnm": "삼성전자", "stck_prpr": "70000", "prdy_ctrt": "1.5", "acml_vol": "100"}]}"#);
    let rows = rest::krx_rank_rows(&krx);
    assert_eq!(
        (rows[0].id.to_text(), rows[0].name.as_deref(), rows[0].change_pct),
        ("KRX:005930".to_string(), Some("삼성전자"), d("1.5"))
    );
    let krx_vol = json(r#"{"output": [{"mksc_shrn_iscd": "000660", "hts_kor_isnm": "SK하이닉스", "stck_prpr": "1", "prdy_ctrt": "0", "acml_vol": "5", "acml_tr_pbmn": "5"}]}"#);
    assert_eq!(rest::krx_rank_rows(&krx_vol)[0].id.symbol, "000660");
    let usr = json(r#"{"output2": [{"symb": "AAPL", "name": "애플", "last": "187.1", "rate": "-1.2", "tvol": "100", "tamt": "18710"}]}"#);
    assert_eq!(rest::us_rank_rows(&usr)[0].id.to_text(), "US:AAPL");
}

/// A KRX book record: 59 fields, asks 3..13, bids 13..23, ask qty 23..33, bid qty 33..43.
fn krx_book_record(symbol: &str) -> Vec<String> {
    let mut f = vec!["0".to_string(); 59];
    f[0] = symbol.into();
    f[1] = "100000".into();
    for i in 0..10 {
        f[3 + i] = (70100 + 100 * i).to_string();
        f[13 + i] = (70000 - 100 * i).to_string();
        f[23 + i] = (10 + i).to_string();
        f[33 + i] = (20 + i).to_string();
    }
    f[12] = "0".into();
    f
}

#[test]
fn splits_multi_record_data_frames() {
    let rec = krx_book_record("005930");
    let text = format!("0|H0STASP0|002|{}^{}", rec.join("^"), krx_book_record("000660").join("^"));
    match parse_frame(&text).unwrap() {
        Frame::Data { tr_id, records } => {
            assert_eq!((tr_id.as_str(), records.len(), records[1][0].as_str()), ("H0STASP0", 2, "000660"));
        }
        other => panic!("not data: {other:?}"),
    }
}

#[test]
fn krx_book_record_becomes_a_ten_level_book() {
    let b = book(Ok(record_event(KRX_BOOK, &krx_book_record("005930"), now())));
    assert_eq!(b.instrument.to_text(), "KRX:005930");
    assert_eq!(b.asks.len(), 9);
    assert_eq!(b.asks[0], Level { price: d("70100"), qty: d("10") });
    assert_eq!(b.bids[0], Level { price: d("70000"), qty: d("20") });
    assert_eq!(b.received_at, now());
}

#[test]
fn krx_trade_uses_per_trade_volume() {
    let mut f = vec!["0".to_string(); 46];
    f[0] = "005930".into();
    f[2] = "70100".into();
    f[12] = "37".into();
    f[13] = "999999".into();
    let t = trade(Ok(record_event(KRX_TRADE, &f, now())));
    assert_eq!((t.instrument.to_text(), t.price, t.qty), ("KRX:005930".to_string(), d("70100"), d("37")));
}

fn us_book_record(with_rsym: bool) -> Vec<String> {
    let mut f: Vec<String> = [
        "AAPL", "4", "20260923", "093000", "20260923", "223000", "100", "200", "0", "0", "187.12", "187.15", "300", "400", "0", "0",
    ]
    .iter()
    .map(|s| s.to_string())
    .collect();
    if with_rsym {
        f.insert(0, "DNASAAPL".into());
    }
    f
}

#[test]
fn us_book_parses_with_or_without_rsym() {
    for with in [true, false] {
        let b = book(Ok(record_event(US_BOOK, &us_book_record(with), now())));
        assert_eq!(b.instrument.to_text(), "US:AAPL");
        assert_eq!(b.bids, vec![Level { price: d("187.12"), qty: d("300") }]);
        assert_eq!(b.asks, vec![Level { price: d("187.15"), qty: d("400") }]);
    }
}

#[test]
fn us_trade_parses_with_or_without_rsym() {
    let mut f: Vec<String> = vec!["0".to_string(); 25];
    f[0] = "AAPL".into();
    f[10] = "187.13".into();
    f[18] = "5".into();
    for with in [true, false] {
        let mut rec = f.clone();
        if with {
            rec.insert(0, "DNASAAPL".into());
        }
        let t = trade(Ok(record_event(US_TRADE, &rec, now())));
        assert_eq!((t.instrument.to_text(), t.price, t.qty), ("US:AAPL".to_string(), d("187.13"), d("5")));
    }
}

#[test]
fn odd_frames_are_skipped_or_answered() {
    let ping = r#"{"header":{"tr_id":"PINGPONG","datetime":"20260923100000"}}"#;
    assert!(matches!(parse_frame(ping).unwrap(), Frame::Ping(p) if p == ping));
    let ack = r#"{"header":{"tr_id":"H0STASP0","tr_key":"005930","encrypt":"N"},"body":{"rt_cd":"0","msg_cd":"OPSP0000","msg1":"SUBSCRIBE SUCCESS","output":{"iv":"x","key":"y"}}}"#;
    match parse_frame(ack).unwrap() {
        Frame::Ack { tr_id, ok, msg } => {
            assert_eq!((tr_id.as_str(), ok, msg.as_str()), ("H0STASP0", true, "SUBSCRIBE SUCCESS"));
        }
        other => panic!("not an answer: {other:?}"),
    }
    let again = r#"{"header":{"tr_id":"H0STASP0"},"body":{"rt_cd":"1","msg1":"ALREADY IN SUBSCRIBE"}}"#;
    assert!(matches!(parse_frame(again).unwrap(), Frame::Ack { ok: true, .. }));
    assert!(matches!(parse_frame("1|H0STCNI0|001|encrypted").unwrap(), Frame::Ignored));
    assert!(parse_frame("0|H0STASP0|003|a^b").is_err());
    assert!(parse_frame("0|H0STASP0").is_err());
    assert!(record_event(KRX_BOOK, &["005930".to_string()], now()).is_none());
    assert!(record_event(KRX_TRADE, &vec!["x".to_string(); 46], now()).is_none());
    assert!(record_event("H0XXXXX0", &vec!["1".to_string(); 60], now()).is_none());
}

#[test]
fn subscribe_messages() {
    let v: serde_json::Value = serde_json::from_str(&ws::subscribe_message("KEY", KRX_BOOK, "005930")).unwrap();
    assert_eq!(v["header"]["tr_type"], "1");
    assert_eq!(v["body"]["input"]["tr_id"], "H0STASP0");
    assert_eq!(v["body"]["input"]["tr_key"], "005930");
    assert_eq!(us_tr_key("NAS", "AAPL"), "DNASAAPL");
}

#[test]
fn only_regular_session_records_become_events() {
    let mut b = krx_book_record("005930");
    b[2] = "A".into();
    assert!(record_event(KRX_BOOK, &b, now()).is_none());
    let mut t = vec!["0".to_string(); 46];
    t[0] = "005930".into();
    t[2] = "70100".into();
    t[12] = "1".into();
    t[43] = "1".into();
    assert!(record_event(KRX_TRADE, &t, now()).is_none());
}

#[test]
fn a_closed_session_is_waited_for() {
    let calendar = Calendar::default();
    // Wednesday, 01:00 UTC is 10:00 in Seoul.
    assert_eq!(session_wait(&calendar, Venue::Krx, on(2026, 9, 23, 1, 0, 0)), None);
    assert!(session_wait(&calendar, Venue::Krx, on(2026, 9, 22, 23, 0, 0)).is_some());
}

fn ended(secs: u64) -> FeedEvent {
    FeedEvent::Ended { nanos: secs * 1_000_000_000, closed: false }
}

#[test]
fn rapid_set_changes_reconnect_once_with_the_final_set() {
    let mut l = FeedLoop::new(false);
    assert_eq!(l.doing, FeedAction::Stream);
    assert_eq!(l.step(FeedEvent::Changed, false, 0), FeedAction::Settle);
    assert_eq!(l.step(FeedEvent::Changed, false, 0), FeedAction::Settle);
    assert_eq!(l.step(FeedEvent::Waited, false, 0), FeedAction::Stream);
    assert_eq!(SETTLE, 1);
}

#[test]
fn a_set_change_cuts_the_backoff_short() {
    let mut l = FeedLoop::new(false);
    for _ in 0..4 {
        assert!(matches!(l.step(ended(0), false, 0), FeedAction::Sleep(_)));
        l.step(FeedEvent::Waited, false, 0);
    }
    assert!(l.backoff >= 8);
    assert!(matches!(l.step(ended(0), false, 0), FeedAction::Sleep(n) if n >= 8_000_000_000));
    assert_eq!(l.step(FeedEvent::Changed, false, 0), FeedAction::Settle);
    assert_eq!(l.step(FeedEvent::Waited, false, 0), FeedAction::Stream);
}

#[test]
fn reconnects_after_a_drop_and_stops_when_closed() {
    let mut l = FeedLoop::new(false);
    assert_eq!(l.step(ended(0), false, 500), FeedAction::Sleep(1_000_000_000 + jitter(1, 500)));
    assert_eq!(l.step(FeedEvent::Waited, false, 0), FeedAction::Stream);
    assert_eq!(l.step(FeedEvent::Ended { nanos: 0, closed: true }, false, 0), FeedAction::Stop);
    assert_eq!(l.step(FeedEvent::Changed, false, 0), FeedAction::Stop);
    assert_eq!(jitter(1, 500), 125_000_000);
    assert_eq!(IDLE_TIMEOUT, 30);
}

#[test]
fn idles_until_something_is_subscribed() {
    let mut l = FeedLoop::new(true);
    assert_eq!(l.doing, FeedAction::Idle);
    assert_eq!(l.step(FeedEvent::Waited, true, 0), FeedAction::Idle);
    assert_eq!(l.step(FeedEvent::Changed, false, 0), FeedAction::Stream);
}

fn btc() -> InstrumentId {
    InstrumentId::parse("UPBIT:KRW-BTC").unwrap()
}

fn btc_book(at: Timestamp) -> Book {
    Book {
        instrument: btc(),
        bids: vec![Level { price: d("99999000"), qty: d("1") }],
        asks: vec![Level { price: d("100000000"), qty: d("1") }],
        prev_close: None,
        received_at: at,
    }
}

fn still() -> Drift {
    Drift { recovery: d("1"), multiplier: d("1") }
}

fn rig() -> (SimBroker, Market, Timestamp) {
    let mut b = SimBroker::new(Calendar::default());
    b.open_account("a", &[(Currency::Krw, d("1000000000"))]);
    assert!(b.add_instrument(Instrument {
        id: btc(),
        name: "Bitcoin".into(),
        tick: TickRule::Upbit,
        lot: LotRule { step: d("0.00000001"), min_qty: d("0.00000001"), min_notional: d("5000") },
        tradable: true,
    }));
    let mut m = Market::new();
    m.add_feed(Venue::Upbit, 10);
    (b, m, on(2026, 9, 23, 1, 0, 0))
}

#[test]
fn ensure_fresh_snapshots_only_when_stale_and_subscribes() {
    let (mut b, mut m, t0) = rig();
    assert_eq!(m.touch(&btc()), Ok(true));
    assert_eq!(m.upbit.as_ref().unwrap().current().len(), 1);
    assert!(!b.has_stats(&btc()));
    b.set_stats(btc(), DailyStats { sigma_bits: 0.02f64.to_bits(), adv_notional: d("50000000000") });
    assert!(b.has_stats(&btc()));
    assert!(needs_book(&b, &btc(), t0));
    apply_event(&mut b, MarketEvent::Book(btc_book(t0)), t0, still());
    assert!(!needs_book(&b, &btc(), t0));
    assert_eq!(m.touch(&btc()), Ok(false));
    assert!(needs_book(&b, &btc(), t0.checked_add(3 * SECOND).unwrap()));
}

#[test]
fn unknown_venue_is_an_error() {
    let (_, mut m, _) = rig();
    let e = m.touch(&InstrumentId::parse("BINANCE:BTCUSDT").unwrap());
    assert_eq!(e, Err("no feed for venue BINANCE".to_string()));
}

#[test]
fn refresh_pins_keeps_positions_subscribed() {
    let (mut b, mut m, t0) = rig();
    apply_event(&mut b, MarketEvent::Book(btc_book(t0)), t0, still());
    let buy = OrderRequest {
        instrument: btc(),
        side: Side::Buy,
        kind: OrderType::Market,
        size: Size::Qty(d("0.1")),
        limit_price: None,
        tif: Tif::Ioc,
        reason: "test".into(),
    };
    b.place_sync("a", buy, t0, still()).unwrap();
    assert_eq!(m.refresh_pins(&b.active_instruments()), vec![Venue::Upbit]);
    assert!(m.upbit.as_ref().unwrap().current().iter().any(|i| i.to_text() == "UPBIT:KRW-BTC"));
    assert!(m.refresh_pins(&b.active_instruments()).is_empty());
}

#[test]
fn pump_applies_events_and_broadcasts_market_data() {
    let (mut b, _, t0) = rig();
    apply_event(&mut b, MarketEvent::Book(btc_book(t0)), t0, still());
    let bid = OrderRequest {
        instrument: btc(),
        side: Side::Buy,
        kind: OrderType::Limit,
        size: Size::Qty(d("0.1")),
        limit_price: Some(d("99998000")),
        tif: Tif::Gtc,
        reason: "test".into(),
    };
    let (order, _) = b.place_sync("a", bid, t0, still()).unwrap();
    let t = Trade { instrument: btc(), price: d("99990000"), qty: d("1"), at: t0 };
    let sweep = apply_event(&mut b, MarketEvent::Trade(t), t0, still());
    assert_eq!(sweep.fills.len(), 1);
    assert_eq!(b.order(order.id).unwrap().status, OrderStatus::Filled);
}
