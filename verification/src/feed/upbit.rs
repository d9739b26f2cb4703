//! Upbit KRW market feed.
use crate::decimal::{dec, Decimal};
use crate::domain::{Book, BookView, InstrumentId, Level, Trade, TradeView, Venue};
use crate::feed::{event_view, EventView, MarketEvent};
use crate::json::{
    decimal_in, field, has_member, i64_in, json_quote, json_quoted, json_read, lemma_list_view, list_in, list_view,
    member, odd_shape, parse_json, text_in, Json, JsonView,
};
use crate::record::{as_list, list_of, parse_as, read_as, record_with, with_field, Shape};
use crate::stats::History;
use crate::text::{begins_with, join_texts, joined, same_text, stands_at, texts};
use crate::time::{at_millis, millis_or, Timestamp};
use crate::venue::{Instrument, InstrumentView, LotRule, TickRule};
use vstd::prelude::*;

verus! {

/// The ask level of a unit of the book.
pub open spec fn ask_of(u: JsonView) -> Option<Level> {
    match (decimal_in(field(u, "ask_price"@, 0, 4)), decimal_in(field(u, "ask_size"@, 2, 4))) {
        (Some(price), Some(qty)) => Some(Level { price, qty }),
        _ => None,
    }
}

/// The bid level of a unit of the book.
pub open spec fn bid_of(u: JsonView) -> Option<Level> {
    match (decimal_in(field(u, "bid_price"@, 1, 4)), decimal_in(field(u, "bid_size"@, 3, 4))) {
        (Some(price), Some(qty)) => Some(Level { price, qty }),
        _ => None,
    }
}

/// Bids and asks of the first `n` units; nothing where one is none.
pub open spec fn sides_of(units: Seq<JsonView>, n: int) -> Option<(Seq<Level>, Seq<Level>)>
    decreases n,
{
    if n <= 0 {
        Some((Seq::empty(), Seq::empty()))
    } else {
        match (sides_of(units, n - 1), bid_of(units[n - 1]), ask_of(units[n - 1])) {
            (Some((bids, asks)), Some(b), Some(a)) => Some((bids.push(b), asks.push(a))),
            _ => None,
        }
    }
}

/// The market code of a book: under `code` or under `market`, but not both.
pub open spec fn code_of(v: JsonView) -> Option<Seq<char>> {
    if has_member(v, "code"@) && has_member(v, "market"@) {
        None
    } else if has_member(v, "market"@) {
        text_in(member(v, "market"@))
    } else {
        text_in(field(v, "code"@, 0, 2))
    }
}

/// The order book in a value.
pub open spec fn book_of(v: JsonView, now: Timestamp) -> Option<BookView> {
    match (code_of(v), list_in(field(v, "orderbook_units"@, 1, 2))) {
        (Some(code), Some(units)) => match sides_of(units, units.len() as int) {
            Some((bids, asks)) => Some(
                BookView { instrument: (Venue::Upbit, code), bids, asks, prev_close: None, received_at: now },
            ),
            None => None,
        },
        _ => None,
    }
}

/// The trade print in a value.
pub open spec fn trade_of(v: JsonView, now: Timestamp) -> Option<TradeView> {
    match (
        text_in(member(v, "code"@)),
        decimal_in(member(v, "trade_price"@)),
        decimal_in(member(v, "trade_volume"@)),
        i64_in(member(v, "trade_timestamp"@)),
    ) {
        (Some(code), Some(price), Some(qty), Some(ms)) => Some(
            TradeView { instrument: (Venue::Upbit, code), price, qty, at: millis_or(ms as int, now) },
        ),
        _ => None,
    }
}

/// The event in a frame: nothing in frames that are neither books nor trades. The outer option is
/// none where a book or trade is not readable.
pub open spec fn frame_event(v: JsonView, now: Timestamp) -> Option<Option<EventView>> {
    let kind = text_in(member(v, "type"@));
    if kind == Some("orderbook"@) {
        match book_of(v, now) {
            Some(b) => Some(Some(EventView::Book(b))),
            None => None,
        }
    } else if kind == Some("trade"@) {
        match trade_of(v, now) {
            Some(t) => Some(Some(EventView::Trade(t))),
            None => None,
        }
    } else {
        Some(None)
    }
}

fn id(code: &str) -> (r: InstrumentId)
    ensures
        r@ == (Venue::Upbit, code@),
{
    InstrumentId { venue: Venue::Upbit, symbol: code.to_owned() }
}

proof fn lemma_sides_error(units: Seq<JsonView>, i: int, n: int)
    requires
        0 <= i <= n,
        sides_of(units, i) is None,
    ensures
        sides_of(units, n) is None,
    decreases n,
{
    if i < n {
        lemma_sides_error(units, i, n - 1);
    }
}

fn read_level(u: &Json, price: &str, i: usize, qty: &str, j: usize) -> (r: Option<Level>)
    ensures
        r == (match (
            decimal_in(field(u.view(), price@, i as int, 4)),
            decimal_in(field(u.view(), qty@, j as int, 4)),
        ) {
            (Some(price), Some(qty)) => Some(Level { price, qty }),
            _ => None,
        }),
{
    match (u.record_decimal(price, i, 4), u.record_decimal(qty, j, 4)) {
        (Some(price), Some(qty)) => Some(Level { price, qty }),
        _ => None,
    }
}

fn read_code<'a>(v: &'a Json) -> (r: Option<&'a String>)
    ensures
        match code_of(v.view()) {
            Some(s) => r is Some && (r->0)@ == s,
            None => r is None,
        },
{
    let market = v.has("market");
    if market && v.has("code") {
        None
    } else if market {
        v.text_member("market")
    } else {
        v.record_text("code", 0, 2)
    }
}

/// The order book in a value.
pub fn read_book(v: &Json, now: Timestamp) -> (r: Option<Book>)
    ensures
        match book_of(v.view(), now) {
            Some(b) => r matches Some(x) && x@ == b,
            None => r is None,
        },
{
    let code = match read_code(v) {
        Some(c) => c,
        None => return None,
    };
    let units = match v.record_field("orderbook_units", 1, 2) {
        Some(j) => match j.as_list() {
            Some(l) => l,
            None => return None,
        },
        None => return None,
    };
    proof {
        lemma_list_view(units@);
    }
    let ghost views = list_view(units@);
    let mut bids: Vec<Level> = Vec::new();
    let mut asks: Vec<Level> = Vec::new();
    let mut i: usize = 0;
    while i < units.len()
        invariant
            i <= units@.len(),
            views == list_view(units@),
            views.len() == units@.len(),
            forall|j: int| 0 <= j < units@.len() ==> #[trigger] views[j] == units@[j].view(),
            list_in(field(v.view(), "orderbook_units"@, 1, 2)) == Some(views),
            sides_of(views, i as int) == Some((bids@, asks@)),
        decreases units@.len() - i,
    {
        assert(views[i as int] == units@[i as int].view());
        let bid = read_level(&units[i], "bid_price", 1, "bid_size", 3);
        let ask = read_level(&units[i], "ask_price", 0, "ask_size", 2);
        match (bid, ask) {
            (Some(b), Some(a)) => {
                bids.push(b);
                asks.push(a);
            },
            _ => {
                proof {
                    lemma_sides_error(views, i + 1, views.len() as int);
                }
                return None;
            },
        }
        i += 1;
    }
    Some(Book { instrument: id(code.as_str()), bids, asks, prev_close: None, received_at: now })
}

fn read_trade(v: &Json, now: Timestamp) -> (r: Option<Trade>)
    ensures
        match trade_of(v.view(), now) {
            Some(t) => r matches Some(x) && x@ == t,
            None => r is None,
        },
{
    let ms = match v.get("trade_timestamp") {
        Some(j) => j.as_i64(),
        None => None,
    };
    match (v.text_member("code"), v.decimal_member("trade_price"), v.decimal_member("trade_volume"), ms) {
        (Some(code), Some(price), Some(qty), Some(ms)) => Some(
            Trade { instrument: id(code.as_str()), price, qty, at: at_millis(ms, now) },
        ),
        _ => None,
    }
}

/// The event in a frame.
pub fn read_frame(v: &Json, now: Timestamp) -> (r: Option<Option<MarketEvent>>)
    ensures
        match frame_event(v.view(), now) {
            Some(e) => r matches Some(x) && event_view(x) == e,
            None => r is None,
        },
{
    let kind = match v.text_member("type") {
        Some(k) => k,
        None => return Some(None),
    };
    if same_text(kind.as_str(), "orderbook") {
        match read_book(v, now) {
            Some(b) => Some(Some(MarketEvent::Book(b))),
            None => None,
        }
    } else if same_text(kind.as_str(), "trade") {
        match read_trade(v, now) {
            Some(t) => Some(Some(MarketEvent::Trade(t))),
            None => None,
        }
    } else {
        Some(None)
    }
}

/// Parse one WebSocket frame. Frames that are neither books nor trades yield `None`.
pub fn parse_ws(bytes: &[u8], now: Timestamp) -> (r: Result<Option<MarketEvent>, String>)
    ensures
        match json_read(bytes@) {
            Err(m) => r matches Err(e) && e@ == m,
            Ok(v) => match frame_event(v, now) {
                Some(e) => r matches Ok(x) && event_view(x) == e,
                None => r matches Err(e) && e@ == odd_shape(),
            },
        },
{
    match parse_json(bytes) {
        Err(e) => Err(e),
        Ok(v) => match read_frame(&v, now) {
            Some(e) => Ok(e),
            None => Err("unexpected response".to_owned()),
        },
    }
}

/// Whether every element from index `i` on is an order book.
pub open spec fn all_books(s: Seq<JsonView>, now: Timestamp, i: int) -> bool
    decreases s.len() - i,
{
    i >= s.len() || (book_of(s[i], now) is Some && all_books(s, now, i + 1))
}

/// The first order book of a response, or what is wrong with it.
pub open spec fn first_book(v: JsonView, now: Timestamp) -> Result<BookView, Seq<char>> {
    match list_in(v) {
        Some(s) => if !all_books(s, now, 0) {
            Err(odd_shape())
        } else if s.len() == 0 {
            Err("empty orderbook response"@)
        } else {
            Ok(book_of(s[0], now)->0)
        },
        None => Err(odd_shape()),
    }
}

/// The first order book of a response.
pub fn read_first_book(v: &Json, now: Timestamp) -> (r: Result<Book, String>)
    ensures
        match first_book(v.view(), now) {
            Ok(b) => r matches Ok(x) && x@ == b,
            Err(m) => r matches Err(e) && e@ == m,
        },
{
    let list = match v.as_list() {
        Some(l) => l,
        None => return Err("unexpected response".to_owned()),
    };
    proof {
        lemma_list_view(list@);
    }
    let ghost views = list_view(list@);
    let mut first: Option<Book> = None;
    let mut i: usize = 0;
    while i < list.len()
        invariant
            i <= list@.len(),
            views == list_view(list@),
            views.len() == list@.len(),
            forall|j: int| 0 <= j < list@.len() ==> #[trigger] views[j] == list@[j].view(),
            list_in(v.view()) == Some(views),
            all_books(views, now, 0) == all_books(views, now, i as int),
            i > 0 ==> first is Some && book_of(views[0], now) == Some((first->0)@),
        decreases list@.len() - i,
    {
        assert(views[i as int] == list@[i as int].view());
        match read_book(&list[i], now) {
            Some(b) => {
                if i == 0 {
                    first = Some(b);
                }
            },
            None => return Err("unexpected response".to_owned()),
        }
        i += 1;
    }
    if list.len() == 0 {
        return Err("empty orderbook response".to_owned());
    }
    match first {
        Some(b) => Ok(b),
        None => Err("empty orderbook response".to_owned()),
    }
}

/// The order books of a REST response. Each has its market under `code` or under `market`.
pub open spec fn books_shape() -> Shape {
    list_of(
        Shape::Field(
            "code",
            "market",
            Box::new(Shape::Text),
            Box::new(record_with(
                "orderbook_units",
                list_of(record_with(
                    "ask_price",
                    Shape::Amount,
                    record_with(
                        "bid_price",
                        Shape::Amount,
                        record_with("ask_size", Shape::Amount, record_with("bid_size", Shape::Amount, Shape::End)),
                    ),
                )),
                Shape::End,
            )),
        ),
    )
}

fn books_record() -> (r: Shape)
    ensures
        r == books_shape(),
{
    as_list(
        Shape::Field(
            "code",
            "market",
            Box::new(Shape::Text),
            Box::new(with_field(
                "orderbook_units",
                as_list(with_field(
                    "ask_price",
                    Shape::Amount,
                    with_field(
                        "bid_price",
                        Shape::Amount,
                        with_field("ask_size", Shape::Amount, with_field("bid_size", Shape::Amount, Shape::End)),
                    ),
                )),
                Shape::End,
            )),
        ),
    )
}

/// Reads the order book of a REST response.
pub fn parse_book_rest(bytes: &[u8], now: Timestamp) -> (r: Result<Book, String>)
    ensures
        match read_as(bytes@, books_shape()) {
            Err(m) => r matches Err(e) && e@ == m,
            Ok(v) => match first_book(v, now) {
                Ok(b) => r matches Ok(x) && x@ == b,
                Err(m) => r matches Err(e) && e@ == m,
            },
        },
{
    match parse_as(bytes, &books_record()) {
        Err(e) => Err(e),
        Ok(v) => read_first_book(&v, now),
    }
}

/// The market that a row of the list tells of: nothing for markets that are not in won. The outer
/// option is none where the row is not readable.
pub open spec fn market_of(v: JsonView) -> Option<Option<InstrumentView>> {
    match (
        text_in(field(v, "market"@, 0, 3)),
        text_in(field(v, "korean_name"@, 1, 3)),
        text_in(field(v, "english_name"@, 2, 3)),
    ) {
        (Some(market), Some(korean), Some(english)) => if stands_at(market, "KRW-"@, 0) {
            Some(
                Some(
                    InstrumentView {
                        id: (Venue::Upbit, market),
                        name: korean + " ("@ + english + ")"@,
                        tick: TickRule::Upbit,
                        lot: LotRule { step: dec(1, 8), min_qty: dec(1, 8), min_notional: dec(5000, 0) },
                        tradable: true,
                    },
                ),
            )
        } else {
            Some(None)
        },
        _ => None,
    }
}

/// The markets in won of the first `n` rows; nothing where one is not readable.
pub open spec fn markets_of(s: Seq<JsonView>, n: int) -> Option<Seq<InstrumentView>>
    decreases n,
{
    if n <= 0 {
        Some(Seq::empty())
    } else {
        match (markets_of(s, n - 1), market_of(s[n - 1])) {
            (Some(v), Some(Some(i))) => Some(v.push(i)),
            (Some(v), Some(None)) => Some(v),
            _ => None,
        }
    }
}

/// Instruments as what is known of them.
pub open spec fn instrument_views(v: Seq<Instrument>) -> Seq<InstrumentView> {
    v.map_values(|i: Instrument| i@)
}

/// The markets in a response.
pub open spec fn listed_markets(v: JsonView) -> Option<Seq<InstrumentView>> {
    match list_in(v) {
        Some(s) => markets_of(s, s.len() as int),
        None => None,
    }
}

fn read_market(v: &Json) -> (r: Option<Option<Instrument>>)
    ensures
        match market_of(v.view()) {
            Some(Some(i)) => r matches Some(Some(x)) && x@ == i,
            Some(None) => r matches Some(x) && x is None,
            None => r is None,
        },
{
    let market = v.record_text("market", 0, 3);
    let korean = v.record_text("korean_name", 1, 3);
    let english = v.record_text("english_name", 2, 3);
    match (market, korean, english) {
        (Some(market), Some(korean), Some(english)) => {
            if !begins_with(market.as_str(), "KRW-") {
                return Some(None);
            }
            let mut name = korean.clone();
            name.append(" (");
            name.append(english.as_str());
            name.append(")");
            Some(
                Some(
                    Instrument {
                        id: id(market.as_str()),
                        name,
                        tick: TickRule::Upbit,
                        lot: LotRule {
                            step: Decimal::new(1, 8),
                            min_qty: Decimal::new(1, 8),
                            min_notional: Decimal::new(5000, 0),
                        },
                        tradable: true,
                    },
                ),
            )
        },
        _ => None,
    }
}

proof fn lemma_markets_error(s: Seq<JsonView>, i: int, n: int)
    requires
        0 <= i <= n,
        markets_of(s, i) is None,
    ensures
        markets_of(s, n) is None,
    decreases n,
{
    if i < n {
        lemma_markets_error(s, i, n - 1);
    }
}

/// The markets in a response.
pub fn read_markets(v: &Json) -> (r: Option<Vec<Instrument>>)
    ensures
        match listed_markets(v.view()) {
            Some(s) => r matches Some(x) && instrument_views(x@) == s,
            None => r is None,
        },
{
    let list = match v.as_list() {
        Some(l) => l,
        None => return None,
    };
    proof {
        lemma_list_view(list@);
    }
    let ghost views = list_view(list@);
    let mut out: Vec<Instrument> = Vec::new();
    assert(instrument_views(out@) =~= Seq::empty());
    let mut i: usize = 0;
    while i < list.len()
        invariant
            i <= list@.len(),
            views == list_view(list@),
            views.len() == list@.len(),
            forall|j: int| 0 <= j < list@.len() ==> #[trigger] views[j] == list@[j].view(),
            list_in(v.view()) == Some(views),
            markets_of(views, i as int) == Some(instrument_views(out@)),
        decreases list@.len() - i,
    {
        assert(views[i as int] == list@[i as int].view());
        match read_market(&list[i]) {
            Some(Some(m)) => {
                let ghost before = instrument_views(out@);
                let ghost mv = m@;
                out.push(m);
                assert(instrument_views(out@) =~= before.push(mv));
            },
            Some(None) => {},
            None => {
                proof {
                    lemma_markets_error(views, i + 1, views.len() as int);
                }
                return None;
            },
        }
        i += 1;
    }
    Some(out)
}

/// A list of markets.
pub open spec fn markets_shape() -> Shape {
    list_of(record_with("market", Shape::Text, record_with("korean_name", Shape::Text, record_with("english_name", Shape::Text, Shape::End))))
}

fn markets_record() -> (r: Shape)
    ensures
        r == markets_shape(),
{
    as_list(with_field("market", Shape::Text, with_field("korean_name", Shape::Text, with_field("english_name", Shape::Text, Shape::End))))
}

/// Reads the list of markets and keeps those in won.
pub fn parse_markets(bytes: &[u8]) -> (r: Result<Vec<Instrument>, String>)
    ensures
        match read_as(bytes@, markets_shape()) {
            Err(m) => r matches Err(e) && e@ == m,
            Ok(v) => match listed_markets(v) {
                Some(s) => r matches Ok(x) && instrument_views(x@) == s,
                None => r matches Err(e) && e@ == odd_shape(),
            },
        },
{
    match parse_as(bytes, &markets_record()) {
        Err(e) => Err(e),
        Ok(v) => match read_markets(&v) {
            Some(x) => Ok(x),
            None => Err("unexpected response".to_owned()),
        },
    }
}

/// The numbers in one field of the rows, last row first; nothing where one has none.
pub open spec fn column_reversed(s: Seq<JsonView>, name: Seq<char>, at: int, i: int) -> Option<Seq<Decimal>>
    decreases s.len() - i,
{
    if i >= s.len() {
        Some(Seq::empty())
    } else {
        match (column_reversed(s, name, at, i + 1), decimal_in(field(s[i], name, at, 2))) {
            (Some(v), Some(d)) => Some(v.push(d)),
            _ => None,
        }
    }
}

/// Closes and traded values of a response, oldest first. Daily candles arrive newest first.
pub open spec fn history_of(v: JsonView) -> Option<(Seq<Decimal>, Seq<Decimal>)> {
    match list_in(v) {
        Some(s) => match (
            column_reversed(s, "trade_price"@, 0, 0),
            column_reversed(s, "candle_acc_trade_price"@, 1, 0),
        ) {
            (Some(closes), Some(values)) => Some((closes, values)),
            _ => None,
        },
        None => None,
    }
}

proof fn lemma_column_error(s: Seq<JsonView>, name: Seq<char>, at: int, i: int, j: int)
    requires
        0 <= j <= i,
        column_reversed(s, name, at, i) is None,
    ensures
        column_reversed(s, name, at, j) is None,
    decreases i - j,
{
    if j < i {
        lemma_column_error(s, name, at, i, j + 1);
        if j >= s.len() {
            assert(column_reversed(s, name, at, i) is Some);
        }
    }
}

/// Closes and traded values of a response, oldest first.
pub fn read_history(v: &Json) -> (r: Option<History>)
    ensures
        match history_of(v.view()) {
            Some((closes, values)) => r matches Some(h) && h.closes@ == closes && h.values@ == values,
            None => r is None,
        },
{
    let list = match v.as_list() {
        Some(l) => l,
        None => return None,
    };
    proof {
        lemma_list_view(list@);
    }
    let ghost views = list_view(list@);
    let mut closes: Vec<Decimal> = Vec::new();
    let mut values: Vec<Decimal> = Vec::new();
    let mut i: usize = list.len();
    while i > 0
        invariant
            i <= list@.len(),
            views == list_view(list@),
            views.len() == list@.len(),
            forall|j: int| 0 <= j < list@.len() ==> #[trigger] views[j] == list@[j].view(),
            list_in(v.view()) == Some(views),
            column_reversed(views, "trade_price"@, 0, i as int) == Some(closes@),
            column_reversed(views, "candle_acc_trade_price"@, 1, i as int) == Some(values@),
        decreases i,
    {
        i -= 1;
        assert(views[i as int] == list@[i as int].view());
        match (list[i].record_decimal("trade_price", 0, 2), list[i].record_decimal("candle_acc_trade_price", 1, 2)) {
            (Some(c), Some(x)) => {
                closes.push(c);
                values.push(x);
            },
            _ => {
                proof {
                    if column_reversed(views, "trade_price"@, 0, i as int) is None {
                        lemma_column_error(views, "trade_price"@, 0, i as int, 0);
                    } else {
                        lemma_column_error(views, "candle_acc_trade_price"@, 1, i as int, 0);
                    }
                }
                return None;
            },
        }
    }
    Some(History { closes, values })
}

/// A list of candles.
pub open spec fn candles_shape() -> Shape {
    list_of(record_with("trade_price", Shape::Amount, record_with("candle_acc_trade_price", Shape::Amount, Shape::End)))
}

fn candles_record() -> (r: Shape)
    ensures
        r == candles_shape(),
{
    as_list(with_field("trade_price", Shape::Amount, with_field("candle_acc_trade_price", Shape::Amount, Shape::End)))
}

/// Daily candles arrive newest first.
pub fn parse_candles(bytes: &[u8]) -> (r: Result<History, String>)
    ensures
        match read_as(bytes@, candles_shape()) {
            Err(m) => r matches Err(e) && e@ == m,
            Ok(v) => match history_of(v) {
                Some((closes, values)) => r matches Ok(h) && h.closes@ == closes && h.values@ == values,
                None => r matches Err(e) && e@ == odd_shape(),
            },
        },
{
    match parse_as(bytes, &candles_record()) {
        Err(e) => Err(e),
        Ok(v) => match read_history(&v) {
            Some(h) => Ok(h),
            None => Err("unexpected response".to_owned()),
        },
    }
}

/// The codes of instruments as texts in JSON.
pub open spec fn quoted_codes(ids: Seq<InstrumentId>) -> Seq<Seq<char>> {
    ids.map_values(|i: InstrumentId| json_quoted(i@.1))
}

/// The message that subscribes to books and trades of some codes.
pub open spec fn subscription(codes: Seq<char>) -> Seq<char> {
    "[{\"ticket\":\"atrader\"},{\"codes\":["@ + codes + "],\"type\":\"orderbook\"},{\"codes\":["@ + codes
        + "],\"type\":\"trade\"}]"@
}

/// The message that subscribes to books and trades of instruments.
pub fn subscribe_message(ids: &[InstrumentId]) -> (r: String)
    ensures
        r@ == subscription(joined(quoted_codes(ids@), ","@)),
{
    let mut codes: Vec<String> = Vec::new();
    let mut i: usize = 0;
    while i < ids.len()
        invariant
            i <= ids@.len(),
            texts(codes@) == quoted_codes(ids@.take(i as int)),
        decreases ids@.len() - i,
    {
        let c = json_quote(ids[i].symbol.as_str());
        let ghost cv = c@;
        let ghost before = texts(codes@);
        codes.push(c);
        assert(texts(codes@) =~= before.push(cv));
        assert(quoted_codes(ids@.take(i + 1)) =~= quoted_codes(ids@.take(i as int)).push(cv));
        i += 1;
    }
    assert(ids@.take(i as int) =~= ids@);
    let list = join_texts(&codes, ",");
    let mut m = "[{\"ticket\":\"atrader\"},{\"codes\":[".to_owned();
    m.append(list.as_str());
    m.append("],\"type\":\"orderbook\"},{\"codes\":[");
    m.append(list.as_str());
    m.append("],\"type\":\"trade\"}]");
    m
}

} // verus!
