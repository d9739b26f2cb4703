//! Binance USDT spot feed.
use crate::decimal::{zero, Decimal};
use crate::domain::{Book, BookView, InstrumentId, Level, Trade, TradeView, Venue};
use crate::feed::upbit::instrument_views;
use crate::feed::{event_view, EventView, MarketEvent};
use crate::json::{
    decimal_in, field, has_member, i64_in, lemma_list_view, list_in, list_view, member, odd_shape, parse_rows, rows_read,
    rows_view, text_in, Json, JsonView,
};
use crate::record::{as_list, list_of, parse_as, read_as, record_with, with_field, Shape};
use crate::stats::History;
use crate::text::{
    begins_with, cut, cut_at, join_texts, joined, lowercase, lowered, same_text, stands_at, texts, uppercase, uppered,
};
use crate::time::{at_millis, millis_or, Timestamp};
use crate::venue::{Instrument, InstrumentView, LotRule, TickRule};
use vstd::prelude::*;

verus! {

/// The price level in a pair.
pub open spec fn pair_level(v: JsonView) -> Option<Level> {
    match list_in(v) {
        Some(s) => if s.len() == 2 {
            match (decimal_in(s[0]), decimal_in(s[1])) {
                (Some(price), Some(qty)) => Some(Level { price, qty }),
                _ => None,
            }
        } else {
            None
        },
        None => None,
    }
}

/// The price levels in the first `n` pairs; nothing where one is none.
pub open spec fn pair_levels(s: Seq<JsonView>, n: int) -> Option<Seq<Level>>
    decreases n,
{
    if n <= 0 {
        Some(Seq::empty())
    } else {
        match (pair_levels(s, n - 1), pair_level(s[n - 1])) {
            (Some(v), Some(l)) => Some(v.push(l)),
            _ => None,
        }
    }
}

/// The price levels in a list of pairs.
pub open spec fn levels_in(v: JsonView) -> Option<Seq<Level>> {
    match list_in(v) {
        Some(s) => pair_levels(s, s.len() as int),
        None => None,
    }
}

/// The order book of a symbol in a value.
pub open spec fn depth_of(symbol: Seq<char>, v: JsonView, now: Timestamp) -> Option<BookView> {
    match (levels_in(field(v, "bids"@, 0, 2)), levels_in(field(v, "asks"@, 1, 2))) {
        (Some(bids), Some(asks)) => Some(
            BookView {
                instrument: (Venue::Binance, uppered(symbol)),
                bids,
                asks,
                prev_close: None,
                received_at: now,
            },
        ),
        _ => None,
    }
}

/// The trade print in a value.
pub open spec fn trade_of(v: JsonView, now: Timestamp) -> Option<TradeView> {
    match (
        text_in(field(v, "s"@, 0, 4)),
        decimal_in(field(v, "p"@, 1, 4)),
        decimal_in(field(v, "q"@, 2, 4)),
        i64_in(field(v, "T"@, 3, 4)),
    ) {
        (Some(symbol), Some(price), Some(qty), Some(ms)) => Some(
            TradeView {
                instrument: (Venue::Binance, uppered(symbol)),
                price,
                qty,
                at: millis_or(ms as int, now),
            },
        ),
        _ => None,
    }
}

/// The payload of a combined-stream frame.
pub open spec fn payload(v: JsonView) -> Option<JsonView> {
    match v {
        JsonView::List(s) => if s.len() == 2 {
            Some(s[1])
        } else {
            None
        },
        _ => if has_member(v, "data"@) {
            Some(member(v, "data"@))
        } else {
            None
        },
    }
}

/// The event in a combined-stream frame: nothing in streams other than depth and trade.
pub open spec fn frame_event(v: JsonView, now: Timestamp) -> Result<Option<EventView>, Seq<char>> {
    match (text_in(field(v, "stream"@, 0, 2)), payload(v)) {
        (Some(stream), Some(data)) => match cut(stream, '@') {
            None => Err("bad stream name "@ + stream),
            Some((symbol, kind)) => if stands_at(kind, "depth"@, 0) {
                match depth_of(symbol, data, now) {
                    Some(b) => Ok(Some(EventView::Book(b))),
                    None => Err(odd_shape()),
                }
            } else if kind == "trade"@ {
                match trade_of(data, now) {
                    Some(t) => Ok(Some(EventView::Trade(t))),
                    None => Err(odd_shape()),
                }
            } else {
                Ok(None)
            },
        },
        _ => Err(odd_shape()),
    }
}

fn id(symbol: &str) -> (r: InstrumentId)
    ensures
        r@ == (Venue::Binance, uppered(symbol@)),
{
    InstrumentId { venue: Venue::Binance, symbol: uppercase(symbol) }
}

proof fn lemma_levels_error(s: Seq<JsonView>, i: int, n: int)
    requires
        0 <= i <= n,
        pair_levels(s, i) is None,
    ensures
        pair_levels(s, n) is None,
    decreases n,
{
    if i < n {
        lemma_levels_error(s, i, n - 1);
    }
}

fn read_pair(v: &Json) -> (r: Option<Level>)
    ensures
        r == pair_level(v.view()),
{
    match v.as_list() {
        Some(l) => {
            proof {
                lemma_list_view(l@);
            }
            if l.len() != 2 {
                return None;
            }
            assert(list_view(l@)[0] == l@[0].view());
            assert(list_view(l@)[1] == l@[1].view());
            match (l[0].as_decimal(), l[1].as_decimal()) {
                (Some(price), Some(qty)) => Some(Level { price, qty }),
                _ => None,
            }
        },
        None => None,
    }
}

fn read_levels(v: Option<&Json>) -> (r: Option<Vec<Level>>)
    ensures
        match levels_in(match v {
            Some(j) => j.view(),
            None => JsonView::Null,
        }) {
            Some(s) => r matches Some(x) && x@ == s,
            None => r is None,
        },
{
    let list = match v {
        Some(j) => match j.as_list() {
            Some(l) => l,
            None => return None,
        },
        None => return None,
    };
    proof {
        lemma_list_view(list@);
    }
    let ghost views = list_view(list@);
    let mut out: Vec<Level> = Vec::new();
    let mut i: usize = 0;
    while i < list.len()
        invariant
            i <= list@.len(),
            views == list_view(list@),
            views.len() == list@.len(),
            forall|j: int| 0 <= j < list@.len() ==> #[trigger] views[j] == list@[j].view(),
            v is Some && list_in((v->0).view()) == Some(views),
            pair_levels(views, i as int) == Some(out@),
        decreases list@.len() - i,
    {
        assert(views[i as int] == list@[i as int].view());
        match read_pair(&list[i]) {
            Some(l) => out.push(l),
            None => {
                proof {
                    lemma_levels_error(views, i + 1, views.len() as int);
                }
                return None;
            },
        }
        i += 1;
    }
    Some(out)
}

/// The order book of a symbol in a value.
pub fn read_depth(symbol: &str, v: &Json, now: Timestamp) -> (r: Option<Book>)
    ensures
        match depth_of(symbol@, v.view(), now) {
            Some(b) => r matches Some(x) && x@ == b,
            None => r is None,
        },
{
    let bids = read_levels(v.record_field("bids", 0, 2));
    let asks = read_levels(v.record_field("asks", 1, 2));
    match (bids, asks) {
        (Some(bids), Some(asks)) => Some(
            Book { instrument: id(symbol), bids, asks, prev_close: None, received_at: now },
        ),
        _ => None,
    }
}

fn read_trade(v: &Json, now: Timestamp) -> (r: Option<Trade>)
    ensures
        match trade_of(v.view(), now) {
            Some(t) => r matches Some(x) && x@ == t,
            None => r is None,
        },
{
    let ms = match v.record_field("T", 3, 4) {
        Some(j) => j.as_i64(),
        None => None,
    };
    match (v.record_text("s", 0, 4), v.record_decimal("p", 1, 4), v.record_decimal("q", 2, 4), ms) {
        (Some(symbol), Some(price), Some(qty), Some(ms)) => Some(
            Trade { instrument: id(symbol.as_str()), price, qty, at: at_millis(ms, now) },
        ),
        _ => None,
    }
}

fn read_payload<'a>(v: &'a Json) -> (r: Option<Option<&'a Json>>)
    ensures
        match payload(v.view()) {
            Some(d) => match r {
                Some(Some(j)) => j.view() == d,
                Some(None) => d == JsonView::Null,
                None => false,
            },
            None => r is None,
        },
{
    match v {
        Json::List(l) => {
            proof {
                lemma_list_view(l@);
            }
            if l.len() == 2 {
                assert(list_view(l@)[1] == l@[1].view());
                Some(Some(&l[1]))
            } else {
                None
            }
        },
        _ => if v.has("data") {
            Some(v.get("data"))
        } else {
            None
        },
    }
}

/// The event in a combined-stream frame.
pub fn read_frame(v: &Json, now: Timestamp) -> (r: Result<Option<MarketEvent>, String>)
    ensures
        match frame_event(v.view(), now) {
            Ok(e) => r matches Ok(x) && event_view(x) == e,
            Err(m) => r matches Err(e) && e@ == m,
        },
{
    let stream = match v.record_text("stream", 0, 2) {
        Some(s) => s,
        None => return Err("unexpected response".to_owned()),
    };
    let data = match read_payload(v) {
        Some(d) => d,
        None => return Err("unexpected response".to_owned()),
    };
    let (symbol, kind) = match cut_at(stream.as_str(), '@') {
        Some(p) => p,
        None => {
            let mut m = "bad stream name ".to_owned();
            m.append(stream.as_str());
            return Err(m);
        },
    };
    let null = Json::Null;
    let data = match data {
        Some(j) => j,
        None => &null,
    };
    if begins_with(kind.as_str(), "depth") {
        match read_depth(symbol.as_str(), data, now) {
            Some(b) => Ok(Some(MarketEvent::Book(b))),
            None => Err("unexpected response".to_owned()),
        }
    } else if same_text(kind.as_str(), "trade") {
        match read_trade(data, now) {
            Some(t) => Ok(Some(MarketEvent::Trade(t))),
            None => Err("unexpected response".to_owned()),
        }
    } else {
        Ok(None)
    }
}

/// A combined-stream frame.
pub open spec fn frame_shape() -> Shape {
    record_with("stream", Shape::Text, record_with("data", Shape::Any(1), Shape::End))
}

fn frame_record() -> (r: Shape)
    ensures
        r == frame_shape(),
{
    with_field("stream", Shape::Text, with_field("data", Shape::Any(1), Shape::End))
}

/// Parse one combined-stream frame. Streams other than depth and trade yield `None`.
pub fn parse_ws(bytes: &[u8], now: Timestamp) -> (r: Result<Option<MarketEvent>, String>)
    ensures
        match read_as(bytes@, frame_shape()) {
            Err(m) => r matches Err(e) && e@ == m,
            Ok(v) => match frame_event(v, now) {
                Ok(e) => r matches Ok(x) && event_view(x) == e,
                Err(m) => r matches Err(e) && e@ == m,
            },
        },
{
    match parse_as(bytes, &frame_record()) {
        Err(e) => Err(e),
        Ok(v) => read_frame(&v, now),
    }
}

/// An order book of a REST response.
pub open spec fn depth_shape() -> Shape {
    record_with("bids", Shape::Any(1), record_with("asks", Shape::Any(1), Shape::End))
}

fn depth_record() -> (r: Shape)
    ensures
        r == depth_shape(),
{
    with_field("bids", Shape::Any(1), with_field("asks", Shape::Any(1), Shape::End))
}

/// Reads the order book of a REST response.
pub fn parse_depth(symbol: &str, bytes: &[u8], now: Timestamp) -> (r: Result<Book, String>)
    ensures
        match read_as(bytes@, depth_shape()) {
            Err(m) => r matches Err(e) && e@ == m,
            Ok(v) => match depth_of(symbol@, v, now) {
                Some(b) => r matches Ok(x) && x@ == b,
                None => r matches Err(e) && e@ == odd_shape(),
            },
        },
{
    match parse_as(bytes, &depth_record()) {
        Err(e) => Err(e),
        Ok(v) => match read_depth(symbol, &v, now) {
            Some(b) => Ok(b),
            None => Err("unexpected response".to_owned()),
        },
    }
}

/// The first filter of a kind from index `i` on.
pub open spec fn filter_of(filters: Seq<JsonView>, kind: Seq<char>, i: int) -> Option<JsonView>
    decreases filters.len() - i,
{
    if i >= filters.len() {
        None
    } else if text_in(member(filters[i], "filterType"@)) == Some(kind) {
        Some(filters[i])
    } else {
        filter_of(filters, kind, i + 1)
    }
}

/// A number in the filter of a kind, without trailing zeros.
pub open spec fn filter_value(filters: Seq<JsonView>, kind: Seq<char>, key: Seq<char>) -> Option<Decimal> {
    match filter_of(filters, kind, 0) {
        Some(f) => match text_in(member(f, key)) {
            Some(s) => match Decimal::parsed(s) {
                Some(d) => Some(d.normal()),
                None => None,
            },
            None => None,
        },
        None => None,
    }
}

/// The least notional in the filters.
pub open spec fn least_notional(filters: Seq<JsonView>) -> Decimal {
    match filter_value(filters, "NOTIONAL"@, "minNotional"@) {
        Some(d) => d,
        None => match filter_value(filters, "MIN_NOTIONAL"@, "minNotional"@) {
            Some(d) => d,
            None => zero(),
        },
    }
}

/// The instrument that a symbol tells of: nothing for one that does not trade, is not in USDT, or
/// has no tick or lot. The outer option is none where it is not readable.
pub open spec fn symbol_of(v: JsonView) -> Option<Option<InstrumentView>> {
    match (
        text_in(field(v, "symbol"@, 0, 5)),
        text_in(field(v, "status"@, 1, 5)),
        text_in(field(v, "baseAsset"@, 2, 5)),
        text_in(field(v, "quoteAsset"@, 3, 5)),
        list_in(field(v, "filters"@, 4, 5)),
    ) {
        (Some(symbol), Some(status), Some(base), Some(quote), Some(filters)) => if status == "TRADING"@ && quote
            == "USDT"@ {
            match (
                filter_value(filters, "PRICE_FILTER"@, "tickSize"@),
                filter_value(filters, "LOT_SIZE"@, "stepSize"@),
                filter_value(filters, "LOT_SIZE"@, "minQty"@),
            ) {
                (Some(tick), Some(step), Some(min_qty)) => Some(
                    Some(
                        InstrumentView {
                            id: (Venue::Binance, uppered(symbol)),
                            name: base + "/"@ + quote,
                            tick: TickRule::Fixed(tick),
                            lot: LotRule { step, min_qty, min_notional: least_notional(filters) },
                            tradable: true,
                        },
                    ),
                ),
                _ => Some(None),
            }
        } else {
            Some(None)
        },
        _ => None,
    }
}

/// The instruments of the first `n` symbols; nothing where one is not readable.
pub open spec fn symbols_of(s: Seq<JsonView>, n: int) -> Option<Seq<InstrumentView>>
    decreases n,
{
    if n <= 0 {
        Some(Seq::empty())
    } else {
        match (symbols_of(s, n - 1), symbol_of(s[n - 1])) {
            (Some(v), Some(Some(i))) => Some(v.push(i)),
            (Some(v), Some(None)) => Some(v),
            _ => None,
        }
    }
}

/// The instruments in a response.
pub open spec fn listed_symbols(v: JsonView) -> Option<Seq<InstrumentView>> {
    match list_in(field(v, "symbols"@, 0, 1)) {
        Some(s) => symbols_of(s, s.len() as int),
        None => None,
    }
}

fn read_filter(filters: &Vec<Json>, kind: &str, key: &str) -> (r: Option<Decimal>)
    ensures
        r == filter_value(list_view(filters@), kind@, key@),
{
    proof {
        lemma_list_view(filters@);
    }
    let ghost views = list_view(filters@);
    let mut i: usize = 0;
    while i < filters.len()
        invariant
            i <= filters@.len(),
            views == list_view(filters@),
            views.len() == filters@.len(),
            forall|j: int| 0 <= j < filters@.len() ==> #[trigger] views[j] == filters@[j].view(),
            filter_of(views, kind@, 0) == filter_of(views, kind@, i as int),
        decreases filters@.len() - i,
    {
        assert(views[i as int] == filters@[i as int].view());
        let of_kind = match filters[i].text_member("filterType") {
            Some(s) => same_text(s.as_str(), kind),
            None => false,
        };
        if of_kind {
            return match filters[i].text_member(key) {
                Some(s) => match Decimal::parse(s.as_str()) {
                    Some(d) => Some(d.normalize()),
                    None => None,
                },
                None => None,
            };
        }
        i += 1;
    }
    None
}

fn read_symbol(v: &Json) -> (r: Option<Option<Instrument>>)
    ensures
        match symbol_of(v.view()) {
            Some(Some(i)) => r matches Some(Some(x)) && x@ == i,
            Some(None) => r matches Some(x) && x is None,
            None => r is None,
        },
{
    let filters = match v.record_field("filters", 4, 5) {
        Some(j) => j.as_list(),
        None => None,
    };
    match (
        v.record_text("symbol", 0, 5),
        v.record_text("status", 1, 5),
        v.record_text("baseAsset", 2, 5),
        v.record_text("quoteAsset", 3, 5),
        filters,
    ) {
        (Some(symbol), Some(status), Some(base), Some(quote), Some(filters)) => {
            if !same_text(status.as_str(), "TRADING") || !same_text(quote.as_str(), "USDT") {
                return Some(None);
            }
            let tick = read_filter(filters, "PRICE_FILTER", "tickSize");
            let step = read_filter(filters, "LOT_SIZE", "stepSize");
            let min_qty = read_filter(filters, "LOT_SIZE", "minQty");
            match (tick, step, min_qty) {
                (Some(tick), Some(step), Some(min_qty)) => {
                    let min_notional = match read_filter(filters, "NOTIONAL", "minNotional") {
                        Some(d) => d,
                        None => match read_filter(filters, "MIN_NOTIONAL", "minNotional") {
                            Some(d) => d,
                            None => Decimal::zero(),
                        },
                    };
                    let mut name = base.clone();
                    name.append("/");
                    name.append(quote.as_str());
                    Some(
                        Some(
                            Instrument {
                                id: id(symbol.as_str()),
                                name,
                                tick: TickRule::Fixed(tick),
                                lot: LotRule { step, min_qty, min_notional },
                                tradable: true,
                            },
                        ),
                    )
                },
                _ => Some(None),
            }
        },
        _ => None,
    }
}

proof fn lemma_symbols_error(s: Seq<JsonView>, i: int, n: int)
    requires
        0 <= i <= n,
        symbols_of(s, i) is None,
    ensures
        symbols_of(s, n) is None,
    decreases n,
{
    if i < n {
        lemma_symbols_error(s, i, n - 1);
    }
}

/// The instruments in a response.
pub fn read_symbols(v: &Json) -> (r: Option<Vec<Instrument>>)
    ensures
        match listed_symbols(v.view()) {
            Some(s) => r matches Some(x) && instrument_views(x@) == s,
            None => r is None,
        },
{
    let list = match v.record_field("symbols", 0, 1) {
        Some(j) => match j.as_list() {
            Some(l) => l,
            None => return None,
        },
        None => return None,
    };
    proof {
        lemma_list_view(list@);
    }
    let ghost views = list_view(list@);
    let mut out: Vec<Instrument> = Vec::new();
    assert(instrument_views(out@) =~= Seq::empty());
    let mut i: usize = 0;
    while i < list.len()
        invariant
            i <= list@.len(),
            views == list_view(list@),
            views.len() == list@.len(),
            forall|j: int| 0 <= j < list@.len() ==> #[trigger] views[j] == list@[j].view(),
            list_in(field(v.view(), "symbols"@, 0, 1)) == Some(views),
            symbols_of(views, i as int) == Some(instrument_views(out@)),
        decreases list@.len() - i,
    {
        assert(views[i as int] == list@[i as int].view());
        match read_symbol(&list[i]) {
            Some(Some(m)) => {
                let ghost before = instrument_views(out@);
                let ghost mv = m@;
                out.push(m);
                assert(instrument_views(out@) =~= before.push(mv));
            },
            Some(None) => {},
            None => {
                proof {
                    lemma_symbols_error(views, i + 1, views.len() as int);
                }
                return None;
            },
        }
        i += 1;
    }
    Some(out)
}

/// A list of symbols.
pub open spec fn symbols_shape() -> Shape {
    record_with(
        "symbols",
        list_of(
            record_with(
                "symbol",
                Shape::Text,
                record_with(
                    "status",
                    Shape::Text,
                    record_with(
                        "baseAsset",
                        Shape::Text,
                        record_with("quoteAsset", Shape::Text, record_with("filters", list_of(Shape::Any(4)), Shape::End)),
                    ),
                ),
            ),
        ),
        Shape::End,
    )
}

fn symbols_record() -> (r: Shape)
    ensures
        r == symbols_shape(),
{
    with_field(
        "symbols",
        as_list(
            with_field(
                "symbol",
                Shape::Text,
                with_field(
                    "status",
                    Shape::Text,
                    with_field(
                        "baseAsset",
                        Shape::Text,
                        with_field("quoteAsset", Shape::Text, with_field("filters", as_list(Shape::Any(4)), Shape::End)),
                    ),
                ),
            ),
        ),
        Shape::End,
    )
}

/// Reads the list of symbols and keeps those that trade in USDT.
pub fn parse_exchange_info(bytes: &[u8]) -> (r: Result<Vec<Instrument>, String>)
    ensures
        match read_as(bytes@, symbols_shape()) {
            Err(m) => r matches Err(e) && e@ == m,
            Ok(v) => match listed_symbols(v) {
                Some(s) => r matches Ok(x) && instrument_views(x@) == s,
                None => r matches Err(e) && e@ == odd_shape(),
            },
        },
{
    match parse_as(bytes, &symbols_record()) {
        Err(e) => Err(e),
        Ok(v) => match read_symbols(&v) {
            Some(x) => Ok(x),
            None => Err("unexpected response".to_owned()),
        },
    }
}

/// The number at an index of a row, or what is wrong with it.
pub open spec fn kline_field(row: Seq<JsonView>, i: int) -> Result<Decimal, Seq<char>> {
    if 0 <= i < row.len() {
        match text_in(row[i]) {
            Some(s) => Decimal::parsed_or_fault(s),
            None => Err(missing_field(i)),
        }
    } else {
        Err(missing_field(i))
    }
}

/// What is said of a missing field.
pub open spec fn missing_field(i: int) -> Seq<char> {
    if i == 4 {
        "kline field 4 missing"@
    } else {
        "kline field 7 missing"@
    }
}

/// The numbers at an index of the first `n` rows, or what is wrong with the first bad one.
pub open spec fn kline_column(s: Seq<Seq<JsonView>>, i: int, n: int) -> Result<Seq<Decimal>, Seq<char>>
    decreases n,
{
    if n <= 0 {
        Ok(Seq::empty())
    } else {
        match kline_column(s, i, n - 1) {
            Err(m) => Err(m),
            Ok(v) => match kline_field(s[n - 1], i) {
                Ok(d) => Ok(v.push(d)),
                Err(m) => Err(m),
            },
        }
    }
}

/// Closes and traded values of rows, oldest first.
pub open spec fn history_of(s: Seq<Seq<JsonView>>) -> Result<(Seq<Decimal>, Seq<Decimal>), Seq<char>> {
    match kline_column(s, 4, s.len() as int) {
        Err(m) => Err(m),
        Ok(closes) => match kline_column(s, 7, s.len() as int) {
            Err(m) => Err(m),
            Ok(values) => Ok((closes, values)),
        },
    }
}

fn read_kline(row: &Vec<Json>, i: usize) -> (r: Result<Decimal, String>)
    requires
        i == 4 || i == 7,
    ensures
        match kline_field(list_view(row@), i as int) {
            Ok(d) => r == Ok::<Decimal, String>(d),
            Err(m) => r matches Err(e) && e@ == m,
        },
{
    proof {
        lemma_list_view(row@);
    }
    let text = if i < row.len() {
        row[i].as_text()
    } else {
        None
    };
    match text {
        Some(s) => Decimal::parse_or_fault(s.as_str()),
        None => if i == 4 {
            Err("kline field 4 missing".to_owned())
        } else {
            Err("kline field 7 missing".to_owned())
        },
    }
}

proof fn lemma_column_error(s: Seq<Seq<JsonView>>, f: int, i: int, n: int)
    requires
        0 <= i <= n,
        kline_column(s, f, i) is Err,
    ensures
        kline_column(s, f, n) == kline_column(s, f, i),
    decreases n,
{
    if i < n {
        lemma_column_error(s, f, i, n - 1);
    }
}

fn read_column(rows: &Vec<Vec<Json>>, f: usize) -> (r: Result<Vec<Decimal>, String>)
    requires
        f == 4 || f == 7,
    ensures
        match kline_column(rows_view(rows@), f as int, rows@.len() as int) {
            Ok(s) => r matches Ok(v) && v@ == s,
            Err(m) => r matches Err(e) && e@ == m,
        },
{
    let ghost views = rows_view(rows@);
    let mut out: Vec<Decimal> = Vec::new();
    let mut i: usize = 0;
    while i < rows.len()
        invariant
            i <= rows@.len(),
            f == 4 || f == 7,
            views == rows_view(rows@),
            kline_column(views, f as int, i as int) == Ok::<Seq<Decimal>, Seq<char>>(out@),
        decreases rows@.len() - i,
    {
        assert(views[i as int] == list_view(rows@[i as int]@));
        match read_kline(&rows[i], f) {
            Ok(d) => out.push(d),
            Err(e) => {
                proof {
                    lemma_column_error(views, f as int, i + 1, views.len() as int);
                }
                return Err(e);
            },
        }
        i += 1;
    }
    Ok(out)
}

/// Closes and traded values of rows, oldest first.
pub fn read_history(rows: &Vec<Vec<Json>>) -> (r: Result<History, String>)
    ensures
        match history_of(rows_view(rows@)) {
            Ok((closes, values)) => r matches Ok(h) && h.closes@ == closes && h.values@ == values,
            Err(m) => r matches Err(e) && e@ == m,
        },
{
    match read_column(rows, 4) {
        Ok(closes) => match read_column(rows, 7) {
            Ok(values) => Ok(History { closes, values }),
            Err(e) => Err(e),
        },
        Err(e) => Err(e),
    }
}

/// Daily klines, oldest first: index 4 is the close, index 7 the quote-asset volume.
pub fn parse_klines(bytes: &[u8]) -> (r: Result<History, String>)
    ensures
        match rows_read(bytes@) {
            Err(m) => r matches Err(e) && e@ == m,
            Ok(s) => match history_of(s) {
                Ok((closes, values)) => r matches Ok(h) && h.closes@ == closes && h.values@ == values,
                Err(m) => r matches Err(e) && e@ == m,
            },
        },
{
    match parse_rows(bytes) {
        Err(e) => Err(e),
        Ok(rows) => read_history(&rows),
    }
}

/// The streams of one symbol.
pub open spec fn streams_of(symbol: Seq<char>) -> Seq<char> {
    lowered(symbol) + "@depth20@100ms/"@ + lowered(symbol) + "@trade"@
}

/// The streams of each instrument.
pub open spec fn all_streams(ids: Seq<InstrumentId>) -> Seq<Seq<char>> {
    ids.map_values(|i: InstrumentId| streams_of(i@.1))
}

/// The address of the combined stream of instruments.
pub fn stream_url(ids: &[InstrumentId]) -> (r: String)
    ensures
        r@ == "wss://stream.binance.com:9443/stream?streams="@ + joined(all_streams(ids@), "/"@),
{
    let mut streams: Vec<String> = Vec::new();
    let mut i: usize = 0;
    while i < ids.len()
        invariant
            i <= ids@.len(),
            texts(streams@) == all_streams(ids@.take(i as int)),
        decreases ids@.len() - i,
    {
        let s = lowercase(ids[i].symbol.as_str());
        let mut t = s.clone();
        t.append("@depth20@100ms/");
        t.append(s.as_str());
        t.append("@trade");
        let ghost tv = t@;
        let ghost before = texts(streams@);
        streams.push(t);
        assert(texts(streams@) =~= before.push(tv));
        assert(all_streams(ids@.take(i + 1)) =~= all_streams(ids@.take(i as int)).push(tv));
        i += 1;
    }
    assert(ids@.take(i as int) =~= ids@);
    let mut m = "wss://stream.binance.com:9443/stream?streams=".to_owned();
    m.append(join_texts(&streams, "/").as_str());
    m
}

} // verus!
