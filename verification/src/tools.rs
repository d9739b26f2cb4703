//! The `trader` capability: what an Attacca agent can do with ATrader.
use crate::accounts::AccountRow;
use crate::alerts::{Alert, Condition, ConditionView};
use crate::broker::taking::lemma_mid;
use crate::broker::{OrderError, OrderRequest, OrderType, RequestView, Tif};
use crate::dates::{date_read, read_date};
use crate::decimal::{
    dec, lemma_dec_parts, lemma_unit, one, opt_over, padded_digits, representable, unit, Decimal,
};
use crate::domain::{id_parsed, id_text, quote, quoted, Currency, InstrumentId, Level, Side, Venue};
use crate::fundamentals::page_text;
use crate::indicators::{asked, IndicatorSpec};
use crate::ledger::LedgerError;
use crate::screen::text_view;
use crate::sim::Size;
use crate::store::ledger_message;
use crate::text::{
    begins_with, chars_of, int_shown, int_text, same_text, stands_at, text_of, trim, trimmed, uppercase, uppered,
};
use crate::time::{day_of, quotient_to_zero, split_second, Timestamp, NANOS_PER_SEC};
use vstd::prelude::*;

pub mod dto;
pub mod plain;
pub mod report;
pub mod schema;
pub mod worth;

pub use crate::broker::BookSides;
pub use dto::{
    AccountInfo, AlertInput, AlertView, ConversionView, FillView, FilingText, InstrumentInfo, KindDto, OrderInput,
    OrderView, SideDto, TifDto,
};

verus! {

/// How old data may be, in seconds, before it is stale.
pub const STALE_AFTER_SECS: i128 = 5;

/// How many quotes one call may ask for.
pub const MAX_QUOTES: usize = 20;

/// How many active alerts an account may have.
pub const MAX_ALERTS: usize = 50;

/// A value that helps to mend a refused order.
#[derive(Debug, Clone, Copy, PartialEq)]
pub enum Datum {
    Time(Option<Timestamp>),
    Whole(Option<i64>),
    Number(Decimal),
}

/// The kind of an error: wrong parameters, or one with a stable code.
#[derive(Debug, Clone, Copy)]
pub enum ToolCode {
    InvalidParams,
    Coded(&'static str),
}

/// An error as the agent sees it: a stable code plus the fields needed to recover.
#[derive(Debug)]
pub struct ToolError {
    pub code: ToolCode,
    pub message: String,
    pub data: Vec<(&'static str, Datum)>,
    pub retriable: bool,
}

/// What an error says; no code means wrong parameters.
pub ghost struct ErrorView {
    pub code: Option<Seq<char>>,
    pub message: Seq<char>,
    pub data: Seq<(Seq<char>, Datum)>,
    pub retriable: bool,
}

impl View for ToolError {
    type V = ErrorView;

    open spec fn view(&self) -> ErrorView {
        ErrorView {
            code: match self.code {
                ToolCode::InvalidParams => None,
                ToolCode::Coded(c) => Some(c@),
            },
            message: self.message@,
            data: self.data@.map_values(|d: (&'static str, Datum)| (d.0@, d.1)),
            retriable: self.retriable,
        }
    }
}

/// Wrong parameters.
pub open spec fn bad_error(message: Seq<char>) -> ErrorView {
    ErrorView { code: None, message, data: Seq::empty(), retriable: false }
}

/// An error with a code.
pub open spec fn coded_error(code: Seq<char>, message: Seq<char>, data: Seq<(Seq<char>, Datum)>) -> ErrorView {
    ErrorView { code: Some(code), message, data, retriable: false }
}

/// Something that failed elsewhere and may be tried again.
pub open spec fn upstream_error(message: Seq<char>) -> ErrorView {
    ErrorView { code: Some("UPSTREAM_ERROR"@), message, data: Seq::empty(), retriable: true }
}

pub fn bad(message: String) -> (r: ToolError)
    ensures
        r@ == bad_error(message@),
{
    let e = ToolError { code: ToolCode::InvalidParams, message, data: Vec::new(), retriable: false };
    assert(e@.data =~= Seq::empty());
    e
}

fn coded(code: &'static str, message: String) -> (r: ToolError)
    ensures
        r@ == coded_error(code@, message@, Seq::empty()),
{
    let e = ToolError { code: ToolCode::Coded(code), message, data: Vec::new(), retriable: false };
    assert(e@.data =~= Seq::empty());
    e
}

/// Something that failed elsewhere and may be tried again.
pub fn upstream(message: String) -> (r: ToolError)
    ensures
        r@ == upstream_error(message@),
{
    let e = ToolError { code: ToolCode::Coded("UPSTREAM_ERROR"), message, data: Vec::new(), retriable: true };
    assert(e@.data =~= Seq::empty());
    e
}

/// What the debug format of `chrono::DateTime<Utc>` prints of an instant.
pub uninterp spec fn time_shown(nanos: int) -> Seq<char>;

/// Calls the debug format of `chrono::DateTime<Utc>`. Claimed: the text depends on the instant
/// alone.
#[verifier::external_body]
fn show_instant(secs: i64, nanos: u32) -> (r: String)
    requires
        crate::time::FIRST_SECOND <= secs <= crate::time::LAST_SECOND,
        nanos < 1_000_000_000,
    ensures
        r@ == time_shown(secs * NANOS_PER_SEC + nanos),
{
    format!("{:?}", chrono::DateTime::from_timestamp(secs, nanos).expect("the instant is within the calendar"))
}

fn show_time(t: Timestamp) -> (r: String)
    ensures
        r@ == time_shown(t.at()),
{
    proof {
        use_type_invariant(t);
    }
    let s = t.secs();
    let n = t.nanos() - s as i128 * NANOS_PER_SEC;
    show_instant(s, n as u32)
}

/// The message of a refused order.
pub open spec fn order_text(e: OrderError<Seq<char>>) -> Seq<char> {
    match e {
        OrderError::UnknownAccount => "unknown account"@,
        OrderError::UnknownInstrument => "unknown instrument"@,
        OrderError::NotTradable => "instrument is not tradable"@,
        OrderError::MarketClosed { next_open } => "market closed; next open "@ + (match next_open {
            Some(t) => "Some("@ + time_shown(t.at()) + ")"@,
            None => "None"@,
        }),
        OrderError::StaleData { age_secs } => "market data is stale ("@ + (match age_secs {
            Some(n) => "Some("@ + int_shown(n as int) + ")"@,
            None => "None"@,
        }) + " s old)"@,
        OrderError::NoLiquidity => "no liquidity on the book"@,
        OrderError::InvalidTick { lower, upper } => "price is not on a valid tick; nearest "@ + lower.text() + " / "@
            + upper.text(),
        OrderError::InvalidQty { step, min_qty, min_notional } => "invalid quantity: step "@ + step.text()
            + ", min qty "@ + min_qty.text() + ", min notional "@ + min_notional.text(),
        OrderError::PriceLimit { lower, upper } => "price outside the daily limit "@ + lower.text() + ".."@
            + upper.text(),
        OrderError::InsufficientFunds { required, available } => "insufficient funds: need "@ + required.text()
            + ", available "@ + available.text(),
        OrderError::InsufficientPosition { available } => "insufficient position: available "@ + available.text(),
        OrderError::NotFound => "order not found"@,
        OrderError::InvalidRequest(m) => "invalid request: "@ + m,
        OrderError::Ledger(e) => ledger_message(e),
    }
}

/// The stable code of a refused order.
pub open spec fn order_code(e: OrderError<Seq<char>>) -> Seq<char> {
    match e {
        OrderError::MarketClosed { .. } => "MARKET_CLOSED"@,
        OrderError::StaleData { .. } => "STALE_DATA"@,
        OrderError::NoLiquidity => "NO_LIQUIDITY"@,
        OrderError::InvalidTick { .. } => "INVALID_TICK"@,
        OrderError::InvalidQty { .. } => "INVALID_QTY"@,
        OrderError::PriceLimit { .. } => "PRICE_LIMIT"@,
        OrderError::InsufficientFunds { .. } => "INSUFFICIENT_FUNDS"@,
        OrderError::InsufficientPosition { .. } => "INSUFFICIENT_POSITION"@,
        OrderError::UnknownInstrument => "UNKNOWN_INSTRUMENT"@,
        OrderError::UnknownAccount => "UNKNOWN_ACCOUNT"@,
        OrderError::NotTradable => "NOT_TRADABLE"@,
        OrderError::NotFound => "NOT_FOUND"@,
        OrderError::InvalidRequest(_) => "INVALID_REQUEST"@,
        OrderError::Ledger(_) => "INVALID_REQUEST"@,
    }
}

/// The fields that help to mend a refused order.
pub open spec fn order_data(e: OrderError<Seq<char>>) -> Seq<(Seq<char>, Datum)> {
    match e {
        OrderError::MarketClosed { next_open } => seq![("next_open"@, Datum::Time(next_open))],
        OrderError::StaleData { age_secs } => seq![("age_secs"@, Datum::Whole(age_secs))],
        OrderError::InvalidTick { lower, upper } => seq![
            ("lower"@, Datum::Number(lower)),
            ("upper"@, Datum::Number(upper)),
        ],
        OrderError::InvalidQty { step, min_qty, min_notional } => seq![
            ("step"@, Datum::Number(step)),
            ("min_qty"@, Datum::Number(min_qty)),
            ("min_notional"@, Datum::Number(min_notional)),
        ],
        OrderError::PriceLimit { lower, upper } => seq![
            ("lower"@, Datum::Number(lower)),
            ("upper"@, Datum::Number(upper)),
        ],
        OrderError::InsufficientFunds { required, available } => seq![
            ("required"@, Datum::Number(required)),
            ("available"@, Datum::Number(available)),
        ],
        OrderError::InsufficientPosition { available } => seq![("available"@, Datum::Number(available))],
        _ => Seq::empty(),
    }
}

/// A refused order as the agent sees it.
pub open spec fn refusal(e: OrderError<Seq<char>>) -> ErrorView {
    coded_error(order_code(e), order_text(e), order_data(e))
}

fn three(a: &str, x: Decimal, b: &str, y: Decimal) -> (r: String)
    ensures
        r@ == a@ + x.text() + b@ + y.text(),
{
    let mut s = a.to_owned();
    s.append(x.to_text().as_str());
    s.append(b);
    s.append(y.to_text().as_str());
    s
}

fn order_message(e: &OrderError) -> (r: String)
    ensures
        r@ == order_text(e@),
{
    match e {
        OrderError::UnknownAccount => "unknown account".to_owned(),
        OrderError::UnknownInstrument => "unknown instrument".to_owned(),
        OrderError::NotTradable => "instrument is not tradable".to_owned(),
        OrderError::MarketClosed { next_open } => {
            let mut s = "market closed; next open ".to_owned();
            let tail = match next_open {
                Some(t) => {
                    let mut u = "Some(".to_owned();
                    u.append(show_time(*t).as_str());
                    u.append(")");
                    u
                },
                None => "None".to_owned(),
            };
            s.append(tail.as_str());
            s
        },
        OrderError::StaleData { age_secs } => {
            let mut s = "market data is stale (".to_owned();
            let tail = match age_secs {
                Some(n) => {
                    let mut u = "Some(".to_owned();
                    u.append(int_text(*n).as_str());
                    u.append(")");
                    u
                },
                None => "None".to_owned(),
            };
            s.append(tail.as_str());
            s.append(" s old)");
            s
        },
        OrderError::NoLiquidity => "no liquidity on the book".to_owned(),
        OrderError::InvalidTick { lower, upper } => three(
            "price is not on a valid tick; nearest ",
            *lower,
            " / ",
            *upper,
        ),
        OrderError::InvalidQty { step, min_qty, min_notional } => {
            let mut s = three("invalid quantity: step ", *step, ", min qty ", *min_qty);
            s.append(", min notional ");
            s.append(min_notional.to_text().as_str());
            s
        },
        OrderError::PriceLimit { lower, upper } => three("price outside the daily limit ", *lower, "..", *upper),
        OrderError::InsufficientFunds { required, available } => three(
            "insufficient funds: need ",
            *required,
            ", available ",
            *available,
        ),
        OrderError::InsufficientPosition { available } => {
            let mut s = "insufficient position: available ".to_owned();
            s.append(available.to_text().as_str());
            s
        },
        OrderError::NotFound => "order not found".to_owned(),
        OrderError::InvalidRequest(m) => {
            let mut s = "invalid request: ".to_owned();
            s.append(m.as_str());
            s
        },
        OrderError::Ledger(e) => match e {
            LedgerError::Overflow => "an amount is out of range".to_owned(),
            LedgerError::NoPosition => "sell of a position that is not held".to_owned(),
        },
    }
}

/// An order error as the agent sees it: a stable code plus the fields needed to recover.
pub fn order_error(e: OrderError) -> (r: ToolError)
    ensures
        r@ == refusal(e@),
{
    let message = order_message(&e);
    let mut data: Vec<(&'static str, Datum)> = Vec::new();
    let code = match &e {
        OrderError::MarketClosed { next_open } => {
            data.push(("next_open", Datum::Time(*next_open)));
            "MARKET_CLOSED"
        },
        OrderError::StaleData { age_secs } => {
            data.push(("age_secs", Datum::Whole(*age_secs)));
            "STALE_DATA"
        },
        OrderError::NoLiquidity => "NO_LIQUIDITY",
        OrderError::InvalidTick { lower, upper } => {
            data.push(("lower", Datum::Number(*lower)));
            data.push(("upper", Datum::Number(*upper)));
            "INVALID_TICK"
        },
        OrderError::InvalidQty { step, min_qty, min_notional } => {
            data.push(("step", Datum::Number(*step)));
            data.push(("min_qty", Datum::Number(*min_qty)));
            data.push(("min_notional", Datum::Number(*min_notional)));
            "INVALID_QTY"
        },
        OrderError::PriceLimit { lower, upper } => {
            data.push(("lower", Datum::Number(*lower)));
            data.push(("upper", Datum::Number(*upper)));
            "PRICE_LIMIT"
        },
        OrderError::InsufficientFunds { required, available } => {
            data.push(("required", Datum::Number(*required)));
            data.push(("available", Datum::Number(*available)));
            "INSUFFICIENT_FUNDS"
        },
        OrderError::InsufficientPosition { available } => {
            data.push(("available", Datum::Number(*available)));
            "INSUFFICIENT_POSITION"
        },
        OrderError::UnknownInstrument => "UNKNOWN_INSTRUMENT",
        OrderError::UnknownAccount => "UNKNOWN_ACCOUNT",
        OrderError::NotTradable => "NOT_TRADABLE",
        OrderError::NotFound => "NOT_FOUND",
        OrderError::InvalidRequest(_) => "INVALID_REQUEST",
        OrderError::Ledger(_) => "INVALID_REQUEST",
    };
    let r = ToolError { code: ToolCode::Coded(code), message, data, retriable: false };
    assert(r@.data =~= order_data(e@));
    r
}

/// A request that makes no sense.
pub open spec fn senseless(message: Seq<char>) -> ErrorView {
    refusal(OrderError::InvalidRequest(message))
}

/// What the failure of a feed is told as: something that the feed does not have is no failure.
pub open spec fn feed_failure(message: Seq<char>) -> ErrorView {
    if stands_at(message, "unsupported: "@, 0) {
        senseless(message.skip("unsupported: "@.len() as int))
    } else {
        upstream_error(message)
    }
}

pub fn feed_error(message: String) -> (r: ToolError)
    ensures
        r@ == feed_failure(message@),
{
    if begins_with(message.as_str(), "unsupported: ") {
        let v = chars_of(message.as_str());
        let n: usize = v.len();
        let skip: usize = chars_of("unsupported: ").len();
        assert("unsupported: "@.len() == skip);
        let rest = text_of(&v, skip, n);
        assert(rest@ =~= message@.skip("unsupported: "@.len() as int));
        order_error(OrderError::InvalidRequest(rest))
    } else {
        upstream(message)
    }
}

/// The instrument that a text names.
pub open spec fn id_asked(s: Seq<char>) -> Result<(Venue, Seq<char>), ErrorView> {
    match id_parsed(trimmed(s)) {
        Ok(id) => Ok(id),
        Err(m) => Err(coded_error("UNKNOWN_INSTRUMENT"@, m, Seq::empty())),
    }
}

pub fn parse_id(s: &str) -> (r: Result<InstrumentId, ToolError>)
    ensures
        match id_asked(s@) {
            Ok(id) => r matches Ok(x) && x@ == id,
            Err(e) => r matches Err(x) && x@ == e,
        },
{
    match InstrumentId::parse(trim(s).as_str()) {
        Ok(id) => Ok(id),
        Err(m) => Err(coded("UNKNOWN_INSTRUMENT", m)),
    }
}

/// The instrument that a text names, if it is loaded, so typos fail fast and are never subscribed.
pub open spec fn id_known(s: Seq<char>, loaded: bool) -> Result<(Venue, Seq<char>), ErrorView> {
    match id_asked(s) {
        Err(e) => Err(e),
        Ok(id) => if loaded {
            Ok(id)
        } else {
            Err(
                coded_error(
                    "UNKNOWN_INSTRUMENT"@,
                    "no instrument "@ + id_text(id) + "; find ids with search_instruments"@,
                    Seq::empty(),
                ),
            )
        },
    }
}

/// Parse an id and require a loaded instrument; `loaded` says whether the instrument is.
pub fn known(raw: &str, loaded: bool) -> (r: Result<InstrumentId, ToolError>)
    ensures
        match id_known(raw@, loaded) {
            Ok(id) => r matches Ok(x) && x@ == id,
            Err(e) => r matches Err(x) && x@ == e,
        },
{
    let id = match parse_id(raw) {
        Ok(id) => id,
        Err(e) => return Err(e),
    };
    if loaded {
        return Ok(id);
    }
    let mut m = "no instrument ".to_owned();
    m.append(id.to_text().as_str());
    m.append("; find ids with search_instruments");
    Err(coded("UNKNOWN_INSTRUMENT", m))
}

/// The venue that a text names.
pub open spec fn venue_asked(s: Seq<char>) -> Result<Venue, ErrorView> {
    match Venue::tagged(uppered(trimmed(s))) {
        Some(v) => Ok(v),
        None => Err(bad_error("unknown venue "@ + quoted(s) + "; use KRX, US, UPBIT or BINANCE"@)),
    }
}

pub fn parse_venue(s: &str) -> (r: Result<Venue, ToolError>)
    ensures
        match venue_asked(s@) {
            Ok(v) => r == Ok::<Venue, ToolError>(v),
            Err(e) => r matches Err(x) && x@ == e,
        },
{
    match Venue::from_tag(uppercase(trim(s).as_str()).as_str()) {
        Some(v) => Ok(v),
        None => {
            let mut m = "unknown venue ".to_owned();
            m.append(quote(s).as_str());
            m.append("; use KRX, US, UPBIT or BINANCE");
            Err(bad(m))
        },
    }
}

/// The currency that a text names.
pub open spec fn currency_asked(s: Seq<char>) -> Result<Currency, ErrorView> {
    match Currency::coded(uppered(trimmed(s))) {
        Some(c) => Ok(c),
        None => Err(bad_error("unknown currency "@ + quoted(s) + "; use KRW, USD or USDT"@)),
    }
}

pub fn parse_currency(s: &str) -> (r: Result<Currency, ToolError>)
    ensures
        match currency_asked(s@) {
            Ok(c) => r == Ok::<Currency, ToolError>(c),
            Err(e) => r matches Err(x) && x@ == e,
        },
{
    match Currency::from_code(uppercase(trim(s).as_str()).as_str()) {
        Some(c) => Ok(c),
        None => {
            let mut m = "unknown currency ".to_owned();
            m.append(quote(s).as_str());
            m.append("; use KRW, USD or USDT");
            Err(bad(m))
        },
    }
}

/// Half way between the best bid and the best ask; nothing where one is missing or a decimal cannot
/// hold it.
pub open spec fn mid_of(bids: Seq<Level>, asks: Seq<Level>) -> Option<Decimal> {
    if bids.len() > 0 && asks.len() > 0 {
        opt_over(bids[0].price.plus(asks[0].price), Some(dec(2, 0)))
    } else {
        None
    }
}

pub fn mid(bids: &[Level], asks: &[Level]) -> (r: Option<Decimal>)
    ensures
        r == mid_of(bids@, asks@),
{
    if bids.len() > 0 && asks.len() > 0 {
        bids[0].price.checked_add(asks[0].price)?.checked_div(Decimal::new(2, 0))
    } else {
        None
    }
}

/// A number within limits.
pub open spec fn clamped(n: int, lo: int, hi: int) -> int {
    if n < lo {
        lo
    } else if n > hi {
        hi
    } else {
        n
    }
}

/// A limit that was asked for, within `lo..=hi`, or the default.
pub fn limit_or(limit: Option<u32>, default: u32, lo: u32, hi: u32) -> (r: u32)
    requires
        lo <= hi,
    ensures
        r == clamped(
            match limit {
                Some(n) => n as int,
                None => default as int,
            },
            lo as int,
            hi as int,
        ),
{
    let n = match limit {
        Some(n) => n,
        None => default,
    };
    if n < lo {
        lo
    } else if n > hi {
        hi
    } else {
        n
    }
}

/// How many rows a list has: 50 unless another number is asked for, at most 200.
pub fn clamp_limit(limit: Option<u32>) -> (r: i64)
    ensures
        r == clamped(
            match limit {
                Some(n) => n as int,
                None => 50,
            },
            1,
            200,
        ),
{
    limit_or(limit, 50, 1, 200) as i64
}

/// The time in force of an order: market orders take what they can now; limit orders rest for the
/// day on venues with a session, and until cancelled elsewhere, unless something else is asked for.
pub open spec fn tif_asked(tif: Option<TifDto>, kind: OrderType, venue: Venue) -> Tif {
    match (tif, kind) {
        (_, OrderType::Market) => Tif::Ioc,
        (Some(t), OrderType::Limit) => t.tif(),
        (None, OrderType::Limit) => if venue.has_session() {
            Tif::Day
        } else {
            Tif::Gtc
        },
    }
}

/// The order that the agent asks for, or what is wrong with it.
pub open spec fn request_asked(o: OrderInput) -> Result<RequestView, ErrorView> {
    match id_asked(o.instrument@) {
        Err(e) => Err(e),
        Ok(instrument) => if (o.qty is Some) == (o.notional is Some) {
            Err(bad_error("give exactly one of qty or notional"@))
        } else if trimmed(o.reason@).len() == 0 {
            Err(bad_error("reason is required: say why you are placing this order"@))
        } else {
            Ok(
                RequestView {
                    instrument,
                    side: o.side.side(),
                    kind: o.kind.kind(),
                    size: match o.qty {
                        Some(q) => Size::Qty(q),
                        None => Size::Notional(o.notional->0),
                    },
                    limit_price: o.limit_price,
                    tif: tif_asked(o.tif, o.kind.kind(), instrument.0),
                    reason: trimmed(o.reason@),
                },
            )
        },
    }
}

/// The order that the agent asks for.
pub fn to_request(o: &OrderInput) -> (r: Result<OrderRequest, ToolError>)
    ensures
        match request_asked(*o) {
            Ok(q) => r matches Ok(x) && x@ == q,
            Err(e) => r matches Err(x) && x@ == e,
        },
{
    let instrument = match parse_id(o.instrument.as_str()) {
        Ok(id) => id,
        Err(e) => return Err(e),
    };
    let size = match (o.qty, o.notional) {
        (Some(q), None) => Size::Qty(q),
        (None, Some(n)) => Size::Notional(n),
        _ => return Err(bad("give exactly one of qty or notional".to_owned())),
    };
    let reason = trim(o.reason.as_str());
    if chars_of(reason.as_str()).len() == 0 {
        return Err(bad("reason is required: say why you are placing this order".to_owned()));
    }
    let kind = OrderType::from(o.kind);
    let tif = match (o.tif, kind) {
        (_, OrderType::Market) => Tif::Ioc,
        (Some(t), OrderType::Limit) => Tif::from(t),
        (None, OrderType::Limit) => if instrument.venue.has_session() {
            Tif::Day
        } else {
            Tif::Gtc
        },
    };
    Ok(
        OrderRequest {
            instrument,
            side: crate::domain::Side::from(o.side),
            kind,
            size,
            limit_price: o.limit_price,
            tif,
            reason,
        },
    )
}

/// Every order that is asked for says why, and a market order never rests.
pub proof fn law_orders_say_why(o: OrderInput)
    ensures
        request_asked(o) matches Ok(q) ==> q.reason.len() > 0 && (q.kind == OrderType::Market ==> q.tif == Tif::Ioc),
{
}

/// The kind of an alert and what is missing.
pub open spec fn lacking(kind: Seq<char>, what: Seq<char>) -> ErrorView {
    bad_error(kind + what)
}

/// The instrument of an alert.
pub open spec fn alert_instrument(a: AlertInput, loaded: bool) -> Result<(Venue, Seq<char>), ErrorView> {
    match a.instrument {
        Some(i) => id_known(i@, loaded),
        None => Err(lacking(a.kind@, " needs an instrument"@)),
    }
}

/// The threshold of an alert.
pub open spec fn alert_threshold(a: AlertInput, what: Seq<char>) -> Result<Decimal, ErrorView> {
    match a.threshold {
        Some(t) => if t.value() > 0 {
            Ok(t)
        } else {
            Err(lacking(a.kind@, " needs a positive threshold ("@ + what + ")"@))
        },
        None => Err(lacking(a.kind@, " needs a positive threshold ("@ + what + ")"@)),
    }
}

/// The window of an alert.
pub open spec fn alert_window(a: AlertInput) -> Result<u32, ErrorView> {
    match a.window_minutes {
        Some(w) => if 1 <= w <= 240 {
            Ok(w)
        } else {
            Err(lacking(a.kind@, " needs window_minutes between 1 and 240"@))
        },
        None => Err(lacking(a.kind@, " needs window_minutes between 1 and 240"@)),
    }
}

/// The venue of an alert.
pub open spec fn alert_venue(a: AlertInput) -> Result<Venue, ErrorView> {
    match a.venue {
        Some(v) => match venue_asked(v@) {
            Err(e) => Err(e),
            Ok(v) => if v.has_session() {
                Ok(v)
            } else {
                Err(lacking(a.kind@, " needs venue KRX or US"@))
            },
        },
        None => Err(lacking(a.kind@, " needs venue KRX or US"@)),
    }
}

/// The condition that the agent asks for; `loaded` says whether the instrument it names is.
pub open spec fn condition_asked(a: AlertInput, loaded: bool) -> Result<ConditionView, ErrorView> {
    let kind = trimmed(a.kind@);
    if kind == "price_above"@ || kind == "price_below"@ {
        match alert_instrument(a, loaded) {
            Err(e) => Err(e),
            Ok(id) => match alert_threshold(a, "price"@) {
                Err(e) => Err(e),
                Ok(price) => if kind == "price_above"@ {
                    Ok(ConditionView::PriceAbove { id, price })
                } else {
                    Ok(ConditionView::PriceBelow { id, price })
                },
            },
        }
    } else if kind == "move"@ {
        match alert_instrument(a, loaded) {
            Err(e) => Err(e),
            Ok(id) => match alert_threshold(a, "percent"@) {
                Err(e) => Err(e),
                Ok(pct) => match alert_window(a) {
                    Err(e) => Err(e),
                    Ok(window_minutes) => Ok(ConditionView::Move { id, pct, window_minutes }),
                },
            },
        }
    } else if kind == "volume_surge"@ {
        match alert_threshold(a, "multiple of the average pace"@) {
            Err(e) => Err(e),
            Ok(factor) => if factor.value() < one().value() {
                Err(bad_error("volume_surge threshold must be at least 1"@))
            } else {
                match alert_instrument(a, loaded) {
                    Err(e) => Err(e),
                    Ok(id) => match alert_window(a) {
                        Err(e) => Err(e),
                        Ok(window_minutes) => Ok(ConditionView::VolumeSurge { id, factor, window_minutes }),
                    },
                }
            },
        }
    } else if kind == "order_filled"@ {
        match a.instrument {
            Some(i) => match id_known(i@, loaded) {
                Err(e) => Err(e),
                Ok(id) => Ok(ConditionView::OrderFilled { id: Some(id) }),
            },
            None => Ok(ConditionView::OrderFilled { id: None }),
        }
    } else if kind == "session_open"@ || kind == "session_close"@ {
        match alert_venue(a) {
            Err(e) => Err(e),
            Ok(venue) => if kind == "session_open"@ {
                Ok(ConditionView::SessionOpen { venue })
            } else {
                Ok(ConditionView::SessionClose { venue })
            },
        }
    } else {
        Err(bad_error("unknown alert kind "@ + quoted(kind)))
    }
}

fn lack(kind: &str, what: &str) -> (r: ToolError)
    ensures
        r@ == lacking(kind@, what@),
{
    let mut m = kind.to_owned();
    m.append(what);
    bad(m)
}

fn read_instrument(a: &AlertInput, loaded: bool) -> (r: Result<InstrumentId, ToolError>)
    ensures
        match alert_instrument(*a, loaded) {
            Ok(id) => r matches Ok(x) && x@ == id,
            Err(e) => r matches Err(x) && x@ == e,
        },
{
    match &a.instrument {
        Some(i) => known(i.as_str(), loaded),
        None => Err(lack(a.kind.as_str(), " needs an instrument")),
    }
}

fn read_threshold(a: &AlertInput, what: &str) -> (r: Result<Decimal, ToolError>)
    ensures
        match alert_threshold(*a, what@) {
            Ok(d) => r == Ok::<Decimal, ToolError>(d),
            Err(e) => r matches Err(x) && x@ == e,
        },
{
    if let Some(t) = a.threshold {
        if t.is_positive() {
            return Ok(t);
        }
    }
    let mut m = " needs a positive threshold (".to_owned();
    m.append(what);
    m.append(")");
    Err(lack(a.kind.as_str(), m.as_str()))
}

fn read_window(a: &AlertInput) -> (r: Result<u32, ToolError>)
    ensures
        match alert_window(*a) {
            Ok(w) => r == Ok::<u32, ToolError>(w),
            Err(e) => r matches Err(x) && x@ == e,
        },
{
    if let Some(w) = a.window_minutes {
        if w >= 1 && w <= 240 {
            return Ok(w);
        }
    }
    Err(lack(a.kind.as_str(), " needs window_minutes between 1 and 240"))
}

fn read_venue(a: &AlertInput) -> (r: Result<Venue, ToolError>)
    ensures
        match alert_venue(*a) {
            Ok(v) => r == Ok::<Venue, ToolError>(v),
            Err(e) => r matches Err(x) && x@ == e,
        },
{
    if let Some(v) = &a.venue {
        match parse_venue(v.as_str()) {
            Err(e) => return Err(e),
            Ok(v) => {
                if v.has_session() {
                    return Ok(v);
                }
            },
        }
    }
    Err(lack(a.kind.as_str(), " needs venue KRX or US"))
}

/// The condition that the agent asks for; `loaded` says whether the instrument it names is.
pub fn alert_condition(a: &AlertInput, loaded: bool) -> (r: Result<Condition, ToolError>)
    ensures
        match condition_asked(*a, loaded) {
            Ok(c) => r matches Ok(x) && x@ == c,
            Err(e) => r matches Err(x) && x@ == e,
        },
{
    let kind = trim(a.kind.as_str());
    let kind = kind.as_str();
    let above = same_text(kind, "price_above");
    if above || same_text(kind, "price_below") {
        let id = match read_instrument(a, loaded) {
            Ok(x) => x,
            Err(e) => return Err(e),
        };
        let price = match read_threshold(a, "price") {
            Ok(x) => x,
            Err(e) => return Err(e),
        };
        return Ok(
            if above {
                Condition::PriceAbove { id, price }
            } else {
                Condition::PriceBelow { id, price }
            },
        );
    }
    if same_text(kind, "move") {
        let id = match read_instrument(a, loaded) {
            Ok(x) => x,
            Err(e) => return Err(e),
        };
        let pct = match read_threshold(a, "percent") {
            Ok(x) => x,
            Err(e) => return Err(e),
        };
        return match read_window(a) {
            Ok(window_minutes) => Ok(Condition::Move { id, pct, window_minutes }),
            Err(e) => Err(e),
        };
    }
    if same_text(kind, "volume_surge") {
        let factor = match read_threshold(a, "multiple of the average pace") {
            Ok(x) => x,
            Err(e) => return Err(e),
        };
        if factor.lt(Decimal::one()) {
            return Err(bad("volume_surge threshold must be at least 1".to_owned()));
        }
        let id = match read_instrument(a, loaded) {
            Ok(x) => x,
            Err(e) => return Err(e),
        };
        return match read_window(a) {
            Ok(window_minutes) => Ok(Condition::VolumeSurge { id, factor, window_minutes }),
            Err(e) => Err(e),
        };
    }
    if same_text(kind, "order_filled") {
        return match &a.instrument {
            Some(i) => match known(i.as_str(), loaded) {
                Ok(id) => Ok(Condition::OrderFilled { id: Some(id) }),
                Err(e) => Err(e),
            },
            None => Ok(Condition::OrderFilled { id: None }),
        };
    }
    let open = same_text(kind, "session_open");
    if open || same_text(kind, "session_close") {
        return match read_venue(a) {
            Ok(venue) => Ok(
                if open {
                    Condition::SessionOpen { venue }
                } else {
                    Condition::SessionClose { venue }
                },
            ),
            Err(e) => Err(e),
        };
    }
    let mut m = "unknown alert kind ".to_owned();
    m.append(quote(kind).as_str());
    Err(bad(m))
}

/// What the agent may ask to be woken up for always makes sense: thresholds are positive, windows
/// are from one minute to four hours, and sessions are of venues that have one.
pub proof fn law_alerts_make_sense(a: AlertInput, loaded: bool)
    ensures
        condition_asked(a, loaded) matches Ok(c) ==> (c.limit() matches Some(t) ==> t.value() > 0) && (
        c.window() matches Some(w) ==> 1 <= w <= 240) && (c.at_venue() matches Some(v) ==> v.has_session()),
{
}

/// A new alert, or what is wrong with it: the condition comes first, then the note, then how many
/// there are.
pub fn new_alert(account: &AccountRow, a: &AlertInput, loaded: bool, active: usize, now: Timestamp) -> (r: Result<
    Alert,
    ToolError,
>)
    ensures
        match condition_asked(*a, loaded) {
            Err(e) => r matches Err(x) && x@ == e,
            Ok(c) => if trimmed(a.note@).len() == 0 {
                r matches Err(x) && x@ == bad_error("note is required: say what you want to do when it fires"@)
            } else if active >= MAX_ALERTS {
                r matches Err(x) && x@ == senseless("50 active alerts is the limit; delete some first"@)
            } else {
                r matches Ok(x) && x.id == 0 && x.account@ == account.id@ && x.generation == account.generation
                    && x.condition@ == c && x.note@ == trimmed(a.note@) && x.once == (match a.once {
                    Some(b) => b,
                    None => true,
                }) && x.created_at == now && x.last_fired_at is None
            },
        },
{
    let condition = match alert_condition(a, loaded) {
        Ok(c) => c,
        Err(e) => return Err(e),
    };
    let note = trim(a.note.as_str());
    if chars_of(note.as_str()).len() == 0 {
        return Err(bad("note is required: say what you want to do when it fires".to_owned()));
    }
    if active >= MAX_ALERTS {
        return Err(
            order_error(OrderError::InvalidRequest("50 active alerts is the limit; delete some first".to_owned())),
        );
    }
    Ok(
        Alert {
            id: 0,
            account: account.id.clone(),
            generation: account.generation,
            condition,
            note,
            once: match a.once {
                Some(b) => b,
                None => true,
            },
            created_at: now,
            last_fired_at: None,
        },
    )
}

/// How many days a period looks back; nothing for all of it.
pub open spec fn period_of(period: Seq<char>) -> Result<Option<i64>, ErrorView> {
    if period == "1d"@ {
        Ok(Some(1))
    } else if period == "1w"@ {
        Ok(Some(7))
    } else if period == "1m"@ {
        Ok(Some(30))
    } else if period == "3m"@ {
        Ok(Some(90))
    } else if period == "all"@ {
        Ok(None)
    } else {
        Err(bad_error("period must be 1d, 1w, 1m, 3m or all"@))
    }
}

pub fn period_days(period: &str) -> (r: Result<Option<i64>, ToolError>)
    ensures
        match period_of(period@) {
            Ok(d) => r == Ok::<Option<i64>, ToolError>(d),
            Err(e) => r matches Err(x) && x@ == e,
        },
{
    if same_text(period, "1d") {
        Ok(Some(1))
    } else if same_text(period, "1w") {
        Ok(Some(7))
    } else if same_text(period, "1m") {
        Ok(Some(30))
    } else if same_text(period, "3m") {
        Ok(Some(90))
    } else if same_text(period, "all") {
        Ok(None)
    } else {
        Err(bad("period must be 1d, 1w, 1m, 3m or all".to_owned()))
    }
}

/// What the width at index `i` reads as.
pub open spec fn read_at(read: Seq<Option<u64>>, i: int) -> Option<u64> {
    if 0 <= i < read.len() {
        read[i]
    } else {
        None
    }
}

/// The first `n` indicators that are asked for, or what is wrong with the first bad one.
pub open spec fn specs_asked(v: Seq<Seq<char>>, read: Seq<Option<u64>>, n: int) -> Result<Seq<IndicatorSpec>, Seq<char>>
    decreases n,
{
    if n <= 0 {
        Ok(Seq::empty())
    } else {
        match specs_asked(v, read, n - 1) {
            Err(m) => Err(m),
            Ok(s) => match asked(v[n - 1], read_at(read, n - 1)) {
                Ok(i) => Ok(s.push(i)),
                Err(m) => Err(m),
            },
        }
    }
}

proof fn lemma_specs_error(v: Seq<Seq<char>>, read: Seq<Option<u64>>, i: int, n: int)
    requires
        0 <= i <= n,
        specs_asked(v, read, i) is Err,
    ensures
        specs_asked(v, read, n) == specs_asked(v, read, i),
    decreases n,
{
    if i < n {
        lemma_specs_error(v, read, i, n - 1);
    }
}

/// The indicators that are asked for: from one to eight. `read` holds, for each of them, the bits of
/// the double that the text of its width reads as, or nothing where there is none.
pub fn parse_indicators(v: &[String], read: &[Option<u64>]) -> (r: Result<Vec<IndicatorSpec>, ToolError>)
    ensures
        if v@.len() == 0 || v@.len() > 8 {
            r matches Err(x) && x@ == bad_error("ask for 1 to 8 indicators"@)
        } else {
            match specs_asked(crate::text::texts(v@), read@, v@.len() as int) {
                Ok(s) => r matches Ok(x) && x@ == s,
                Err(m) => r matches Err(x) && x@ == bad_error(m),
            }
        },
{
    if v.len() == 0 || v.len() > 8 {
        return Err(bad("ask for 1 to 8 indicators".to_owned()));
    }
    let ghost t = crate::text::texts(v@);
    let mut out: Vec<IndicatorSpec> = Vec::new();
    let mut i: usize = 0;
    while i < v.len()
        invariant
            i <= v@.len(),
            v@.len() <= 8,
            v@.len() > 0,
            t == crate::text::texts(v@),
            specs_asked(t, read@, i as int) == Ok::<Seq<IndicatorSpec>, Seq<char>>(out@),
        decreases v@.len() - i,
    {
        assert(t[i as int] == v@[i as int]@);
        let width = if i < read.len() {
            read[i]
        } else {
            None
        };
        match IndicatorSpec::parse(v[i].as_str(), width) {
            Ok(s) => out.push(s),
            Err(m) => {
                proof {
                    lemma_specs_error(t, read@, i + 1, v@.len() as int);
                }
                return Err(bad(m));
            },
        }
        i += 1;
    }
    Ok(out)
}

/// Whether data of some instant is stale.
pub open spec fn is_stale(now: Timestamp, at: Timestamp) -> bool {
    quotient_to_zero(now.at() - at.at(), NANOS_PER_SEC as int) > STALE_AFTER_SECS
}

pub fn stale(now: Timestamp, at: Timestamp) -> (r: bool)
    ensures
        r == is_stale(now, at),
{
    let age = now.since(at);
    if age < 0 {
        false
    } else {
        age / NANOS_PER_SEC > STALE_AFTER_SECS
    }
}

/// A quote. How far recent trading has pushed the price is worked out in floating point elsewhere.
#[derive(Debug)]
pub struct Quote {
    pub id: String,
    pub currency: &'static str,
    /// Best bid in the simulated book your orders execute against.
    pub bid: Option<Decimal>,
    /// Best ask in the simulated book your orders execute against.
    pub ask: Option<Decimal>,
    pub mid: Option<Decimal>,
    /// Best bid on the real exchange.
    pub real_bid: Option<Decimal>,
    /// Best ask on the real exchange.
    pub real_ask: Option<Decimal>,
    pub last_trade_price: Option<Decimal>,
    pub last_trade_at: Option<Timestamp>,
    /// When the book was received.
    pub as_of: Option<Timestamp>,
    /// True when the data is more than 5 s old; orders would be rejected.
    pub stale: bool,
    /// Why data is missing, if it is.
    pub error: Option<String>,
}

/// The price of the best level.
pub open spec fn best_price(levels: Seq<Level>) -> Option<Decimal> {
    if levels.len() > 0 {
        Some(levels[0].price)
    } else {
        None
    }
}

fn best(levels: &Vec<Level>) -> (r: Option<Decimal>)
    ensures
        r == best_price(levels@),
{
    if levels.len() > 0 {
        Some(levels[0].price)
    } else {
        None
    }
}

/// The quote of an instrument; `error` says why fresh data could not be fetched.
pub fn quote_of(id: &InstrumentId, book: Option<&BookSides>, error: Option<String>, now: Timestamp) -> (q: Quote)
    ensures
        q.id@ == id_text(id@),
        q.currency@ == id.venue.currency().code_text(),
        match book {
            Some(b) => q.bid == best_price(b.shadow_bids@) && q.ask == best_price(b.shadow_asks@) && q.mid == mid_of(
                b.shadow_bids@,
                b.shadow_asks@,
            ) && q.real_bid == best_price(b.real_bids@) && q.real_ask == best_price(b.real_asks@) && q.as_of == Some(
                b.received_at,
            ) && q.stale == is_stale(now, b.received_at) && text_view(q.error) == text_view(error) && (
            match b.last_trade {
                Some((p, t)) => q.last_trade_price == Some(p) && q.last_trade_at == Some(t),
                None => q.last_trade_price is None && q.last_trade_at is None,
            }),
            None => q.bid is None && q.ask is None && q.mid is None && q.real_bid is None && q.real_ask is None
                && q.last_trade_price is None && q.last_trade_at is None && q.as_of is None && q.stale && text_view(
                q.error,
            ) == (match error {
                Some(e) => Some(e@),
                None => Some("no market data for this instrument"@),
            }),
        },
{
    let name = id.to_text();
    let currency = id.venue.currency().code();
    match book {
        Some(b) => {
            let (price, at) = match b.last_trade {
                Some((p, t)) => (Some(p), Some(t)),
                None => (None, None),
            };
            Quote {
                id: name,
                currency,
                bid: best(&b.shadow_bids),
                ask: best(&b.shadow_asks),
                mid: mid(&b.shadow_bids, &b.shadow_asks),
                real_bid: best(&b.real_bids),
                real_ask: best(&b.real_asks),
                last_trade_price: price,
                last_trade_at: at,
                as_of: Some(b.received_at),
                stale: stale(now, b.received_at),
                error,
            }
        },
        None => Quote {
            id: name,
            currency,
            bid: None,
            ask: None,
            mid: None,
            real_bid: None,
            real_ask: None,
            last_trade_price: None,
            last_trade_at: None,
            as_of: None,
            stale: true,
            error: match error {
                Some(e) => Some(e),
                None => Some("no market data for this instrument".to_owned()),
            },
        },
    }
}

/// The first `n` ids of a request for quotes, or what is wrong with the first bad one.
pub open spec fn ids_asked(v: Seq<Seq<char>>, n: int) -> Result<Seq<(Venue, Seq<char>)>, ErrorView>
    decreases n,
{
    if n <= 0 {
        Ok(Seq::empty())
    } else {
        match ids_asked(v, n - 1) {
            Err(e) => Err(e),
            Ok(s) => match id_asked(v[n - 1]) {
                Ok(id) => Ok(s.push(id)),
                Err(e) => Err(e),
            },
        }
    }
}

proof fn lemma_ids_error(v: Seq<Seq<char>>, i: int, n: int)
    requires
        0 <= i <= n,
        ids_asked(v, i) is Err,
    ensures
        ids_asked(v, n) == ids_asked(v, i),
    decreases n,
{
    if i < n {
        lemma_ids_error(v, i, n - 1);
    }
}

/// The ids of a request for quotes: at most twenty.
pub fn parse_ids(v: &[String]) -> (r: Result<Vec<InstrumentId>, ToolError>)
    ensures
        if v@.len() > MAX_QUOTES {
            r matches Err(x) && x@ == bad_error("at most 20 ids per call"@)
        } else {
            match ids_asked(crate::text::texts(v@), v@.len() as int) {
                Ok(s) => r matches Ok(x) && x@.map_values(|i: InstrumentId| i@) == s,
                Err(e) => r matches Err(x) && x@ == e,
            }
        },
{
    if v.len() > MAX_QUOTES {
        return Err(bad("at most 20 ids per call".to_owned()));
    }
    let ghost t = crate::text::texts(v@);
    let mut out: Vec<InstrumentId> = Vec::new();
    let mut i: usize = 0;
    assert(out@.map_values(|i: InstrumentId| i@) =~= Seq::empty());
    while i < v.len()
        invariant
            i <= v@.len(),
            v@.len() <= MAX_QUOTES,
            t == crate::text::texts(v@),
            ids_asked(t, i as int) == Ok::<Seq<(Venue, Seq<char>)>, ErrorView>(
                out@.map_values(|i: InstrumentId| i@),
            ),
        decreases v@.len() - i,
    {
        assert(t[i as int] == v@[i as int]@);
        match parse_id(v[i].as_str()) {
            Ok(id) => {
                let ghost before = out@.map_values(|i: InstrumentId| i@);
                let ghost idv = id@;
                out.push(id);
                assert(out@.map_values(|i: InstrumentId| i@) =~= before.push(idv));
            },
            Err(e) => {
                proof {
                    lemma_ids_error(t, i + 1, v@.len() as int);
                }
                return Err(e);
            },
        }
        i += 1;
    }
    Ok(out)
}

/// Where the figures of a company come from.
#[derive(Debug, Clone, Copy, PartialEq, Eq, Structural)]
pub enum Filer {
    Dart,
    Edgar,
}

/// Where the figures or filings of an instrument come from, or why there are none.
pub open spec fn filer_of(venue: Venue, dart: bool, edgar: bool, filings: bool) -> Result<Filer, ErrorView> {
    match venue {
        Venue::Krx => if dart {
            Ok(Filer::Dart)
        } else if filings {
            Err(senseless("KRX filings need DART_API_KEY on the server"@))
        } else {
            Err(senseless("KRX financials need DART_API_KEY on the server"@))
        },
        Venue::Us => if edgar {
            Ok(Filer::Edgar)
        } else if filings {
            Err(senseless("US filings need EDGAR_USER_AGENT on the server"@))
        } else {
            Err(senseless("US financials need EDGAR_USER_AGENT on the server"@))
        },
        _ => if filings {
            Err(senseless("filings exist for KRX and US stocks only"@))
        } else {
            Err(senseless("financials exist for KRX and US stocks only"@))
        },
    }
}

fn not_enabled(what: &str) -> (r: ToolError)
    ensures
        r@ == senseless(what@),
{
    order_error(OrderError::InvalidRequest(what.to_owned()))
}

/// Where the figures (or the filings) of an instrument come from; the flags say which source the
/// server has.
pub fn filer(venue: Venue, dart: bool, edgar: bool, filings: bool) -> (r: Result<Filer, ToolError>)
    ensures
        match filer_of(venue, dart, edgar, filings) {
            Ok(f) => r == Ok::<Filer, ToolError>(f),
            Err(e) => r matches Err(x) && x@ == e,
        },
{
    match venue {
        Venue::Krx => if dart {
            Ok(Filer::Dart)
        } else if filings {
            Err(not_enabled("KRX filings need DART_API_KEY on the server"))
        } else {
            Err(not_enabled("KRX financials need DART_API_KEY on the server"))
        },
        Venue::Us => if edgar {
            Ok(Filer::Edgar)
        } else if filings {
            Err(not_enabled("US filings need EDGAR_USER_AGENT on the server"))
        } else {
            Err(not_enabled("US financials need EDGAR_USER_AGENT on the server"))
        },
        _ => if filings {
            Err(not_enabled("filings exist for KRX and US stocks only"))
        } else {
            Err(not_enabled("financials exist for KRX and US stocks only"))
        },
    }
}

/// The first day of a list of filings: the one that is asked for, else ninety days ago.
pub open spec fn since_asked(since: Option<Seq<char>>, now: Timestamp) -> Result<int, ErrorView> {
    match since {
        Some(s) => match date_read(trimmed(s), "%Y-%m-%d"@) {
            Some(d) => Ok(d as int),
            None => Err(bad_error("since must be YYYY-MM-DD"@)),
        },
        None => Ok(day_of(now.second()) - 90),
    }
}

pub fn parse_since(since: Option<&str>, now: Timestamp) -> (r: Result<i64, ToolError>)
    ensures
        match since_asked(
            match since {
                Some(s) => Some(s@),
                None => None,
            },
            now,
        ) {
            Ok(d) => r matches Ok(x) && x == d,
            Err(e) => r matches Err(x) && x@ == e,
        },
{
    match since {
        Some(s) => match read_date(trim(s).as_str(), "%Y-%m-%d") {
            Some(d) => Ok(d),
            None => Err(bad("since must be YYYY-MM-DD".to_owned())),
        },
        None => {
            proof {
                use_type_invariant(now);
            }
            Ok(split_second(now.secs()).0 - 90)
        },
    }
}

/// A page of a filing.
pub fn filing_page(filing_id: String, text: &str, page: Option<u32>) -> (r: Result<FilingText, ToolError>)
    ensures
        ({
            let n: u32 = match page {
                Some(p) => p,
                None => 1,
            };
            let pages = crate::fundamentals::page_count(text@.len());
            if 1 <= n <= pages {
                r matches Ok(f) && f.filing_id@ == filing_id@ && f.page == n && f.pages == (pages as u32) && f.text@
                    == crate::fundamentals::page_of(text@, n as int)
            } else {
                r matches Err(x) && x@ == bad_error(
                    "page "@ + padded_digits(n as nat, 1) + " does not exist; the filing has "@ + padded_digits(
                        pages,
                        1,
                    ) + " pages"@,
                )
            }
        }),
{
    let n: u32 = match page {
        Some(p) => p,
        None => 1,
    };
    match page_text(text, n as usize) {
        Ok((chunk, pages)) => Ok(FilingText { filing_id, page: n, pages: pages as u32, text: chunk }),
        Err(m) => Err(bad(m)),
    }
}

/// The mid is as far from the best bid as from the best ask, and there is one only where there are both.
/// Decimals hold it.
pub proof fn law_the_mid_is_half_way(bids: Seq<Level>, asks: Seq<Level>)
    ensures
        bids.len() == 0 || asks.len() == 0 ==> mid_of(bids, asks) is None,
        bids.len() > 0 && asks.len() > 0 && representable(bids[0].price.value() + asks[0].price.value()) && (
        bids[0].price.value() + asks[0].price.value()) % 2 == 0 && representable(
            (bids[0].price.value() + asks[0].price.value()) / 2,
        ) ==> (mid_of(bids, asks) matches Some(m) ==> m.value() - bids[0].price.value() == asks[0].price.value() - m.value()),
{
    if bids.len() > 0 && asks.len() > 0 && representable(bids[0].price.value() + asks[0].price.value()) && (
    bids[0].price.value() + asks[0].price.value()) % 2 == 0 && representable(
        (bids[0].price.value() + asks[0].price.value()) / 2,
    ) {
        lemma_mid(bids[0].price, asks[0].price);
    }
}

/// The order that is placed is the one that was asked for: its side, kind, size and limit. A limit order
/// without a time in force rests for the day where there are sessions and until it is cancelled elsewhere.
pub proof fn law_orders_are_as_asked(o: OrderInput)
    ensures
        request_asked(o) matches Ok(q) ==> {
            &&& (q.side == Side::Buy <==> o.side is Buy)
            &&& (q.kind == OrderType::Market <==> o.kind is Market)
            &&& q.limit_price == o.limit_price
            &&& o.qty matches Some(n) ==> q.size == Size::Qty(n)
            &&& o.notional matches Some(n) ==> q.size == Size::Notional(n)
            &&& (o.qty is Some <==> o.notional is None)
            &&& q.kind == OrderType::Limit && o.tif is None ==> q.tif == if q.instrument.0.has_session() {
                Tif::Day
            } else {
                Tif::Gtc
            }
            &&& q.kind == OrderType::Limit ==> (o.tif matches Some(t) ==> (t is Day <==> q.tif == Tif::Day) && (t is Gtc
                <==> q.tif == Tif::Gtc) && (t is Ioc <==> q.tif == Tif::Ioc))
        },
{
}

/// The alert that is set is the one that was asked for: of its kind, and with its threshold and window.
pub proof fn law_alerts_are_as_asked(a: AlertInput, loaded: bool)
    ensures
        condition_asked(a, loaded) matches Ok(c) ==> {
            let kind = trimmed(a.kind@);
            &&& c is PriceAbove ==> kind == "price_above"@ && Some(c->PriceAbove_price) == a.threshold
            &&& c is PriceBelow ==> kind == "price_below"@ && Some(c->PriceBelow_price) == a.threshold
            &&& c is Move ==> kind == "move"@ && Some(c->Move_pct) == a.threshold && Some(c->Move_window_minutes)
                == a.window_minutes
            &&& c is VolumeSurge ==> kind == "volume_surge"@ && Some(c->VolumeSurge_factor) == a.threshold && Some(
                c->VolumeSurge_window_minutes,
            ) == a.window_minutes && c->VolumeSurge_factor.value() >= unit()
            &&& c is OrderFilled ==> kind == "order_filled"@ && (c->OrderFilled_id is Some <==> a.instrument is Some)
            &&& c is SessionOpen ==> kind == "session_open"@
            &&& c is SessionClose ==> kind == "session_close"@
        },
{
    lemma_dec_parts(1, 0);
    lemma_unit();
    reveal_strlit("price_above");
    reveal_strlit("price_below");
    reveal_strlit("session_open");
    reveal_strlit("session_close");
    assert("price_above"@[6] != "price_below"@[6]);
    assert("session_open"@[8] != "session_close"@[8]);
}

} // verus!
