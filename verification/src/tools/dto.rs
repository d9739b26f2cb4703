//! What the `trader` tools take and return.
use crate::accounts::AccountRow;
use crate::alerts::Alert;
use crate::broker::{unit_price, Conversion, Fill, Order, OrderType, Tif};
use crate::decimal::Decimal;
use crate::domain::{id_text, Side};
use crate::screen::text_view;
use crate::sim::Size;
use crate::store::size_columns;
use crate::time::Timestamp;
use crate::venue::Instrument;
use vstd::prelude::*;

verus! {

#[derive(Debug, Clone, Copy, PartialEq, Eq, Structural)]
pub enum SideDto {
    Buy,
    Sell,
}

#[derive(Debug, Clone, Copy, PartialEq, Eq, Structural)]
pub enum KindDto {
    Market,
    Limit,
}

#[derive(Debug, Clone, Copy, PartialEq, Eq, Structural)]
pub enum TifDto {
    Day,
    Gtc,
    Ioc,
}

impl SideDto {
    /// The side that is meant.
    pub open spec fn side(self) -> Side {
        match self {
            SideDto::Buy => Side::Buy,
            SideDto::Sell => Side::Sell,
        }
    }

    /// How a side is told.
    pub open spec fn told(s: Side) -> SideDto {
        match s {
            Side::Buy => SideDto::Buy,
            Side::Sell => SideDto::Sell,
        }
    }
}

impl From<SideDto> for Side {
    fn from(s: SideDto) -> (r: Side) {
        match s {
            SideDto::Buy => Side::Buy,
            SideDto::Sell => Side::Sell,
        }
    }
}

impl vstd::std_specs::convert::FromSpecImpl<SideDto> for Side {
    open spec fn obeys_from_spec() -> bool {
        true
    }

    open spec fn from_spec(s: SideDto) -> Side {
        s.side()
    }
}

impl From<Side> for SideDto {
    fn from(s: Side) -> (r: SideDto) {
        match s {
            Side::Buy => SideDto::Buy,
            Side::Sell => SideDto::Sell,
        }
    }
}

impl vstd::std_specs::convert::FromSpecImpl<Side> for SideDto {
    open spec fn obeys_from_spec() -> bool {
        true
    }

    open spec fn from_spec(s: Side) -> SideDto {
        SideDto::told(s)
    }
}

impl KindDto {
    /// The order type that is meant.
    pub open spec fn kind(self) -> OrderType {
        match self {
            KindDto::Market => OrderType::Market,
            KindDto::Limit => OrderType::Limit,
        }
    }

    /// How an order type is told.
    pub open spec fn told(k: OrderType) -> KindDto {
        match k {
            OrderType::Market => KindDto::Market,
            OrderType::Limit => KindDto::Limit,
        }
    }
}

impl From<KindDto> for OrderType {
    fn from(k: KindDto) -> (r: OrderType) {
        match k {
            KindDto::Market => OrderType::Market,
            KindDto::Limit => OrderType::Limit,
        }
    }
}

impl vstd::std_specs::convert::FromSpecImpl<KindDto> for OrderType {
    open spec fn obeys_from_spec() -> bool {
        true
    }

    open spec fn from_spec(k: KindDto) -> OrderType {
        k.kind()
    }
}

impl From<OrderType> for KindDto {
    fn from(k: OrderType) -> (r: KindDto) {
        match k {
            OrderType::Market => KindDto::Market,
            OrderType::Limit => KindDto::Limit,
        }
    }
}

impl vstd::std_specs::convert::FromSpecImpl<OrderType> for KindDto {
    open spec fn obeys_from_spec() -> bool {
        true
    }

    open spec fn from_spec(k: OrderType) -> KindDto {
        KindDto::told(k)
    }
}

impl TifDto {
    /// The time in force that is meant.
    pub open spec fn tif(self) -> Tif {
        match self {
            TifDto::Day => Tif::Day,
            TifDto::Gtc => Tif::Gtc,
            TifDto::Ioc => Tif::Ioc,
        }
    }

    /// How a time in force is told.
    pub open spec fn told(t: Tif) -> TifDto {
        match t {
            Tif::Day => TifDto::Day,
            Tif::Gtc => TifDto::Gtc,
            Tif::Ioc => TifDto::Ioc,
        }
    }
}

impl From<TifDto> for Tif {
    fn from(t: TifDto) -> (r: Tif) {
        match t {
            TifDto::Day => Tif::Day,
            TifDto::Gtc => Tif::Gtc,
            TifDto::Ioc => Tif::Ioc,
        }
    }
}

impl vstd::std_specs::convert::FromSpecImpl<TifDto> for Tif {
    open spec fn obeys_from_spec() -> bool {
        true
    }

    open spec fn from_spec(t: TifDto) -> Tif {
        t.tif()
    }
}

impl From<Tif> for TifDto {
    fn from(t: Tif) -> (r: TifDto) {
        match t {
            Tif::Day => TifDto::Day,
            Tif::Gtc => TifDto::Gtc,
            Tif::Ioc => TifDto::Ioc,
        }
    }
}

impl vstd::std_specs::convert::FromSpecImpl<Tif> for TifDto {
    open spec fn obeys_from_spec() -> bool {
        true
    }

    open spec fn from_spec(t: Tif) -> TifDto {
        TifDto::told(t)
    }
}

/// What is told is what was meant, both ways.
pub proof fn law_choices_carry_over(s: SideDto, k: KindDto, t: TifDto)
    ensures
        SideDto::told(s.side()) == s,
        KindDto::told(k.kind()) == k,
        TifDto::told(t.tif()) == t,
{
}

/// An order to estimate or place.
#[derive(Debug)]
pub struct OrderInput {
    /// Account id from `list_accounts`.
    pub account: String,
    /// Instrument id `VENUE:SYMBOL`, e.g. `UPBIT:KRW-BTC`, `BINANCE:BTCUSDT`, `KRX:005930`, `US:AAPL`.
    pub instrument: String,
    pub side: SideDto,
    /// `market` executes now against the order book, walking levels (bigger orders pay more);
    /// `limit` executes up to `limit_price` now and rests the remainder.
    pub kind: KindDto,
    /// Quantity in shares or coins. Give exactly one of `qty` or `notional`.
    pub qty: Option<Decimal>,
    /// Quote-currency amount to spend; market buys only. Fees come out of it.
    pub notional: Option<Decimal>,
    /// Limit price in the quote currency; required for `limit`, must sit on a valid tick.
    pub limit_price: Option<Decimal>,
    /// Stocks: `day` (default for limit) or `ioc`. Crypto: `gtc` (default for limit) or `ioc`.
    /// Market orders are always `ioc`.
    pub tif: Option<TifDto>,
    /// Why you are placing this order, in a sentence or two. Required; the user reads it next
    /// to the fill.
    pub reason: String,
}

#[derive(Debug)]
pub struct OrderView {
    pub id: u64,
    pub account: String,
    pub instrument: String,
    pub side: SideDto,
    pub kind: KindDto,
    pub qty: Option<Decimal>,
    pub notional: Option<Decimal>,
    pub limit_price: Option<Decimal>,
    pub tif: TifDto,
    /// `open`, `filled`, `cancelled` or `expired`. A cancelled order may be partly filled.
    pub status: &'static str,
    pub filled_qty: Decimal,
    /// Average fill price so far.
    pub avg_price: Option<Decimal>,
    pub reason: String,
    pub created_at: Timestamp,
}

impl OrderView {
    /// An order as it is told.
    pub fn of(o: &Order) -> (r: OrderView)
        ensures
            r.id == o.id,
            r.account@ == o.account@,
            r.instrument@ == id_text(o@.req.instrument),
            r.side == SideDto::told(o.req.side),
            r.kind == KindDto::told(o.req.kind),
            (r.qty, r.notional) == (match o.req.size {
                Size::Qty(q) => (Some(q), None::<Decimal>),
                Size::Notional(n) => (None::<Decimal>, Some(n)),
            }),
            r.limit_price == o.req.limit_price,
            r.tif == TifDto::told(o.req.tif),
            r.status@ == o.status.code_text(),
            r.filled_qty == o.filled_qty,
            r.avg_price == (if o.filled_qty.value() == 0 {
                None
            } else {
                unit_price(o.filled_notional, o.filled_qty)
            }),
            r.reason@ == o.req.reason@,
            r.created_at == o.created_at,
    {
        let (qty, notional) = size_columns(o.req.size);
        OrderView {
            id: o.id,
            account: o.account.clone(),
            instrument: o.req.instrument.to_text(),
            side: SideDto::from(o.req.side),
            kind: KindDto::from(o.req.kind),
            qty,
            notional,
            limit_price: o.req.limit_price,
            tif: TifDto::from(o.req.tif),
            status: o.status.code(),
            filled_qty: o.filled_qty,
            avg_price: o.avg_price(),
            reason: o.req.reason.clone(),
            created_at: o.created_at,
        }
    }
}

#[derive(Debug)]
pub struct FillView {
    pub order_id: u64,
    pub instrument: String,
    pub side: SideDto,
    pub qty: Decimal,
    /// Average price of this execution, quote currency.
    pub price: Decimal,
    pub notional: Decimal,
    pub fee: Decimal,
    pub tax: Decimal,
    /// Sells only: profit versus average cost, after this sale's fee and tax.
    pub realized_pnl: Option<Decimal>,
    /// `taker` (crossed the book) or `maker` (a resting limit order was hit).
    pub liquidity: &'static str,
    pub at: Timestamp,
}

impl FillView {
    /// A fill as it is told.
    pub fn of(f: &Fill) -> (r: FillView)
        ensures
            r.order_id == f.order_id,
            r.instrument@ == id_text(f@.instrument),
            r.side == SideDto::told(f.side),
            r.qty == f.qty,
            r.price == f.price,
            r.notional == f.notional,
            r.fee == f.fee,
            r.tax == f.tax,
            r.realized_pnl == f.realized_pnl,
            r.liquidity@ == f.liquidity.code_text(),
            r.at == f.at,
    {
        FillView {
            order_id: f.order_id,
            instrument: f.instrument.to_text(),
            side: SideDto::from(f.side),
            qty: f.qty,
            price: f.price,
            notional: f.notional,
            fee: f.fee,
            tax: f.tax,
            realized_pnl: f.realized_pnl,
            liquidity: f.liquidity.code(),
            at: f.at,
        }
    }
}

#[derive(Debug)]
pub struct InstrumentInfo {
    /// The id every other tool takes.
    pub id: String,
    pub name: String,
    /// Quote currency: KRW, USD or USDT.
    pub currency: &'static str,
    /// Quantities must be multiples of this.
    pub qty_step: Decimal,
    pub min_qty: Decimal,
    /// Smallest order value accepted, quote currency.
    pub min_order_value: Decimal,
}

impl InstrumentInfo {
    /// An instrument as it is told.
    pub fn of(i: &Instrument) -> (r: InstrumentInfo)
        ensures
            r.id@ == id_text(i@.id),
            r.name@ == i.name@,
            r.currency@ == i.id.venue.currency().code_text(),
            r.qty_step == i.lot.step.normal(),
            r.min_qty == i.lot.min_qty.normal(),
            r.min_order_value == i.lot.min_notional.normal(),
    {
        InstrumentInfo {
            id: i.id.to_text(),
            name: i.name.clone(),
            currency: i.id.venue.currency().code(),
            qty_step: i.lot.step.normalize(),
            min_qty: i.lot.min_qty.normalize(),
            min_order_value: i.lot.min_notional.normalize(),
        }
    }
}

#[derive(Debug)]
pub struct AccountInfo {
    pub id: String,
    pub name: String,
    /// Increases each time the user resets the account.
    pub generation: i32,
}

impl AccountInfo {
    /// An account as it is told.
    pub fn of(r: &AccountRow) -> (a: AccountInfo)
        ensures
            a.id@ == r.id@,
            a.name@ == r.name@,
            a.generation == r.generation,
    {
        AccountInfo { id: r.id.clone(), name: r.name.clone(), generation: r.generation }
    }
}

#[derive(Debug)]
pub struct ConversionView {
    pub from: &'static str,
    pub to: &'static str,
    pub debit: Decimal,
    pub credit: Decimal,
    /// Units of `to` received per unit of `from`, after the spread.
    pub rate: Decimal,
}

impl ConversionView {
    /// A conversion as it is told.
    pub fn of(c: &Conversion) -> (r: ConversionView)
        ensures
            r.from@ == c.from.code_text(),
            r.to@ == c.to.code_text(),
            r.debit == c.debit,
            r.credit == c.credit,
            r.rate == c.rate,
    {
        ConversionView { from: c.from.code(), to: c.to.code(), debit: c.debit, credit: c.credit, rate: c.rate }
    }
}

/// One page of a filing.
#[derive(Debug)]
pub struct FilingText {
    pub filing_id: String,
    pub page: u32,
    pub pages: u32,
    /// Plain text, up to 20,000 characters.
    pub text: String,
}

/// An alert to create. Kinds and what they need:
/// `price_above` / `price_below`: instrument + threshold (price);
/// `move`: instrument + threshold (percent) + window_minutes (1-240);
/// `volume_surge`: instrument + threshold (multiple of the average pace, >= 1) + window_minutes;
/// `order_filled`: optional instrument; `session_open` / `session_close`: venue (KRX or US).
#[derive(Debug)]
pub struct AlertInput {
    pub kind: String,
    pub instrument: Option<String>,
    pub venue: Option<String>,
    pub threshold: Option<Decimal>,
    pub window_minutes: Option<u32>,
    /// What you want to remember when it fires — your plan for this moment.
    pub note: String,
    /// Fire once and turn off (default true); false re-arms after a 5-minute cooldown.
    pub once: Option<bool>,
}

#[derive(Debug)]
pub struct AlertView {
    pub id: i64,
    pub kind: &'static str,
    pub instrument: Option<String>,
    pub venue: Option<&'static str>,
    pub threshold: Option<Decimal>,
    pub window_minutes: Option<u32>,
    pub note: String,
    pub once: bool,
    pub active: bool,
    pub created_at: Timestamp,
    pub last_fired_at: Option<Timestamp>,
}

impl AlertView {
    /// An alert as it is told.
    pub fn from_alert(a: &Alert, active: bool) -> (r: AlertView)
        ensures
            r.id == a.id,
            r.kind@ == a.condition@.kind_text(),
            text_view(r.instrument) == (match a.condition@.about() {
                Some(id) => Some(id_text(id)),
                None => None,
            }),
            match a.condition@.at_venue() {
                Some(v) => r.venue matches Some(t) && t@ == v.tag_text(),
                None => r.venue is None,
            },
            r.threshold == a.condition@.limit(),
            r.window_minutes == a.condition@.window(),
            r.note@ == a.note@,
            r.once == a.once,
            r.active == active,
            r.created_at == a.created_at,
            r.last_fired_at == a.last_fired_at,
    {
        let c = &a.condition;
        AlertView {
            id: a.id,
            kind: c.kind(),
            instrument: match c.instrument() {
                Some(i) => Some(i.to_text()),
                None => None,
            },
            venue: match c.venue() {
                Some(v) => Some(v.tag()),
                None => None,
            },
            threshold: c.threshold(),
            window_minutes: c.window_minutes(),
            note: a.note.clone(),
            once: a.once,
            active,
            created_at: a.created_at,
            last_fired_at: a.last_fired_at,
        }
    }
}

} // verus!
