//! Orders: what they say, how they are checked, and what executing them would do.
use crate::decimal::{
    dec, one, opt_over, opt_plus, opt_rounded, opt_times, parts_value, zero, Decimal,
};
use crate::domain::{Book, BookView, Currency, InstrumentId, Side, Venue};
use crate::ledger::{cash_available, qty_available, LedgerError, Portfolio, PortfolioView};
use crate::sim::{
    shadow_from, totals, totals_of, walk, walk_from, ShadowLevel, ShadowState, ShadowView, SimParams, Size, Slice,
};
use crate::table::Stored;
use crate::time::Timestamp;
use crate::venue::{FeeSchedule, Instrument, InstrumentView, LotRule};
use vstd::prelude::*;

pub mod balance;
pub mod booking;
pub mod laws;
pub mod look;
pub mod prints;
pub mod taking;
pub mod world;

pub use look::BookSides;
pub use world::{SimBroker, Sweep, World};

verus! {

#[derive(Debug, Clone, Copy, PartialEq, Eq, Structural)]
pub enum OrderType {
    Market,
    Limit,
}

#[derive(Debug, Clone, Copy, PartialEq, Eq, Structural)]
pub enum Tif {
    /// Stocks: expires at session close.
    Day,
    /// Crypto: rests until filled or cancelled.
    Gtc,
    /// Fill what is possible now, cancel the rest.
    Ioc,
}

#[derive(Debug, Clone, Copy, PartialEq, Eq, Structural)]
pub enum OrderStatus {
    Open,
    Filled,
    Cancelled,
    Expired,
}

#[derive(Debug, Clone, Copy, PartialEq, Eq, Structural)]
pub enum Liquidity {
    Taker,
    Maker,
}

#[derive(Debug)]
pub struct OrderRequest {
    pub instrument: InstrumentId,
    pub side: Side,
    pub kind: OrderType,
    pub size: Size,
    pub limit_price: Option<Decimal>,
    pub tif: Tif,
    /// Why the agent placed this order; shown next to its fills.
    pub reason: String,
}

/// What an order asks for.
pub ghost struct RequestView {
    pub instrument: (Venue, Seq<char>),
    pub side: Side,
    pub kind: OrderType,
    pub size: Size,
    pub limit_price: Option<Decimal>,
    pub tif: Tif,
    pub reason: Seq<char>,
}

impl View for OrderRequest {
    type V = RequestView;

    open spec fn view(&self) -> RequestView {
        RequestView {
            instrument: self.instrument@,
            side: self.side,
            kind: self.kind,
            size: self.size,
            limit_price: self.limit_price,
            tif: self.tif,
            reason: self.reason@,
        }
    }
}

impl Clone for OrderRequest {
    fn clone(&self) -> (r: OrderRequest)
        ensures
            r@ == self@,
    {
        OrderRequest {
            instrument: self.instrument.clone(),
            side: self.side,
            kind: self.kind,
            size: self.size,
            limit_price: self.limit_price,
            tif: self.tif,
            reason: self.reason.clone(),
        }
    }
}

#[derive(Debug)]
pub struct Order {
    pub id: u64,
    pub account: String,
    pub req: OrderRequest,
    pub status: OrderStatus,
    pub filled_qty: Decimal,
    pub filled_notional: Decimal,
    pub created_at: Timestamp,
}

/// What is known of an order.
pub ghost struct OrderView {
    pub id: u64,
    pub account: Seq<char>,
    pub req: RequestView,
    pub status: OrderStatus,
    pub filled_qty: Decimal,
    pub filled_notional: Decimal,
    pub created_at: Timestamp,
}

impl View for Order {
    type V = OrderView;

    open spec fn view(&self) -> OrderView {
        OrderView {
            id: self.id,
            account: self.account@,
            req: self.req@,
            status: self.status,
            filled_qty: self.filled_qty,
            filled_notional: self.filled_notional,
            created_at: self.created_at,
        }
    }
}

impl Stored for Order {
    open spec fn sound(&self) -> bool {
        true
    }
}

impl Clone for Order {
    fn clone(&self) -> (r: Order)
        ensures
            r@ == self@,
    {
        Order {
            id: self.id,
            account: self.account.clone(),
            req: self.req.clone(),
            status: self.status,
            filled_qty: self.filled_qty,
            filled_notional: self.filled_notional,
            created_at: self.created_at,
        }
    }
}

/// Value per unit, to eight places.
pub open spec fn unit_price(notional: Decimal, qty: Decimal) -> Option<Decimal> {
    opt_rounded(notional.over(qty), 8)
}

impl Order {
    /// The average price of what has filled: `None` before the first fill, and where a decimal
    /// cannot hold it.
    pub fn avg_price(&self) -> (r: Option<Decimal>)
        ensures
            r == (if self.filled_qty.value() == 0 {
                None
            } else {
                unit_price(self.filled_notional, self.filled_qty)
            }),
    {
        if self.filled_qty.is_zero() {
            return None;
        }
        Some(self.filled_notional.checked_div(self.filled_qty)?.round_dp(8))
    }
}

#[derive(Debug)]
pub struct Fill {
    pub order_id: u64,
    pub account: String,
    pub instrument: InstrumentId,
    pub side: Side,
    pub qty: Decimal,
    pub notional: Decimal,
    /// Volume-weighted average price of this execution.
    pub price: Decimal,
    pub fee: Decimal,
    pub tax: Decimal,
    pub realized_pnl: Option<Decimal>,
    pub liquidity: Liquidity,
    pub at: Timestamp,
}

/// What one execution did.
pub ghost struct FillView {
    pub order_id: u64,
    pub account: Seq<char>,
    pub instrument: (Venue, Seq<char>),
    pub side: Side,
    pub qty: Decimal,
    pub notional: Decimal,
    pub price: Decimal,
    pub fee: Decimal,
    pub tax: Decimal,
    pub realized_pnl: Option<Decimal>,
    pub liquidity: Liquidity,
    pub at: Timestamp,
}

impl View for Fill {
    type V = FillView;

    open spec fn view(&self) -> FillView {
        FillView {
            order_id: self.order_id,
            account: self.account@,
            instrument: self.instrument@,
            side: self.side,
            qty: self.qty,
            notional: self.notional,
            price: self.price,
            fee: self.fee,
            tax: self.tax,
            realized_pnl: self.realized_pnl,
            liquidity: self.liquidity,
            at: self.at,
        }
    }
}

impl Clone for Fill {
    fn clone(&self) -> (r: Fill)
        ensures
            r@ == self@,
    {
        Fill {
            order_id: self.order_id,
            account: self.account.clone(),
            instrument: self.instrument.clone(),
            side: self.side,
            qty: self.qty,
            notional: self.notional,
            price: self.price,
            fee: self.fee,
            tax: self.tax,
            realized_pnl: self.realized_pnl,
            liquidity: self.liquidity,
            at: self.at,
        }
    }
}

/// What `place` would do right now, without doing it.
#[derive(Debug, Clone, Copy, PartialEq)]
pub struct Estimate {
    pub filled_qty: Decimal,
    pub avg_price: Option<Decimal>,
    pub notional: Decimal,
    pub fee: Decimal,
    pub tax: Decimal,
    /// Quantity that would rest as a limit order.
    pub rest_qty: Decimal,
    /// Distance of the average fill price from the pre-trade shadow mid.
    pub slippage_bps: Decimal,
}

/// One cash conversion between currencies.
#[derive(Debug, Clone, Copy, PartialEq)]
pub struct Conversion {
    pub from: Currency,
    pub to: Currency,
    pub debit: Decimal,
    pub credit: Decimal,
    /// Units of `to` per unit of `from`, after the spread.
    pub rate: Decimal,
}

/// Why an order is refused. `M` is the kind of text that a message is.
#[derive(Debug, PartialEq)]
pub enum OrderError<M = String> {
    UnknownAccount,
    UnknownInstrument,
    NotTradable,
    MarketClosed { next_open: Option<Timestamp> },
    StaleData { age_secs: Option<i64> },
    NoLiquidity,
    InvalidTick { lower: Decimal, upper: Decimal },
    InvalidQty { step: Decimal, min_qty: Decimal, min_notional: Decimal },
    PriceLimit { lower: Decimal, upper: Decimal },
    InsufficientFunds { required: Decimal, available: Decimal },
    InsufficientPosition { available: Decimal },
    NotFound,
    InvalidRequest(M),
    /// The amounts cannot be booked.
    Ledger(LedgerError),
}

impl View for OrderError<String> {
    type V = OrderError<Seq<char>>;

    open spec fn view(&self) -> OrderError<Seq<char>> {
        match *self {
            OrderError::UnknownAccount => OrderError::UnknownAccount,
            OrderError::UnknownInstrument => OrderError::UnknownInstrument,
            OrderError::NotTradable => OrderError::NotTradable,
            OrderError::MarketClosed { next_open } => OrderError::MarketClosed { next_open },
            OrderError::StaleData { age_secs } => OrderError::StaleData { age_secs },
            OrderError::NoLiquidity => OrderError::NoLiquidity,
            OrderError::InvalidTick { lower, upper } => OrderError::InvalidTick { lower, upper },
            OrderError::InvalidQty { step, min_qty, min_notional } => OrderError::InvalidQty {
                step,
                min_qty,
                min_notional,
            },
            OrderError::PriceLimit { lower, upper } => OrderError::PriceLimit { lower, upper },
            OrderError::InsufficientFunds { required, available } => OrderError::InsufficientFunds {
                required,
                available,
            },
            OrderError::InsufficientPosition { available } => OrderError::InsufficientPosition { available },
            OrderError::NotFound => OrderError::NotFound,
            OrderError::InvalidRequest(m) => OrderError::InvalidRequest(m@),
            OrderError::Ledger(e) => OrderError::Ledger(e),
        }
    }
}

/// No decimal can hold an amount.
pub open spec fn overflow<M>() -> OrderError<M> {
    OrderError::Ledger(LedgerError::Overflow)
}

/// Whether a computed result is the modelled one: the same error, or a success that `same` accepts.
pub open spec fn agrees<T, U>(
    r: Result<T, OrderError>,
    model: Result<U, OrderError<Seq<char>>>,
    same: spec_fn(T, U) -> bool,
) -> bool {
    match model {
        Ok(u) => r matches Ok(t) && same(t, u),
        Err(e) => r matches Err(x) && x@ == e,
    }
}

/// The size in an order, as a number.
pub open spec fn size_number(s: Size) -> Decimal {
    match s {
        Size::Qty(q) => q,
        Size::Notional(n) => n,
    }
}

/// Above any real order, far below overflow once multiplied together: 10^15.
pub open spec fn too_large(d: Decimal) -> bool {
    d.magnitude().value() > parts_value(1_000_000_000_000_000, 0)
}

/// What is wrong with an order's shape, if anything.
pub open spec fn shape_error(req: RequestView) -> Option<Seq<char>> {
    let crypto = !req.instrument.0.has_session();
    if too_large(size_number(req.size)) || (req.limit_price is Some && too_large(req.limit_price->0)) {
        Some("size or price is out of range"@)
    } else if req.kind == OrderType::Limit && req.limit_price is None {
        Some("limit orders need limit_price"@)
    } else if req.kind == OrderType::Limit && req.size is Notional {
        Some("limit orders are sized by qty"@)
    } else if req.kind == OrderType::Market && req.limit_price is Some {
        Some("market orders take no limit_price"@)
    } else if req.size is Notional && req.side == Side::Sell {
        Some("sell orders are sized by qty"@)
    } else if req.kind == OrderType::Limit && req.tif == Tif::Gtc && !crypto {
        Some("gtc is only for crypto; use day"@)
    } else if req.kind == OrderType::Limit && req.tif == Tif::Day && crypto {
        Some("day is only for stocks; use gtc"@)
    } else {
        None
    }
}

fn is_too_large(d: Decimal) -> (r: bool)
    ensures
        r == too_large(d),
{
    let max = Decimal::new(1_000_000_000_000_000, 0);
    max.lt(d.abs())
}

fn invalid(m: &str) -> (r: OrderError)
    ensures
        r@ == OrderError::<Seq<char>>::InvalidRequest(m@),
{
    OrderError::InvalidRequest(m.to_owned())
}

pub(crate) fn no_room() -> (r: OrderError)
    ensures
        r@ == overflow::<Seq<char>>(),
{
    OrderError::Ledger(LedgerError::Overflow)
}

/// Refuses an order whose parts do not fit together.
pub fn check_shape(req: &OrderRequest) -> (r: Result<(), OrderError>)
    ensures
        match shape_error(req@) {
            Some(m) => r matches Err(e) && e@ == OrderError::<Seq<char>>::InvalidRequest(m),
            None => r is Ok,
        },
{
    let size = match req.size {
        Size::Qty(q) => q,
        Size::Notional(q) => q,
    };
    let large_price = match req.limit_price {
        Some(p) => is_too_large(p),
        None => false,
    };
    if is_too_large(size) || large_price {
        return Err(invalid("size or price is out of range"));
    }
    let by_money = match req.size {
        Size::Qty(_) => false,
        Size::Notional(_) => true,
    };
    let limit = req.kind == OrderType::Limit;
    if limit && req.limit_price.is_none() {
        return Err(invalid("limit orders need limit_price"));
    }
    if limit && by_money {
        return Err(invalid("limit orders are sized by qty"));
    }
    if !limit && req.limit_price.is_some() {
        return Err(invalid("market orders take no limit_price"));
    }
    if by_money && req.side == Side::Sell {
        return Err(invalid("sell orders are sized by qty"));
    }
    let crypto = !req.instrument.venue.has_session();
    if limit && req.tif == Tif::Gtc && !crypto {
        return Err(invalid("gtc is only for crypto; use day"));
    }
    if limit && req.tif == Tif::Day && crypto {
        return Err(invalid("day is only for stocks; use gtc"));
    }
    Ok(())
}

/// Cash reserved per unit of a resting buy: limit price plus commission.
pub open spec fn reserve_per_unit(limit: Decimal, venue: Venue) -> Option<Decimal> {
    opt_times(
        Some(limit),
        opt_plus(Some(one()), FeeSchedule::of_venue(venue).commission_bps.over(dec(10_000, 0))),
    )
}

/// Cash reserved for `qty` of a resting buy.
pub open spec fn reserve_for(limit: Decimal, venue: Venue, qty: Decimal) -> Option<Decimal> {
    opt_times(reserve_per_unit(limit, venue), Some(qty))
}

pub(crate) fn buy_reserve_per_unit(limit: Decimal, venue: Venue) -> (r: Option<Decimal>)
    ensures
        r == reserve_per_unit(limit, venue),
{
    let share = FeeSchedule::default_for(venue).commission_bps.checked_div(Decimal::new(10_000, 0))?;
    limit.checked_mul(Decimal::one().checked_add(share)?)
}

pub(crate) fn buy_reserve(limit: Decimal, venue: Venue, qty: Decimal) -> (r: Option<Decimal>)
    ensures
        r == reserve_for(limit, venue, qty),
{
    buy_reserve_per_unit(limit, venue)?.checked_mul(qty)
}

/// The result of validating an order against the current shadow book.
pub struct Plan {
    pub slices: Vec<Slice>,
    pub qty: Decimal,
    pub notional: Decimal,
    pub fee: Decimal,
    pub tax: Decimal,
    pub rest_qty: Decimal,
    pub queue_ahead: Decimal,
    pub mid: Decimal,
}

/// What executing an order now would do.
pub ghost struct PlanView {
    pub slices: Seq<Slice>,
    pub qty: Decimal,
    pub notional: Decimal,
    pub fee: Decimal,
    pub tax: Decimal,
    pub rest_qty: Decimal,
    pub queue_ahead: Decimal,
    pub mid: Decimal,
}

impl View for Plan {
    type V = PlanView;

    open spec fn view(&self) -> PlanView {
        PlanView {
            slices: self.slices@,
            qty: self.qty,
            notional: self.notional,
            fee: self.fee,
            tax: self.tax,
            rest_qty: self.rest_qty,
            queue_ahead: self.queue_ahead,
            mid: self.mid,
        }
    }
}

pub open spec fn bad_qty(lot: LotRule) -> OrderError<Seq<char>> {
    OrderError::InvalidQty { step: lot.step, min_qty: lot.min_qty, min_notional: lot.min_notional }
}

fn invalid_qty(lot: &LotRule) -> (r: OrderError)
    ensures
        r@ == bad_qty(*lot),
{
    OrderError::InvalidQty { step: lot.step, min_qty: lot.min_qty, min_notional: lot.min_notional }
}

/// Half way between the best bid and the best ask.
pub open spec fn mid_of(bid: Decimal, ask: Decimal) -> Option<Decimal> {
    opt_over(bid.plus(ask), Some(dec(2, 0)))
}

/// Whether the size of an order can be ordered at all: a quantity by the lot rule, at the limit
/// price or the mid; a money amount if it is positive and not below the minimum.
pub open spec fn size_allowed(req: RequestView, lot: LotRule, mid: Decimal) -> bool {
    match req.size {
        Size::Qty(q) => lot.orderable(q, if req.limit_price is Some { req.limit_price->0 } else { mid }),
        Size::Notional(n) => n.value() > 0 && n.value() >= lot.min_notional.value(),
    }
}

/// The worst price an order may execute at: its own limit, or the mid moved by the largest
/// slippage.
pub open spec fn worst_price(req: RequestView, mid: Decimal) -> Option<Decimal> {
    if req.limit_price is Some {
        req.limit_price
    } else {
        let slip = SimParams::of_venue(req.instrument.0).max_slippage;
        let band = match req.side {
            Side::Buy => one().plus(slip),
            Side::Sell => one().minus(slip),
        };
        opt_rounded(opt_times(Some(mid), band), 8)
    }
}

/// The size to walk the book for. A money amount leaves room for the commission inside it.
pub open spec fn walk_size(req: RequestView) -> Option<Size> {
    match req.size {
        Size::Qty(q) => Some(req.size),
        Size::Notional(n) => match opt_over(
            n.times(dec(10_000, 0)),
            dec(10_000, 0).plus(FeeSchedule::of_venue(req.instrument.0).commission_bps),
        ) {
            Some(x) => Some(Size::Notional(x)),
            None => None,
        },
    }
}

/// The quantity of the levels at the limit price, from index `i` on, added to what came before.
pub open spec fn queue_from(levels: Seq<ShadowLevel>, limit: Option<Decimal>, i: int, sum: Decimal) -> Option<Decimal>
    decreases levels.len() - i,
{
    if i >= levels.len() {
        Some(sum)
    } else if limit is Some && levels[i].price.value() == limit->0.value() {
        match sum.plus(levels[i].qty) {
            Some(s) => queue_from(levels, limit, i + 1, s),
            None => None,
        }
    } else {
        queue_from(levels, limit, i + 1, sum)
    }
}

/// What is left to rest of an order of which `qty` fills at once.
pub open spec fn rest_of(req: RequestView, qty: Decimal) -> Option<Decimal> {
    if req.kind == OrderType::Limit && req.tif != Tif::Ioc && req.size is Qty {
        req.size->Qty_0.minus(qty)
    } else {
        Some(zero())
    }
}

/// Whether what an order takes and rests is covered: cash for a buy, the whole quantity for a
/// sale.
pub open spec fn covered(
    pf: PortfolioView,
    req: RequestView,
    limit: Decimal,
    notional: Decimal,
    fee: Decimal,
    tax: Decimal,
    rest_qty: Decimal,
) -> Result<(), OrderError<Seq<char>>> {
    let venue = req.instrument.0;
    match req.side {
        Side::Buy => match (
            opt_plus(opt_plus(notional.plus(fee), Some(tax)), reserve_for(limit, venue, rest_qty)),
            cash_available(pf, venue.currency()),
        ) {
            (Some(required), Some(available)) => if required.value() > available.value() {
                Err(OrderError::InsufficientFunds { required, available })
            } else {
                Ok(())
            },
            _ => Err(overflow()),
        },
        Side::Sell => match qty_available(pf, req.instrument) {
            Some(available) => if size_number(req.size).value() > available.value() {
                Err(OrderError::InsufficientPosition { available })
            } else {
                Ok(())
            },
            None => Err(overflow()),
        },
    }
}

/// What an order would take, and what it would leave, given both sides of the shadow book.
pub open spec fn plan_on(
    bids: Seq<ShadowLevel>,
    asks: Seq<ShadowLevel>,
    lot: LotRule,
    pf: PortfolioView,
    req: RequestView,
) -> Result<PlanView, OrderError<Seq<char>>> {
    let venue = req.instrument.0;
    if bids.len() == 0 || asks.len() == 0 {
        Err(OrderError::NoLiquidity)
    } else {
        match mid_of(bids[0].price, asks[0].price) {
            None => Err(overflow()),
            Some(mid) => if !size_allowed(req, lot, mid) {
                Err(bad_qty(lot))
            } else {
                match (worst_price(req, mid), walk_size(req)) {
                    (Some(limit), Some(size)) => plan_walk(bids, asks, lot, pf, req, mid, limit, size),
                    _ => Err(overflow()),
                }
            },
        }
    }
}

/// The same, once the worst price and the size to walk for are known.
pub open spec fn plan_walk(
    bids: Seq<ShadowLevel>,
    asks: Seq<ShadowLevel>,
    lot: LotRule,
    pf: PortfolioView,
    req: RequestView,
    mid: Decimal,
    limit: Decimal,
    size: Size,
) -> Result<PlanView, OrderError<Seq<char>>> {
    let (opposite, own) = match req.side {
        Side::Buy => (asks, bids),
        Side::Sell => (bids, asks),
    };
    match walk_from(opposite, req.side, size, limit, lot.step, 0) {
        None => Err(overflow()),
        Some(slices) => match totals_of(slices) {
            None => Err(overflow()),
            Some((qty, notional)) => {
                let by_money = req.size is Notional && qty.value() > 0;
                if by_money && notional.over(qty) is None {
                    Err(overflow())
                } else if by_money && !lot.orderable(qty, notional.over(qty)->0) {
                    Err(bad_qty(lot))
                } else {
                    plan_totals(own, pf, req, mid, limit, slices, qty, notional)
                }
            },
        },
    }
}

/// The same, once it is known what is taken.
pub open spec fn plan_totals(
    own: Seq<ShadowLevel>,
    pf: PortfolioView,
    req: RequestView,
    mid: Decimal,
    limit: Decimal,
    slices: Seq<Slice>,
    qty: Decimal,
    notional: Decimal,
) -> Result<PlanView, OrderError<Seq<char>>> {
    let venue = req.instrument.0;
    match (
        FeeSchedule::of_venue(venue).charged(req.side, notional, venue.currency().decimals() as int),
        rest_of(req, qty),
        queue_from(own, req.limit_price, 0, zero()),
    ) {
        (Some((fee, tax)), Some(rest_qty), Some(queue_ahead)) => match covered(
            pf,
            req,
            limit,
            notional,
            fee,
            tax,
            rest_qty,
        ) {
            Err(e) => Err(e),
            Ok(_) => Ok(PlanView { slices, qty, notional, fee, tax, rest_qty, queue_ahead, mid }),
        },
        _ => Err(overflow()),
    }
}

/// What an order would do on a book seen through a shadow.
pub open spec fn planned(
    inst: InstrumentView,
    book: BookView,
    shadow: ShadowView,
    pf: PortfolioView,
    req: RequestView,
) -> Result<PlanView, OrderError<Seq<char>>> {
    match (
        shadow_from(shadow, book.bids, Side::Buy, inst.tick, 0),
        shadow_from(shadow, book.asks, Side::Sell, inst.tick, 0),
    ) {
        (Some(bids), Some(asks)) => plan_on(bids, asks, inst.lot, pf, req),
        _ => Err(overflow()),
    }
}

fn queue_at(levels: &[ShadowLevel], limit: Option<Decimal>) -> (r: Option<Decimal>)
    ensures
        r == queue_from(levels@, limit, 0, zero()),
{
    let mut sum = Decimal::zero();
    let mut i: usize = 0;
    while i < levels.len()
        invariant
            i <= levels@.len(),
            queue_from(levels@, limit, 0, zero()) == queue_from(levels@, limit, i as int, sum),
        decreases levels@.len() - i,
    {
        if let Some(p) = limit {
            if levels[i].price.same(p) {
                sum = sum.checked_add(levels[i].qty)?;
            }
        }
        i += 1;
    }
    Some(sum)
}

fn worst(req: &OrderRequest, mid: Decimal) -> (r: Option<Decimal>)
    ensures
        r == worst_price(req@, mid),
{
    if req.limit_price.is_some() {
        return req.limit_price;
    }
    let slip = SimParams::default_for(req.instrument.venue).max_slippage;
    let band = match req.side {
        Side::Buy => Decimal::one().checked_add(slip)?,
        Side::Sell => Decimal::one().checked_sub(slip)?,
    };
    Some(mid.checked_mul(band)?.round_dp(8))
}

fn size_to_walk(req: &OrderRequest) -> (r: Option<Size>)
    ensures
        r == walk_size(req@),
{
    match req.size {
        Size::Qty(q) => Some(Size::Qty(q)),
        Size::Notional(n) => {
            let base = Decimal::new(10_000, 0);
            let top = n.checked_mul(base)?;
            let bottom = base.checked_add(FeeSchedule::default_for(req.instrument.venue).commission_bps)?;
            Some(Size::Notional(top.checked_div(bottom)?))
        },
    }
}

fn rest_qty_of(req: &OrderRequest, qty: Decimal) -> (r: Option<Decimal>)
    ensures
        r == rest_of(req@, qty),
{
    if req.kind == OrderType::Limit && req.tif != Tif::Ioc {
        match req.size {
            Size::Qty(q) => q.checked_sub(qty),
            Size::Notional(_) => Some(Decimal::zero()),
        }
    } else {
        Some(Decimal::zero())
    }
}

fn required_cash(
    notional: Decimal,
    fee: Decimal,
    tax: Decimal,
    limit: Decimal,
    venue: Venue,
    rest_qty: Decimal,
) -> (r: Option<Decimal>)
    ensures
        r == opt_plus(opt_plus(notional.plus(fee), Some(tax)), reserve_for(limit, venue, rest_qty)),
{
    notional.checked_add(fee)?.checked_add(tax)?.checked_add(buy_reserve(limit, venue, rest_qty)?)
}

fn check_cover(
    pf: &Portfolio,
    req: &OrderRequest,
    limit: Decimal,
    notional: Decimal,
    fee: Decimal,
    tax: Decimal,
    rest_qty: Decimal,
) -> (r: Result<(), OrderError>)
    requires
        pf.wf(),
    ensures
        agrees(r, covered(pf@, req@, limit, notional, fee, tax, rest_qty), |a: (), b: ()| true),
{
    let venue = req.instrument.venue;
    match req.side {
        Side::Buy => match (
            required_cash(notional, fee, tax, limit, venue, rest_qty),
            pf.available_cash(venue.currency()),
        ) {
            (Some(required), Some(available)) => if available.lt(required) {
                Err(OrderError::InsufficientFunds { required, available })
            } else {
                Ok(())
            },
            _ => Err(no_room()),
        },
        Side::Sell => {
            let wanted = match req.size {
                Size::Qty(q) => q,
                Size::Notional(q) => q,
            };
            match pf.available_qty(&req.instrument) {
                Some(available) => if available.lt(wanted) {
                    Err(OrderError::InsufficientPosition { available })
                } else {
                    Ok(())
                },
                None => Err(no_room()),
            }
        },
    }
}

fn allowed(req: &OrderRequest, lot: &LotRule, mid: Decimal) -> (r: bool)
    ensures
        r == size_allowed(req@, *lot, mid),
{
    match req.size {
        Size::Qty(q) => {
            let price = match req.limit_price {
                Some(p) => p,
                None => mid,
            };
            lot.is_valid(q, price)
        },
        Size::Notional(n) => n.is_positive() && lot.min_notional.le(n),
    }
}

fn plan_from_totals(
    own: &[ShadowLevel],
    pf: &Portfolio,
    req: &OrderRequest,
    mid: Decimal,
    limit: Decimal,
    slices: Vec<Slice>,
    qty: Decimal,
    notional: Decimal,
) -> (r: Result<Plan, OrderError>)
    requires
        pf.wf(),
    ensures
        agrees(
            r,
            plan_totals(own@, pf@, req@, mid, limit, slices@, qty, notional),
            |p: Plan, v: PlanView| p@ == v,
        ),
{
    let venue = req.instrument.venue;
    let cost = FeeSchedule::default_for(venue).cost(req.side, notional, venue.currency().decimals());
    match (cost, rest_qty_of(req, qty), queue_at(own, req.limit_price)) {
        (Some((fee, tax)), Some(rest_qty), Some(queue_ahead)) => match check_cover(
            pf,
            req,
            limit,
            notional,
            fee,
            tax,
            rest_qty,
        ) {
            Err(e) => Err(e),
            Ok(_) => Ok(Plan { slices, qty, notional, fee, tax, rest_qty, queue_ahead, mid }),
        },
        _ => Err(no_room()),
    }
}

fn plan_by_walking(
    bids: &[ShadowLevel],
    asks: &[ShadowLevel],
    lot: &LotRule,
    pf: &Portfolio,
    req: &OrderRequest,
    mid: Decimal,
    limit: Decimal,
    size: Size,
) -> (r: Result<Plan, OrderError>)
    requires
        pf.wf(),
    ensures
        agrees(
            r,
            plan_walk(bids@, asks@, *lot, pf@, req@, mid, limit, size),
            |p: Plan, v: PlanView| p@ == v,
        ),
{
    let (opposite, own) = match req.side {
        Side::Buy => (asks, bids),
        Side::Sell => (bids, asks),
    };
    let slices = match walk(opposite, req.side, size, limit, lot.step) {
        Some(s) => s,
        None => return Err(no_room()),
    };
    let (qty, notional) = match totals(&slices) {
        Some(t) => t,
        None => return Err(no_room()),
    };
    let by_money = match req.size {
        Size::Qty(_) => false,
        Size::Notional(_) => qty.is_positive(),
    };
    if by_money {
        match notional.checked_div(qty) {
            None => return Err(no_room()),
            Some(price) => if !lot.is_valid(qty, price) {
                return Err(invalid_qty(lot));
            },
        }
    }
    plan_from_totals(own, pf, req, mid, limit, slices, qty, notional)
}

fn plan_on_levels(
    bids: &[ShadowLevel],
    asks: &[ShadowLevel],
    lot: &LotRule,
    pf: &Portfolio,
    req: &OrderRequest,
) -> (r: Result<Plan, OrderError>)
    requires
        pf.wf(),
    ensures
        agrees(r, plan_on(bids@, asks@, *lot, pf@, req@), |p: Plan, v: PlanView| p@ == v),
{
    if bids.len() == 0 || asks.len() == 0 {
        return Err(OrderError::NoLiquidity);
    }
    let sum = match bids[0].price.checked_add(asks[0].price) {
        Some(s) => s,
        None => return Err(no_room()),
    };
    let mid = match sum.checked_div(Decimal::new(2, 0)) {
        Some(m) => m,
        None => return Err(no_room()),
    };
    if !allowed(req, lot, mid) {
        return Err(invalid_qty(lot));
    }
    match (worst(req, mid), size_to_walk(req)) {
        (Some(limit), Some(size)) => plan_by_walking(bids, asks, lot, pf, req, mid, limit, size),
        _ => Err(no_room()),
    }
}

/// What an order would do on a book seen through a shadow.
pub fn plan(
    inst: &Instrument,
    book: &Book,
    shadow: &ShadowState,
    pf: &Portfolio,
    req: &OrderRequest,
) -> (r: Result<Plan, OrderError>)
    requires
        shadow.wf(),
        pf.wf(),
    ensures
        agrees(r, planned(inst@, book@, shadow@, pf@, req@), |p: Plan, v: PlanView| p@ == v),
{
    match (
        shadow.shadow_side(&book.bids, Side::Buy, &inst.tick),
        shadow.shadow_side(&book.asks, Side::Sell, &inst.tick),
    ) {
        (Some(bids), Some(asks)) => plan_on_levels(&bids, &asks, &inst.lot, pf, req),
        _ => Err(no_room()),
    }
}

} // verus!
