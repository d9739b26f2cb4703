//! The paper-trading broker: accounts, books, shadows and orders, and what happens to them.
use crate::broker::{
    agrees, buy_reserve, check_shape, no_room, overflow, plan, planned, reserve_for, shape_error, unit_price,
    Conversion, Estimate, Fill, FillView, Liquidity, Order, OrderError, OrderRequest, OrderStatus, OrderView, Plan,
    PlanView, RequestView, Tif,
};
use crate::decimal::{
    dec, lemma_pow10_add, lemma_pow10_positive, one, opt_over, opt_rounded, opt_times, opt_truncated, parts_value,
    pow10, zero, Decimal,
};
use crate::domain::{id_text, Book, BookView, Currency, InstrumentId, Level, Side, Trade, TradeView, Venue};
use crate::ledger::{
    amount_of, cash_available, cash_released, cash_reserved, deposits, filled, qty_released, qty_reserved, LedgerError,
    Portfolio, PortfolioView,
};
use crate::sim::{
    consumed, decayed, fresh_shadow, passive_fill, passively_filled, shadow_from, shifted, totals, totals_of, walk,
    walk_from, DailyStats, Drift, Resting, ShadowState, ShadowView, Size, Slice,
};
use crate::table::{lemma_push_contains, lemma_row, lemma_row_of, Key, Stored, Table};
use crate::text::{lemma_lex_irreflexive, lemma_lex_transitive, lex_less, text_before};
use crate::time::{Timestamp, NANOS_PER_SEC};
use crate::venue::{
    band, open_at, opening_after, price_band, Calendar, FeeSchedule, Instrument, InstrumentView, Overflow, TickRule,
};
use vstd::prelude::*;

verus! {

/// A book older than this is stale: five seconds.
pub const STALE_NANOS: i128 = 5_000_000_000;

impl Stored for Vec<Resting> {
    open spec fn sound(&self) -> bool {
        true
    }
}

/// Everything the broker knows.
pub ghost struct World {
    pub holidays: Set<(Venue, i64)>,
    pub instruments: Map<(Venue, Seq<char>), InstrumentView>,
    pub books: Map<(Venue, Seq<char>), BookView>,
    pub shadows: Map<(Venue, Seq<char>), ShadowView>,
    pub stats: Map<(Venue, Seq<char>), DailyStats>,
    pub accounts: Map<Seq<char>, PortfolioView>,
    pub orders: Map<u64, OrderView>,
    pub resting: Map<(Venue, Seq<char>), Seq<Resting>>,
    pub next_order_id: u64,
}

/// The shadow of an instrument; a fresh one where there is none.
pub open spec fn shadow_of(w: World, id: (Venue, Seq<char>)) -> ShadowView {
    if w.shadows.contains_key(id) {
        w.shadows[id]
    } else {
        fresh_shadow()
    }
}

/// The orders that rest in an instrument.
pub open spec fn resting_in(w: World, id: (Venue, Seq<char>)) -> Seq<Resting> {
    if w.resting.contains_key(id) {
        w.resting[id]
    } else {
        Seq::empty()
    }
}

/// Every order belongs to an account, and everything that rests is an order.
pub open spec fn consistent(w: World) -> bool {
    &&& forall|k: u64| #[trigger] w.orders.contains_key(k) ==> w.accounts.contains_key(w.orders[k].account)
    &&& forall|id: (Venue, Seq<char>), i: int|
        w.resting.contains_key(id) && 0 <= i < w.resting[id].len() ==> w.orders.contains_key(
            (#[trigger] w.resting[id][i]).order_id,
        )
}

/// Whether each of these is an order.
pub open spec fn tracked_in(w: World, rest: Seq<Resting>) -> bool {
    forall|i: int| 0 <= i < rest.len() ==> w.orders.contains_key((#[trigger] rest[i]).order_id)
}

/// Whether an order may be executed at all, before its size is looked at.
pub open spec fn admitted(w: World, account: Seq<char>, req: RequestView, now: Timestamp) -> Result<
    (),
    OrderError<Seq<char>>,
> {
    let id = req.instrument;
    if !w.accounts.contains_key(account) {
        Err(OrderError::UnknownAccount)
    } else if !w.instruments.contains_key(id) {
        Err(OrderError::UnknownInstrument)
    } else if !w.instruments[id].tradable {
        Err(OrderError::NotTradable)
    } else if shape_error(req) is Some {
        Err(OrderError::InvalidRequest(shape_error(req)->0))
    } else if !open_at(w.holidays, id.0, now) {
        Err(OrderError::MarketClosed { next_open: opening_after(w.holidays, id.0, now) })
    } else if !w.books.contains_key(id) {
        Err(OrderError::StaleData { age_secs: None })
    } else {
        let age = now.at() - w.books[id].received_at.at();
        if age > STALE_NANOS {
            Err(OrderError::StaleData { age_secs: Some((age / (NANOS_PER_SEC as int)) as i64) })
        } else {
            match req.limit_price {
                None => Ok(()),
                Some(p) => price_allowed(w.instruments[id].tick, id.0, w.books[id].prev_close, p),
            }
        }
    }
}

/// Whether a limit price is on a tick and within the daily limit.
pub open spec fn price_allowed(tick: TickRule, venue: Venue, prev_close: Option<Decimal>, p: Decimal) -> Result<
    (),
    OrderError<Seq<char>>,
> {
    if !tick.quotable(p) {
        match (tick.tick_below(p), tick.tick_above(p)) {
            (Some(lower), Some(upper)) => Err(OrderError::InvalidTick { lower, upper }),
            _ => Err(overflow()),
        }
    } else {
        match band(venue, tick, prev_close) {
            Err(_) => Err(overflow()),
            Ok(None) => Ok(()),
            Ok(Some((lower, upper))) => if p.value() < lower.value() || p.value() > upper.value() {
                Err(OrderError::PriceLimit { lower, upper })
            } else {
                Ok(())
            },
        }
    }
}

/// Validating an order and working out what executing it now would do. The world only changes in
/// that the shadow of the instrument recovers to `now`, and not even that for an order that is not
/// admitted.
pub open spec fn prepared(w: World, account: Seq<char>, req: RequestView, now: Timestamp, drift: Drift) -> (
    World,
    Result<PlanView, OrderError<Seq<char>>>,
) {
    let id = req.instrument;
    match admitted(w, account, req, now) {
        Err(e) => (w, Err(e)),
        Ok(_) => match decayed(shadow_of(w, id), now, drift) {
            None => (w, Err(overflow())),
            Some(sh) => (
                World { shadows: w.shadows.insert(id, sh), ..w },
                planned(w.instruments[id], w.books[id], sh, w.accounts[account], req),
            ),
        },
    }
}

/// Booking one execution into an account and its order.
pub open spec fn fill_recorded(
    pf: PortfolioView,
    order: OrderView,
    qty: Decimal,
    notional: Decimal,
    liquidity: Liquidity,
    now: Timestamp,
) -> Result<(PortfolioView, OrderView, FillView), LedgerError> {
    let id = order.req.instrument;
    let side = order.req.side;
    match (
        FeeSchedule::of_venue(id.0).charged(side, notional, id.0.currency().decimals() as int),
        order.filled_qty.plus(qty),
        order.filled_notional.plus(notional),
        unit_price(notional, qty),
    ) {
        (Some((fee, tax)), Some(filled_qty), Some(filled_notional), Some(price)) => match filled(
            pf,
            id,
            side,
            qty,
            notional,
            fee,
            tax,
        ) {
            Err(e) => Err(e),
            Ok((after, realized_pnl)) => Ok(
                (
                    after,
                    OrderView { filled_qty, filled_notional, ..order },
                    FillView {
                        order_id: order.id,
                        account: order.account,
                        instrument: id,
                        side,
                        qty,
                        notional,
                        price,
                        fee,
                        tax,
                        realized_pnl,
                        liquidity,
                        at: now,
                    },
                ),
            ),
        },
        _ => Err(LedgerError::Overflow),
    }
}

/// Giving back the reservation held for `qty` of a resting order.
pub open spec fn released(pf: PortfolioView, order: OrderView, qty: Decimal) -> Option<PortfolioView> {
    let id = order.req.instrument;
    match order.req.side {
        Side::Buy => match reserve_for(
            if order.req.limit_price is Some {
                order.req.limit_price->0
            } else {
                zero()
            },
            id.0,
            qty,
        ) {
            Some(amount) => cash_released(pf, id.0.currency(), amount),
            None => None,
        },
        Side::Sell => qty_released(pf, id, qty),
    }
}

/// Promising what `qty` of a resting order at `price` may need.
pub open spec fn promised(pf: PortfolioView, req: RequestView, price: Decimal, qty: Decimal) -> Option<PortfolioView> {
    let id = req.instrument;
    match req.side {
        Side::Buy => match reserve_for(price, id.0, qty) {
            Some(amount) => cash_reserved(pf, id.0.currency(), amount),
            None => None,
        },
        Side::Sell => qty_reserved(pf, id, qty),
    }
}

/// Whether an order has all it asked for; a money amount is content with anything.
pub open spec fn complete(o: OrderView) -> bool {
    match o.req.size {
        Size::Qty(q) => o.filled_qty.value() >= q.value(),
        Size::Notional(_) => o.filled_qty.value() > 0,
    }
}

/// A new order, before anything happened to it.
pub open spec fn new_order(id: u64, account: Seq<char>, req: RequestView, now: Timestamp) -> OrderView {
    OrderView {
        id,
        account,
        req,
        status: OrderStatus::Open,
        filled_qty: zero(),
        filled_notional: zero(),
        created_at: now,
    }
}

/// Taking what a plan takes: the account, the order, the shadow and the fill.
pub open spec fn taken(
    pf: PortfolioView,
    shadow: ShadowView,
    order: OrderView,
    p: PlanView,
    now: Timestamp,
) -> Result<(PortfolioView, ShadowView, OrderView, Seq<FillView>), LedgerError> {
    if p.slices.len() == 0 {
        Ok((pf, shadow, order, Seq::empty()))
    } else {
        match (
            consumed(shadow, order.req.side, p.slices),
            fill_recorded(pf, order, p.qty, p.notional, Liquidity::Taker, now),
        ) {
            (Some(sh), Ok((pf2, order2, fill))) => Ok((pf2, sh, order2, seq![fill])),
            (None, _) => Err(LedgerError::Overflow),
            (_, Err(e)) => Err(e),
        }
    }
}

/// Carrying out a plan: what is taken is booked, what is left rests with its reservation, and the
/// order gets the next number.
pub open spec fn carried_out(w: World, account: Seq<char>, req: RequestView, p: PlanView, now: Timestamp) -> Result<
    (World, OrderView, Seq<FillView>),
    LedgerError,
> {
    let id = req.instrument;
    let n = w.next_order_id;
    match taken(w.accounts[account], shadow_of(w, id), new_order(n, account, req, now), p, now) {
        Err(e) => Err(e),
        Ok((pf, sh, order, fills)) => if p.rest_qty.value() > 0 && req.limit_price is Some {
            let price = req.limit_price->0;
            let place = Resting {
                order_id: n,
                side: req.side,
                price,
                remaining: p.rest_qty,
                queue_ahead: p.queue_ahead,
            };
            match promised(pf, req, price, p.rest_qty) {
                None => Err(LedgerError::Overflow),
                Some(pf2) => Ok(
                    (
                        World {
                            accounts: w.accounts.insert(account, pf2),
                            shadows: w.shadows.insert(id, sh),
                            orders: w.orders.insert(n, order),
                            resting: w.resting.insert(id, resting_in(w, id).push(place)),
                            next_order_id: (n + 1) as u64,
                            ..w
                        },
                        order,
                        fills,
                    ),
                ),
            }
        } else {
            let done = OrderView {
                status: if complete(order) {
                    OrderStatus::Filled
                } else {
                    OrderStatus::Cancelled
                },
                ..order
            };
            Ok(
                (
                    World {
                        accounts: w.accounts.insert(account, pf),
                        shadows: w.shadows.insert(id, sh),
                        orders: w.orders.insert(n, done),
                        next_order_id: (n + 1) as u64,
                        ..w
                    },
                    done,
                    fills,
                ),
            )
        },
    }
}

/// Placing an order. A refused order changes nothing but the recovery of the shadow.
pub open spec fn placed(w: World, account: Seq<char>, req: RequestView, now: Timestamp, drift: Drift) -> (
    World,
    Result<(OrderView, Seq<FillView>), OrderError<Seq<char>>>,
) {
    let (w1, outcome) = prepared(w, account, req, now, drift);
    match outcome {
        Err(e) => (w1, Err(e)),
        Ok(p) => match carried_out(w1, account, req, p, now) {
            Err(e) => (w1, Err(OrderError::Ledger(e))),
            Ok((w2, order, fills)) => (w2, Ok((order, fills))),
        },
    }
}

/// How far the average price of a plan is from the mid, in hundredths of a percent.
pub open spec fn slippage(p: PlanView, avg: Option<Decimal>) -> Option<Decimal> {
    match avg {
        None => Some(zero()),
        Some(a) => match opt_times(opt_over(a.minus(p.mid), Some(p.mid)), Some(dec(10_000, 0))) {
            Some(x) => Some(x.magnitude().rounded(2)),
            None => None,
        },
    }
}

/// What a plan comes to.
pub open spec fn estimated(p: PlanView) -> Result<Estimate, OrderError<Seq<char>>> {
    if p.qty.value() != 0 && unit_price(p.notional, p.qty) is None {
        Err(overflow())
    } else {
        let avg_price = if p.qty.value() == 0 {
            None
        } else {
            unit_price(p.notional, p.qty)
        };
        match slippage(p, avg_price) {
            None => Err(overflow()),
            Some(slippage_bps) => Ok(
                Estimate {
                    filled_qty: p.qty,
                    avg_price,
                    notional: p.notional,
                    fee: p.fee,
                    tax: p.tax,
                    rest_qty: p.rest_qty,
                    slippage_bps,
                },
            ),
        }
    }
}

/// Levels that make sense: a positive price and a positive quantity.
pub open spec fn sane(levels: Seq<Level>) -> Seq<Level>
    decreases levels.len(),
{
    if levels.len() == 0 {
        levels
    } else if levels.last().price.value() > 0 && levels.last().qty.value() > 0 {
        sane(levels.drop_last()).push(levels.last())
    } else {
        sane(levels.drop_last())
    }
}

/// Resting orders with something left to fill.
pub open spec fn live(rest: Seq<Resting>) -> Seq<Resting>
    decreases rest.len(),
{
    if rest.len() == 0 {
        rest
    } else if rest.last().remaining.value() > 0 {
        live(rest.drop_last()).push(rest.last())
    } else {
        live(rest.drop_last())
    }
}

/// A world in which only these orders rest in an instrument.
pub open spec fn with_resting(w: World, id: (Venue, Seq<char>), rest: Seq<Resting>) -> World {
    World {
        resting: if live(rest).len() > 0 {
            w.resting.insert(id, live(rest))
        } else {
            w.resting.remove(id)
        },
        ..w
    }
}

/// An order that was filled, all of it or in part.
pub open spec fn after_fill(order: OrderView, remaining: Decimal) -> OrderView {
    OrderView {
        status: if remaining.value() == 0 {
            OrderStatus::Filled
        } else {
            order.status
        },
        ..order
    }
}

/// A fill of `qty` for `notional` of a resting order of which `remaining` is then left: its
/// reservation is given back and the execution booked.
pub open spec fn resting_filled(
    w: World,
    order_id: u64,
    remaining: Decimal,
    qty: Decimal,
    notional: Decimal,
    liquidity: Liquidity,
    now: Timestamp,
) -> Result<(World, FillView), LedgerError> {
    let order = w.orders[order_id];
    match released(w.accounts[order.account], order, qty) {
        None => Err(LedgerError::Overflow),
        Some(pf) => match fill_recorded(pf, order, qty, notional, liquidity, now) {
            Err(e) => Err(e),
            Ok((pf2, order2, fill)) => Ok(
                (
                    World {
                        accounts: w.accounts.insert(order.account, pf2),
                        orders: w.orders.insert(order_id, after_fill(order2, remaining)),
                        ..w
                    },
                    fill,
                ),
            ),
        },
    }
}

/// What a book does to one resting order. The order takes what the shadow book offers at its limit
/// or better, at the book's prices; the liquidity is used up and the price does not move.
pub open spec fn crossed(w: World, inst: InstrumentView, r: Resting, now: Timestamp, drift: Drift) -> Result<
    (World, Resting, Option<FillView>),
    LedgerError,
> {
    let id = inst.id;
    match decayed(shadow_of(w, id), now, drift) {
        None => Err(LedgerError::Overflow),
        Some(sh) => {
            let levels = match r.side {
                Side::Buy => shadow_from(sh, w.books[id].asks, Side::Sell, inst.tick, 0),
                Side::Sell => shadow_from(sh, w.books[id].bids, Side::Buy, inst.tick, 0),
            };
            match levels {
                None => Err(LedgerError::Overflow),
                Some(levels) => match walk_from(levels, r.side, Size::Qty(r.remaining), r.price, inst.lot.step, 0) {
                    None => Err(LedgerError::Overflow),
                    Some(slices) => if slices.len() == 0 {
                        Ok((World { shadows: w.shadows.insert(id, sh), ..w }, r, None))
                    } else {
                        cross_slices(w, id, sh, r, slices, now)
                    },
                },
            }
        },
    }
}

/// The same, once it is known what the order takes.
pub open spec fn cross_slices(
    w: World,
    id: (Venue, Seq<char>),
    sh: ShadowView,
    r: Resting,
    slices: Seq<Slice>,
    now: Timestamp,
) -> Result<(World, Resting, Option<FillView>), LedgerError> {
    match (totals_of(slices), consumed(sh, r.side, slices)) {
        (Some((qty, notional)), Some(sh2)) => match r.remaining.minus(qty) {
            None => Err(LedgerError::Overflow),
            Some(remaining) => match resting_filled(w, r.order_id, remaining, qty, notional, Liquidity::Taker, now) {
                Err(e) => Err(e),
                Ok((w2, fill)) => Ok(
                    (
                        World { shadows: w2.shadows.insert(id, sh2), ..w2 },
                        Resting { remaining, ..r },
                        Some(fill),
                    ),
                ),
            },
        },
        _ => Err(LedgerError::Overflow),
    }
}

/// No time has passed since the shadow was last looked at.
pub open spec fn no_drift(w: World, id: (Venue, Seq<char>)) -> Drift {
    Drift { recovery: one(), multiplier: shadow_of(w, id).multiplier }
}

/// A sweep that has got as far as it could: the world, the resting orders, the fills so far, and
/// why it stopped if it did.
pub ghost struct Swept {
    pub world: World,
    pub rest: Seq<Resting>,
    pub fills: Seq<FillView>,
    pub stopped: Option<LedgerError>,
}

/// A fill at the end of the list, if there is one.
pub open spec fn with_fill(fills: Seq<FillView>, f: Option<FillView>) -> Seq<FillView> {
    match f {
        Some(x) => fills.push(x),
        None => fills,
    }
}

/// A book crossing the resting orders from index `i` on, in the order in which they came.
pub open spec fn crossing(
    w: World,
    inst: InstrumentView,
    rest: Seq<Resting>,
    i: int,
    fills: Seq<FillView>,
    now: Timestamp,
    drift: Drift,
) -> Swept
    decreases rest.len() - i,
{
    if i < 0 || i >= rest.len() {
        Swept { world: w, rest, fills, stopped: None }
    } else {
        match crossed(w, inst, rest[i], now, if i == 0 { drift } else { no_drift(w, inst.id) }) {
            Err(e) => Swept { world: w, rest, fills, stopped: Some(e) },
            Ok((w2, r2, f)) => crossing(w2, inst, rest.update(i, r2), i + 1, with_fill(fills, f), now, drift),
        }
    }
}

/// A new real order book: it is kept, without its senseless levels, and the resting orders that it
/// crosses fill. Nothing fills while the venue is closed or for an unknown instrument.
pub open spec fn book_arrived(w: World, book: BookView, now: Timestamp, drift: Drift) -> (
    World,
    Seq<FillView>,
    Option<LedgerError>,
) {
    let id = book.instrument;
    let kept = BookView { bids: sane(book.bids), asks: sane(book.asks), ..book };
    let w1 = World { books: w.books.insert(id, kept), ..w };
    if !open_at(w.holidays, id.0, now) || !w.instruments.contains_key(id) {
        (w1, Seq::empty(), None)
    } else {
        let inst = InstrumentView { id, ..w.instruments[id] };
        let s = crossing(w1, inst, resting_in(w, id), 0, Seq::empty(), now, drift);
        (with_resting(s.world, id, s.rest), s.fills, s.stopped)
    }
}

/// Whether a resting order is served before another: buys before sells, buys at the highest price
/// first, sells at the lowest.
pub open spec fn served_before(a: Resting, b: Resting) -> bool {
    match (a.side, b.side) {
        (Side::Buy, Side::Sell) => true,
        (Side::Sell, Side::Buy) => false,
        (Side::Buy, Side::Buy) => a.price.value() > b.price.value(),
        (Side::Sell, Side::Sell) => a.price.value() < b.price.value(),
    }
}

/// `r` put into its place among orders that are in place: behind every one that it is not served
/// before.
pub open spec fn put_in_place(rest: Seq<Resting>, r: Resting) -> Seq<Resting>
    decreases rest.len(),
{
    if rest.len() > 0 && served_before(r, rest.last()) {
        put_in_place(rest.drop_last(), r).push(rest.last())
    } else {
        rest.push(r)
    }
}

/// The resting orders in the order in which they are served; equals stay as they came.
pub open spec fn arranged(rest: Seq<Resting>) -> Seq<Resting>
    decreases rest.len(),
{
    if rest.len() == 0 {
        rest
    } else {
        put_in_place(arranged(rest.drop_last()), rest.last())
    }
}

/// What a print at `price` does to one resting order, and how much of the print is left.
pub open spec fn printed(w: World, r: Resting, price: Decimal, avail: Decimal, now: Timestamp) -> Result<
    (World, Resting, Decimal, Option<FillView>),
    LedgerError,
> {
    match passively_filled(r, price, avail) {
        None => Err(LedgerError::Overflow),
        Some((r2, rest, q)) => if q.value() == 0 {
            Ok((w, r2, rest, None))
        } else {
            match q.times(r.price) {
                None => Err(LedgerError::Overflow),
                Some(notional) => match resting_filled(
                    w,
                    r.order_id,
                    r2.remaining,
                    q,
                    notional,
                    Liquidity::Maker,
                    now,
                ) {
                    Err(e) => Err(e),
                    Ok((w2, fill)) => Ok((w2, r2, rest, Some(fill))),
                },
            }
        },
    }
}

/// A print hitting the resting orders from index `i` on. Each side shares the whole print.
pub open spec fn hitting(
    w: World,
    rest: Seq<Resting>,
    i: int,
    fills: Seq<FillView>,
    price: Decimal,
    buy_avail: Decimal,
    sell_avail: Decimal,
    now: Timestamp,
) -> Swept
    decreases rest.len() - i,
{
    if i < 0 || i >= rest.len() {
        Swept { world: w, rest, fills, stopped: None }
    } else {
        let buy = rest[i].side == Side::Buy;
        match printed(w, rest[i], price, if buy { buy_avail } else { sell_avail }, now) {
            Err(e) => Swept { world: w, rest, fills, stopped: Some(e) },
            Ok((w2, r2, left, f)) => hitting(
                w2,
                rest.update(i, r2),
                i + 1,
                with_fill(fills, f),
                price,
                if buy { left } else { buy_avail },
                if buy { sell_avail } else { left },
                now,
            ),
        }
    }
}

/// A real trade: resting orders at or through its shifted price fill as makers, best price first,
/// sharing the trade's size. Nothing happens for a senseless print, a closed venue or an unknown
/// instrument.
pub open spec fn trade_arrived(w: World, t: TradeView, now: Timestamp, drift: Drift) -> (
    World,
    Seq<FillView>,
    Option<LedgerError>,
) {
    let id = t.instrument;
    if t.price.value() <= 0 || t.qty.value() <= 0 || !open_at(w.holidays, id.0, now)
        || !w.instruments.contains_key(id) {
        (w, Seq::empty(), None)
    } else {
        match decayed(shadow_of(w, id), now, drift) {
            None => (w, Seq::empty(), Some(LedgerError::Overflow)),
            Some(sh) => match shifted(sh, t.price, w.instruments[id].tick) {
                None => (w, Seq::empty(), Some(LedgerError::Overflow)),
                Some(price) => {
                    let w1 = World { shadows: w.shadows.insert(id, sh), ..w };
                    let s = hitting(w1, arranged(resting_in(w, id)), 0, Seq::empty(), price, t.qty, t.qty, now);
                    (with_resting(s.world, id, s.rest), s.fills, s.stopped)
                },
            },
        }
    }
}

/// Where an order stands among the resting ones, from index `i` on.
pub open spec fn place_of(rest: Seq<Resting>, order_id: u64, i: int) -> Option<int>
    decreases rest.len() - i,
{
    if i >= rest.len() {
        None
    } else if rest[i].order_id == order_id {
        Some(i)
    } else {
        place_of(rest, order_id, i + 1)
    }
}

/// Taking an order off the book with a status, and giving its reservation back.
pub open spec fn closed_order(w: World, order_id: u64, status: OrderStatus) -> Option<(World, OrderView)> {
    let order = w.orders[order_id];
    let id = order.req.instrument;
    let rest = resting_in(w, id);
    let place = place_of(rest, order_id, 0);
    let remaining = match place {
        Some(i) => rest[i].remaining,
        None => zero(),
    };
    match released(w.accounts[order.account], order, remaining) {
        None => None,
        Some(pf) => {
            let done = OrderView { status, ..order };
            Some(
                (
                    World {
                        accounts: w.accounts.insert(order.account, pf),
                        orders: w.orders.insert(order_id, done),
                        resting: match place {
                            Some(i) => w.resting.insert(id, rest.remove(i)),
                            None => w.resting,
                        },
                        ..w
                    },
                    done,
                ),
            )
        },
    }
}

/// Cancelling an order: only its own account can, and only an open one changes.
pub open spec fn cancelled(w: World, account: Seq<char>, order_id: u64) -> (
    World,
    Result<OrderView, OrderError<Seq<char>>>,
) {
    if !w.orders.contains_key(order_id) || w.orders[order_id].account != account {
        (w, Err(OrderError::NotFound))
    } else if w.orders[order_id].status != OrderStatus::Open {
        (w, Ok(w.orders[order_id]))
    } else {
        match closed_order(w, order_id, OrderStatus::Cancelled) {
            None => (w, Err(overflow())),
            Some((w2, order)) => (w2, Ok(order)),
        }
    }
}

/// Whether an order has outlived its session: an open day order whose venue is closed.
pub open spec fn due(w: World, now: Timestamp, k: u64) -> bool {
    &&& w.orders.contains_key(k)
    &&& w.orders[k].status == OrderStatus::Open
    &&& w.orders[k].req.tif == Tif::Day
    &&& !open_at(w.holidays, w.orders[k].req.instrument.0, now)
}

/// The orders `ids`, from index `i` on, taken off the book as expired, one after the other. One
/// whose reservation a decimal cannot hold stays as it is.
pub open spec fn expired(w: World, ids: Seq<u64>, i: int) -> (World, Seq<OrderView>)
    decreases ids.len() - i,
{
    if i >= ids.len() {
        (w, Seq::empty())
    } else {
        match closed_order(w, ids[i], OrderStatus::Expired) {
            None => expired(w, ids, i + 1),
            Some((w2, order)) => {
                let (w3, more) = expired(w2, ids, i + 1);
                (w3, seq![order] + more)
            },
        }
    }
}

/// Instruments with a position or a resting order in any account.
pub open spec fn active(w: World, id: (Venue, Seq<char>)) -> bool {
    (exists|a: Seq<char>| #[trigger] w.accounts.contains_key(a) && w.accounts[a].positions.contains_key(id)) || (
    w.resting.contains_key(id) && w.resting[id].len() > 0)
}

/// Won per unit of a currency; a USDT counts as a dollar.
pub open spec fn won_per(c: Currency, usd_krw: Decimal) -> Decimal {
    if c == Currency::Krw {
        one()
    } else {
        usd_krw
    }
}

/// Whether a conversion makes sense: two currencies, a positive amount of whole minor units, a
/// positive rate and a spread below one.
pub open spec fn convertible(from: Currency, to: Currency, amount: Decimal, usd_krw: Decimal, spread: Decimal) -> bool {
    &&& from != to
    &&& amount.value() > 0
    &&& amount.value() <= parts_value(1_000_000_000_000_000, 0)
    &&& amount.value() % pow10((28 - from.decimals()) as nat) == 0
    &&& usd_krw.value() > 0
    &&& spread.value() >= 0
    &&& spread.value() < one().value()
}

/// The number of decimal places of a currency, as text.
pub open spec fn decimals_text(c: Currency) -> Seq<char> {
    match c {
        Currency::Krw => "0"@,
        Currency::Usd => "2"@,
        Currency::Usdt => "8"@,
    }
}

pub open spec fn convert_usage(from: Currency) -> Seq<char> {
    "convert needs two different currencies, a positive amount in whole "@ + from.code_text() + " units of "@
        + decimals_text(from) + " and a positive rate"@
}

pub open spec fn too_small(from: Currency, amount: Decimal) -> Seq<char> {
    amount.text() + " "@ + from.code_text() + " is too small to convert"@
}

/// What `amount` of `from` brings in `to`, cut off at the minor unit, and the rate.
pub open spec fn exchanged(
    from: Currency,
    to: Currency,
    amount: Decimal,
    usd_krw: Decimal,
    spread: Decimal,
) -> Option<(Decimal, Decimal)> {
    let net = one().minus(spread);
    let per = Some(won_per(to, usd_krw));
    let credit = opt_truncated(
        opt_over(opt_times(amount.times(won_per(from, usd_krw)), net), per),
        to.decimals() as int,
    );
    let rate = opt_rounded(opt_over(opt_times(Some(won_per(from, usd_krw)), net), per), 8);
    match (credit, rate) {
        (Some(c), Some(r)) => Some((c, r)),
        _ => None,
    }
}

/// The account after a conversion.
pub open spec fn cash_moved(
    pf: PortfolioView,
    from: Currency,
    to: Currency,
    amount: Decimal,
    credit: Decimal,
) -> Option<PortfolioView> {
    match (amount_of(pf.cash, from).minus(amount), amount_of(pf.cash, to).plus(credit)) {
        (Some(a), Some(b)) => Some(PortfolioView { cash: pf.cash.insert(from, a).insert(to, b), ..pf }),
        _ => None,
    }
}

/// Moving cash between currencies at `usd_krw` won per dollar, less `spread`.
pub open spec fn converted(
    w: World,
    account: Seq<char>,
    from: Currency,
    to: Currency,
    amount: Decimal,
    usd_krw: Decimal,
    spread: Decimal,
) -> (World, Result<Conversion, OrderError<Seq<char>>>) {
    if !convertible(from, to, amount, usd_krw, spread) {
        (w, Err(OrderError::InvalidRequest(convert_usage(from))))
    } else if !w.accounts.contains_key(account) {
        (w, Err(OrderError::UnknownAccount))
    } else {
        let pf = w.accounts[account];
        match cash_available(pf, from) {
            None => (w, Err(overflow())),
            Some(available) => if amount.value() > available.value() {
                (w, Err(OrderError::InsufficientFunds { required: amount, available }))
            } else {
                match exchanged(from, to, amount, usd_krw, spread) {
                    None => (w, Err(overflow())),
                    Some((credit, rate)) => if credit.value() <= 0 {
                        (w, Err(OrderError::InvalidRequest(too_small(from, amount))))
                    } else {
                        match cash_moved(pf, from, to, amount, credit) {
                            None => (w, Err(overflow())),
                            Some(pf2) => (
                                World { accounts: w.accounts.insert(account, pf2), ..w },
                                Ok(Conversion { from, to, debit: amount, credit, rate }),
                            ),
                        }
                    },
                }
            },
        }
    }
}

/// Whether an instrument can be traded without dividing by zero: a positive tick and a positive
/// lot step.
pub open spec fn divisible(i: InstrumentView) -> bool {
    &&& (i.tick matches TickRule::Fixed(t) ==> t.value() > 0)
    &&& i.lot.step.value() > 0
}

pub struct SimBroker {
    pub calendar: Calendar,
    pub instruments: Table<InstrumentId, Instrument>,
    pub books: Table<InstrumentId, Book>,
    pub shadows: Table<InstrumentId, ShadowState>,
    pub stats: Table<InstrumentId, DailyStats>,
    pub accounts: Table<String, Portfolio>,
    pub orders: Table<u64, Order>,
    pub resting: Table<InstrumentId, Vec<Resting>>,
    pub next_order_id: u64,
}

impl View for SimBroker {
    type V = World;

    open spec fn view(&self) -> World {
        World {
            holidays: self.calendar@,
            instruments: self.instruments@,
            books: self.books@,
            shadows: self.shadows@,
            stats: self.stats@,
            accounts: self.accounts@,
            orders: self.orders@,
            resting: self.resting@,
            next_order_id: self.next_order_id,
        }
    }
}

/// What a sweep over the resting orders did: the fills, and why it stopped before the last order
/// if it did.
pub struct Sweep {
    pub fills: Vec<Fill>,
    pub stopped: Option<LedgerError>,
}

fn record_fill(
    pf: &mut Portfolio,
    order: &mut Order,
    qty: Decimal,
    notional: Decimal,
    liquidity: Liquidity,
    now: Timestamp,
) -> (r: Result<Fill, LedgerError>)
    requires
        old(pf).wf(),
    ensures
        final(pf).wf(),
        match fill_recorded(old(pf)@, old(order)@, qty, notional, liquidity, now) {
            Ok((pf2, order2, fill)) => r matches Ok(f) && f@ == fill && final(pf)@ == pf2 && final(order)@ == order2,
            Err(e) => r == Err::<Fill, LedgerError>(e) && final(pf)@ == old(pf)@ && final(order)@ == old(order)@,
        },
{
    let venue = order.req.instrument.venue;
    let side = order.req.side;
    let cost = FeeSchedule::default_for(venue).cost(side, notional, venue.currency().decimals());
    let per_unit = match notional.checked_div(qty) {
        Some(p) => Some(p.round_dp(8)),
        None => None,
    };
    match (cost, order.filled_qty.checked_add(qty), order.filled_notional.checked_add(notional), per_unit) {
        (Some((fee, tax)), Some(filled_qty), Some(filled_notional), Some(price)) => match pf.apply_fill(
            &order.req.instrument,
            side,
            qty,
            notional,
            fee,
            tax,
        ) {
            Err(e) => Err(e),
            Ok(realized_pnl) => {
                order.filled_qty = filled_qty;
                order.filled_notional = filled_notional;
                Ok(
                    Fill {
                        order_id: order.id,
                        account: order.account.clone(),
                        instrument: order.req.instrument.clone(),
                        side,
                        qty,
                        notional,
                        price,
                        fee,
                        tax,
                        realized_pnl,
                        liquidity,
                        at: now,
                    },
                )
            },
        },
        _ => Err(LedgerError::Overflow),
    }
}

fn release(pf: &mut Portfolio, order: &Order, qty: Decimal) -> (ok: bool)
    requires
        old(pf).wf(),
    ensures
        final(pf).wf(),
        match released(old(pf)@, order@, qty) {
            Some(p) => ok && final(pf)@ == p,
            None => !ok && final(pf)@ == old(pf)@,
        },
{
    let venue = order.req.instrument.venue;
    match order.req.side {
        Side::Buy => {
            let limit = match order.req.limit_price {
                Some(p) => p,
                None => Decimal::zero(),
            };
            match buy_reserve(limit, venue, qty) {
                Some(amount) => pf.release_cash(venue.currency(), amount),
                None => false,
            }
        },
        Side::Sell => pf.release_qty(&order.req.instrument, qty),
    }
}

pub(crate) fn promise(pf: &mut Portfolio, req: &OrderRequest, price: Decimal, qty: Decimal) -> (ok: bool)
    requires
        old(pf).wf(),
    ensures
        final(pf).wf(),
        match promised(old(pf)@, req@, price, qty) {
            Some(p) => ok && final(pf)@ == p,
            None => !ok && final(pf)@ == old(pf)@,
        },
{
    let venue = req.instrument.venue;
    match req.side {
        Side::Buy => match buy_reserve(price, venue, qty) {
            Some(amount) => pf.reserve_cash(venue.currency(), amount),
            None => false,
        },
        Side::Sell => pf.reserve_qty(&req.instrument, qty),
    }
}

fn is_complete(o: &Order) -> (r: bool)
    ensures
        r == complete(o@),
{
    match o.req.size {
        Size::Qty(q) => q.le(o.filled_qty),
        Size::Notional(_) => o.filled_qty.is_positive(),
    }
}

fn check_price(tick: &TickRule, venue: Venue, prev_close: Option<Decimal>, p: Decimal) -> (r: Result<(), OrderError>)
    ensures
        agrees(r, price_allowed(*tick, venue, prev_close, p), |a: (), b: ()| true),
{
    if !tick.is_valid(p) {
        return match (tick.floor(p), tick.ceil(p)) {
            (Some(lower), Some(upper)) => Err(OrderError::InvalidTick { lower, upper }),
            _ => Err(no_room()),
        };
    }
    match price_band(venue, tick, prev_close) {
        Err(_) => Err(no_room()),
        Ok(None) => Ok(()),
        Ok(Some((lower, upper))) => if p.lt(lower) || upper.lt(p) {
            Err(OrderError::PriceLimit { lower, upper })
        } else {
            Ok(())
        },
    }
}

fn copy_resting(v: &Vec<Resting>) -> (r: Vec<Resting>)
    ensures
        r@ == v@,
{
    let mut r: Vec<Resting> = Vec::new();
    let mut i: usize = 0;
    while i < v.len()
        invariant
            i <= v@.len(),
            r@ == v@.take(i as int),
        decreases v@.len() - i,
    {
        r.push(v[i]);
        i += 1;
    }
    assert(v@.take(i as int) =~= v@);
    r
}

impl SimBroker {
    pub open spec fn wf(&self) -> bool {
        &&& self.instruments.wf()
        &&& self.books.wf()
        &&& self.shadows.wf()
        &&& self.stats.wf()
        &&& self.accounts.wf()
        &&& self.orders.wf()
        &&& self.resting.wf()
        &&& consistent(self@)
    }

    /// A broker with nothing in it. Orders are numbered from one.
    pub fn new(calendar: Calendar) -> (r: SimBroker)
        ensures
            r.wf(),
            r@ == (World {
                holidays: calendar@,
                instruments: Map::empty(),
                books: Map::empty(),
                shadows: Map::empty(),
                stats: Map::empty(),
                accounts: Map::empty(),
                orders: Map::empty(),
                resting: Map::empty(),
                next_order_id: 1,
            }),
    {
        SimBroker {
            calendar,
            instruments: Table::new(),
            books: Table::new(),
            shadows: Table::new(),
            stats: Table::new(),
            accounts: Table::new(),
            orders: Table::new(),
            resting: Table::new(),
            next_order_id: 1,
        }
    }

    fn check_admission(&self, account: &String, req: &OrderRequest, now: Timestamp) -> (r: Result<(), OrderError>)
        requires
            self.wf(),
        ensures
            agrees(r, admitted(self@, account@, req@, now), |a: (), b: ()| true),
    {
        if !self.accounts.contains(account) {
            return Err(OrderError::UnknownAccount);
        }
        let inst = match self.instruments.get(&req.instrument) {
            Some(i) => i,
            None => return Err(OrderError::UnknownInstrument),
        };
        if !inst.tradable {
            return Err(OrderError::NotTradable);
        }
        match check_shape(req) {
            Err(e) => return Err(e),
            Ok(_) => {},
        }
        let venue = req.instrument.venue;
        if !self.calendar.is_open(venue, now) {
            return Err(OrderError::MarketClosed { next_open: self.calendar.next_open(venue, now) });
        }
        let book = match self.books.get(&req.instrument) {
            Some(b) => b,
            None => return Err(OrderError::StaleData { age_secs: None }),
        };
        let age = now.since(book.received_at);
        if age > STALE_NANOS {
            return Err(OrderError::StaleData { age_secs: Some((age / NANOS_PER_SEC) as i64) });
        }
        match req.limit_price {
            None => Ok(()),
            Some(p) => check_price(&inst.tick, venue, book.prev_close, p),
        }
    }

    pub(crate) fn shadow_copy(&self, id: &InstrumentId) -> (r: ShadowState)
        requires
            self.wf(),
        ensures
            r.wf(),
            r@ == shadow_of(self@, id@),
    {
        match self.shadows.get(id) {
            Some(s) => s.copied(),
            None => ShadowState::new(),
        }
    }

    /// Validates `req` and works out what executing it now would do. Only side effect: the
    /// instrument's shadow recovers to `now`.
    pub fn prepare(&mut self, account: &String, req: &OrderRequest, now: Timestamp, drift: Drift) -> (r: Result<
        Plan,
        OrderError,
    >)
        requires
            old(self).wf(),
        ensures
            final(self).wf(),
            final(self)@ == prepared(old(self)@, account@, req@, now, drift).0,
            agrees(r, prepared(old(self)@, account@, req@, now, drift).1, |p: Plan, v: PlanView| p@ == v),
            r is Ok ==> admitted(old(self)@, account@, req@, now) is Ok,
    {
        match self.check_admission(account, req, now) {
            Err(e) => return Err(e),
            Ok(_) => {},
        }
        let mut shadow = self.shadow_copy(&req.instrument);
        if !shadow.decay(now, drift) {
            return Err(no_room());
        }
        let outcome = match (
            self.instruments.get(&req.instrument),
            self.books.get(&req.instrument),
            self.accounts.get(account),
        ) {
            (Some(inst), Some(book), Some(pf)) => plan(inst, book, &shadow, pf, req),
            _ => Err(no_room()),
        };
        self.shadows.insert(req.instrument.clone(), shadow);
        outcome
    }

    fn commit(
        &mut self,
        account: &String,
        id: &InstrumentId,
        pf: Portfolio,
        shadow: ShadowState,
        order: &Order,
    )
        requires
            old(self).wf(),
            pf.wf(),
            shadow.wf(),
            order.account@ == account@,
            old(self).next_order_id < u64::MAX,
            order.id == old(self).next_order_id,
        ensures
            final(self).wf(),
            final(self)@ == (World {
                accounts: old(self)@.accounts.insert(account@, pf@),
                shadows: old(self)@.shadows.insert(id@, shadow@),
                orders: old(self)@.orders.insert(order.id, order@),
                next_order_id: (order.id + 1) as u64,
                ..old(self)@
            }),
    {
        self.accounts.insert(account.clone(), pf);
        self.shadows.insert(id.clone(), shadow);
        self.orders.insert(order.id, order.clone());
        self.next_order_id = order.id + 1;
    }

    pub(crate) fn add_resting(&mut self, id: &InstrumentId, place: Resting)
        requires
            old(self).wf(),
            old(self)@.orders.contains_key(place.order_id),
        ensures
            final(self).wf(),
            final(self)@ == (World {
                resting: old(self)@.resting.insert(id@, resting_in(old(self)@, id@).push(place)),
                ..old(self)@
            }),
    {
        let mut rest: Vec<Resting> = match self.resting.remove(id) {
            Some(r) => r,
            None => Vec::new(),
        };
        rest.push(place);
        self.resting.insert(id.clone(), rest);
        assert(self.resting@ =~= old(self).resting@.insert(id@, resting_in(old(self)@, id@).push(place)));
    }

    fn carry_out(&mut self, account: &String, req: OrderRequest, p: &Plan, now: Timestamp) -> (r: Result<
        (Order, Vec<Fill>),
        LedgerError,
    >)
        requires
            old(self).wf(),
            old(self)@.accounts.contains_key(account@),
            old(self).next_order_id < u64::MAX,
        ensures
            final(self).wf(),
            match carried_out(old(self)@, account@, req@, p@, now) {
                Ok((w, order, fills)) => r matches Ok((o, f)) && final(self)@ == w && o@ == order && f@.map_values(
                    |x: Fill| x@,
                ) == fills,
                Err(e) => r == Err::<(Order, Vec<Fill>), LedgerError>(e) && final(self)@ == old(self)@,
            },
    {
        let id = req.instrument.clone();
        let mut pf = match self.accounts.get(account) {
            Some(a) => a.copied(),
            None => return Err(LedgerError::Overflow),
        };
        let mut shadow = self.shadow_copy(&id);
        let mut order = Order {
            id: self.next_order_id,
            account: account.clone(),
            req,
            status: OrderStatus::Open,
            filled_qty: Decimal::zero(),
            filled_notional: Decimal::zero(),
            created_at: now,
        };
        let mut fills: Vec<Fill> = Vec::new();
        if p.slices.len() > 0 {
            if !shadow.consume(order.req.side, &p.slices) {
                return Err(LedgerError::Overflow);
            }
            match record_fill(&mut pf, &mut order, p.qty, p.notional, Liquidity::Taker, now) {
                Err(e) => return Err(e),
                Ok(f) => fills.push(f),
            }
        }
        let ghost fill_views = (taken(
            self@.accounts[account@],
            shadow_of(self@, id@),
            new_order(self@.next_order_id, account@, order.req@, now),
            p@,
            now,
        )->Ok_0).3;
        assert(fills@.map_values(|x: Fill| x@) =~= fill_views);
        if p.rest_qty.is_positive() {
            if let Some(price) = order.req.limit_price {
                if !promise(&mut pf, &order.req, price, p.rest_qty) {
                    return Err(LedgerError::Overflow);
                }
                let place = Resting {
                    order_id: order.id,
                    side: order.req.side,
                    price,
                    remaining: p.rest_qty,
                    queue_ahead: p.queue_ahead,
                };
                self.commit(account, &id, pf, shadow, &order);
                self.add_resting(&id, place);
                return Ok((order, fills));
            }
        }
        order.status = if is_complete(&order) {
            OrderStatus::Filled
        } else {
            OrderStatus::Cancelled
        };
        self.commit(account, &id, pf, shadow, &order);
        Ok((order, fills))
    }

    /// Places an order: executes what it can now, lets the rest of a limit order rest. A refused
    /// order changes nothing but the recovery of the shadow.
    pub fn place_sync(&mut self, account: &str, req: OrderRequest, now: Timestamp, drift: Drift) -> (r: Result<
        (Order, Vec<Fill>),
        OrderError,
    >)
        requires
            old(self).wf(),
            old(self).next_order_id < u64::MAX,
        ensures
            final(self).wf(),
            final(self)@ == placed(old(self)@, account@, req@, now, drift).0,
            agrees(
                r,
                placed(old(self)@, account@, req@, now, drift).1,
                |a: (Order, Vec<Fill>), b: (OrderView, Seq<FillView>)|
                    a.0@ == b.0 && a.1@.map_values(|x: Fill| x@) == b.1,
            ),
    {
        let account = account.to_owned();
        let p = match self.prepare(&account, &req, now, drift) {
            Err(e) => return Err(e),
            Ok(p) => p,
        };
        match self.carry_out(&account, req, &p, now) {
            Err(e) => Err(OrderError::Ledger(e)),
            Ok(x) => Ok(x),
        }
    }

    fn estimate_plan(p: &Plan) -> (r: Result<Estimate, OrderError>)
        ensures
            agrees(r, estimated(p@), |a: Estimate, b: Estimate| a == b),
    {
        let mut avg_price: Option<Decimal> = None;
        let mut slippage_bps = Decimal::zero();
        if !p.qty.is_zero() {
            let per_unit = match p.notional.checked_div(p.qty) {
                Some(x) => x.round_dp(8),
                None => return Err(no_room()),
            };
            let gap = match per_unit.checked_sub(p.mid) {
                Some(x) => x,
                None => return Err(no_room()),
            };
            let share = match gap.checked_div(p.mid) {
                Some(x) => x,
                None => return Err(no_room()),
            };
            slippage_bps = match share.checked_mul(Decimal::new(10_000, 0)) {
                Some(x) => x.abs().round_dp(2),
                None => return Err(no_room()),
            };
            avg_price = Some(per_unit);
        }
        Ok(
            Estimate {
                filled_qty: p.qty,
                avg_price,
                notional: p.notional,
                fee: p.fee,
                tax: p.tax,
                rest_qty: p.rest_qty,
                slippage_bps,
            },
        )
    }

    /// What placing an order would do, without doing it. Nothing changes but the recovery of the
    /// shadow.
    pub fn estimate(&mut self, account: &str, req: &OrderRequest, now: Timestamp, drift: Drift) -> (r: Result<
        Estimate,
        OrderError,
    >)
        requires
            old(self).wf(),
        ensures
            final(self).wf(),
            final(self)@ == prepared(old(self)@, account@, req@, now, drift).0,
            agrees(
                r,
                match prepared(old(self)@, account@, req@, now, drift).1 {
                    Ok(p) => estimated(p),
                    Err(e) => Err(e),
                },
                |a: Estimate, b: Estimate| a == b,
            ),
    {
        let account = account.to_owned();
        match self.prepare(&account, req, now, drift) {
            Err(e) => Err(e),
            Ok(p) => Self::estimate_plan(&p),
        }
    }

    /// Books a fill of a resting order and gives its reservation back.
    fn fill_resting(
        &mut self,
        order_id: u64,
        remaining: Decimal,
        qty: Decimal,
        notional: Decimal,
        liquidity: Liquidity,
        now: Timestamp,
    ) -> (r: Result<Fill, LedgerError>)
        requires
            old(self).wf(),
            old(self)@.orders.contains_key(order_id),
        ensures
            final(self).wf(),
            match resting_filled(old(self)@, order_id, remaining, qty, notional, liquidity, now) {
                Ok((w, fill)) => r matches Ok(f) && f@ == fill && final(self)@ == w,
                Err(e) => r == Err::<Fill, LedgerError>(e) && final(self)@ == old(self)@,
            },
    {
        let mut order = match self.orders.get(&order_id) {
            Some(o) => o.clone(),
            None => return Err(LedgerError::Overflow),
        };
        let mut pf = match self.accounts.get(&order.account) {
            Some(a) => a.copied(),
            None => return Err(LedgerError::Overflow),
        };
        if !release(&mut pf, &order, qty) {
            return Err(LedgerError::Overflow);
        }
        let fill = match record_fill(&mut pf, &mut order, qty, notional, liquidity, now) {
            Err(e) => return Err(e),
            Ok(f) => f,
        };
        if remaining.is_zero() {
            order.status = OrderStatus::Filled;
        }
        self.accounts.insert(order.account.clone(), pf);
        self.orders.insert(order_id, order);
        Ok(fill)
    }

    /// Lets the book fill one resting order.
    fn cross_one(&mut self, inst: &Instrument, r: Resting, now: Timestamp, drift: Drift) -> (out: Result<
        (Resting, Option<Fill>),
        LedgerError,
    >)
        requires
            old(self).wf(),
            old(self)@.books.contains_key(inst.id@),
            old(self)@.orders.contains_key(r.order_id),
        ensures
            final(self).wf(),
            final(self)@.books == old(self)@.books,
            final(self)@.resting == old(self)@.resting,
            final(self)@.orders.dom() == old(self)@.orders.dom(),
            match crossed(old(self)@, inst@, r, now, drift) {
                Ok((w, r2, f)) => out matches Ok((r3, f3)) && r3 == r2 && final(self)@ == w && fill_view(f3) == f,
                Err(e) => out == Err::<(Resting, Option<Fill>), LedgerError>(e) && final(self)@ == old(self)@,
            },
            out matches Ok((r3, _)) ==> r3.order_id == r.order_id,
    {
        let mut shadow = self.shadow_copy(&inst.id);
        if !shadow.decay(now, drift) {
            return Err(LedgerError::Overflow);
        }
        let book = match self.books.get(&inst.id) {
            Some(b) => b,
            None => return Err(LedgerError::Overflow),
        };
        let side_levels = match r.side {
            Side::Buy => shadow.shadow_side(&book.asks, Side::Sell, &inst.tick),
            Side::Sell => shadow.shadow_side(&book.bids, Side::Buy, &inst.tick),
        };
        let levels = match side_levels {
            Some(l) => l,
            None => return Err(LedgerError::Overflow),
        };
        let slices = match walk(&levels, r.side, Size::Qty(r.remaining), r.price, inst.lot.step) {
            Some(s) => s,
            None => return Err(LedgerError::Overflow),
        };
        if slices.len() == 0 {
            self.shadows.insert(inst.id.clone(), shadow);
            return Ok((r, None));
        }
        let (qty, notional) = match totals(&slices) {
            Some(t) => t,
            None => return Err(LedgerError::Overflow),
        };
        if !shadow.consume(r.side, &slices) {
            return Err(LedgerError::Overflow);
        }
        let remaining = match r.remaining.checked_sub(qty) {
            Some(x) => x,
            None => return Err(LedgerError::Overflow),
        };
        let ghost before = self@;
        match self.fill_resting(r.order_id, remaining, qty, notional, Liquidity::Taker, now) {
            Err(e) => Err(e),
            Ok(f) => {
                assert(self@.orders.dom() =~= before.orders.dom());
                self.shadows.insert(inst.id.clone(), shadow);
                Ok(
                    (
                        Resting {
                            order_id: r.order_id,
                            side: r.side,
                            price: r.price,
                            remaining,
                            queue_ahead: r.queue_ahead,
                        },
                        Some(f),
                    ),
                )
            },
        }
    }

    /// Puts back the resting orders that have something left.
    fn put_back(&mut self, id: &InstrumentId, rest: &Vec<Resting>)
        requires
            old(self).wf(),
            tracked_in(old(self)@, rest@),
        ensures
            final(self).wf(),
            final(self)@ == with_resting(old(self)@, id@, rest@),
    {
        let mut left: Vec<Resting> = Vec::new();
        let mut i: usize = 0;
        while i < rest.len()
            invariant
                i <= rest@.len(),
                left@ == live(rest@.take(i as int)),
                tracked_in(self@, rest@),
                tracked_in(self@, left@),
            decreases rest@.len() - i,
        {
            let r = rest[i];
            assert(rest@.take(i + 1).drop_last() =~= rest@.take(i as int));
            assert(self@.orders.contains_key(rest@[i as int].order_id));
            if r.remaining.is_positive() {
                left.push(r);
            }
            i += 1;
        }
        assert(rest@.take(i as int) =~= rest@);
        if left.len() > 0 {
            self.resting.insert(id.clone(), left);
        } else {
            let _ = self.resting.remove(id);
        }
    }

    fn keep_sane(levels: &[Level]) -> (r: Vec<Level>)
        ensures
            r@ == sane(levels@),
    {
        let mut out: Vec<Level> = Vec::new();
        let mut i: usize = 0;
        while i < levels.len()
            invariant
                i <= levels@.len(),
                out@ == sane(levels@.take(i as int)),
            decreases levels@.len() - i,
        {
            let l = levels[i];
            assert(levels@.take(i + 1).drop_last() =~= levels@.take(i as int));
            if l.price.is_positive() && l.qty.is_positive() {
                out.push(l);
            }
            i += 1;
        }
        assert(levels@.take(i as int) =~= levels@);
        out
    }

    fn resting_copy(&self, id: &InstrumentId) -> (r: Vec<Resting>)
        requires
            self.wf(),
        ensures
            r@ == resting_in(self@, id@),
            tracked_in(self@, r@),
    {
        match self.resting.get(id) {
            Some(v) => {
                assert forall|i: int| 0 <= i < v@.len() implies self@.orders.contains_key(
                    (#[trigger] v@[i]).order_id,
                ) by {
                    assert(self@.resting[id@][i] == v@[i]);
                }
                copy_resting(v)
            },
            None => Vec::new(),
        }
    }

    /// A new real order book arrived. Resting orders that it crosses fill as takers at its prices.
    /// Levels with a non-positive price or quantity are dropped.
    pub fn on_book(&mut self, book: Book, now: Timestamp, drift: Drift) -> (r: Sweep)
        requires
            old(self).wf(),
        ensures
            final(self).wf(),
            ({
                let (w, fills, stopped) = book_arrived(old(self)@, book@, now, drift);
                &&& final(self)@ == w
                &&& r.fills@.map_values(|x: Fill| x@) == fills
                &&& r.stopped == stopped
            }),
    {
        let id = book.instrument.clone();
        let kept = Book {
            instrument: book.instrument,
            bids: Self::keep_sane(&book.bids),
            asks: Self::keep_sane(&book.asks),
            prev_close: book.prev_close,
            received_at: book.received_at,
        };
        self.books.insert(id.clone(), kept);
        let mut fills: Vec<Fill> = Vec::new();
        assert(fills@.map_values(|x: Fill| x@) =~= Seq::<FillView>::empty());
        if !self.calendar.is_open(id.venue, now) {
            return Sweep { fills, stopped: None };
        }
        let inst = match self.instruments.get(&id) {
            Some(i) => Instrument {
                id: id.clone(),
                name: i.name.clone(),
                tick: i.tick,
                lot: i.lot,
                tradable: i.tradable,
            },
            None => return Sweep { fills, stopped: None },
        };
        let mut rest = self.resting_copy(&id);
        let ghost whole = crossing(self@, inst@, rest@, 0, Seq::empty(), now, drift);
        let mut stopped: Option<LedgerError> = None;
        let mut i: usize = 0;
        while i < rest.len() && stopped.is_none()
            invariant
                i <= rest@.len(),
                self.wf(),
                self@.books.contains_key(inst.id@),
                tracked_in(self@, rest@),
                match stopped {
                    None => whole == crossing(
                        self@,
                        inst@,
                        rest@,
                        i as int,
                        fills@.map_values(|x: Fill| x@),
                        now,
                        drift,
                    ),
                    Some(e) => whole == (Swept {
                        world: self@,
                        rest: rest@,
                        fills: fills@.map_values(|x: Fill| x@),
                        stopped: Some(e),
                    }),
                },
            decreases rest@.len() - i, if stopped is None { 1int } else { 0int },
        {
            let still = Drift { recovery: Decimal::one(), multiplier: self.shadow_copy(&inst.id).multiplier };
            let d = if i == 0 {
                drift
            } else {
                still
            };
            let ghost w0 = self@;
            let ghost f0 = fills@;
            let ghost r0 = rest@;
            match self.cross_one(&inst, rest[i], now, d) {
                Err(e) => {
                    stopped = Some(e);
                },
                Ok((r2, f)) => {
                    rest.set(i, r2);
                    match f {
                        Some(x) => {
                            fills.push(x);
                            assert(fills@.map_values(|x: Fill| x@) =~= f0.map_values(|x: Fill| x@).push(x@));
                        },
                        None => {},
                    }
                    assert(tracked_in(self@, rest@)) by {
                        assert forall|k: int| 0 <= k < rest@.len() implies self@.orders.contains_key(
                            (#[trigger] rest@[k]).order_id,
                        ) by {
                            assert(w0.orders.dom().contains(r0[k].order_id));
                            assert(self@.orders.dom().contains(r0[k].order_id));
                        }
                    }
                    i += 1;
                },
            }
        }
        self.put_back(&id, &rest);
        Sweep { fills, stopped }
    }

    /// Lets a print fill one resting order.
    fn print_one(&mut self, r: Resting, price: Decimal, avail: Decimal, now: Timestamp) -> (out: Result<
        (Resting, Decimal, Option<Fill>),
        LedgerError,
    >)
        requires
            old(self).wf(),
            old(self)@.orders.contains_key(r.order_id),
        ensures
            final(self).wf(),
            final(self)@.orders.dom() == old(self)@.orders.dom(),
            match printed(old(self)@, r, price, avail, now) {
                Ok((w, r2, left, f)) => out matches Ok((r3, l3, f3)) && r3 == r2 && l3 == left && final(self)@ == w
                    && fill_view(f3) == f,
                Err(e) => out == Err::<(Resting, Decimal, Option<Fill>), LedgerError>(e) && final(self)@ == old(
                    self,
                )@,
            },
            out matches Ok((r3, _, _)) ==> r3.order_id == r.order_id,
    {
        let mut r2 = r;
        let mut left = avail;
        let q = match passive_fill(&mut r2, price, &mut left) {
            Some(q) => q,
            None => return Err(LedgerError::Overflow),
        };
        if q.is_zero() {
            return Ok((r2, left, None));
        }
        let notional = match q.checked_mul(r.price) {
            Some(n) => n,
            None => return Err(LedgerError::Overflow),
        };
        let ghost before = self@;
        match self.fill_resting(r.order_id, r2.remaining, q, notional, Liquidity::Maker, now) {
            Err(e) => Err(e),
            Ok(f) => {
                assert(self@.orders.dom() =~= before.orders.dom());
                Ok((r2, left, Some(f)))
            },
        }
    }

    fn is_served_before(a: &Resting, b: &Resting) -> (r: bool)
        ensures
            r == served_before(*a, *b),
    {
        match (a.side, b.side) {
            (Side::Buy, Side::Sell) => true,
            (Side::Sell, Side::Buy) => false,
            (Side::Buy, Side::Buy) => b.price.lt(a.price),
            (Side::Sell, Side::Sell) => a.price.lt(b.price),
        }
    }

    fn put(sorted: &mut Vec<Resting>, r: Resting)
        ensures
            final(sorted)@ == put_in_place(old(sorted)@, r),
    {
        let ghost whole = sorted@;
        let mut i: usize = sorted.len();
        assert(whole.take(whole.len() as int) =~= whole);
        assert(put_in_place(whole, r) + whole.skip(whole.len() as int) =~= put_in_place(whole, r));
        while i > 0 && Self::is_served_before(&r, &sorted[i - 1])
            invariant
                i <= sorted@.len(),
                sorted@ == whole,
                put_in_place(whole, r) == put_in_place(whole.take(i as int), r) + whole.skip(i as int),
            decreases i,
        {
            proof {
                let head = whole.take(i as int);
                assert(head.drop_last() =~= whole.take(i - 1));
                assert(put_in_place(head.drop_last(), r).push(head.last()) + whole.skip(i as int) =~= put_in_place(
                    head.drop_last(),
                    r,
                ) + whole.skip(i - 1));
            }
            i -= 1;
        }
        proof {
            if i > 0 {
                assert(whole.take(i as int).last() == whole[i - 1]);
            }
            assert(whole.take(i as int).push(r) + whole.skip(i as int) =~= whole.insert(i as int, r));
        }
        sorted.insert(i, r);
    }

    fn arrange(rest: &Vec<Resting>) -> (r: Vec<Resting>)
        ensures
            r@ == arranged(rest@),
    {
        let mut sorted: Vec<Resting> = Vec::new();
        let mut i: usize = 0;
        while i < rest.len()
            invariant
                i <= rest@.len(),
                sorted@ == arranged(rest@.take(i as int)),
            decreases rest@.len() - i,
        {
            assert(rest@.take(i + 1).drop_last() =~= rest@.take(i as int));
            Self::put(&mut sorted, rest[i]);
            i += 1;
        }
        assert(rest@.take(i as int) =~= rest@);
        sorted
    }

    /// A real trade printed. Resting orders at or through its (shifted) price fill as makers,
    /// best price first, sharing the trade's size.
    pub fn on_trade(&mut self, trade: Trade, now: Timestamp, drift: Drift) -> (r: Sweep)
        requires
            old(self).wf(),
        ensures
            final(self).wf(),
            ({
                let (w, fills, stopped) = trade_arrived(old(self)@, trade@, now, drift);
                &&& final(self)@ == w
                &&& r.fills@.map_values(|x: Fill| x@) == fills
                &&& r.stopped == stopped
            }),
    {
        let id = trade.instrument.clone();
        let mut fills: Vec<Fill> = Vec::new();
        assert(fills@.map_values(|x: Fill| x@) =~= Seq::<FillView>::empty());
        if !trade.price.is_positive() || !trade.qty.is_positive() || !self.calendar.is_open(id.venue, now) {
            return Sweep { fills, stopped: None };
        }
        let tick = match self.instruments.get(&id) {
            Some(i) => i.tick,
            None => return Sweep { fills, stopped: None },
        };
        let mut shadow = self.shadow_copy(&id);
        if !shadow.decay(now, drift) {
            return Sweep { fills, stopped: Some(LedgerError::Overflow) };
        }
        let price = match shadow.shift(trade.price, &tick) {
            Some(p) => p,
            None => return Sweep { fills, stopped: Some(LedgerError::Overflow) },
        };
        self.shadows.insert(id.clone(), shadow);
        let found = self.resting_copy(&id);
        let mut rest = Self::arrange(&found);
        proof {
            lemma_arranged_tracked(self@, found@);
        }
        let ghost whole = hitting(self@, rest@, 0, Seq::empty(), price, trade.qty, trade.qty, now);
        let mut buy_avail = trade.qty;
        let mut sell_avail = trade.qty;
        let mut stopped: Option<LedgerError> = None;
        let mut i: usize = 0;
        while i < rest.len() && stopped.is_none()
            invariant
                i <= rest@.len(),
                self.wf(),
                tracked_in(self@, rest@),
                match stopped {
                    None => whole == hitting(
                        self@,
                        rest@,
                        i as int,
                        fills@.map_values(|x: Fill| x@),
                        price,
                        buy_avail,
                        sell_avail,
                        now,
                    ),
                    Some(e) => whole == (Swept {
                        world: self@,
                        rest: rest@,
                        fills: fills@.map_values(|x: Fill| x@),
                        stopped: Some(e),
                    }),
                },
            decreases rest@.len() - i, if stopped is None { 1int } else { 0int },
        {
            let r = rest[i];
            let avail = if r.side == Side::Buy {
                buy_avail
            } else {
                sell_avail
            };
            let ghost w0 = self@;
            let ghost f0 = fills@;
            let ghost r0 = rest@;
            match self.print_one(r, price, avail, now) {
                Err(e) => {
                    stopped = Some(e);
                },
                Ok((r2, left, f)) => {
                    rest.set(i, r2);
                    if r.side == Side::Buy {
                        buy_avail = left;
                    } else {
                        sell_avail = left;
                    }
                    match f {
                        Some(x) => {
                            fills.push(x);
                            assert(fills@.map_values(|x: Fill| x@) =~= f0.map_values(|x: Fill| x@).push(x@));
                        },
                        None => {},
                    }
                    assert(tracked_in(self@, rest@)) by {
                        assert forall|k: int| 0 <= k < rest@.len() implies self@.orders.contains_key(
                            (#[trigger] rest@[k]).order_id,
                        ) by {
                            assert(w0.orders.dom().contains(r0[k].order_id));
                            assert(self@.orders.dom().contains(r0[k].order_id));
                        }
                    }
                    i += 1;
                },
            }
        }
        self.put_back(&id, &rest);
        Sweep { fills, stopped }
    }

    fn place_in(rest: &Vec<Resting>, order_id: u64) -> (r: Option<usize>)
        ensures
            match place_of(rest@, order_id, 0) {
                Some(i) => r matches Some(j) && i == j && j < rest@.len(),
                None => r is None,
            },
    {
        let mut i: usize = 0;
        while i < rest.len()
            invariant
                i <= rest@.len(),
                place_of(rest@, order_id, 0) == place_of(rest@, order_id, i as int),
            decreases rest@.len() - i,
        {
            if rest[i].order_id == order_id {
                return Some(i);
            }
            i += 1;
        }
        None
    }

    fn close_order(&mut self, order_id: u64, status: OrderStatus) -> (r: Option<Order>)
        requires
            old(self).wf(),
            old(self)@.orders.contains_key(order_id),
        ensures
            final(self).wf(),
            match closed_order(old(self)@, order_id, status) {
                Some((w, order)) => r matches Some(o) && o@ == order && final(self)@ == w,
                None => r is None && final(self)@ == old(self)@,
            },
            final(self)@.orders.dom() == old(self)@.orders.dom(),
    {
        let mut order = match self.orders.get(&order_id) {
            Some(o) => o.clone(),
            None => return None,
        };
        let ghost view = order@;
        let mut rest = self.resting_copy(&order.req.instrument);
        let ghost before = rest@;
        let place = Self::place_in(&rest, order_id);
        let remaining = match place {
            Some(i) => rest[i].remaining,
            None => Decimal::zero(),
        };
        let mut pf = match self.accounts.get(&order.account) {
            Some(a) => a.copied(),
            None => return None,
        };
        if !release(&mut pf, &order, remaining) {
            return None;
        }
        order.status = status;
        let ghost w0 = self@;
        self.accounts.insert(order.account.clone(), pf);
        self.orders.insert(order_id, order.clone());
        assert(self@.orders.dom() =~= w0.orders.dom());
        if let Some(i) = place {
            let _ = rest.remove(i);
            assert forall|k: int| 0 <= k < rest@.len() implies self@.orders.contains_key(
                (#[trigger] rest@[k]).order_id,
            ) by {
                assert(rest@[k] == before[if k < i { k } else { k + 1 }]);
            }
            self.resting.insert(order.req.instrument.clone(), rest);
        }
        Some(order)
    }

    /// Cancels an open order of the account and gives its reservation back. An order that is no
    /// longer open is returned as it is.
    pub fn cancel_sync(&mut self, account: &str, order_id: u64) -> (r: Result<Order, OrderError>)
        requires
            old(self).wf(),
        ensures
            final(self).wf(),
            final(self)@ == cancelled(old(self)@, account@, order_id).0,
            agrees(r, cancelled(old(self)@, account@, order_id).1, |a: Order, b: OrderView| a@ == b),
    {
        let account = account.to_owned();
        match self.orders.get(&order_id) {
            None => return Err(OrderError::NotFound),
            Some(o) => {
                if o.account != account {
                    return Err(OrderError::NotFound);
                }
                if o.status != OrderStatus::Open {
                    return Ok(o.clone());
                }
            },
        }
        match self.close_order(order_id, OrderStatus::Cancelled) {
            Some(o) => Ok(o),
            None => Err(no_room()),
        }
    }

    fn due_orders(&self, now: Timestamp) -> (ids: Vec<u64>)
        requires
            self.wf(),
        ensures
            ids@.no_duplicates(),
            forall|k: u64| #[trigger] ids@.contains(k) <==> due(self@, now, k),
    {
        let ghost rows = self.orders.rows();
        let mut ids: Vec<u64> = Vec::new();
        let mut i: usize = 0;
        while i < self.orders.len()
            invariant
                i <= rows.len(),
                rows == self.orders.rows(),
                self.wf(),
                ids@.no_duplicates(),
                forall|k: u64| #[trigger]
                    ids@.contains(k) <==> due(self@, now, k) && exists|j: int| 0 <= j < i && (#[trigger] rows[j]).0 == k,
            decreases rows.len() - i,
        {
            proof {
                lemma_row(rows, i as int);
            }
            let id = *self.orders.key_at(i);
            let o = self.orders.value_at(i);
            let ghost before = ids@;
            if o.status == OrderStatus::Open && o.req.tif == Tif::Day && !self.calendar.is_open(
                o.req.instrument.venue,
                now,
            ) {
                proof {
                    if before.contains(id) {
                        let j = choose|j: int| 0 <= j < i && (#[trigger] rows[j]).0 == id;
                        assert(rows[j].0 == rows[i as int].0);
                    }
                }
                ids.push(id);
            }
            proof {
                assert forall|k: u64| #[trigger]
                    ids@.contains(k) <==> due(self@, now, k) && exists|j: int|
                        0 <= j < i + 1 && (#[trigger] rows[j]).0 == k by {
                    lemma_push_contains(before, id, k);
                    assert(rows[i as int].0 == id);
                    if before.contains(k) {
                        let j = choose|j: int| 0 <= j < i && (#[trigger] rows[j]).0 == k;
                        assert(rows[j].0 == k);
                    }
                }
            }
            i += 1;
        }
        proof {
            assert forall|k: u64| due(self@, now, k) implies exists|j: int|
                0 <= j < rows.len() && (#[trigger] rows[j]).0 == k by {
                let j = lemma_row_of(rows, k);
                assert(rows[j].0 == k);
            }
        }
        ids
    }

    /// Expires open DAY orders whose venue is closed. Call on a timer.
    pub fn expire_day_orders(&mut self, now: Timestamp) -> (r: Vec<Order>)
        requires
            old(self).wf(),
        ensures
            final(self).wf(),
            exists|ids: Seq<u64>| #[trigger]
                ids.no_duplicates() && (forall|k: u64| #[trigger] ids.contains(k) <==> due(old(self)@, now, k))
                    && final(self)@ == expired(old(self)@, ids, 0).0 && r@.map_values(|o: Order| o@) == expired(
                    old(self)@,
                    ids,
                    0,
                ).1,
    {
        let ids = self.due_orders(now);
        let ghost w0 = self@;
        let mut out: Vec<Order> = Vec::new();
        let mut i: usize = 0;
        assert(out@.map_values(|o: Order| o@) + expired(w0, ids@, 0).1 =~= expired(w0, ids@, 0).1);
        while i < ids.len()
            invariant
                i <= ids@.len(),
                self.wf(),
                self@.orders.dom() == w0.orders.dom(),
                forall|k: u64| #[trigger] ids@.contains(k) ==> w0.orders.contains_key(k),
                expired(w0, ids@, 0).0 == expired(self@, ids@, i as int).0,
                expired(w0, ids@, 0).1 == out@.map_values(|o: Order| o@) + expired(self@, ids@, i as int).1,
            decreases ids@.len() - i,
        {
            assert(ids@.contains(ids@[i as int]));
            assert(self@.orders.dom().contains(ids@[i as int]));
            let ghost before = out@.map_values(|o: Order| o@);
            let ghost w1 = self@;
            match self.close_order(ids[i], OrderStatus::Expired) {
                Some(o) => {
                    let ghost ov = o@;
                    out.push(o);
                    proof {
                        let more = expired(self@, ids@, i + 1).1;
                        assert(out@.map_values(|o: Order| o@) =~= before.push(ov));
                        assert(before + (seq![ov] + more) =~= before.push(ov) + more);
                    }
                },
                None => {},
            }
            i += 1;
        }
        assert(out@.map_values(|o: Order| o@) + Seq::<OrderView>::empty() =~= out@.map_values(|o: Order| o@));
        out
    }

    fn is_convertible(from: Currency, to: Currency, amount: Decimal, usd_krw: Decimal, spread: Decimal) -> (r: bool)
        ensures
            r == convertible(from, to, amount, usd_krw, spread),
    {
        let max = Decimal::new(1_000_000_000_000_000, 0);
        let normal = amount.normalize();
        proof {
            use_type_invariant(normal);
            lemma_places(normal, from.decimals() as int);
        }
        from != to && amount.is_positive() && amount.le(max) && normal.scale_part() <= from.decimals()
            && usd_krw.is_positive() && !spread.is_negative() && spread.lt(Decimal::one())
    }

    fn exchange(from: Currency, to: Currency, amount: Decimal, usd_krw: Decimal, spread: Decimal) -> (r: Option<
        (Decimal, Decimal),
    >)
        ensures
            r == exchanged(from, to, amount, usd_krw, spread),
    {
        let give = if from == Currency::Krw {
            Decimal::one()
        } else {
            usd_krw
        };
        let take = if to == Currency::Krw {
            Decimal::one()
        } else {
            usd_krw
        };
        let net = Decimal::one().checked_sub(spread)?;
        let credit = amount.checked_mul(give)?.checked_mul(net)?.checked_div(take)?.trunc_dp(to.decimals());
        let rate = give.checked_mul(net)?.checked_div(take)?.round_dp(8);
        Some((credit, rate))
    }

    fn usage(from: Currency) -> (r: OrderError)
        ensures
            r@ == OrderError::<Seq<char>>::InvalidRequest(convert_usage(from)),
    {
        let places = match from {
            Currency::Krw => "0",
            Currency::Usd => "2",
            Currency::Usdt => "8",
        };
        let mut m = "convert needs two different currencies, a positive amount in whole ".to_owned();
        m.append(from.code());
        m.append(" units of ");
        m.append(places);
        m.append(" and a positive rate");
        OrderError::InvalidRequest(m)
    }

    /// Moves cash between currencies at `usd_krw` KRW per USD (USDT counts as USD), less `spread`.
    /// The credit is truncated to the target currency's minor unit.
    pub fn convert_sync(
        &mut self,
        account: &str,
        from: Currency,
        to: Currency,
        amount: Decimal,
        usd_krw: Decimal,
        spread: Decimal,
    ) -> (r: Result<Conversion, OrderError>)
        requires
            old(self).wf(),
        ensures
            final(self).wf(),
            final(self)@ == converted(old(self)@, account@, from, to, amount, usd_krw, spread).0,
            agrees(
                r,
                converted(old(self)@, account@, from, to, amount, usd_krw, spread).1,
                |a: Conversion, b: Conversion| a == b,
            ),
    {
        if !Self::is_convertible(from, to, amount, usd_krw, spread) {
            return Err(Self::usage(from));
        }
        let account = account.to_owned();
        let mut pf = match self.accounts.get(&account) {
            Some(a) => a.copied(),
            None => return Err(OrderError::UnknownAccount),
        };
        let available = match pf.available_cash(from) {
            Some(a) => a,
            None => return Err(no_room()),
        };
        if available.lt(amount) {
            return Err(OrderError::InsufficientFunds { required: amount, available });
        }
        let (credit, rate) = match Self::exchange(from, to, amount, usd_krw, spread) {
            Some(x) => x,
            None => return Err(no_room()),
        };
        if !credit.is_positive() {
            let mut m = amount.to_text();
            m.append(" ");
            m.append(from.code());
            m.append(" is too small to convert");
            return Err(OrderError::InvalidRequest(m));
        }
        match (pf.cash(from).checked_sub(amount), pf.cash(to).checked_add(credit)) {
            (Some(a), Some(b)) => {
                pf.cash.insert(from, a);
                pf.cash.insert(to, b);
                self.accounts.insert(account, pf);
                Ok(Conversion { from, to, debit: amount, credit, rate })
            },
            _ => Err(no_room()),
        }
    }

    /// Continues order numbering after the highest id already persisted.
    pub fn set_next_order_id(&mut self, id: u64)
        requires
            old(self).wf(),
        ensures
            final(self).wf(),
            final(self)@ == (World { next_order_id: id, ..old(self)@ }),
    {
        self.next_order_id = id;
    }

    /// Instruments with a non-positive tick or lot step are refused (they would divide by zero);
    /// the answer says whether the instrument was taken.
    pub fn add_instrument(&mut self, instrument: Instrument) -> (added: bool)
        requires
            old(self).wf(),
        ensures
            final(self).wf(),
            added == divisible(instrument@),
            added ==> final(self)@ == (World {
                instruments: old(self)@.instruments.insert(instrument.id@, instrument@),
                ..old(self)@
            }),
            !added ==> final(self)@ == old(self)@,
    {
        let tick_ok = match instrument.tick {
            TickRule::Fixed(t) => t.is_positive(),
            _ => true,
        };
        if !tick_ok || !instrument.lot.step.is_positive() {
            return false;
        }
        self.instruments.insert(instrument.id.clone(), instrument);
        true
    }

    pub fn set_stats(&mut self, id: InstrumentId, stats: DailyStats)
        requires
            old(self).wf(),
        ensures
            final(self).wf(),
            final(self)@ == (World { stats: old(self)@.stats.insert(id@, stats), ..old(self)@ }),
    {
        self.stats.insert(id, stats);
    }

    pub fn has_stats(&self, id: &InstrumentId) -> (r: bool)
        requires
            self.wf(),
        ensures
            r == self@.stats.contains_key(id@),
    {
        self.stats.contains(id)
    }

    /// Opens an account with these deposits, in place of one of the same name.
    pub fn open_account(&mut self, id: &str, cash: &[(Currency, Decimal)])
        requires
            old(self).wf(),
        ensures
            final(self).wf(),
            final(self)@ == (World {
                accounts: old(self)@.accounts.insert(
                    id@,
                    PortfolioView { cash: deposits(cash@), reserved_cash: Map::empty(), positions: Map::empty() },
                ),
                ..old(self)@
            }),
    {
        self.accounts.insert(id.to_owned(), Portfolio::new(cash));
    }

    pub fn portfolio(&self, id: &str) -> (r: Option<Portfolio>)
        requires
            self.wf(),
        ensures
            match r {
                Some(p) => p.wf() && self@.accounts.contains_key(id@) && p@ == self@.accounts[id@],
                None => !self@.accounts.contains_key(id@),
            },
    {
        match self.accounts.get(&id.to_owned()) {
            Some(p) => Some(p.copied()),
            None => None,
        }
    }

    pub fn order(&self, id: u64) -> (r: Option<Order>)
        requires
            self.wf(),
        ensures
            match r {
                Some(o) => self@.orders.contains_key(id) && o@ == self@.orders[id],
                None => !self@.orders.contains_key(id),
            },
    {
        match self.orders.get(&id) {
            Some(o) => Some(o.clone()),
            None => None,
        }
    }

    /// How old the instrument's latest book is, in nanoseconds, if there is one.
    pub fn book_age(&self, id: &InstrumentId, now: Timestamp) -> (r: Option<i128>)
        requires
            self.wf(),
        ensures
            match r {
                Some(a) => self@.books.contains_key(id@) && a == now.at() - self@.books[id@].received_at.at(),
                None => !self@.books.contains_key(id@),
            },
    {
        match self.books.get(id) {
            Some(b) => Some(now.since(b.received_at)),
            None => None,
        }
    }

    /// When the instrument's shadow was last looked at, if it was.
    pub fn shadow_updated_at(&self, id: &InstrumentId) -> (r: Option<Timestamp>)
        requires
            self.wf(),
        ensures
            r == shadow_of(self@, id@).updated_at,
    {
        match self.shadows.get(id) {
            Some(s) => s.updated_at,
            None => None,
        }
    }

    /// Moves the instrument's price multiplier, as the impact of a taker execution does.
    pub fn set_multiplier(&mut self, id: &InstrumentId, multiplier: Decimal)
        requires
            old(self).wf(),
        ensures
            final(self).wf(),
            final(self)@ == (World {
                shadows: old(self)@.shadows.insert(
                    id@,
                    ShadowView { multiplier, ..shadow_of(old(self)@, id@) },
                ),
                ..old(self)@
            }),
    {
        let mut s = self.shadow_copy(id);
        s.multiplier = multiplier;
        self.shadows.insert(id.clone(), s);
    }

    /// Puts an id into a list that is in dictionary order, unless it is there.
    fn list_id(ids: &mut Vec<InstrumentId>, id: &InstrumentId)
        requires
            in_order(id_views(old(ids)@)),
        ensures
            in_order(id_views(final(ids)@)),
            forall|x: (Venue, Seq<char>)| #[trigger]
                id_views(final(ids)@).contains(x) <==> id_views(old(ids)@).contains(x) || x == id@,
    {
        let ghost views = id_views(ids@);
        let text = id.to_text();
        let mut i: usize = 0;
        let mut place: Option<usize> = None;
        while i < ids.len()
            invariant
                i <= ids@.len(),
                views == id_views(ids@),
                in_order(views),
                text@ == id_text(id@),
                forall|j: int| 0 <= j < i ==> (#[trigger] views[j]) != id@,
                match place {
                    None => forall|j: int| 0 <= j < i ==> !lex_less(text@, id_text(#[trigger] views[j])),
                    Some(p) => p < i && lex_less(text@, id_text(views[p as int])) && forall|j: int|
                        0 <= j < p ==> !lex_less(text@, id_text(#[trigger] views[j])),
                },
            decreases ids@.len() - i,
        {
            assert(views[i as int] == ids@[i as int]@);
            if ids[i].same_key(id) {
                assert forall|x: (Venue, Seq<char>)| #[trigger] views.contains(x) <==> views.contains(x) || x == id@ by {
                    assert(views[i as int] == id@);
                }
                return;
            }
            if place.is_none() && text_before(text.as_str(), ids[i].to_text().as_str()) {
                place = Some(i);
            }
            i += 1;
        }
        let at: usize = match place {
            Some(p) => p,
            None => ids.len(),
        };
        ids.insert(at, id.clone());
        proof {
            assert(id_views(ids@) =~= views.insert(at as int, id@));
            lemma_insert_in_order(views, at as int, id@);
            assert forall|x: (Venue, Seq<char>)| #[trigger]
                id_views(ids@).contains(x) <==> views.contains(x) || x == id@ by {
                lemma_insert_contains(views, at as int, id@, x);
            }
        }
    }

    /// Instruments with a position or a resting order in any account, in dictionary order.
    pub fn active_instruments(&self) -> (ids: Vec<InstrumentId>)
        requires
            self.wf(),
        ensures
            in_order(id_views(ids@)),
            forall|x: (Venue, Seq<char>)| #[trigger] id_views(ids@).contains(x) <==> active(self@, x),
    {
        let mut ids: Vec<InstrumentId> = Vec::new();
        let ghost accounts = self.accounts.rows();
        assert(forall|x: (Venue, Seq<char>)| !(#[trigger] id_views(ids@).contains(x)));
        let mut i: usize = 0;
        while i < self.accounts.len()
            invariant
                i <= accounts.len(),
                accounts == self.accounts.rows(),
                self.wf(),
                in_order(id_views(ids@)),
                forall|x: (Venue, Seq<char>)| #[trigger]
                    id_views(ids@).contains(x) <==> exists|k: int|
                        0 <= k < i && (#[trigger] accounts[k]).1.positions.contains_key(x),
            decreases accounts.len() - i,
        {
            let pf = self.accounts.value_at(i);
            let ghost positions = pf.positions.rows();
            let ghost before = id_views(ids@);
            let mut j: usize = 0;
            while j < pf.positions.len()
                invariant
                    j <= positions.len(),
                    positions == pf.positions.rows(),
                    in_order(id_views(ids@)),
                    forall|x: (Venue, Seq<char>)| #[trigger]
                        id_views(ids@).contains(x) <==> before.contains(x) || exists|k: int|
                            0 <= k < j && (#[trigger] positions[k]).0 == x,
                decreases positions.len() - j,
            {
                let id = pf.positions.key_at(j);
                let ghost prior = id_views(ids@);
                Self::list_id(&mut ids, id);
                proof {
                    assert forall|x: (Venue, Seq<char>)| #[trigger]
                        id_views(ids@).contains(x) <==> before.contains(x) || exists|k: int|
                            0 <= k < j + 1 && (#[trigger] positions[k]).0 == x by {
                        assert(positions[j as int].0 == id@);
                        if prior.contains(x) && !before.contains(x) {
                            let k = choose|k: int| 0 <= k < j && (#[trigger] positions[k]).0 == x;
                            assert(positions[k].0 == x);
                        }
                    }
                }
                j += 1;
            }
            proof {
                assert forall|x: (Venue, Seq<char>)| #[trigger]
                    id_views(ids@).contains(x) <==> exists|k: int|
                        0 <= k < i + 1 && (#[trigger] accounts[k]).1.positions.contains_key(x) by {
                    assert(accounts[i as int].1 == pf@);
                    if pf@.positions.contains_key(x) {
                        let k = lemma_row_of(positions, x);
                        assert(positions[k].0 == x);
                        assert(accounts[i as int].1.positions.contains_key(x));
                    }
                    if exists|k: int| 0 <= k < positions.len() && (#[trigger] positions[k]).0 == x {
                        let k = choose|k: int| 0 <= k < positions.len() && (#[trigger] positions[k]).0 == x;
                        lemma_row(positions, k);
                    }
                    if before.contains(x) {
                        let k = choose|k: int| 0 <= k < i && (#[trigger] accounts[k]).1.positions.contains_key(x);
                        assert(accounts[k].1.positions.contains_key(x));
                    }
                }
            }
            i += 1;
        }
        let ghost held = id_views(ids@);
        let ghost books = self.resting.rows();
        let mut i: usize = 0;
        while i < self.resting.len()
            invariant
                i <= books.len(),
                books == self.resting.rows(),
                self.wf(),
                in_order(id_views(ids@)),
                forall|x: (Venue, Seq<char>)| #[trigger]
                    id_views(ids@).contains(x) <==> held.contains(x) || exists|k: int|
                        0 <= k < i && (#[trigger] books[k]).0 == x && books[k].1.len() > 0,
            decreases books.len() - i,
        {
            let id = self.resting.key_at(i);
            let ghost prior = id_views(ids@);
            if self.resting.value_at(i).len() > 0 {
                Self::list_id(&mut ids, id);
            }
            proof {
                assert forall|x: (Venue, Seq<char>)| #[trigger]
                    id_views(ids@).contains(x) <==> held.contains(x) || exists|k: int|
                        0 <= k < i + 1 && (#[trigger] books[k]).0 == x && books[k].1.len() > 0 by {
                    assert(books[i as int].0 == id@);
                    if prior.contains(x) && !held.contains(x) {
                        let k = choose|k: int| 0 <= k < i && (#[trigger] books[k]).0 == x && books[k].1.len() > 0;
                        assert(books[k].0 == x);
                    }
                }
            }
            i += 1;
        }
        proof {
            assert forall|x: (Venue, Seq<char>)| #[trigger] id_views(ids@).contains(x) <==> active(self@, x) by {
                if held.contains(x) {
                    let k = choose|k: int| 0 <= k < accounts.len() && (#[trigger] accounts[k]).1.positions.contains_key(x);
                    lemma_row(accounts, k);
                    assert(self@.accounts.contains_key(accounts[k].0));
                }
                if exists|a: Seq<char>| #[trigger]
                    self@.accounts.contains_key(a) && self@.accounts[a].positions.contains_key(x) {
                    let a = choose|a: Seq<char>| #[trigger]
                        self@.accounts.contains_key(a) && self@.accounts[a].positions.contains_key(x);
                    let k = lemma_row_of(accounts, a);
                    assert(accounts[k].1.positions.contains_key(x));
                }
                if exists|k: int| 0 <= k < books.len() && (#[trigger] books[k]).0 == x && books[k].1.len() > 0 {
                    let k = choose|k: int| 0 <= k < books.len() && (#[trigger] books[k]).0 == x && books[k].1.len() > 0;
                    lemma_row(books, k);
                }
                if self@.resting.contains_key(x) && self@.resting[x].len() > 0 {
                    let k = lemma_row_of(books, x);
                    assert(books[k].0 == x);
                }
            }
        }
        ids
    }
}

/// Ids as what they say.
pub open spec fn id_views(ids: Seq<InstrumentId>) -> Seq<(Venue, Seq<char>)> {
    ids.map_values(|i: InstrumentId| i@)
}

/// Whether ids stand in dictionary order, none of them twice.
pub open spec fn in_order(ids: Seq<(Venue, Seq<char>)>) -> bool {
    &&& ids.no_duplicates()
    &&& forall|i: int, j: int|
        0 <= i < j < ids.len() ==> !lex_less(id_text(#[trigger] ids[j]), id_text(#[trigger] ids[i]))
}

proof fn lemma_insert_contains<A>(s: Seq<A>, at: int, a: A, x: A)
    requires
        0 <= at <= s.len(),
    ensures
        s.insert(at, a).contains(x) <==> s.contains(x) || x == a,
{
    let t = s.insert(at, a);
    assert(t[at] == a);
    if s.contains(x) {
        let i = choose|i: int| 0 <= i < s.len() && s[i] == x;
        assert(t[if i < at { i } else { i + 1 }] == x);
    }
    if t.contains(x) {
        let i = choose|i: int| 0 <= i < t.len() && t[i] == x;
        if i < at {
            assert(s[i] == x);
        } else if i > at {
            assert(s[i - 1] == x);
        }
    }
}

proof fn lemma_insert_in_order(ids: Seq<(Venue, Seq<char>)>, at: int, id: (Venue, Seq<char>))
    requires
        in_order(ids),
        0 <= at <= ids.len(),
        forall|j: int| 0 <= j < ids.len() ==> (#[trigger] ids[j]) != id,
        at < ids.len() ==> lex_less(id_text(id), id_text(ids[at])),
        forall|j: int| 0 <= j < at ==> !lex_less(id_text(id), id_text(#[trigger] ids[j])),
    ensures
        in_order(ids.insert(at, id)),
{
    let t = ids.insert(at, id);
    assert forall|i: int, j: int| 0 <= i < t.len() && 0 <= j < t.len() && i != j implies t[i] != t[j] by {
        let oi = if i < at { i } else { i - 1 };
        let oj = if j < at { j } else { j - 1 };
        if i != at && j != at {
            assert(t[i] == ids[oi] && t[j] == ids[oj]);
        } else if i == at {
            assert(t[j] == ids[oj]);
        } else {
            assert(t[i] == ids[oi]);
        }
    }
    assert forall|i: int, j: int| 0 <= i < j < t.len() implies !lex_less(
        id_text(#[trigger] t[j]),
        id_text(#[trigger] t[i]),
    ) by {
        let oi = if i < at { i } else { i - 1 };
        let oj = if j < at { j } else { j - 1 };
        if i != at && j != at {
            assert(t[i] == ids[oi] && t[j] == ids[oj]);
        } else if j == at {
            assert(t[i] == ids[oi]);
        } else {
            assert(t[j] == ids[oj]);
            if lex_less(id_text(t[j]), id_text(id)) {
                lemma_lex_transitive(id_text(t[j]), id_text(id), id_text(ids[at]), 0);
                if oj > at {
                    assert(!lex_less(id_text(ids[oj]), id_text(ids[at])));
                } else {
                    lemma_lex_irreflexive(id_text(ids[at]), 0);
                }
            }
        }
    }
}

/// Putting an order into its place keeps the others.
proof fn lemma_put_members(w: World, rest: Seq<Resting>, r: Resting)
    requires
        tracked_in(w, rest),
        w.orders.contains_key(r.order_id),
    ensures
        tracked_in(w, put_in_place(rest, r)),
    decreases rest.len(),
{
    if rest.len() > 0 && served_before(r, rest.last()) {
        assert(tracked_in(w, rest.drop_last())) by {
            assert forall|i: int| 0 <= i < rest.drop_last().len() implies w.orders.contains_key(
                (#[trigger] rest.drop_last()[i]).order_id,
            ) by {
                assert(rest.drop_last()[i] == rest[i]);
            }
        }
        lemma_put_members(w, rest.drop_last(), r);
        assert(w.orders.contains_key(rest[rest.len() - 1].order_id));
    }
}

proof fn lemma_arranged_tracked(w: World, rest: Seq<Resting>)
    requires
        tracked_in(w, rest),
    ensures
        tracked_in(w, arranged(rest)),
    decreases rest.len(),
{
    if rest.len() > 0 {
        assert(tracked_in(w, rest.drop_last())) by {
            assert forall|i: int| 0 <= i < rest.drop_last().len() implies w.orders.contains_key(
                (#[trigger] rest.drop_last()[i]).order_id,
            ) by {
                assert(rest.drop_last()[i] == rest[i]);
            }
        }
        lemma_arranged_tracked(w, rest.drop_last());
        assert(w.orders.contains_key(rest[rest.len() - 1].order_id));
        lemma_put_members(w, arranged(rest.drop_last()), rest.last());
    }
}

/// A number without trailing zeros has at most `places` places exactly if it is a multiple of
/// 10^-`places`.
proof fn lemma_places(d: Decimal, places: int)
    requires
        d.valid(),
        0 <= places <= 28,
        d.scale() == 0 || d.mantissa() % 10 != 0,
    ensures
        d.scale() <= places <==> d.value() % pow10((28 - places) as nat) == 0,
{
    let m = d.mantissa();
    let s = d.scale();
    let g = pow10((28 - places) as nat);
    lemma_pow10_positive((28 - places) as nat);
    if s <= places {
        lemma_pow10_add((places - s) as nat, (28 - places) as nat);
        let k = pow10((places - s) as nat);
        assert(m * (k * g) == g * (m * k)) by (nonlinear_arith);
        vstd::arithmetic::div_mod::lemma_fundamental_div_mod_converse(d.value(), g, m * k, 0);
    } else if d.value() % g == 0 {
        let l = pow10((28 - s) as nat);
        let k = pow10((s - places) as nat);
        lemma_pow10_positive((28 - s) as nat);
        lemma_pow10_add((s - places) as nat, (28 - s) as nat);
        vstd::arithmetic::div_mod::lemma_fundamental_div_mod(d.value(), g);
        let q = d.value() / g;
        assert(m == k * q) by (nonlinear_arith)
            requires
                m * l == (k * l) * q,
                l > 0,
        ;
        let j = pow10((s - places - 1) as nat);
        assert(m == 10 * (j * q)) by (nonlinear_arith)
            requires
                m == k * q,
                k == 10 * j,
        ;
    }
}

/// An optional fill, as what it says.
pub open spec fn fill_view(f: Option<Fill>) -> Option<FillView> {
    match f {
        Some(x) => Some(x@),
        None => None,
    }
}

/// Working out what an order would do changes nothing but the shadow of its instrument.
pub proof fn law_estimate_changes_nothing(w: World, account: Seq<char>, req: RequestView, now: Timestamp, drift: Drift)
    ensures
        ({
            let after = prepared(w, account, req, now, drift).0;
            &&& after == (World { shadows: after.shadows, ..w })
            &&& forall|id: (Venue, Seq<char>)|
                id != req.instrument ==> #[trigger] shadow_of(after, id) == shadow_of(w, id)
        }),
{
}

/// A refused order changes nothing but the shadow of its instrument: no cash, no position, no
/// order and no order number.
pub proof fn law_refused_orders_leave_no_trace(
    w: World,
    account: Seq<char>,
    req: RequestView,
    now: Timestamp,
    drift: Drift,
)
    requires
        placed(w, account, req, now, drift).1 is Err,
    ensures
        ({
            let after = placed(w, account, req, now, drift).0;
            after == (World { shadows: after.shadows, ..w })
        }),
{
}

/// An accepted order gets the next number and is found under it; the other accounts and the other
/// orders stay as they are.
pub proof fn law_accepted_orders_are_kept(w: World, account: Seq<char>, req: RequestView, now: Timestamp, drift: Drift)
    requires
        placed(w, account, req, now, drift).1 is Ok,
        w.next_order_id < u64::MAX,
    ensures
        ({
            let (after, outcome) = placed(w, account, req, now, drift);
            let order = (outcome->Ok_0).0;
            &&& order.id == w.next_order_id
            &&& order.account == account
            &&& order.req == req
            &&& after.next_order_id == w.next_order_id + 1
            &&& after.orders == w.orders.insert(order.id, order)
            &&& forall|a: Seq<char>|
                a != account ==> (#[trigger] after.accounts.contains_key(a) <==> w.accounts.contains_key(a)) && (
                w.accounts.contains_key(a) ==> after.accounts[a] == w.accounts[a])
        }),
{
}

/// Somebody else's order cannot be cancelled: it is not found, and nothing changes.
pub proof fn law_orders_of_others_are_not_found(w: World, account: Seq<char>, order_id: u64)
    requires
        w.orders.contains_key(order_id) ==> w.orders[order_id].account != account,
    ensures
        cancelled(w, account, order_id) == (w, Err::<OrderView, OrderError<Seq<char>>>(OrderError::NotFound)),
{
}

/// Cancelling an order a second time changes nothing and returns the cancelled order.
pub proof fn law_cancelling_twice_is_cancelling_once(w: World, account: Seq<char>, order_id: u64)
    requires
        cancelled(w, account, order_id).1 is Ok,
    ensures
        ({
            let (after, order) = cancelled(w, account, order_id);
            cancelled(after, account, order_id) == (after, order)
        }),
{
}

/// Cancelling gives back what the order had promised: for a resting buy of which nothing has
/// filled, the promised cash of the account is again what it was before the order, wherever the
/// two sums are exact.
pub proof fn law_cancel_releases_the_reservation(pf: PortfolioView, order: OrderView, qty: Decimal)
    requires
        order.req.side == Side::Buy,
        order.req.limit_price is Some,
        promised(pf, order.req, order.req.limit_price->0, qty) is Some,
        ({
            let c = order.req.instrument.0.currency();
            let amount = reserve_for(order.req.limit_price->0, order.req.instrument.0, qty)->0;
            let had = amount_of(pf.reserved_cash, c);
            let has = amount_of((promised(pf, order.req, order.req.limit_price->0, qty)->0).reserved_cash, c);
            &&& had.value() >= 0
            &&& has.value() == had.value() + amount.value()
            &&& has.minus(amount) matches Some(r) && r.value() == has.value() - amount.value()
        }),
    ensures
        ({
            let c = order.req.instrument.0.currency();
            let back = released(promised(pf, order.req, order.req.limit_price->0, qty)->0, order, qty);
            &&& back is Some
            &&& amount_of(back->0.reserved_cash, c).value() == amount_of(pf.reserved_cash, c).value()
            &&& back->0.cash == pf.cash
            &&& back->0.positions == pf.positions
        }),
{
    let amount = reserve_for(order.req.limit_price->0, order.req.instrument.0, qty)->0;
    crate::ledger::law_release_undoes_reserve(pf, order.req.instrument.0.currency(), amount);
}

/// Whether resting orders stand in the order in which they are served.
pub open spec fn in_serving_order(rest: Seq<Resting>) -> bool {
    forall|i: int, j: int| 0 <= i < j < rest.len() ==> !served_before(#[trigger] rest[j], #[trigger] rest[i])
}

proof fn lemma_put_in_order(rest: Seq<Resting>, r: Resting)
    requires
        in_serving_order(rest),
    ensures
        in_serving_order(put_in_place(rest, r)),
        put_in_place(rest, r).to_multiset() == rest.to_multiset().insert(r),
        put_in_place(rest, r).len() == rest.len() + 1,
        forall|i: int|
            0 <= i < put_in_place(rest, r).len() ==> (#[trigger] put_in_place(rest, r)[i] == r || rest.contains(
                put_in_place(rest, r)[i],
            )),
    decreases rest.len(),
{
    broadcast use vstd::seq_lib::group_to_multiset_ensures;

    if rest.len() > 0 && served_before(r, rest.last()) {
        let head = rest.drop_last();
        let last = rest.last();
        lemma_put_in_order(head, r);
        let placed = put_in_place(head, r);
        let whole = placed.push(last);
        assert(rest =~= head.push(last));
        assert forall|i: int| 0 <= i < placed.len() implies !served_before(last, #[trigger] placed[i]) by {
            if placed[i] != r {
                let k = choose|k: int| 0 <= k < head.len() && head[k] == placed[i];
                assert(rest[k] == head[k]);
                assert(!served_before(rest[rest.len() - 1], rest[k]));
            }
        }
        assert forall|i: int| 0 <= i < whole.len() implies (#[trigger] whole[i] == r || rest.contains(whole[i])) by {
            if i < placed.len() {
                assert(placed[i] == r || head.contains(placed[i]));
                if head.contains(placed[i]) {
                    let k = choose|k: int| 0 <= k < head.len() && head[k] == placed[i];
                    assert(rest[k] == placed[i]);
                }
            } else {
                assert(rest[rest.len() - 1] == last);
            }
        }
        assert(whole.to_multiset() =~= rest.to_multiset().insert(r));
    } else {
        let whole = rest.push(r);
        assert forall|i: int| 0 <= i < rest.len() implies !served_before(r, #[trigger] rest[i]) by {
            if i < rest.len() - 1 {
                assert(!served_before(rest[rest.len() - 1], rest[i]));
            }
        }
        assert forall|i: int| 0 <= i < whole.len() implies (#[trigger] whole[i] == r || rest.contains(whole[i])) by {
            if i < rest.len() {
                assert(rest[i] == whole[i]);
            }
        }
    }
}

/// A print serves every resting order once, buys from the highest price down and sells from the
/// lowest up.
pub proof fn law_best_price_is_served_first(rest: Seq<Resting>)
    ensures
        in_serving_order(arranged(rest)),
        arranged(rest).to_multiset() == rest.to_multiset(),
    decreases rest.len(),
{
    broadcast use vstd::seq_lib::group_to_multiset_ensures;

    if rest.len() > 0 {
        law_best_price_is_served_first(rest.drop_last());
        lemma_put_in_order(arranged(rest.drop_last()), rest.last());
        assert(rest =~= rest.drop_last().push(rest.last()));
    }
}

} // verus!
