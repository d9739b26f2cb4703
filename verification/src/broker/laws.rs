//! What holds of every order, whatever the market does.
use crate::broker::world::{estimated, placed, prepared, World};
use crate::broker::{rest_of, reserve_for, size_number, walk_size, worst_price, OrderStatus, PlanView, RequestView};
use crate::decimal::{lemma_dec_parts, opt_plus, unit, zero, Decimal};
use crate::domain::{Side, Venue};
use crate::ledger::{cash_available, qty_available};
use crate::sim::{
    law_walk_takes_levels_in_order, left_after, level_take, too_small, totals_of, walk_from, walked, worse, Drift, ShadowLevel,
    Size, Slice,
};
use crate::time::Timestamp;
use crate::venue::FeeSchedule;
use vstd::prelude::*;

verus! {

/// What an estimate says is what placing the same order at once does: the same quantity, value,
/// fee, tax and average price, and the order rests exactly if something is left to rest.
pub proof fn law_estimates_foretell_orders(
    w: World,
    account: Seq<char>,
    req: RequestView,
    now: Timestamp,
    drift: Drift,
    p: PlanView,
)
    requires
        prepared(w, account, req, now, drift).1 == Ok::<PlanView, crate::broker::OrderError<Seq<char>>>(p),
        placed(w, account, req, now, drift).1 is Ok,
        estimated(p) is Ok,
    ensures
        ({
            let e = estimated(p)->Ok_0;
            let (order, fills) = placed(w, account, req, now, drift).1->Ok_0;
            &&& p.slices.len() == 0 ==> fills.len() == 0
            &&& p.slices.len() > 0 ==> {
                &&& fills.len() == 1
                &&& fills[0].qty == e.filled_qty
                &&& fills[0].notional == e.notional
                &&& fills[0].fee == e.fee
                &&& fills[0].tax == e.tax
                &&& e.filled_qty.value() != 0 ==> Some(fills[0].price) == e.avg_price
            }
            &&& (order.status == OrderStatus::Open) == (e.rest_qty.value() > 0 && req.limit_price is Some)
        }),
{
    lemma_plan_fee(w, account, req, now, drift, p);
}

proof fn lemma_plan_fee(w: World, account: Seq<char>, req: RequestView, now: Timestamp, drift: Drift, p: PlanView)
    requires
        prepared(w, account, req, now, drift).1 == Ok::<PlanView, crate::broker::OrderError<Seq<char>>>(p),
    ensures
        FeeSchedule::of_venue(req.instrument.0).charged(
            req.side,
            p.notional,
            req.instrument.0.currency().decimals() as int,
        ) == Some((p.fee, p.tax)),
        rest_of(req, p.qty) == Some(p.rest_qty),
{
}

/// An order is only accepted if what it takes and what it may still take is covered: a buy by cash
/// that is not promised elsewhere, a sale by shares or coins that are not.
pub proof fn law_accepted_orders_are_covered(
    w: World,
    account: Seq<char>,
    req: RequestView,
    now: Timestamp,
    drift: Drift,
    p: PlanView,
)
    requires
        prepared(w, account, req, now, drift).1 == Ok::<PlanView, crate::broker::OrderError<Seq<char>>>(p),
    ensures
        ({
            let venue = req.instrument.0;
            let pf = w.accounts[account];
            match req.side {
                Side::Buy => {
                    let limit = worst_price(req, p.mid)->0;
                    let required = opt_plus(
                        opt_plus(p.notional.plus(p.fee), Some(p.tax)),
                        reserve_for(limit, venue, p.rest_qty),
                    );
                    let available = cash_available(pf, venue.currency());
                    required is Some && available is Some && required->0.value() <= available->0.value()
                },
                Side::Sell => qty_available(pf, req.instrument) matches Some(available) && size_number(req.size).value()
                    <= available.value(),
            }
        }),
{
}

/// What an order takes at once it takes level by level from the best, in whole steps, at no price
/// worse than its limit, or than the largest slippage for a market order.
pub proof fn law_no_price_is_worse_than_the_limit(
    w: World,
    account: Seq<char>,
    req: RequestView,
    now: Timestamp,
    drift: Drift,
    p: PlanView,
)
    requires
        prepared(w, account, req, now, drift).1 == Ok::<PlanView, crate::broker::OrderError<Seq<char>>>(p),
        w.instruments[req.instrument].lot.step.valid(),
    ensures
        worst_price(req, p.mid) is Some,
        forall|j: int|
            0 <= j < p.slices.len() ==> {
                &&& !worse(req.side, (#[trigger] p.slices[j]).price, worst_price(req, p.mid)->0)
                &&& p.slices[j].qty.value() > 0
                &&& w.instruments[req.instrument].lot.step.value() > 0 ==> p.slices[j].qty.value()
                    % w.instruments[req.instrument].lot.step.value() == 0
            },
{
    let id = req.instrument;
    let sh = crate::sim::decayed(crate::broker::world::shadow_of(w, id), now, drift)->0;
    let inst = w.instruments[id];
    let book = w.books[id];
    let bids = crate::sim::shadow_from(sh, book.bids, Side::Buy, inst.tick, 0)->0;
    let asks = crate::sim::shadow_from(sh, book.asks, Side::Sell, inst.tick, 0)->0;
    let opposite = match req.side {
        Side::Buy => asks,
        Side::Sell => bids,
    };
    law_walk_takes_levels_in_order(
        opposite,
        req.side,
        walk_size(req)->0,
        worst_price(req, p.mid)->0,
        inst.lot.step,
        0,
    );
    let at = walked(opposite, req.side, walk_size(req)->0, worst_price(req, p.mid)->0, inst.lot.step, 0);
    assert forall|j: int| 0 <= j < p.slices.len() implies {
        &&& !worse(req.side, (#[trigger] p.slices[j]).price, worst_price(req, p.mid)->0)
        &&& p.slices[j].qty.value() > 0
        &&& inst.lot.step.value() > 0 ==> p.slices[j].qty.value() % inst.lot.step.value() == 0
    } by {
        assert(0 <= at[j]);
    }
}

/// What slices cost, exactly: prices times quantities, in units of the square of the smallest
/// decimal.
pub open spec fn spent(s: Seq<Slice>) -> int
    decreases s.len(),
{
    if s.len() == 0 {
        0
    } else {
        s[0].qty.value() * s[0].price.value() + spent(s.skip(1))
    }
}

/// Whether no quotient on the way is rounded up and no sum is rounded: what is taken of each level
/// fits into the money that is left, and what is left after it is exact.
pub open spec fn money_is_exact(
    levels: Seq<ShadowLevel>,
    taker: Side,
    n: Decimal,
    limit: Decimal,
    step: Decimal,
    i: int,
) -> bool
    decreases levels.len() - i,
{
    if i >= levels.len() || worse(taker, levels[i].price, limit) {
        true
    } else {
        match level_take(levels[i], Size::Notional(n), step) {
            None => true,
            Some(q) => if q.value() <= 0 {
                !too_small(levels[i], step) || money_is_exact(levels, taker, n, limit, step, i + 1)
            } else {
                match left_after(Size::Notional(n), q, levels[i].price) {
                    Some(Size::Notional(rest)) => {
                        &&& q.value() * levels[i].price.value() <= n.value() * unit()
                        &&& rest.value() * unit() == n.value() * unit() - q.value() * levels[i].price.value()
                        &&& money_is_exact(levels, taker, rest, limit, step, i + 1)
                    },
                    _ => true,
                }
            },
        }
    }
}

proof fn lemma_walk_spends(levels: Seq<ShadowLevel>, taker: Side, n: Decimal, limit: Decimal, step: Decimal, i: int)
    requires
        0 <= i <= levels.len(),
        n.value() >= 0,
        walk_from(levels, taker, Size::Notional(n), limit, step, i) is Some,
        money_is_exact(levels, taker, n, limit, step, i),
    ensures
        spent(walk_from(levels, taker, Size::Notional(n), limit, step, i)->0) <= n.value() * unit(),
    decreases levels.len() - i,
{
    crate::decimal::lemma_unit();
    assert(n.value() * unit() >= 0) by (nonlinear_arith)
        requires
            n.value() >= 0,
            unit() == 10000000000000000000000000000,
    ;
    let s = walk_from(levels, taker, Size::Notional(n), limit, step, i)->0;
    if i < levels.len() && !worse(taker, levels[i].price, limit) {
        let q = level_take(levels[i], Size::Notional(n), step)->0;
        if q.value() > 0 {
            let rest = left_after(Size::Notional(n), q, levels[i].price)->0;
            let r = rest->Notional_0;
            assert(r.value() * unit() >= 0);
            assert(r.value() >= 0) by (nonlinear_arith)
                requires
                    r.value() * unit() >= 0,
                    unit() == 10000000000000000000000000000,
            ;
            lemma_walk_spends(levels, taker, r, limit, step, i + 1);
            let tail = walk_from(levels, taker, rest, limit, step, i + 1)->0;
            let head = Slice { price: levels[i].price, qty: q, real_price: levels[i].real_price };
            assert(s == seq![head] + tail);
            assert(s.skip(1) =~= tail);
        } else if too_small(levels[i], step) {
            lemma_walk_spends(levels, taker, n, limit, step, i + 1);
        }
    }
}

/// A money amount is a budget: what a buy of it takes and what the commission costs stay within
/// it, wherever no quotient is rounded up and no sum is rounded.
pub proof fn law_a_budget_is_kept(
    levels: Seq<ShadowLevel>,
    venue: Venue,
    budget: Decimal,
    x: Decimal,
    limit: Decimal,
    step: Decimal,
    slices: Seq<Slice>,
    qty: Decimal,
    notional: Decimal,
    fee: Decimal,
    tax: Decimal,
)
    requires
        x.value() >= 0,
        walk_from(levels, Side::Buy, Size::Notional(x), limit, step, 0) == Some(slices),
        totals_of(slices) == Some((qty, notional)),
        FeeSchedule::of_venue(venue).charged(Side::Buy, notional, venue.currency().decimals() as int) == Some(
            (fee, tax),
        ),
        money_is_exact(levels, Side::Buy, x, limit, step, 0),
        notional.value() * unit() == spent(slices),
        ({
            let b = FeeSchedule::of_venue(venue).commission_bps.value();
            &&& x.value() * (10_000 * unit() + b) <= budget.value() * (10_000 * unit())
            &&& fee.value() * (10_000 * unit()) <= notional.value() * b
        }),
    ensures
        notional.value() + fee.value() <= budget.value(),
        tax.value() == 0,
{
    broadcast use lemma_dec_parts;

    crate::decimal::lemma_unit();
    lemma_walk_spends(levels, Side::Buy, x, limit, step, 0);
    let n = notional.value();
    let f = fee.value();
    let b = FeeSchedule::of_venue(venue).commission_bps.value();
    let u = unit();
    assert(n <= x.value()) by (nonlinear_arith)
        requires
            n * u <= x.value() * u,
            u == 10000000000000000000000000000,
    ;
    crate::decimal::lemma_value_sign(15, 1);
    crate::decimal::lemma_value_sign(5, 0);
    crate::decimal::lemma_value_sign(10, 0);
    crate::decimal::lemma_value_sign(0, 0);
    assert(b >= 0);
    assert(n + f <= budget.value()) by (nonlinear_arith)
        requires
            n <= x.value(),
            b >= 0,
            u == 10000000000000000000000000000,
            x.value() * (10_000 * u + b) <= budget.value() * (10_000 * u),
            f * (10_000 * u) <= n * b,
    ;
    assert(tax == zero());
}

} // verus!
