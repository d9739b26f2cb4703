//! What an order takes from the book at once: how far from the mid it may go, and how much it gets.
use crate::broker::world::{crossed, sane, shadow_of, World};
use crate::broker::{plan_on, walk_size, worst_price, Liquidity, OrderError, PlanView, RequestView};
use crate::decimal::{
    abs_int, dec, lemma_dec_parts, lemma_pow10_positive, lemma_product_held, lemma_quotient, lemma_rounded,
    lemma_rounded_keeps_sides, lemma_stepped, lemma_sums, lemma_unit, one, parts_value, pow10, product_held, representable,
    unit, valid_parts, zero, Decimal, MAX_MANTISSA,
};
use crate::domain::{Level, Side};
use crate::ledger::PortfolioView;
use crate::sim::{
    decayed, law_walk_takes_levels_in_order, lemma_on_grid, on_grid, quantities_on_grid, shadow_from, taken_value,
    totals_from, totals_of, walk_from, walked, Drift, Resting, ShadowLevel, Size, Slice,
};
use crate::time::Timestamp;
use crate::venue::{InstrumentView, LotRule};
use vstd::arithmetic::div_mod::{lemma_fundamental_div_mod, lemma_fundamental_div_mod_converse};
use vstd::prelude::*;

verus! {

/// Whether decimals hold a mid price, and a twentieth more and less than it.
pub open spec fn near_the_mid(mid: int) -> bool {
    &&& mid % 100 == 0
    &&& representable(mid / 100 * 95)
    &&& representable(mid / 100 * 105)
}

proof fn lemma_bands()
    ensures
        dec(5, 2).value() == 5 * pow10(26),
        one().plus(dec(5, 2)) matches Some(x) ==> x.value() == 105 * pow10(26),
        one().minus(dec(5, 2)) matches Some(x) ==> x.value() == 95 * pow10(26),
        unit() == 100 * pow10(26),
{
    lemma_dec_parts(5, 2);
    lemma_dec_parts(1, 0);
    assert(pow10(28) == 10 * pow10(27) && pow10(27) == 10 * pow10(26));
    lemma_sums(one(), dec(5, 2));
    assert(valid_parts(105, 2) && 105 * pow10(26) == parts_value(105, 2));
    assert(valid_parts(95, 2) && 95 * pow10(26) == parts_value(95, 2));
}

/// How far from the mid an order may go: no further than its limit, and without one a twentieth of the
/// mid, above it for a buy and below it for a sell, up to the eight places of a price.
pub proof fn law_market_orders_go_a_twentieth_from_the_mid(req: RequestView, mid: Decimal)
    requires
        near_the_mid(mid.value()),
    ensures
        req.limit_price is Some ==> worst_price(req, mid) == req.limit_price,
        req.limit_price is None ==> (worst_price(req, mid) matches Some(w) ==> {
            &&& w.valid()
            &&& req.side == Side::Buy ==> 2 * abs_int(100 * w.value() - 105 * mid.value()) <= 100 * pow10(20)
            &&& req.side == Side::Sell ==> 2 * abs_int(100 * w.value() - 95 * mid.value()) <= 100 * pow10(20)
            &&& forall|p: Decimal|
                #![trigger p.value()]
                p.valid() && p.scale() <= 8 ==> {
                    &&& req.side == Side::Buy && 100 * p.value() <= 105 * mid.value() ==> p.value() <= w.value()
                    &&& req.side == Side::Buy && 100 * p.value() >= 105 * mid.value() ==> p.value() >= w.value()
                    &&& req.side == Side::Sell && 100 * p.value() >= 95 * mid.value() ==> p.value() >= w.value()
                    &&& req.side == Side::Sell && 100 * p.value() <= 95 * mid.value() ==> p.value() <= w.value()
                }
        }),
{
    if req.limit_price is None {
        lemma_bands();
        lemma_unit();
        let share: int = match req.side {
            Side::Buy => 105,
            Side::Sell => 95,
        };
        let slip = dec(5, 2);
        let band = match req.side {
            Side::Buy => one().plus(slip),
            Side::Sell => one().minus(slip),
        };
        if let Some(w) = worst_price(req, mid) {
            let b = band->0;
            let g = pow10(26);
            let m = mid.value();
            let n = m / 100 * share;
            lemma_fundamental_div_mod(m, 100);
            assert(m * b.value() == unit() * n) by (nonlinear_arith)
                requires
                    b.value() == share * g,
                    unit() == 100 * g,
                    m == 100 * (m / 100),
                    n == m / 100 * share,
            ;
            lemma_fundamental_div_mod_converse(m * b.value(), unit(), n, 0);
            assert(product_held(mid, b));
            lemma_product_held(mid, b);
            let x = mid.times(b)->0;
            assert(x.value() == n) by (nonlinear_arith)
                requires
                    x.value() * unit() == unit() * n,
                    unit() == 10000000000000000000000000000,
            ;
            assert(100 * n == share * m) by (nonlinear_arith)
                requires
                    m == 100 * (m / 100),
                    n == m / 100 * share,
            ;
            lemma_rounded(x, 8);
            assert forall|p: Decimal|
                #![trigger p.value()]
                p.valid() && p.scale() <= 8 implies {
                &&& req.side == Side::Buy && 100 * p.value() <= 105 * mid.value() ==> p.value() <= w.value()
                &&& req.side == Side::Buy && 100 * p.value() >= 105 * mid.value() ==> p.value() >= w.value()
                &&& req.side == Side::Sell && 100 * p.value() >= 95 * mid.value() ==> p.value() >= w.value()
                &&& req.side == Side::Sell && 100 * p.value() <= 95 * mid.value() ==> p.value() <= w.value()
            } by {
                lemma_rounded_keeps_sides(x, p, 8);
            }
        }
    }
}

/// The greatest multiple of a step that is not above a number.
pub open spec fn whole_steps(v: int, step: int) -> int {
    v / step * step
}

/// Whether a taker with a limit would go for a price: a buyer for one at the limit or below, a seller
/// for one at the limit or above.
pub open spec fn acceptable(taker: Side, price: int, limit: int) -> bool {
    (taker == Side::Buy && price <= limit) || (taker == Side::Sell && price >= limit)
}

/// What levels offer a taker from index `i` on, in whole steps: the best come first, and the first that
/// is not acceptable ends it.
pub open spec fn on_offer(levels: Seq<ShadowLevel>, taker: Side, limit: int, step: int, i: int) -> int
    decreases levels.len() - i,
{
    if 0 <= i < levels.len() && acceptable(taker, levels[i].price.value(), limit) {
        whole_steps(levels[i].qty.value(), step) + on_offer(levels, taker, limit, step, i + 1)
    } else {
        0
    }
}

proof fn lemma_on_offer(levels: Seq<ShadowLevel>, taker: Side, limit: int, step: int, i: int)
    requires
        0 <= i,
        step > 0,
        forall|j: int| 0 <= j < levels.len() ==> (#[trigger] levels[j]).qty.value() > 0,
    ensures
        on_offer(levels, taker, limit, step, i) >= 0,
    decreases levels.len() - i,
{
    if i < levels.len() && acceptable(taker, levels[i].price.value(), limit) {
        lemma_on_offer(levels, taker, limit, step, i + 1);
        lemma_whole_steps(levels[i].qty.value(), 0, step);
    }
}

/// Whole steps of a number, and of what is left when some are taken away.
proof fn lemma_whole_steps(v: int, k: int, step: int)
    requires
        v >= 0,
        step > 0,
    ensures
        0 <= whole_steps(v, step) <= v < whole_steps(v, step) + step,
        v < step ==> whole_steps(v, step) == 0,
        v >= step ==> whole_steps(v, step) >= step,
        whole_steps(v - k * step, step) == whole_steps(v, step) - k * step,
{
    lemma_fundamental_div_mod(v, step);
    let n = v / step;
    assert(n * step == step * n) by (nonlinear_arith);
    assert(n >= 0) by (nonlinear_arith)
        requires
            v >= 0,
            step > 0,
            n == v / step,
    ;
    assert(n * step >= 0) by (nonlinear_arith)
        requires
            n >= 0,
            step > 0,
    ;
    if v < step {
        assert(n == 0) by (nonlinear_arith)
            requires
                n >= 0,
                n * step < step,
                step > 0,
        ;
        assert(n * step == 0) by (nonlinear_arith)
            requires
                n == 0,
        ;
    } else {
        assert(n * step >= step) by (nonlinear_arith)
            requires
                n * step > v - step,
                v >= step,
                step > 0,
                n >= 0,
        ;
    }
    let r = v % step;
    assert(v - k * step == step * (n - k) + r) by (nonlinear_arith)
        requires
            v == step * n + r,
    ;
    lemma_fundamental_div_mod_converse(v - k * step, step, n - k, r);
    assert((n - k) * step == n * step - k * step) by (nonlinear_arith);
}

proof fn lemma_whole_steps_grow(a: int, b: int, step: int)
    requires
        0 <= a <= b,
        step > 0,
    ensures
        whole_steps(a, step) <= whole_steps(b, step),
{
    let i = a / step;
    let j = b / step;
    vstd::arithmetic::div_mod::lemma_div_is_ordered(a, b, step);
    assert(i * step <= j * step) by (nonlinear_arith)
        requires
            i <= j,
            step > 0,
    ;
}

proof fn lemma_taken_in_front(first: Slice, rest: Seq<Slice>)
    ensures
        taken_value(seq![first] + rest) == first.qty.value() + taken_value(rest),
    decreases rest.len(),
{
    let s = seq![first] + rest;
    if rest.len() == 0 {
        assert(s.drop_last() =~= Seq::<Slice>::empty());
        assert(s.last() == first);
        assert(taken_value(s.drop_last()) == 0);
    } else {
        assert(s.drop_last() =~= seq![first] + rest.drop_last());
        assert(s.last() == rest.last());
        lemma_taken_in_front(first, rest.drop_last());
    }
}

/// A walk for a quantity takes all it can: as much as was asked for or as much as is on offer at the
/// limit or better, whichever is less, in whole steps. Decimals of so many places hold the quantities.
pub proof fn law_a_walk_takes_all_it_can(
    levels: Seq<ShadowLevel>,
    taker: Side,
    q: Decimal,
    limit: Decimal,
    step: Decimal,
    places: int,
    i: int,
)
    requires
        0 <= i <= levels.len(),
        step.valid(),
        step.value() > 0,
        step.scale() <= places,
        q.value() >= 0,
        on_grid(q.value(), places),
        quantities_on_grid(levels, places),
        forall|j: int| 0 <= j < levels.len() ==> (#[trigger] levels[j]).qty.value() > 0,
        walk_from(levels, taker, Size::Qty(q), limit, step, i) is Some,
    ensures
        ({
            let got = taken_value(walk_from(levels, taker, Size::Qty(q), limit, step, i)->0);
            let wanted = whole_steps(q.value(), step.value());
            let offer = on_offer(levels, taker, limit.value(), step.value(), i);
            got == if wanted <= offer { wanted } else { offer }
        }),
    decreases levels.len() - i,
{
    let t = step.value();
    let v = q.value();
    let s = walk_from(levels, taker, Size::Qty(q), limit, step, i)->0;
    lemma_whole_steps(v, 0, t);
    lemma_on_offer(levels, taker, limit.value(), t, i);
    if i < levels.len() && acceptable(taker, levels[i].price.value(), limit.value()) {
        let l = levels[i];
        let x = l.qty.lesser(q);
        let took = crate::sim::level_take(l, Size::Qty(q), step)->0;
        lemma_on_offer(levels, taker, limit.value(), t, i + 1);
        lemma_whole_steps(l.qty.value(), 0, t);
        if v > 0 {
            lemma_stepped(x, step);
            lemma_whole_steps(x.value(), 0, t);
            assert(took.value() == whole_steps(x.value(), t));
        }
        if took.value() > 0 {
            let n = x.value() / t;
            assert(on_grid(l.qty.value(), places));
            assert(on_grid(x.value(), places));
            lemma_grid_steps(x.value(), step, places);
            lemma_on_grid(v, took.value(), places);
            lemma_sums(q, took);
            let rest = q.minus(took)->0;
            let tail = walk_from(levels, taker, Size::Qty(rest), limit, step, i + 1)->0;
            let head = Slice { price: l.price, qty: took, real_price: l.real_price };
            assert(s == seq![head] + tail);
            lemma_taken_in_front(head, tail);
            law_a_walk_takes_all_it_can(levels, taker, rest, limit, step, places, i + 1);
            lemma_whole_steps(v, n, t);
            if v < l.qty.value() {
                lemma_whole_steps_grow(v, l.qty.value(), t);
            }
        } else if l.qty.value() < t {
            law_a_walk_takes_all_it_can(levels, taker, q, limit, step, places, i + 1);
        } else {
            assert(v < t);
        }
    }
}

/// Whole steps of a number on a grid are on it, where the step has no more places.
proof fn lemma_grid_steps(v: int, step: Decimal, places: int)
    requires
        step.valid(),
        step.value() > 0,
        step.scale() <= places,
        v >= 0,
        on_grid(v, places),
    ensures
        on_grid(whole_steps(v, step.value()), places),
{
    let t = step.value();
    let g = pow10((28 - places) as nat);
    let w = pow10((places - step.scale()) as nat);
    lemma_pow10_positive((28 - places) as nat);
    crate::decimal::lemma_pow10_add((places - step.scale()) as nat, (28 - places) as nat);
    lemma_whole_steps(v, 0, t);
    let n = v / t;
    let y = n * (step.mantissa() * w);
    assert(n * t == g * y) by (nonlinear_arith)
        requires
            t == step.mantissa() * (w * g),
            y == n * (step.mantissa() * w),
    ;
    lemma_fundamental_div_mod_converse(n * t, g, y, 0);
    assert(-MAX_MANTISSA * g <= 0) by (nonlinear_arith)
        requires
            g > 0,
    ;
}

/// A market order, or a limit order whose limit reaches the best price, gets its share of what is on
/// offer at once: as much as it asks for or as much as is offered at its limit or, for a market order,
/// within a twentieth of the mid, whichever is less.
pub proof fn law_orders_take_what_is_on_offer(
    bids: Seq<ShadowLevel>,
    asks: Seq<ShadowLevel>,
    lot: LotRule,
    pf: PortfolioView,
    req: RequestView,
    p: PlanView,
    places: int,
)
    requires
        plan_on(bids, asks, lot, pf, req) == Ok::<PlanView, OrderError<Seq<char>>>(p),
        req.size is Qty,
        req.size->Qty_0.value() > 0,
        near_the_mid(p.mid.value()),
        lot.step.valid(),
        lot.step.value() > 0,
        lot.step.scale() <= places,
        on_grid(req.size->Qty_0.value(), places),
        quantities_on_grid(bids, places),
        quantities_on_grid(asks, places),
        forall|j: int| 0 <= j < bids.len() ==> (#[trigger] bids[j]).qty.value() > 0,
        forall|j: int| 0 <= j < asks.len() ==> (#[trigger] asks[j]).qty.value() > 0,
        representable(bids[0].price.value() + asks[0].price.value()),
        (bids[0].price.value() + asks[0].price.value()) % 2 == 0,
        representable((bids[0].price.value() + asks[0].price.value()) / 2),
    ensures
        2 * p.mid.value() == bids[0].price.value() + asks[0].price.value(),
        ({
            let levels = match req.side {
                Side::Buy => asks,
                Side::Sell => bids,
            };
            let best = levels[0].price;
            let wanted = whole_steps(req.size->Qty_0.value(), lot.step.value());
            let limit = worst_price(req, p.mid)->0.value();
            let offer = on_offer(levels, req.side, limit, lot.step.value(), 0);
            let near = match req.limit_price {
                Some(l) => acceptable(req.side, best.value(), l.value()),
                None => best.valid() && best.scale() <= 8 && match req.side {
                    Side::Buy => 100 * best.value() <= 105 * p.mid.value(),
                    Side::Sell => 100 * best.value() >= 95 * p.mid.value(),
                },
            };
            &&& taken_value(p.slices) == if wanted <= offer { wanted } else { offer }
            &&& near && levels[0].qty.value() >= lot.step.value() && req.size->Qty_0.value() >= lot.step.value() ==> {
                &&& p.slices.len() > 0
                &&& p.slices[0].price == best
                &&& p.slices[0].qty.value() == whole_steps(
                    if levels[0].qty.value() <= req.size->Qty_0.value() {
                        levels[0].qty.value()
                    } else {
                        req.size->Qty_0.value()
                    },
                    lot.step.value(),
                )
                &&& p.slices[0].qty.value() >= lot.step.value()
            }
        }),
{
    let levels = match req.side {
        Side::Buy => asks,
        Side::Sell => bids,
    };
    let q = req.size->Qty_0;
    lemma_mid(bids[0].price, asks[0].price);
    law_market_orders_go_a_twentieth_from_the_mid(req, p.mid);
    let limit = worst_price(req, p.mid)->0;
    assert(walk_size(req) == Some(req.size));
    law_a_walk_takes_all_it_can(levels, req.side, q, limit, lot.step, places, 0);
    let best = levels[0];
    let t = lot.step.value();
    let x = best.qty.lesser(q);
    lemma_whole_steps(x.value(), 0, t);
    assert(best.price.value() == levels[0].price.value());
    if acceptable(req.side, best.price.value(), limit.value()) && x.value() >= t {
        let took = crate::sim::level_take(best, Size::Qty(q), lot.step)->0;
        lemma_stepped(x, lot.step);
        assert(took.value() == whole_steps(x.value(), t));
        let rest = q.minus(took)->0;
        let tail = walk_from(levels, req.side, Size::Qty(rest), limit, lot.step, 1)->0;
        let head = Slice { price: best.price, qty: took, real_price: best.real_price };
        assert(p.slices == seq![head] + tail);
    }
}

/// Half way between two prices.
pub proof fn lemma_mid(bid: Decimal, ask: Decimal)
    requires
        representable(bid.value() + ask.value()),
        (bid.value() + ask.value()) % 2 == 0,
        representable((bid.value() + ask.value()) / 2),
    ensures
        crate::broker::mid_of(bid, ask) matches Some(m) ==> m.valid() && 2 * m.value() == bid.value() + ask.value(),
{
    lemma_sums(bid, ask);
    if let Some(sum) = bid.plus(ask) {
        lemma_dec_parts(2, 0);
        lemma_unit();
        let two = dec(2, 0);
        let v = sum.value();
        let h = v / 2;
        lemma_quotient(sum, two);
        assert(v * unit() == two.value() * h) by (nonlinear_arith)
            requires
                two.value() == 2 * unit(),
                v == 2 * h,
        ;
        lemma_fundamental_div_mod_converse(v * unit(), two.value(), h, 0);
    }
}

/// What slices are worth, exactly: prices times quantities.
pub open spec fn worth(s: Seq<Slice>) -> int
    decreases s.len(),
{
    if s.len() == 0 {
        0
    } else {
        worth(s.drop_last()) + s.last().qty.value() * s.last().price.value()
    }
}

/// Whether decimals of so many places hold each quantity, each worth and both totals of slices.
pub open spec fn totals_held(s: Seq<Slice>, places: int, value_places: int) -> bool {
    &&& on_grid(taken_value(s), places)
    &&& on_grid(worth(s) / unit(), value_places)
    &&& forall|j: int|
        0 <= j < s.len() ==> {
            &&& (#[trigger] s[j]).qty.value() >= 0
            &&& s[j].price.value() >= 0
            &&& on_grid(s[j].qty.value(), places)
            &&& (s[j].qty.value() * s[j].price.value()) % unit() == 0
            &&& on_grid(s[j].qty.value() * s[j].price.value() / unit(), value_places)
        }
}

/// The totals of slices are their quantities added up, and their quantities times their prices added
/// up.
pub proof fn law_totals_add_up(s: Seq<Slice>, places: int, value_places: int)
    requires
        totals_held(s, places, value_places),
    ensures
        totals_of(s) matches Some((qty, notional)) ==> qty.value() == taken_value(s) && notional.value() * unit()
            == worth(s),
{
    lemma_dec_parts(0, 0);
    assert(s.take(0) =~= Seq::<Slice>::empty());
    lemma_totals_from(s, 0, zero(), zero(), places, value_places);
}

proof fn lemma_parts_of_total(s: Seq<Slice>, i: int)
    requires
        0 <= i <= s.len(),
        forall|j: int|
            0 <= j < s.len() ==> (#[trigger] s[j]).qty.value() >= 0 && s[j].price.value() >= 0 && (s[j].qty.value()
                * s[j].price.value()) % unit() == 0,
    ensures
        0 <= taken_value(s.take(i)) <= taken_value(s),
        0 <= worth(s.take(i)) <= worth(s),
        worth(s.take(i)) % unit() == 0,
        i < s.len() ==> taken_value(s.take(i + 1)) == taken_value(s.take(i)) + s[i].qty.value(),
        i < s.len() ==> worth(s.take(i + 1)) == worth(s.take(i)) + s[i].qty.value() * s[i].price.value(),
    decreases s.len() - i,
{
    lemma_unit();
    lemma_not_negative(s, i);
    if i < s.len() {
        lemma_parts_of_total(s, i + 1);
        assert(s.take(i + 1).drop_last() =~= s.take(i));
        assert(s[i].qty.value() * s[i].price.value() >= 0) by (nonlinear_arith)
            requires
                s[i].qty.value() >= 0,
                s[i].price.value() >= 0,
        ;
    } else {
        assert(s.take(i) =~= s);
    }
}

proof fn lemma_not_negative(s: Seq<Slice>, i: int)
    requires
        0 <= i <= s.len(),
        forall|j: int|
            0 <= j < s.len() ==> (#[trigger] s[j]).qty.value() >= 0 && s[j].price.value() >= 0 && (s[j].qty.value()
                * s[j].price.value()) % unit() == 0,
    ensures
        0 <= taken_value(s.take(i)),
        0 <= worth(s.take(i)),
        worth(s.take(i)) % unit() == 0,
    decreases i,
{
    lemma_unit();
    if i > 0 {
        lemma_not_negative(s, i - 1);
        assert(s.take(i).drop_last() =~= s.take(i - 1));
        assert(s.take(i).last() == s[i - 1]);
        assert(s[i - 1].qty.value() * s[i - 1].price.value() >= 0) by (nonlinear_arith)
            requires
                s[i - 1].qty.value() >= 0,
                s[i - 1].price.value() >= 0,
        ;
    }
}

proof fn lemma_totals_from(s: Seq<Slice>, i: int, qty: Decimal, notional: Decimal, places: int, value_places: int)
    requires
        0 <= i <= s.len(),
        totals_held(s, places, value_places),
        qty.value() == taken_value(s.take(i)),
        notional.value() * unit() == worth(s.take(i)),
        on_grid(qty.value(), places),
        on_grid(notional.value(), value_places),
    ensures
        totals_from(s, i, qty, notional) matches Some((q, n)) ==> q.value() == taken_value(s) && n.value() * unit()
            == worth(s),
    decreases s.len() - i,
{
    lemma_unit();
    let u = unit();
    if i < s.len() {
        lemma_parts_of_total(s, i);
        lemma_parts_of_total(s, i + 1);
        let a = s[i].qty;
        let b = s[i].price;
        let x = a.value() * b.value();
        lemma_fundamental_div_mod(x, u);
        let v = x / u;
        lemma_on_grid(v, v, value_places);
        lemma_product_held(a, b);
        lemma_grid_sum(qty.value(), a.value(), taken_value(s), places);
        let total = worth(s) / u;
        lemma_parts_of_total(s, s.len() as int);
        assert(s.take(s.len() as int) =~= s);
        lemma_fundamental_div_mod(worth(s), u);
        assert(x >= 0) by (nonlinear_arith)
            requires
                x == a.value() * b.value(),
                a.value() >= 0,
                b.value() >= 0,
        ;
        assert(v >= 0 && notional.value() >= 0 && notional.value() + v <= total) by (nonlinear_arith)
            requires
                x == u * v,
                x >= 0,
                notional.value() * u >= 0,
                notional.value() * u + x <= u * total,
                u == 10000000000000000000000000000,
        ;
        lemma_grid_sum(notional.value(), v, total, value_places);
        if let Some(y) = a.times(b) {
            assert(y.value() == v) by (nonlinear_arith)
                requires
                    y.value() * u == u * v,
                    u == 10000000000000000000000000000,
            ;
            lemma_sums(qty, a);
            lemma_sums(notional, y);
            if let (Some(q2), Some(n2)) = (qty.plus(a), notional.plus(y)) {
                assert(n2.value() * u == notional.value() * u + x) by (nonlinear_arith)
                    requires
                        n2.value() == notional.value() + v,
                        x == u * v,
                ;
                lemma_totals_from(s, i + 1, q2, n2, places, value_places);
            }
        }
    } else {
        assert(s.take(i) =~= s);
    }
}

/// A sum of two numbers on a grid is on it, if it is not above one that is.
proof fn lemma_grid_sum(a: int, b: int, top: int, places: int)
    requires
        on_grid(a, places),
        on_grid(b, places),
        on_grid(top, places),
        0 <= a,
        0 <= b,
        a + b <= top,
    ensures
        on_grid(a + b, places),
        representable(a + b),
{
    let g = pow10((28 - places) as nat);
    lemma_pow10_positive((28 - places) as nat);
    lemma_fundamental_div_mod(a, g);
    lemma_fundamental_div_mod(b, g);
    let i = a / g;
    let j = b / g;
    assert(a + b == g * (i + j)) by (nonlinear_arith)
        requires
            a == g * i,
            b == g * j,
    ;
    lemma_fundamental_div_mod_converse(a + b, g, i + j, 0);
    assert(-MAX_MANTISSA * g <= 0) by (nonlinear_arith)
        requires
            g > 0,
    ;
    lemma_on_grid(a + b, a + b, places);
}

/// What slices within a limit are worth: no more than their quantity at the limit for a buyer, and no less
/// for a seller. Slices of something come to something.
proof fn lemma_worth_within(s: Seq<Slice>, taker: Side, limit: int)
    requires
        forall|j: int|
            0 <= j < s.len() ==> (#[trigger] s[j]).qty.value() > 0 && acceptable(taker, s[j].price.value(), limit),
    ensures
        taken_value(s) >= 0,
        s.len() > 0 ==> taken_value(s) > 0,
        taker == Side::Buy ==> worth(s) <= taken_value(s) * limit,
        taker == Side::Sell ==> worth(s) >= taken_value(s) * limit,
    decreases s.len(),
{
    if s.len() > 0 {
        let rest = s.drop_last();
        assert forall|j: int| 0 <= j < rest.len() implies (#[trigger] rest[j]).qty.value() > 0 && acceptable(
            taker,
            rest[j].price.value(),
            limit,
        ) by {
            assert(rest[j] == s[j]);
        }
        lemma_worth_within(rest, taker, limit);
        let q = s.last().qty.value();
        let p = s.last().price.value();
        assert(s.last() == s[s.len() - 1]);
        let t = taken_value(rest);
        assert(p <= limit ==> q * p <= q * limit) by (nonlinear_arith)
            requires
                q > 0,
        ;
        assert(p >= limit ==> q * p >= q * limit) by (nonlinear_arith)
            requires
                q > 0,
        ;
        assert((t + q) * limit == t * limit + q * limit) by (nonlinear_arith);
    }
}

/// The levels of the shadow book that a side takes from: a buyer the asks, a seller the bids.
pub open spec fn facing(w: World, inst: InstrumentView, side: Side, now: Timestamp, drift: Drift) -> Seq<ShadowLevel> {
    let sh = decayed(shadow_of(w, inst.id), now, drift)->0;
    match side {
        Side::Buy => shadow_from(sh, w.books[inst.id].asks, Side::Sell, inst.tick, 0)->0,
        Side::Sell => shadow_from(sh, w.books[inst.id].bids, Side::Buy, inst.tick, 0)->0,
    }
}

/// Whether every level holds something.
pub open spec fn all_positive(levels: Seq<ShadowLevel>) -> bool {
    forall|j: int| 0 <= j < levels.len() ==> (#[trigger] levels[j]).qty.value() > 0
}

/// What a new book does to a resting order: a buy takes from the asks and a sell from the bids, as a taker,
/// as much as is left of it or as is on offer at its limit or better, whichever is less, and at the book's
/// prices, so never worse than its limit. What it takes comes off what is left of it. An order that gets
/// nothing stays as it is. Decimals of so many places hold the quantities and the values.
pub proof fn law_a_book_fills_what_it_crosses(
    w: World,
    inst: InstrumentView,
    r: Resting,
    now: Timestamp,
    drift: Drift,
    places: int,
    value_places: int,
)
    requires
        crossed(w, inst, r, now, drift) is Ok,
        inst.lot.step.valid(),
        inst.lot.step.value() > 0,
        inst.lot.step.scale() <= places,
        r.remaining.value() >= 0,
        on_grid(r.remaining.value(), places),
        ({
            let levels = facing(w, inst, r.side, now, drift);
            &&& quantities_on_grid(levels, places)
            &&& all_positive(levels)
            &&& walk_from(levels, r.side, Size::Qty(r.remaining), r.price, inst.lot.step, 0) matches Some(s) ==> totals_held(
                s,
                places,
                value_places,
            )
        }),
    ensures
        ({
            let levels = facing(w, inst, r.side, now, drift);
            let wanted = whole_steps(r.remaining.value(), inst.lot.step.value());
            let offer = on_offer(levels, r.side, r.price.value(), inst.lot.step.value(), 0);
            let got = if wanted <= offer {
                wanted
            } else {
                offer
            };
            let (after, left, fill) = crossed(w, inst, r, now, drift)->Ok_0;
            &&& fill is Some <==> got > 0
            &&& fill is None ==> left == r
            &&& left.remaining.value() == r.remaining.value() - got
            &&& left.price == r.price && left.side == r.side && left.order_id == r.order_id && left.queue_ahead
                == r.queue_ahead
            &&& fill matches Some(f) ==> {
                &&& f.qty.value() == got
                &&& f.liquidity == Liquidity::Taker
                &&& r.side == Side::Buy ==> f.notional.value() * unit() <= got * r.price.value()
                &&& r.side == Side::Sell ==> f.notional.value() * unit() >= got * r.price.value()
            }
        }),
{
    let levels = facing(w, inst, r.side, now, drift);
    let step = inst.lot.step;
    let s = walk_from(levels, r.side, Size::Qty(r.remaining), r.price, step, 0)->0;
    law_a_walk_takes_all_it_can(levels, r.side, r.remaining, r.price, step, places, 0);
    law_walk_takes_levels_in_order(levels, r.side, Size::Qty(r.remaining), r.price, step, 0);
    let at = walked(levels, r.side, Size::Qty(r.remaining), r.price, step, 0);
    assert forall|j: int| 0 <= j < s.len() implies (#[trigger] s[j]).qty.value() > 0 && acceptable(
        r.side,
        s[j].price.value(),
        r.price.value(),
    ) by {
        assert(0 <= at[j]);
    }
    lemma_worth_within(s, r.side, r.price.value());
    law_totals_add_up(s, places, value_places);
    lemma_whole_steps(r.remaining.value(), 0, step.value());
    if s.len() > 0 {
        let (qty, _) = totals_of(s)->0;
        lemma_on_grid(r.remaining.value(), qty.value(), places);
        lemma_sums(r.remaining, qty);
    }
}

/// Only the levels of a book that make sense are kept, in their order: those with a positive price and a
/// positive quantity.
pub proof fn law_senseless_levels_are_dropped(levels: Seq<Level>)
    ensures
        sane(levels) == levels.filter(|l: Level| l.price.value() > 0 && l.qty.value() > 0),
    decreases levels.len(),
{
    reveal(Seq::filter);
    let good = |l: Level| l.price.value() > 0 && l.qty.value() > 0;
    if levels.len() > 0 {
        law_senseless_levels_are_dropped(levels.drop_last());
        assert(levels.filter(good) =~= if good(levels.last()) {
            levels.drop_last().filter(good).push(levels.last())
        } else {
            levels.drop_last().filter(good)
        });
    } else {
        assert(levels.filter(good) =~= levels);
    }
}

} // verus!
