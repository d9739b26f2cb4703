//! What an order costs, promises and brings, in numbers.
use crate::broker::world::{
    admitted, converted, due, estimated, fill_recorded, live, placed, prepared, resting_filled, resting_in, with_resting, World,
};
use crate::broker::{
    queue_from, reserve_for, unit_price, walk_size, Conversion, Liquidity, OrderError, OrderStatus, OrderType, OrderView, PlanView,
    RequestView, Tif,
};
use crate::decimal::{
    abs_int, dec, lemma_dec_parts, lemma_exact_quotient, lemma_hundredfold, lemma_magnitude, lemma_pow10_positive, lemma_product,
    lemma_product_held, lemma_quotient, lemma_rounded, lemma_sums, lemma_times_whole, lemma_truncated_value, lemma_unit,
    max_int, one, parts_value, pow10, product_held, representable, unit, valid_parts, zero, Decimal, MAX_MANTISSA,
};
use crate::domain::{Currency, Side, Venue};
use crate::ledger::{amount_of, position_of, PortfolioView};
use crate::sim::{Drift, Resting, ShadowLevel, Size};
use crate::time::Timestamp;
use crate::venue::{band, fee_rate, open_at, FeeSchedule};
use vstd::arithmetic::div_mod::{lemma_fundamental_div_mod, lemma_fundamental_div_mod_converse};
use vstd::prelude::*;

verus! {

/// A commission as a share of a value, and on top of it, as decimals.
proof fn lemma_commission(venue: Venue)
    ensures
        FeeSchedule::of_venue(venue).commission_bps.value() == fee_rate(venue, Side::Buy) * pow10(25),
        FeeSchedule::of_venue(venue).commission_bps.over(dec(10_000, 0)) matches Some(x) ==> x.value() == fee_rate(
            venue,
            Side::Buy,
        ) * pow10(21) && (one().plus(x) matches Some(y) ==> y.value() == (10_000_000 + fee_rate(venue, Side::Buy))
            * pow10(21)),
        dec(10_000, 0).plus(FeeSchedule::of_venue(venue).commission_bps) matches Some(y) ==> y.value() == (10_000_000
            + fee_rate(venue, Side::Buy)) * pow10(25),
        unit() == 10_000_000 * pow10(21),
        unit() == 1_000 * pow10(25),
{
    let b = FeeSchedule::of_venue(venue).commission_bps;
    let r = fee_rate(venue, Side::Buy);
    lemma_dec_parts(15, 1);
    lemma_dec_parts(0, 0);
    lemma_dec_parts(5, 0);
    lemma_dec_parts(10, 0);
    lemma_dec_parts(10_000, 0);
    lemma_dec_parts(1, 0);
    assert(pow10(28) == 10 * pow10(27) && pow10(27) == 10 * pow10(26) && pow10(26) == 10 * pow10(25));
    assert(pow10(25) == 10 * pow10(24) && pow10(24) == 10 * pow10(23) && pow10(23) == 10 * pow10(22) && pow10(22) == 10
        * pow10(21));
    assert(b.value() == r * pow10(25));
    let n = r * pow10(21);
    let d = dec(10_000, 0);
    assert(b.value() * unit() == d.value() * n) by (nonlinear_arith)
        requires
            b.value() == r * pow10(25),
            pow10(25) == 10_000 * pow10(21),
            d.value() == 10_000 * unit(),
            n == r * pow10(21),
    ;
    assert(valid_parts(r, 7) && n == parts_value(r, 7));
    lemma_unit();
    lemma_exact_quotient(b, d, n);
    if let Some(x) = b.over(d) {
        let t = 10_000_000 + r;
        assert(one().value() + x.value() == t * pow10(21)) by (nonlinear_arith)
            requires
                one().value() == 10_000_000 * pow10(21),
                x.value() == r * pow10(21),
                t == 10_000_000 + r,
        ;
        assert(valid_parts(t, 7) && t * pow10(21) == parts_value(t, 7));
        lemma_sums(one(), x);
    }
    let t = 10_000_000 + r;
    assert(d.value() + b.value() == t * pow10(25)) by (nonlinear_arith)
        requires
            d.value() == 10_000_000 * pow10(25),
            b.value() == r * pow10(25),
            t == 10_000_000 + r,
    ;
    assert(valid_parts(t, 3) && t * pow10(25) == parts_value(t, 3));
    lemma_sums(d, b);
}

/// What is promised to a resting buy is its quantity at its limit, and the commission on top; wherever
/// decimals hold the products.
pub proof fn law_a_buy_promises_its_limit_and_commission(limit: Decimal, venue: Venue, qty: Decimal)
    requires
        ({
            let r = 10_000_000 + fee_rate(venue, Side::Buy);
            &&& (limit.value() * r) % 10_000_000 == 0
            &&& representable(limit.value() * r / 10_000_000)
            &&& (limit.value() * r / 10_000_000 * qty.value()) % unit() == 0
            &&& representable(limit.value() * r / 10_000_000 * qty.value() / unit())
        }),
    ensures
        reserve_for(limit, venue, qty) matches Some(x) ==> x.value() * unit() * 10_000_000 == limit.value() * qty.value()
            * (10_000_000 + fee_rate(venue, Side::Buy)),
{
    lemma_commission(venue);
    lemma_unit();
    let r = 10_000_000 + fee_rate(venue, Side::Buy);
    let g = pow10(21);
    let u = unit();
    if let Some(x) = reserve_for(limit, venue, qty) {
        let share = FeeSchedule::of_venue(venue).commission_bps.over(dec(10_000, 0))->0;
        let factor = one().plus(share)->0;
        let l = limit.value();
        let t = l * r / 10_000_000;
        lemma_fundamental_div_mod(l * r, 10_000_000);
        assert(l * factor.value() == u * t) by (nonlinear_arith)
            requires
                factor.value() == r * g,
                u == 10_000_000 * g,
                l * r == 10_000_000 * t,
        ;
        lemma_fundamental_div_mod_converse(l * factor.value(), u, t, 0);
        lemma_product(limit, factor);
        let per = limit.times(factor)->0;
        assert(per.value() == t);
        lemma_product_held(per, qty);
        assert(x.value() * u * 10_000_000 == l * qty.value() * r) by (nonlinear_arith)
            requires
                x.value() * u == t * qty.value(),
                l * r == 10_000_000 * t,
        ;
    }
}

/// A money amount leaves room for the commission: what the book is walked for, with the commission on top,
/// is the amount, up to the last places of a decimal. A quantity is walked for as it is.
pub proof fn law_a_money_amount_leaves_room_for_the_commission(req: RequestView)
    requires
        req.size matches Size::Notional(n) ==> n.valid() && representable(n.value() * 10_000),
    ensures
        req.size is Qty ==> walk_size(req) == Some(req.size),
        req.size matches Size::Notional(n) ==> (walk_size(req) matches Some(s) ==> {
            let r = 10_000_000 + fee_rate(req.instrument.0, Side::Buy);
            &&& s is Notional
            &&& abs_int((s->Notional_0.value() * r - n.value() * 10_000_000) * pow10(25)) <= max_int(
                10_000 * abs_int(n.value()),
                r * pow10(25),
            )
        }),
{
    if let Size::Notional(n) = req.size {
        let venue = req.instrument.0;
        lemma_commission(venue);
        lemma_unit();
        lemma_times_whole(n, 10_000);
        lemma_pow10_positive(25);
        let r = 10_000_000 + fee_rate(venue, Side::Buy);
        let g = pow10(25);
        if let Some(s) = walk_size(req) {
            let top = n.times(dec(10_000, 0))->0;
            let bottom = dec(10_000, 0).plus(FeeSchedule::of_venue(venue).commission_bps)->0;
            assert(bottom.value() > 0) by (nonlinear_arith)
                requires
                    bottom.value() == r * g,
                    r > 0,
                    g > 0,
            ;
            lemma_quotient(top, bottom);
            let x = s->Notional_0;
            let u = unit();
            assert(x.value() * bottom.value() - top.value() * u == (x.value() * r - n.value() * 10_000_000) * g)
                by (nonlinear_arith)
                requires
                    bottom.value() == r * g,
                    top.value() == n.value() * 10_000,
                    u == 1_000 * g,
            ;
            assert(abs_int(top.value()) == 10_000 * abs_int(n.value()));
        }
    }
}

/// What stands at a price among levels, exactly.
pub open spec fn standing_at(levels: Seq<ShadowLevel>, price: int) -> int
    decreases levels.len(),
{
    if levels.len() == 0 {
        0
    } else {
        standing_at(levels.drop_last(), price) + if levels.last().price.value() == price {
            levels.last().qty.value()
        } else {
            0
        }
    }
}

/// The queue ahead of a limit order is what stands at its limit on its own side, and there is none ahead
/// of an order without a limit; wherever decimals hold the sums.
pub proof fn law_the_queue_is_what_stands_at_the_limit(levels: Seq<ShadowLevel>, limit: Option<Decimal>)
    requires
        limit matches Some(p) ==> forall|k: int|
            0 <= k <= levels.len() ==> representable(#[trigger] standing_at(levels.take(k), p.value())),
    ensures
        queue_from(levels, limit, 0, zero()) matches Some(q) ==> q.value() == match limit {
            Some(p) => standing_at(levels, p.value()),
            None => 0,
        },
{
    lemma_dec_parts(0, 0);
    assert(levels.take(0) =~= Seq::<ShadowLevel>::empty());
    lemma_queue(levels, limit, 0, zero());
}

proof fn lemma_queue(levels: Seq<ShadowLevel>, limit: Option<Decimal>, i: int, sum: Decimal)
    requires
        0 <= i <= levels.len(),
        limit matches Some(p) ==> (forall|k: int|
            0 <= k <= levels.len() ==> representable(#[trigger] standing_at(levels.take(k), p.value()))) && sum.value()
            == standing_at(levels.take(i), p.value()),
        limit is None ==> sum.value() == 0,
    ensures
        queue_from(levels, limit, i, sum) matches Some(q) ==> q.value() == match limit {
            Some(p) => standing_at(levels, p.value()),
            None => 0,
        },
    decreases levels.len() - i,
{
    if i < levels.len() {
        assert(levels.take(i + 1).drop_last() =~= levels.take(i));
        assert(levels.take(i + 1).last() == levels[i]);
        if limit is Some {
            assert(representable(standing_at(levels.take(i + 1), limit->0.value())));
            lemma_sums(sum, levels[i].qty);
        }
        if limit is Some && levels[i].price.value() == limit->0.value() {
            if let Some(s) = sum.plus(levels[i].qty) {
                lemma_queue(levels, limit, i + 1, s);
            }
        } else {
            lemma_queue(levels, limit, i + 1, sum);
        }
    } else {
        assert(levels.take(i) =~= levels);
    }
}

/// A fill says what was filled, and its order adds it up: quantity and value come on top of what had
/// filled before, and the price is the value per unit, to eight places. Decimals hold the sums.
pub proof fn law_fills_are_recorded(
    pf: PortfolioView,
    order: OrderView,
    qty: Decimal,
    notional: Decimal,
    liquidity: Liquidity,
    now: Timestamp,
)
    requires
        qty.value() > 0,
        representable(order.filled_qty.value() + qty.value()),
        representable(order.filled_notional.value() + notional.value()),
    ensures
        fill_recorded(pf, order, qty, notional, liquidity, now) matches Ok((_, after, fill)) ==> {
            &&& after.filled_qty.value() == order.filled_qty.value() + qty.value()
            &&& after.filled_notional.value() == order.filled_notional.value() + notional.value()
            &&& after.id == order.id && after.account == order.account && after.req == order.req && after.status
                == order.status && after.created_at == order.created_at
            &&& fill.order_id == order.id && fill.account == order.account && fill.instrument == order.req.instrument
                && fill.side == order.req.side
            &&& fill.qty == qty && fill.notional == notional && fill.liquidity == liquidity && fill.at == now
            &&& abs_int(2 * (fill.price.value() * qty.value() - notional.value() * unit())) <= qty.value() * pow10(20)
                + 2 * max_int(abs_int(notional.value()), qty.value())
            &&& FeeSchedule::of_venue(order.req.instrument.0).charged(
                order.req.side,
                notional,
                order.req.instrument.0.currency().decimals() as int,
            ) == Some((fill.fee, fill.tax))
            &&& (fill.realized_pnl is Some <==> order.req.side == Side::Sell)
        },
{
    lemma_sums(order.filled_qty, qty);
    lemma_sums(order.filled_notional, notional);
    if fill_recorded(pf, order, qty, notional, liquidity, now) is Ok {
        lemma_unit_price(notional, qty);
    }
}

/// A value per unit, times the units, is the value, up to the eight places of a price.
pub proof fn lemma_unit_price(notional: Decimal, qty: Decimal)
    requires
        qty.value() > 0,
    ensures
        unit_price(notional, qty) matches Some(p) ==> p.valid() && abs_int(
            2 * (p.value() * qty.value() - notional.value() * unit()),
        ) <= qty.value() * pow10(20) + 2 * max_int(abs_int(notional.value()), qty.value()),
{
    lemma_quotient(notional, qty);
    if let Some(q) = notional.over(qty) {
        lemma_rounded(q, 8);
        let a = q.rounded(8).value();
        let v = q.value();
        let t = qty.value();
        let x = notional.value() * unit();
        let g = pow10(20);
        let c = max_int(abs_int(notional.value()), t);
        assert(abs_int(2 * (a * t - x)) <= t * g + 2 * c) by (nonlinear_arith)
            requires
                -g <= 2 * (a - v) <= g,
                -c <= v * t - x <= c,
                t > 0,
        ;
    }
}

/// The slippage of an estimate is how far its average price is from the mid, in basis points, either way,
/// to two places. Decimals hold the distance.
pub proof fn law_slippage_is_the_distance_from_the_mid(p: PlanView)
    requires
        p.qty.value() > 0,
        p.mid.value() > 0,
        estimated(p) is Ok,
        ({
            let avg = estimated(p)->Ok_0.avg_price->0;
            &&& representable(avg.value() - p.mid.value())
            &&& abs_int(avg.value() - p.mid.value()) <= p.mid.value() * pow10(20)
        }),
    ensures
        ({
            let e = estimated(p)->Ok_0;
            let m = p.mid.value();
            let off = abs_int(e.avg_price->0.value() - m);
            &&& e.filled_qty == p.qty && e.notional == p.notional && e.fee == p.fee && e.tax == p.tax && e.rest_qty
                == p.rest_qty
            &&& e.avg_price is Some
            &&& abs_int(2 * (e.avg_price->0.value() * p.qty.value() - p.notional.value() * unit())) <= p.qty.value()
                * pow10(20) + 2 * max_int(abs_int(p.notional.value()), p.qty.value())
            &&& abs_int(2 * e.slippage_bps.value() * m - 2 * (10_000 * off * unit())) <= m * pow10(26) + 20_000 * max_int(
                off,
                m,
            )
        }),
{
    let e = estimated(p)->Ok_0;
    let avg = e.avg_price->0;
    let m = p.mid.value();
    let u = unit();
    lemma_unit_price(p.notional, p.qty);
    lemma_sums(avg, p.mid);
    let d = avg.minus(p.mid)->0;
    lemma_quotient(d, p.mid);
    let q = d.over(p.mid)->0;
    lemma_unit();
    reveal_with_fuel(pow10, 21);
    let a = d.value();
    let v = q.value();
    let c = max_int(abs_int(a), m);
    assert(m <= m * pow10(20)) by (nonlinear_arith)
        requires
            m > 0,
            pow10(20) == 100000000000000000000,
    ;
    assert(abs_int(v) * m <= abs_int(a) * u + c) by (nonlinear_arith)
        requires
            abs_int(v * m - a * u) <= c,
            m > 0,
            u == 10000000000000000000000000000,
    ;
    assert(10_000 * abs_int(v) <= MAX_MANTISSA * u) by (nonlinear_arith)
        requires
            abs_int(v) * m <= abs_int(a) * u + c,
            c <= m * pow10(20),
            abs_int(a) <= m * pow10(20),
            pow10(20) == 100000000000000000000,
            u == 10000000000000000000000000000,
            m > 0,
    ;
    lemma_ten_thousandfold(q);
    let x = q.times(dec(10_000, 0))->0;
    lemma_magnitude(x);
    lemma_dec_parts(abs_int(x.mantissa()), x.scale());
    let y = x.magnitude();
    assert(y.valid());
    lemma_rounded(y, 2);
    let s = y.rounded(2).value();
    let w = abs_int(x.value());
    let off = abs_int(a);
    let g = pow10(26);
    assert(abs_int(w * m - 10_000 * off * u) <= 10_000 * c) by (nonlinear_arith)
        requires
            -c <= v * m - a * u <= c,
            w == abs_int(v * 10_000),
            off == abs_int(a),
            m > 0,
            u == 10000000000000000000000000000,
    ;
    assert(abs_int(2 * s * m - 2 * (10_000 * off * u)) <= m * g + 20_000 * c) by (nonlinear_arith)
        requires
            -g <= 2 * (s - w) <= g,
            -(10_000 * c) <= w * m - 10_000 * off * u <= 10_000 * c,
            m > 0,
    ;
}

/// Ten thousand times a number of moderate size.
proof fn lemma_ten_thousandfold(a: Decimal)
    requires
        a.valid(),
        10_000 * abs_int(a.value()) <= MAX_MANTISSA * unit(),
    ensures
        a.times(dec(10_000, 0)) matches Some(x) ==> x.valid() && x.value() == a.value() * 10_000,
{
    lemma_hundredfold(a);
    let (m, s) = choose|m: int, s: int| #[trigger] valid_parts(m, s) && a.value() * 100 == parts_value(m, s);
    lemma_dec_parts(m, s);
    lemma_hundredfold(dec(m, s));
    lemma_times_whole(a, 10_000);
}

/// Won per unit of a currency.
pub open spec fn won_for(c: Currency, usd_krw: Decimal) -> int {
    if c == Currency::Krw {
        unit()
    } else {
        usd_krw.value()
    }
}

/// A conversion brings what an amount is worth in the other currency at the rate, less the spread, cut off
/// at the minor unit: that much goes into one balance and the amount goes out of the other, and nothing else
/// changes. Decimals hold the products and the sums.
pub proof fn law_conversions_go_by_the_rate(
    w: World,
    account: Seq<char>,
    from: Currency,
    to: Currency,
    amount: Decimal,
    usd_krw: Decimal,
    spread: Decimal,
    c: Conversion,
)
    requires
        converted(w, account, from, to, amount, usd_krw, spread).1 == Ok::<Conversion, OrderError<Seq<char>>>(c),
        representable(unit() - spread.value()),
        ({
            let a = amount.value() * won_for(from, usd_krw);
            let net = unit() - spread.value();
            &&& a % unit() == 0
            &&& representable(a / unit())
            &&& (a / unit() * net) % unit() == 0
            &&& representable(a / unit() * net / unit())
        }),
        representable(amount_of(w.accounts[account].cash, from).value() - amount.value()),
        representable(amount_of(w.accounts[account].cash, to).value() + c.credit.value()),
    ensures
        ({
            let before = w.accounts[account];
            let after = converted(w, account, from, to, amount, usd_krw, spread).0;
            let worth = amount.value() * won_for(from, usd_krw) / unit() * (unit() - spread.value()) / unit();
            let per = won_for(to, usd_krw);
            let g = pow10((28 - to.decimals()) as nat);
            let slack = max_int(abs_int(worth), per);
            &&& c.from == from && c.to == to && c.debit == amount
            &&& amount.value() > 0 && c.credit.value() > 0
            &&& c.credit.value() % g == 0
            &&& c.credit.value() * per <= worth * unit() + slack
            &&& worth * unit() - slack < (c.credit.value() + g) * per
            &&& amount_of(after.accounts[account].cash, from).value() == amount_of(before.cash, from).value()
                - amount.value()
            &&& amount_of(after.accounts[account].cash, to).value() == amount_of(before.cash, to).value()
                + c.credit.value()
            &&& after.accounts[account].positions == before.positions
            &&& after.accounts[account].reserved_cash == before.reserved_cash
            &&& forall|other: Currency|
                other != from && other != to ==> #[trigger] amount_of(after.accounts[account].cash, other) == amount_of(
                    before.cash,
                    other,
                )
        }),
{
    lemma_unit();
    lemma_dec_parts(1, 0);
    let u = unit();
    let pf = w.accounts[account];
    let wf = crate::broker::world::won_per(from, usd_krw);
    let wt = crate::broker::world::won_per(to, usd_krw);
    lemma_sums(one(), spread);
    let net = one().minus(spread)->0;
    lemma_product(amount, wf);
    let x = amount.times(wf)->0;
    lemma_product(x, net);
    let y = x.times(net)->0;
    let per = wt.value();
    assert(per > 0);
    lemma_quotient(y, wt);
    let q = y.over(wt)->0;
    let g = pow10((28 - to.decimals()) as nat);
    lemma_pow10_positive((28 - to.decimals()) as nat);
    let worth = y.value();
    assert(y.value() >= 0) by {
        assert(amount.value() * wf.value() >= 0) by (nonlinear_arith)
            requires
                amount.value() > 0,
                wf.value() > 0,
        ;
    }
    lemma_truncated_value(q, to.decimals() as int);
    lemma_fundamental_div_mod(q.value(), g);
    let n = q.value() / g;
    assert(n * g == g * n) by (nonlinear_arith);
    lemma_fundamental_div_mod_converse(n * g, g, n, 0);
    let v = q.value();
    let credit = c.credit.value();
    let slack = max_int(abs_int(worth), per);
    assert(credit * per <= worth * u + slack) by (nonlinear_arith)
        requires
            credit <= v,
            v * per <= worth * u + slack,
            per > 0,
    ;
    assert(worth * u - slack < (credit + g) * per) by (nonlinear_arith)
        requires
            v < credit + g,
            v * per >= worth * u - slack,
            per > 0,
    ;
    lemma_sums(amount_of(pf.cash, from), amount);
    lemma_sums(amount_of(pf.cash, to), c.credit);
}

/// How an accepted order ends: it stays open exactly if it is a limit order that may rest and has something
/// left, and then stands last among those that rest in its instrument, at its limit, with what is left.
/// Otherwise it is filled if it got all that it asked for, and cancelled if not, and nothing rests.
pub proof fn law_orders_rest_or_end(w: World, account: Seq<char>, req: RequestView, now: Timestamp, drift: Drift)
    requires
        placed(w, account, req, now, drift).1 is Ok,
        req.size matches Size::Qty(q) ==> representable(
            q.value() - (prepared(w, account, req, now, drift).1->Ok_0).qty.value(),
        ),
        representable((prepared(w, account, req, now, drift).1->Ok_0).qty.value()),
    ensures
        ({
            let (after, outcome) = placed(w, account, req, now, drift);
            let (order, fills) = outcome->Ok_0;
            let p = prepared(w, account, req, now, drift).1->Ok_0;
            let id = req.instrument;
            let rests = req.kind == OrderType::Limit && req.tif != Tif::Ioc && req.limit_price is Some
                && req.size->Qty_0.value() > p.qty.value();
            &&& order.req == req && order.account == account && order.id == w.next_order_id
            &&& p.slices.len() > 0 ==> order.filled_qty.value() == p.qty.value()
            &&& p.slices.len() == 0 ==> order.filled_qty.value() == 0
            &&& (order.status == OrderStatus::Open) <==> rests
            &&& order.status == OrderStatus::Open || order.status == OrderStatus::Filled || order.status
                == OrderStatus::Cancelled
            &&& !rests ==> {
                &&& resting_in(after, id) == resting_in(w, id)
                &&& (order.status == OrderStatus::Filled <==> match req.size {
                    Size::Qty(q) => order.filled_qty.value() >= q.value(),
                    Size::Notional(_) => order.filled_qty.value() > 0,
                })
            }
            &&& rests ==> {
                let all = resting_in(after, id);
                let r = all[all.len() - 1];
                &&& all.len() == resting_in(w, id).len() + 1
                &&& all.drop_last() == resting_in(w, id)
                &&& r.order_id == order.id && r.side == req.side && Some(r.price) == req.limit_price
                &&& r.remaining.value() == req.size->Qty_0.value() - p.qty.value()
                &&& r.queue_ahead == p.queue_ahead
            }
        }),
{
    let (w1, _) = prepared(w, account, req, now, drift);
    let p = prepared(w, account, req, now, drift).1->Ok_0;
    lemma_dec_parts(0, 0);
    lemma_sums(zero(), p.qty);
    if let Size::Qty(q) = req.size {
        lemma_sums(q, p.qty);
    }
    let (after, outcome) = placed(w, account, req, now, drift);
    assert(resting_in(w1, req.instrument) == resting_in(w, req.instrument));
    let (order, fills) = outcome->Ok_0;
    if order.status == OrderStatus::Open {
        assert(resting_in(after, req.instrument).drop_last() =~= resting_in(w, req.instrument));
    }
}

/// An order is only accepted for an account and a tradable instrument that are known, while the venue is
/// open, on a book of the last five seconds, and with a limit that is on a tick and within the day's band.
pub proof fn law_accepted_orders_are_in_order(w: World, account: Seq<char>, req: RequestView, now: Timestamp, drift: Drift)
    requires
        prepared(w, account, req, now, drift).1 is Ok,
    ensures
        w.accounts.contains_key(account),
        w.instruments.contains_key(req.instrument),
        w.instruments[req.instrument].tradable,
        open_at(w.holidays, req.instrument.0, now),
        w.books.contains_key(req.instrument),
        now.at() - w.books[req.instrument].received_at.at() <= 5 * 1_000_000_000,
        req.kind == OrderType::Limit <==> req.limit_price is Some,
        req.size is Notional ==> req.kind == OrderType::Market && req.side == Side::Buy,
        req.kind == OrderType::Limit && req.tif == Tif::Gtc ==> !req.instrument.0.has_session(),
        req.kind == OrderType::Limit && req.tif == Tif::Day ==> req.instrument.0.has_session(),
        req.limit_price matches Some(p) ==> {
            let inst = w.instruments[req.instrument];
            &&& inst.tick.quotable(p)
            &&& band(req.instrument.0, inst.tick, w.books[req.instrument].prev_close) matches Ok(Some((lower, upper)))
                ==> lower.value() <= p.value() <= upper.value()
        },
{
}

/// And why not: each of these refuses an order, and the first of them is the reason that is given.
pub proof fn law_refusals_say_why(w: World, account: Seq<char>, req: RequestView, now: Timestamp)
    ensures
        !w.accounts.contains_key(account) ==> admitted(w, account, req, now) == Err::<(), OrderError<Seq<char>>>(
            OrderError::UnknownAccount,
        ),
        w.accounts.contains_key(account) && !w.instruments.contains_key(req.instrument) ==> admitted(
            w,
            account,
            req,
            now,
        ) == Err::<(), OrderError<Seq<char>>>(OrderError::UnknownInstrument),
        w.accounts.contains_key(account) && w.instruments.contains_key(req.instrument)
            && !w.instruments[req.instrument].tradable ==> admitted(w, account, req, now) == Err::<
            (),
            OrderError<Seq<char>>,
        >(OrderError::NotTradable),
        admitted(w, account, req, now) matches Err(OrderError::MarketClosed { .. }) ==> !open_at(
            w.holidays,
            req.instrument.0,
            now,
        ),
        admitted(w, account, req, now) matches Err(OrderError::StaleData { .. }) ==> open_at(
            w.holidays,
            req.instrument.0,
            now,
        ) && (w.books.contains_key(req.instrument) ==> now.at() - w.books[req.instrument].received_at.at() > 5
            * 1_000_000_000),
{
}

/// An execution of a resting order gives back what was promised for it: the limit and the commission of what a
/// buy was filled, the quantity of what a sale was, and never more than is promised. The order is done when nothing
/// is left of it and stays open until then, and nobody else's account or order changes. Decimals hold the sums.
pub proof fn law_executions_use_up_the_promise(
    w: World,
    order_id: u64,
    remaining: Decimal,
    qty: Decimal,
    notional: Decimal,
    liquidity: Liquidity,
    now: Timestamp,
)
    ensures
        resting_filled(w, order_id, remaining, qty, notional, liquidity, now) matches Ok((after, fill)) ==> {
            let order = w.orders[order_id];
            let id = order.req.instrument;
            let (pf, pf2) = (w.accounts[order.account], after.accounts[order.account]);
            let (cash, cash2) = (
                amount_of(pf.reserved_cash, id.0.currency()).value(),
                amount_of(pf2.reserved_cash, id.0.currency()).value(),
            );
            let (held, held2) = (position_of(pf, id).reserved.value(), position_of(pf2, id).reserved.value());
            &&& order.status == OrderStatus::Open ==> after.orders[order_id].status == if remaining.value() == 0 {
                OrderStatus::Filled
            } else {
                OrderStatus::Open
            }
            &&& order.req.side == Side::Buy && order.req.limit_price is Some ==> (reserve_for(
                order.req.limit_price->0,
                id.0,
                qty,
            ) matches Some(promise) && (representable(cash - promise.value()) ==> cash2 == max_int(cash - promise.value(), 0))
                && held2 == held)
            &&& order.req.side == Side::Sell ==> pf.positions.contains_key(id) && (representable(held - qty.value()) ==> held2
                == max_int(held - qty.value(), 0)) && cash2 == cash
            &&& forall|a: Seq<char>|
                a != order.account ==> after.accounts.contains_key(a) == w.accounts.contains_key(a) && (
                #[trigger] after.accounts[a]) == w.accounts[a]
            &&& forall|k: u64| k != order_id ==> (#[trigger] after.orders[k]) == w.orders[k]
        },
{
    let order = w.orders[order_id];
    let id = order.req.instrument;
    let pf = w.accounts[order.account];
    lemma_dec_parts(0, 0);
    if let Some(promise) = reserve_for(
        if order.req.limit_price is Some {
            order.req.limit_price->0
        } else {
            zero()
        },
        id.0,
        qty,
    ) {
        lemma_sums(amount_of(pf.reserved_cash, id.0.currency()), promise);
    }
    lemma_sums(position_of(pf, id).reserved, qty);
}

/// After a sweep the orders that still rest are just those with something left, in their order; the orders of
/// other instruments stay as they were.
pub proof fn law_only_unfilled_orders_rest(w: World, id: (Venue, Seq<char>), rest: Seq<Resting>, other: (Venue, Seq<char>))
    ensures
        resting_in(with_resting(w, id, rest), id) == rest.filter(|r: Resting| r.remaining.value() > 0),
        other != id ==> resting_in(with_resting(w, id, rest), other) == resting_in(w, other),
{
    lemma_live_is_filter(rest);
    if live(rest).len() == 0 {
        assert(live(rest) =~= Seq::empty());
    }
}

proof fn lemma_live_is_filter(rest: Seq<Resting>)
    ensures
        live(rest) == rest.filter(|r: Resting| r.remaining.value() > 0),
    decreases rest.len(),
{
    reveal(Seq::filter);
    if rest.len() > 0 {
        lemma_live_is_filter(rest.drop_last());
    } else {
        assert(live(rest) =~= rest.filter(|r: Resting| r.remaining.value() > 0));
    }
}

/// Only sizes that the lot rule allows are accepted: a quantity that is positive and no less than the least
/// quantity, and an amount of money that is positive and no less than the least one.
pub proof fn law_accepted_sizes_are_allowed(
    w: World,
    account: Seq<char>,
    req: RequestView,
    now: Timestamp,
    drift: Drift,
)
    ensures
        prepared(w, account, req, now, drift).1 matches Ok(p) ==> {
            let lot = w.instruments[req.instrument].lot;
            match req.size {
                Size::Qty(q) => q.value() > 0 && q.value() >= lot.min_qty.value() && (req.limit_price matches Some(limit)
                    ==> (product_held(q, limit) ==> q.value() * limit.value() >= lot.min_notional.value() * unit())),
                Size::Notional(n) => n.value() > 0 && n.value() >= lot.min_notional.value() && (p.qty.value() > 0
                    ==> p.qty.value() >= lot.min_qty.value()),
            }
        },
{
    lemma_unit();
    if let (Size::Qty(q), Some(limit)) = (req.size, req.limit_price) {
        if product_held(q, limit) {
            lemma_product_held(q, limit);
            if let Some(x) = q.times(limit) {
                let (v, least) = (x.value(), w.instruments[req.instrument].lot.min_notional.value());
                assert(v >= least ==> v * unit() >= least * unit()) by (nonlinear_arith)
                    requires
                        unit() > 0,
                ;
            }
        }
    }
}

/// Day orders end with their session and no others do: an order is due only if it is open, good for the day and
/// on a venue that is closed, which a crypto venue never is; and while a venue is closed every such order is due.
pub proof fn law_day_orders_end_with_the_session(w: World, now: Timestamp, k: u64)
    ensures
        due(w, now, k) ==> {
            let o = w.orders[k];
            &&& w.orders.contains_key(k) && o.status == OrderStatus::Open && o.req.tif == Tif::Day
            &&& o.req.instrument.0 != Venue::Upbit && o.req.instrument.0 != Venue::Binance
            &&& !open_at(w.holidays, o.req.instrument.0, now)
        },
        w.orders.contains_key(k) && !due(w, now, k) ==> {
            let o = w.orders[k];
            o.status != OrderStatus::Open || o.req.tif != Tif::Day || open_at(w.holidays, o.req.instrument.0, now)
        },
{
}

} // verus!
