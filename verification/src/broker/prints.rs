//! What a trade that prints does to all the orders that rest.
use crate::broker::balance::subtracts_exactly;
use crate::broker::world::{
    arranged, hitting, law_best_price_is_served_first, printed, resting_in, served_before, shadow_of, trade_arrived,
    with_fill, World,
};
use crate::broker::{unit_price, FillView, Liquidity};
use crate::decimal::{
    half_even, lemma_dec_parts, lemma_pow10_add, lemma_pow10_positive, lemma_quotient, lemma_value_sign, parts_value,
    pow10, unit, valid_parts, Decimal,
};
use crate::domain::{Side, TradeView};
use crate::sim::{decayed, passively_filled, shifted, Drift, Resting};
use crate::time::Timestamp;
use vstd::prelude::*;

verus! {

/// How much fills of one side come to.
pub open spec fn quantity_filled(fills: Seq<FillView>, side: Side) -> int
    decreases fills.len(),
{
    if fills.len() == 0 {
        0
    } else {
        quantity_filled(fills.drop_last(), side) + (if fills.last().side == side {
            fills.last().qty.value()
        } else {
            0
        })
    }
}

/// Whether every place is that of an order of the same number and side, and neither what is left of
/// the order nor the queue ahead of it is negative; a price has at most eight places.
pub open spec fn in_keeping(w: World, rest: Seq<Resting>) -> bool {
    forall|i: int|
        0 <= i < rest.len() ==> {
            &&& w.orders[(#[trigger] rest[i]).order_id].req.side == rest[i].side
            &&& w.orders[rest[i].order_id].id == rest[i].order_id
            &&& rest[i].remaining.value() >= 0
            &&& rest[i].queue_ahead.value() >= 0
            &&& rest[i].price.valid() && rest[i].price.value() >= 0
            &&& rest[i].price.value() % pow10(20) == 0
        }
}

/// Whether what an order and the queue ahead of it leave of a print is exact, and what the order's
/// share comes to.
pub open spec fn rest_is_exact(r: Resting, price: Decimal, avail: Decimal) -> bool {
    let through = match r.side {
        Side::Buy => price.value() < r.price.value(),
        Side::Sell => price.value() > r.price.value(),
    };
    let queued = r.queue_ahead.lesser(avail);
    let free = if through {
        avail
    } else {
        avail.minus(queued)->0
    };
    if !through && price.value() != r.price.value() {
        true
    } else {
        &&& through || subtracts_exactly(avail, queued) && subtracts_exactly(r.queue_ahead, queued)
        &&& subtracts_exactly(free, r.remaining.lesser(free))
        &&& subtracts_exactly(r.remaining, r.remaining.lesser(free))
        &&& r.remaining.lesser(free).times(r.price) matches Some(n) ==> n.value() * unit() == r.remaining.lesser(
            free,
        ).value() * r.price.value()
    }
}

/// Whether what each order from index `i` on leaves of a print is exact.
pub open spec fn shared_exactly(
    w: World,
    rest: Seq<Resting>,
    i: int,
    price: Decimal,
    buy_avail: Decimal,
    sell_avail: Decimal,
    now: Timestamp,
) -> bool
    decreases rest.len() - i,
{
    if i < 0 || i >= rest.len() {
        true
    } else {
        let buy = rest[i].side == Side::Buy;
        let avail = if buy {
            buy_avail
        } else {
            sell_avail
        };
        rest_is_exact(rest[i], price, avail) && match printed(w, rest[i], price, avail, now) {
            Err(_) => true,
            Ok((w2, r2, left, _)) => shared_exactly(
                w2,
                rest.update(i, r2),
                i + 1,
                price,
                if buy {
                    left
                } else {
                    buy_avail
                },
                if buy {
                    sell_avail
                } else {
                    left
                },
                now,
            ),
        }
    }
}

/// One order gets no more of a print than there is, and leaves the rest.
proof fn lemma_one_share(r: Resting, price: Decimal, avail: Decimal)
    requires
        r.remaining.value() >= 0,
        r.queue_ahead.value() >= 0,
        avail.value() >= 0,
        rest_is_exact(r, price, avail),
    ensures
        passively_filled(r, price, avail) matches Some((after, left, f)) ==> {
            &&& left.value() >= 0
            &&& 0 <= f.value()
            &&& f.value() + left.value() <= avail.value()
            &&& after.remaining.value() >= 0
            &&& after.queue_ahead.value() >= 0
            &&& after.side == r.side
            &&& after.order_id == r.order_id
            &&& after.price == r.price
            &&& f.value() > 0 ==> (f.times(r.price) matches Some(n) ==> n.value() * unit() == f.value()
                * r.price.value())
        },
{
    lemma_dec_parts(0, 0);
    lemma_value_sign(0, 0);
}

/// What is made of a value that is exact, by the unit, is the price.
proof fn lemma_price_of(qty: Decimal, limit: Decimal, notional: Decimal)
    requires
        qty.value() > 0,
        limit.valid(),
        limit.value() >= 0,
        limit.value() % pow10(20) == 0,
        notional.value() * unit() == qty.value() * limit.value(),
    ensures
        unit_price(notional, qty) matches Some(p) ==> p.value() == limit.value(),
{
    let q = qty.value();
    let v = limit.value();
    lemma_quotient(notional, qty);
    assert(valid_parts(limit.mantissa(), limit.scale()) && v == parts_value(limit.mantissa(), limit.scale()));
    vstd::arithmetic::div_mod::lemma_div_multiples_vanish(v, q);
    vstd::arithmetic::div_mod::lemma_mod_multiples_basic(v, q);
    assert(q * v == v * q) by (nonlinear_arith);
    if let Some(x) = notional.over(qty) {
        assert(x.value() == v);
        lemma_few_places(x);
    }
}

/// A number of at most eight places stays as it is when it is rounded to eight.
proof fn lemma_few_places(x: Decimal)
    requires
        x.valid(),
        x.value() >= 0,
        x.value() % pow10(20) == 0,
    ensures
        x.rounded(8).value() == x.value(),
{
    if x.scale() > 8 {
        let m = x.mantissa();
        let p = pow10((x.scale() - 8) as nat);
        let u = pow10((28 - x.scale()) as nat);
        lemma_pow10_positive((x.scale() - 8) as nat);
        lemma_pow10_positive((28 - x.scale()) as nat);
        lemma_pow10_add((x.scale() - 8) as nat, (28 - x.scale()) as nat);
        lemma_value_sign(m, x.scale());
        lemma_pow10_positive(20);
        let k = x.value() / pow10(20);
        vstd::arithmetic::div_mod::lemma_fundamental_div_mod(x.value(), pow10(20));
        assert(m == k * p) by (nonlinear_arith)
            requires
                m * u == (p * u) * k,
                u > 0,
        ;
        vstd::arithmetic::div_mod::lemma_div_multiples_vanish(k, p);
        vstd::arithmetic::div_mod::lemma_mod_multiples_basic(k, p);
        assert(p * k == k * p) by (nonlinear_arith);
        assert(0 <= k <= m) by (nonlinear_arith)
            requires
                m == k * p,
                p > 0,
                m >= 0,
        ;
        lemma_dec_parts(k, 8);
        assert(half_even(m, p) == k);
        assert(k * pow10(20) == pow10(20) * k) by (nonlinear_arith);
    }
}

/// The places, from index `i` on, of the orders that a print fills.
pub open spec fn hits(
    w: World,
    rest: Seq<Resting>,
    i: int,
    price: Decimal,
    buy_avail: Decimal,
    sell_avail: Decimal,
    now: Timestamp,
) -> Seq<int>
    decreases rest.len() - i,
{
    if i < 0 || i >= rest.len() {
        Seq::empty()
    } else {
        let buy = rest[i].side == Side::Buy;
        match printed(w, rest[i], price, if buy { buy_avail } else { sell_avail }, now) {
            Err(_) => Seq::empty(),
            Ok((w2, r2, left, f)) => (if f is Some {
                seq![i]
            } else {
                Seq::empty()
            }) + hits(
                w2,
                rest.update(i, r2),
                i + 1,
                price,
                if buy {
                    left
                } else {
                    buy_avail
                },
                if buy {
                    sell_avail
                } else {
                    left
                },
                now,
            ),
        }
    }
}

/// A fill of a resting order by a print: as a maker, at its own limit.
pub open spec fn fills_at_limit(f: FillView, r: Resting) -> bool {
    &&& f.order_id == r.order_id
    &&& f.side == r.side
    &&& f.liquidity == Liquidity::Maker
    &&& f.qty.value() > 0
    &&& f.qty.times(r.price) == Some(f.notional)
    &&& f.price.value() == r.price.value()
}

/// A fill of one of these orders.
pub open spec fn fills_one_of(f: FillView, rest: Seq<Resting>) -> bool {
    exists|i: int| 0 <= i < rest.len() && fills_at_limit(f, #[trigger] rest[i])
}

proof fn lemma_shares(
    w: World,
    rest: Seq<Resting>,
    i: int,
    fills: Seq<FillView>,
    price: Decimal,
    buy_avail: Decimal,
    sell_avail: Decimal,
    now: Timestamp,
)
    requires
        0 <= i,
        in_keeping(w, rest),
        buy_avail.value() >= 0,
        sell_avail.value() >= 0,
        shared_exactly(w, rest, i, price, buy_avail, sell_avail, now),
    ensures
        ({
            let all = hitting(w, rest, i, fills, price, buy_avail, sell_avail, now).fills;
            let at = hits(w, rest, i, price, buy_avail, sell_avail, now);
            &&& quantity_filled(all, Side::Buy) <= quantity_filled(fills, Side::Buy) + buy_avail.value()
            &&& quantity_filled(all, Side::Sell) <= quantity_filled(fills, Side::Sell) + sell_avail.value()
            &&& all.len() == fills.len() + at.len()
            &&& forall|k: int| 0 <= k < fills.len() ==> #[trigger] all[k] == fills[k]
            &&& forall|k: int|
                0 <= k < at.len() ==> i <= #[trigger] at[k] < rest.len() && fills_at_limit(all[fills.len() + k], rest[at[k]])
            &&& forall|j: int, k: int| 0 <= j < k < at.len() ==> #[trigger] at[j] < #[trigger] at[k]
        }),
    decreases rest.len() - i,
{
    if i < rest.len() {
        let r = rest[i];
        let buy = r.side == Side::Buy;
        let avail = if buy {
            buy_avail
        } else {
            sell_avail
        };
        assert(in_keeping(w, rest) && w.orders[rest[i].order_id].req.side == r.side);
        lemma_one_share(r, price, avail);
        if let Ok((w2, r2, left, f)) = printed(w, r, price, avail, now) {
            let rest2 = rest.update(i, r2);
            let fills2 = with_fill(fills, f);
            assert forall|k: int| 0 <= k < rest2.len() implies {
                &&& w2.orders[(#[trigger] rest2[k]).order_id].req.side == rest2[k].side
                &&& w2.orders[rest2[k].order_id].id == rest2[k].order_id
                &&& rest2[k].remaining.value() >= 0
                &&& rest2[k].queue_ahead.value() >= 0
                &&& rest2[k].price.valid() && rest2[k].price.value() >= 0
                &&& rest2[k].price.value() % pow10(20) == 0
            } by {
                assert(w.orders[rest[k].order_id].req.side == rest[k].side);
                assert(w2.orders[rest[k].order_id].req.side == w.orders[rest[k].order_id].req.side);
            }
            let b2 = if buy {
                left
            } else {
                buy_avail
            };
            let s2 = if buy {
                sell_avail
            } else {
                left
            };
            if let Some(x) = f {
                assert(fills2.drop_last() =~= fills);
                assert(x.side == r.side);
                lemma_price_of(x.qty, r.price, x.notional);
                assert(fills_at_limit(x, r));
            }
            lemma_shares(w2, rest2, i + 1, fills2, price, b2, s2, now);
            let all = hitting(w, rest, i, fills, price, buy_avail, sell_avail, now).fills;
            let at = hits(w, rest, i, price, buy_avail, sell_avail, now);
            let more = hits(w2, rest2, i + 1, price, b2, s2, now);
            assert forall|k: int| 0 <= k < fills.len() implies #[trigger] all[k] == fills[k] by {
                assert(all[k] == fills2[k]);
            }
            assert forall|k: int| 0 <= k < at.len() implies i <= #[trigger] at[k] < rest.len() && fills_at_limit(
                all[fills.len() + k],
                rest[at[k]],
            ) by {
                let skip: int = if f is Some {
                    1
                } else {
                    0
                };
                if k < skip {
                    assert(all[fills.len() as int] == fills2[fills.len() as int]);
                } else {
                    assert(at[k] == more[k - skip]);
                    assert(fills2.len() + (k - skip) == fills.len() + k);
                    assert(rest2[more[k - skip]] == rest[at[k]]);
                }
            }
        }
    }
}

/// Whether no share of a print is rounded.
pub open spec fn print_is_exact(w: World, t: TradeView, now: Timestamp, drift: Drift) -> bool {
    let id = t.instrument;
    match decayed(shadow_of(w, id), now, drift) {
        None => true,
        Some(sh) => match shifted(sh, t.price, w.instruments[id].tick) {
            None => true,
            Some(price) => shared_exactly(
                World { shadows: w.shadows.insert(id, sh), ..w },
                arranged(resting_in(w, id)),
                0,
                price,
                t.qty,
                t.qty,
                now,
            ),
        },
    }
}

/// The orders of each side share a print: together they fill no more than it traded. They fill as
/// makers, each at its own limit, the best price first, wherever no share is rounded.
pub proof fn law_a_print_is_shared(w: World, t: TradeView, now: Timestamp, drift: Drift)
    requires
        in_keeping(w, resting_in(w, t.instrument)),
        t.qty.value() >= 0,
        print_is_exact(w, t, now, drift),
    ensures
        ({
            let fills = trade_arrived(w, t, now, drift).1;
            let rest = resting_in(w, t.instrument);
            &&& quantity_filled(fills, Side::Buy) <= t.qty.value()
            &&& quantity_filled(fills, Side::Sell) <= t.qty.value()
            &&& forall|k: int| 0 <= k < fills.len() ==> fills_one_of(#[trigger] fills[k], rest)
            &&& forall|j: int, k: int|
                0 <= j < k < fills.len() && (#[trigger] fills[j]).side == Side::Buy && (#[trigger] fills[k]).side
                    == Side::Buy ==> fills[j].price.value() >= fills[k].price.value()
            &&& forall|j: int, k: int|
                0 <= j < k < fills.len() && (#[trigger] fills[j]).side == Side::Sell && (#[trigger] fills[k]).side
                    == Side::Sell ==> fills[j].price.value() <= fills[k].price.value()
        }),
{
    broadcast use vstd::seq_lib::group_to_multiset_ensures;

    let rest = resting_in(w, t.instrument);
    law_best_price_is_served_first(rest);
    let served = arranged(rest);
    assert forall|i: int| 0 <= i < served.len() implies rest.contains(#[trigger] served[i]) by {
        assert(served.contains(served[i]));
        assert(served.to_multiset().count(served[i]) > 0);
    }
    assert(in_keeping(w, served)) by {
        assert forall|i: int| 0 <= i < served.len() implies {
            &&& w.orders[(#[trigger] served[i]).order_id].req.side == served[i].side
            &&& w.orders[served[i].order_id].id == served[i].order_id
            &&& served[i].remaining.value() >= 0
            &&& served[i].queue_ahead.value() >= 0
            &&& served[i].price.valid() && served[i].price.value() >= 0
            &&& served[i].price.value() % pow10(20) == 0
        } by {
            assert(rest.contains(served[i]));
        }
    }
    let fills = trade_arrived(w, t, now, drift).1;
    if fills.len() > 0 {
        let sh = decayed(shadow_of(w, t.instrument), now, drift)->0;
        let price = shifted(sh, t.price, w.instruments[t.instrument].tick)->0;
        let w1 = World { shadows: w.shadows.insert(t.instrument, sh), ..w };
        assert(in_keeping(w1, served));
        lemma_shares(w1, served, 0, Seq::empty(), price, t.qty, t.qty, now);
        let at = hits(w1, served, 0, price, t.qty, t.qty, now);
        assert forall|k: int| 0 <= k < fills.len() implies fills_one_of(#[trigger] fills[k], rest) by {
            assert(0 <= at[k] < served.len());
            assert(rest.contains(served[at[k]]));
            let i = choose|i: int| 0 <= i < rest.len() && rest[i] == served[at[k]];
            assert(fills_at_limit(fills[k], rest[i]));
        }
        assert forall|j: int, k: int|
            0 <= j < k < fills.len() && (#[trigger] fills[j]).side == Side::Buy && (#[trigger] fills[k]).side
                == Side::Buy implies fills[j].price.value() >= fills[k].price.value() by {
            assert(at[j] < at[k]);
            assert(!served_before(served[at[k]], served[at[j]]));
        }
        assert forall|j: int, k: int|
            0 <= j < k < fills.len() && (#[trigger] fills[j]).side == Side::Sell && (#[trigger] fills[k]).side
                == Side::Sell implies fills[j].price.value() <= fills[k].price.value() by {
            assert(at[j] < at[k]);
            assert(!served_before(served[at[k]], served[at[j]]));
        }
    }
}

} // verus!
