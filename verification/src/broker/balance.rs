//! What placing, cancelling and expiring orders leaves of an account and of the other orders.
use crate::broker::look::booked;
use crate::broker::world::{
    cancelled, closed_order, consistent, due, estimated, expired, new_order, place_of, placed, prepared, released,
    resting_in, shadow_of, taken, World,
};
use crate::broker::{
    covered, overflow, reserve_for, rest_of, size_number, walk_size, worst_price, Estimate, OrderError, OrderStatus,
    OrderView, PlanView, RequestView,
};
use crate::decimal::{
    dec, lemma_dec_parts, lemma_product, lemma_quotient, lemma_sums, lemma_truncated, lemma_unit, lemma_value_sign, one,
    parts_value, pow10, representable, unit, valid_parts, zero, Decimal,
};
use crate::domain::{Currency, Level, Side, Venue};
use crate::ledger::{amount_of, cash_available, position_of, qty_available, LedgerError, PortfolioView};
use crate::sim::{
    decayed, law_walk_takes_levels_in_order, left_after, lemma_level_take, level_take, shadow_from, taken_value,
    too_small, totals_from, walk_from, walked, worse, Drift, Resting, ShadowLevel, ShadowView, Size, Slice,
};
use crate::time::Timestamp;
use crate::venue::{bps_of, charges_are_exact, lemma_bps_sign, lemma_charges, lemma_nearest_sign, FeeSchedule, TickRule};
use vstd::prelude::*;

verus! {

/// Whether a sum is exact.
pub open spec fn adds_exactly(a: Decimal, b: Decimal) -> bool {
    a.plus(b) matches Some(x) && x.value() == a.value() + b.value()
}

/// Whether a difference is exact.
pub open spec fn subtracts_exactly(a: Decimal, b: Decimal) -> bool {
    a.minus(b) matches Some(x) && x.value() == a.value() - b.value()
}

/// What an estimate says, or why there is none.
pub open spec fn foretold(w: World, account: Seq<char>, req: RequestView, now: Timestamp, drift: Drift) -> Result<
    Estimate,
    OrderError<Seq<char>>,
> {
    match prepared(w, account, req, now, drift).1 {
        Ok(p) => estimated(p),
        Err(e) => Err(e),
    }
}

/// An estimate fails exactly where placing the same order at once does, and for the same reason,
/// wherever a decimal holds what a fill comes to.
pub proof fn law_estimates_fail_as_orders_do(
    w: World,
    account: Seq<char>,
    req: RequestView,
    now: Timestamp,
    drift: Drift,
)
    requires
        prepared(w, account, req, now, drift).1 matches Ok(p) ==> estimated(p) != Err::<
            Estimate,
            OrderError<Seq<char>>,
        >(overflow()) && placed(w, account, req, now, drift).1 != Err::<
            (OrderView, Seq<crate::broker::FillView>),
            OrderError<Seq<char>>,
        >(OrderError::Ledger(LedgerError::Overflow)),
    ensures
        match (foretold(w, account, req, now, drift), placed(w, account, req, now, drift).1) {
            (Ok(_), Ok(_)) => true,
            (Err(a), Err(b)) => a == b,
            _ => false,
        },
{
    if prepared(w, account, req, now, drift).1 is Ok && req.side == Side::Sell {
        lemma_held_if_sold(w, account, req, now, drift);
    }
}

/// What is sold is held.
proof fn lemma_held_if_sold(w: World, account: Seq<char>, req: RequestView, now: Timestamp, drift: Drift)
    requires
        prepared(w, account, req, now, drift).1 is Ok,
        req.side == Side::Sell,
    ensures
        w.accounts[account].positions.contains_key(req.instrument),
        size_number(req.size).value() > 0,
{
    lemma_dec_parts(0, 0);
}

/// Taking an order off the book leaves every other order and all balances as they are.
proof fn lemma_closing(w: World, k: u64, status: OrderStatus)
    requires
        w.orders.contains_key(k),
        w.accounts.contains_key(w.orders[k].account),
        closed_order(w, k, status) is Some,
    ensures
        ({
            let (after, order) = closed_order(w, k, status)->0;
            &&& order == (OrderView { status, ..w.orders[k] })
            &&& after.orders == w.orders.insert(k, order)
            &&& after.orders.dom() == w.orders.dom()
            &&& after.accounts.dom() == w.accounts.dom()
            &&& after.holidays == w.holidays
            &&& forall|a: Seq<char>|
                #![trigger after.accounts[a]]
                after.accounts[a].cash == w.accounts[a].cash && (a != w.orders[k].account ==> after.accounts[a]
                    == w.accounts[a])
        }),
{
    let (after, order) = closed_order(w, k, status)->0;
    assert(after.orders.dom() =~= w.orders.dom());
    assert(after.accounts.dom() =~= w.accounts.dom());
}

/// What expiring the orders from index `i` on leaves, and that nothing is told but what expired.
proof fn lemma_expiring(w: World, ids: Seq<u64>, i: int)
    requires
        0 <= i <= ids.len(),
        ids.no_duplicates(),
        forall|j: int| 0 <= j < ids.len() ==> w.orders.contains_key(#[trigger] ids[j]),
        forall|k: u64| #[trigger] w.orders.contains_key(k) ==> w.accounts.contains_key(w.orders[k].account),
    ensures
        ({
            let (after, told) = expired(w, ids, i);
            &&& after.orders.dom() == w.orders.dom()
            &&& after.holidays == w.holidays
            &&& told.len() <= ids.len() - i
            &&& forall|k: u64|
                w.orders.contains_key(k) && (forall|j: int| i <= j < ids.len() ==> #[trigger] ids[j] != k)
                    ==> #[trigger] after.orders[k] == w.orders[k]
            &&& forall|a: Seq<char>| #[trigger] after.accounts[a].cash == w.accounts[a].cash
            &&& told.len() == ids.len() - i ==> forall|j: int|
                i <= j < ids.len() ==> {
                    &&& after.orders[#[trigger] ids[j]] == (OrderView { status: OrderStatus::Expired, ..w.orders[ids[j]] })
                    &&& told[j - i] == after.orders[ids[j]]
                }
            &&& forall|m: int|
                0 <= m < told.len() ==> {
                    &&& (#[trigger] told[m]).status == OrderStatus::Expired
                    &&& exists|j: int|
                        i <= j < ids.len() && told[m] == (OrderView {
                            status: OrderStatus::Expired,
                            ..w.orders[#[trigger] ids[j]]
                        }) && after.orders[ids[j]] == told[m]
                }
        }),
    decreases ids.len() - i,
{
    if i < ids.len() {
        match closed_order(w, ids[i], OrderStatus::Expired) {
            None => {
                lemma_expiring(w, ids, i + 1);
                let (after, told) = expired(w, ids, i);
                assert forall|k: u64|
                    w.orders.contains_key(k) && (forall|j: int| i <= j < ids.len() ==> #[trigger] ids[j] != k)
                        implies #[trigger] after.orders[k] == w.orders[k] by {
                    assert(forall|j: int| i + 1 <= j < ids.len() ==> #[trigger] ids[j] != k);
                }
            },
            Some((w2, order)) => {
                lemma_closing(w, ids[i], OrderStatus::Expired);
                assert forall|j: int| 0 <= j < ids.len() implies w2.orders.contains_key(#[trigger] ids[j]) by {
                    assert(w.orders.dom().contains(ids[j]));
                }
                assert forall|k: u64| #[trigger] w2.orders.contains_key(k) implies w2.accounts.contains_key(
                    w2.orders[k].account,
                ) by {
                    assert(w.orders.contains_key(k));
                    assert(w.accounts.dom().contains(w.orders[k].account));
                }
                lemma_expiring(w2, ids, i + 1);
                let (after, more) = expired(w2, ids, i + 1);
                let told = expired(w, ids, i).1;
                assert(told == seq![order] + more);
                assert(after.orders[ids[i]] == order) by {
                    assert(w2.orders.contains_key(ids[i]));
                    assert(forall|j: int| i + 1 <= j < ids.len() ==> #[trigger] ids[j] != ids[i]);
                }
                assert forall|k: u64|
                    w.orders.contains_key(k) && (forall|j: int| i <= j < ids.len() ==> #[trigger] ids[j] != k)
                        implies #[trigger] after.orders[k] == w.orders[k] by {
                    assert(ids[i] != k);
                    assert(w2.orders.dom().contains(k));
                    assert(forall|j: int| i + 1 <= j < ids.len() ==> #[trigger] ids[j] != k);
                    assert(after.orders[k] == w2.orders[k]);
                }
                assert forall|a: Seq<char>| #[trigger] after.accounts[a].cash == w.accounts[a].cash by {
                    assert(w2.accounts[a].cash == w.accounts[a].cash);
                }
                if told.len() == ids.len() - i {
                    assert forall|j: int| i <= j < ids.len() implies {
                        &&& after.orders[#[trigger] ids[j]] == (OrderView {
                            status: OrderStatus::Expired,
                            ..w.orders[ids[j]]
                        })
                        &&& told[j - i] == after.orders[ids[j]]
                    } by {
                        if j > i {
                            assert(ids[j] != ids[i]);
                            assert(w2.orders[ids[j]] == w.orders[ids[j]]);
                            assert(told[j - i] == more[j - (i + 1)]);
                        }
                    }
                }
                assert forall|m: int| 0 <= m < told.len() implies {
                    &&& (#[trigger] told[m]).status == OrderStatus::Expired
                    &&& exists|j: int|
                        i <= j < ids.len() && told[m] == (OrderView {
                            status: OrderStatus::Expired,
                            ..w.orders[#[trigger] ids[j]]
                        }) && after.orders[ids[j]] == told[m]
                } by {
                    if m == 0 {
                        assert(told[0] == order);
                        assert(i <= i < ids.len() && told[0] == (OrderView {
                            status: OrderStatus::Expired,
                            ..w.orders[ids[i]]
                        }));
                    } else {
                        assert(told[m] == more[m - 1]);
                        let j = choose|j: int|
                            i + 1 <= j < ids.len() && more[m - 1] == (OrderView {
                                status: OrderStatus::Expired,
                                ..w2.orders[#[trigger] ids[j]]
                            }) && after.orders[ids[j]] == more[m - 1];
                        assert(ids[j] != ids[i]);
                        assert(w2.orders[ids[j]] == w.orders[ids[j]]);
                        assert(i <= j < ids.len() && told[m] == (OrderView {
                            status: OrderStatus::Expired,
                            ..w.orders[ids[j]]
                        }));
                    }
                }
            },
        }
    }
}

/// What is left of an order that rests.
pub open spec fn left_of(w: World, k: u64) -> Decimal {
    let rest = resting_in(w, w.orders[k].req.instrument);
    match place_of(rest, k, 0) {
        Some(i) => rest[i].remaining,
        None => zero(),
    }
}

/// An account once the reservations of its orders among `ids`, from index `i` on, are given back, one
/// after the other. One that a decimal cannot hold is kept.
pub open spec fn given_back(pf: PortfolioView, w: World, account: Seq<char>, ids: Seq<u64>, i: int) -> PortfolioView
    decreases ids.len() - i,
{
    if i >= ids.len() {
        pf
    } else if w.orders[ids[i]].account != account {
        given_back(pf, w, account, ids, i + 1)
    } else {
        match released(pf, w.orders[ids[i]], left_of(w, ids[i])) {
            Some(x) => given_back(x, w, account, ids, i + 1),
            None => given_back(pf, w, account, ids, i + 1),
        }
    }
}

/// Taking one order's place away leaves the others what they had.
proof fn lemma_other_places(rest: Seq<Resting>, gone: int, k: u64, i: int)
    requires
        0 <= i,
        0 <= gone < rest.len(),
        rest[gone].order_id != k,
    ensures
        ({
            let less = rest.remove(gone);
            match (place_of(rest, k, if i > gone { i + 1 } else { i }), place_of(less, k, i)) {
                (Some(a), Some(b)) => 0 <= a < rest.len() && 0 <= b < less.len() && rest[a] == less[b],
                (None, None) => true,
                _ => false,
            }
        }),
    decreases rest.len() - i,
{
    let less = rest.remove(gone);
    if i < less.len() {
        lemma_other_places(rest, gone, k, i + 1);
        if i == gone {
            assert(less[i] == rest[i + 1]);
            assert(place_of(rest, k, i) == place_of(rest, k, i + 1));
        } else if i > gone {
            assert(less[i] == rest[i + 1]);
        } else {
            assert(less[i] == rest[i]);
            if i + 1 == gone && less[i].order_id != k {
                assert(place_of(rest, k, i) == place_of(rest, k, i + 1));
            }
        }
    } else if i < rest.len() && i == gone {
        assert(place_of(rest, k, i) == place_of(rest, k, i + 1));
    }
}

proof fn lemma_place_in(rest: Seq<Resting>, k: u64, i: int)
    requires
        0 <= i,
    ensures
        place_of(rest, k, i) matches Some(a) ==> i <= a < rest.len() && rest[a].order_id == k,
    decreases rest.len() - i,
{
    if i < rest.len() && rest[i].order_id != k {
        lemma_place_in(rest, k, i + 1);
    }
}

/// Closing one order leaves what is left of another.
proof fn lemma_left_of_others(w: World, gone: u64, status: OrderStatus, k: u64)
    requires
        closed_order(w, gone, status) is Some,
        k != gone,
    ensures
        ({
            let after = (closed_order(w, gone, status)->0).0;
            after.orders[k] == w.orders[k] && left_of(after, k) == left_of(w, k)
        }),
{
    let after = (closed_order(w, gone, status)->0).0;
    let id = w.orders[gone].req.instrument;
    let rest = resting_in(w, id);
    lemma_place_in(rest, gone, 0);
    if let Some(i) = place_of(rest, gone, 0) {
        if w.orders[k].req.instrument == id {
            assert(resting_in(after, id) == rest.remove(i));
            lemma_other_places(rest, i, k, 0);
        } else {
            assert(resting_in(after, w.orders[k].req.instrument) == resting_in(w, w.orders[k].req.instrument));
        }
    }
}

/// Expiring gives every reservation back, in turn.
proof fn lemma_giving_back(first: World, w: World, ids: Seq<u64>, i: int, account: Seq<char>)
    requires
        0 <= i <= ids.len(),
        ids.no_duplicates(),
        forall|j: int|
            i <= j < ids.len() ==> w.orders[#[trigger] ids[j]] == first.orders[ids[j]] && left_of(w, ids[j]) == left_of(
                first,
                ids[j],
            ),
    ensures
        expired(w, ids, i).0.accounts[account] == given_back(w.accounts[account], first, account, ids, i),
    decreases ids.len() - i,
{
    if i < ids.len() {
        let k = ids[i];
        assert(w.orders[k] == first.orders[k]);
        match closed_order(w, k, OrderStatus::Expired) {
            None => {
                lemma_giving_back(first, w, ids, i + 1, account);
            },
            Some((w2, _)) => {
                assert forall|j: int| i + 1 <= j < ids.len() implies w2.orders[#[trigger] ids[j]]
                    == first.orders[ids[j]] && left_of(w2, ids[j]) == left_of(first, ids[j]) by {
                    lemma_left_of_others(w, k, OrderStatus::Expired, ids[j]);
                }
                lemma_giving_back(first, w2, ids, i + 1, account);
            },
        }
    }
}

/// Expiring touches the orders that are due and no other, nor any balance. What is told is those
/// orders, expired, and what was reserved for each is given back to its account. Once each of them
/// was told, none is due any more: doing it again at the same instant tells nothing and changes
/// nothing.
pub proof fn law_expiry_is_thorough(w: World, now: Timestamp, ids: Seq<u64>, again: Seq<u64>)
    requires
        consistent(w),
        ids.no_duplicates(),
        forall|k: u64| #[trigger] ids.contains(k) <==> due(w, now, k),
        forall|k: u64| #[trigger] again.contains(k) <==> due(expired(w, ids, 0).0, now, k),
    ensures
        ({
            let (after, told) = expired(w, ids, 0);
            &&& after.orders.dom() == w.orders.dom()
            &&& forall|k: u64|
                w.orders.contains_key(k) && !due(w, now, k) ==> #[trigger] after.orders[k] == w.orders[k]
            &&& forall|a: Seq<char>| #[trigger] after.accounts[a].cash == w.accounts[a].cash
            &&& forall|a: Seq<char>| #[trigger] after.accounts[a] == given_back(w.accounts[a], w, a, ids, 0)
            &&& forall|m: int|
                0 <= m < told.len() ==> {
                    &&& (#[trigger] told[m]).status == OrderStatus::Expired
                    &&& exists|k: u64|
                        #[trigger] due(w, now, k) && told[m] == (OrderView {
                            status: OrderStatus::Expired,
                            ..w.orders[k]
                        })
                }
            &&& told.len() == ids.len() ==> {
                &&& forall|k: u64| #[trigger] due(w, now, k) ==> after.orders[k].status == OrderStatus::Expired
                &&& again.len() == 0
                &&& expired(after, again, 0) == (after, Seq::<OrderView>::empty())
            }
        }),
{
    let (after, told) = expired(w, ids, 0);
    assert forall|j: int| 0 <= j < ids.len() implies w.orders.contains_key(#[trigger] ids[j]) by {
        assert(ids.contains(ids[j]));
    }
    lemma_expiring(w, ids, 0);
    assert forall|a: Seq<char>| #[trigger] after.accounts[a] == given_back(w.accounts[a], w, a, ids, 0) by {
        lemma_giving_back(w, w, ids, 0, a);
    }
    assert forall|k: u64| w.orders.contains_key(k) && !due(w, now, k) implies #[trigger] after.orders[k]
        == w.orders[k] by {
        assert forall|j: int| 0 <= j < ids.len() implies #[trigger] ids[j] != k by {
            assert(ids.contains(ids[j]));
        }
    }
    assert forall|m: int| 0 <= m < told.len() implies {
        &&& (#[trigger] told[m]).status == OrderStatus::Expired
        &&& exists|k: u64|
            #[trigger] due(w, now, k) && told[m] == (OrderView { status: OrderStatus::Expired, ..w.orders[k] })
    } by {
        let j = choose|j: int|
            0 <= j < ids.len() && told[m] == (OrderView { status: OrderStatus::Expired, ..w.orders[#[trigger] ids[j]] })
                && after.orders[ids[j]] == told[m];
        assert(ids.contains(ids[j]));
        assert(due(w, now, ids[j]));
    }
    if told.len() == ids.len() {
        assert forall|k: u64| #[trigger] due(w, now, k) implies after.orders[k].status == OrderStatus::Expired by {
            assert(ids.contains(k));
            let j = choose|j: int| 0 <= j < ids.len() && ids[j] == k;
            assert(after.orders[ids[j]].status == OrderStatus::Expired);
        }
        assert(again.len() == 0) by {
            if again.len() > 0 {
                let k = again[0];
                assert(again.contains(k));
                assert(due(after, now, k));
                assert(w.orders.dom().contains(k));
                if !due(w, now, k) {
                    assert(after.orders[k] == w.orders[k]);
                }
            }
        }
    }
}

/// A fee stays within the commission that was reserved for it: what a buy of `qty` costs with its
/// fee is no more than what was reserved for it at its limit, wherever the reservation is exact and
/// the commission is not rounded up before it is cut off to the minor unit.
pub proof fn law_a_fee_is_within_its_reservation(limit: Decimal, venue: Venue, qty: Decimal, notional: Decimal, dp: int)
    requires
        dp >= 0,
        0 <= notional.value(),
        notional.value() * unit() <= limit.value() * qty.value(),
        ({
            let bps = FeeSchedule::of_venue(venue).commission_bps;
            &&& reserve_for(limit, venue, qty) matches Some(r) && r.value() * unit() * (10_000 * unit())
                == limit.value() * qty.value() * (10_000 * unit() + bps.value())
            &&& bps_of(notional, bps) matches Some(f) && f.value() * (10_000 * unit()) <= notional.value() * bps.value()
        }),
    ensures
        FeeSchedule::of_venue(venue).charged(Side::Buy, notional, dp) matches Some((fee, tax)) && tax.value() == 0
            && notional.value() + fee.value() <= reserve_for(limit, venue, qty)->0.value(),
{
    lemma_dec_parts(0, 0);
    lemma_value_sign(0, 0);
    let bps = FeeSchedule::of_venue(venue).commission_bps;
    let f = bps_of(notional, bps)->0;
    assert(bps.value() >= 0) by {
        lemma_dec_parts(15, 1);
        lemma_dec_parts(5, 0);
        lemma_dec_parts(10, 0);
        lemma_value_sign(15, 1);
        lemma_value_sign(5, 0);
        lemma_value_sign(10, 0);
    }
    lemma_bps_sign(notional, bps);
    lemma_truncated(f, dp);
    lemma_truncated(zero(), dp);
    let fee = f.truncated(dp).value();
    let n = notional.value();
    let u = unit();
    let c = bps.value();
    let whole = limit.value() * qty.value();
    let r = reserve_for(limit, venue, qty)->0.value();
    lemma_unit();
    assert(n + fee <= r) by (nonlinear_arith)
        requires
            u > 0,
            c >= 0,
            fee <= f.value(),
            f.value() * (10_000 * u) <= n * c,
            n * u <= whole,
            r * u * (10_000 * u) == whole * (10_000 * u + c),
    {
        let t = 10_000 * u;
        assert(fee * t <= f.value() * t);
        assert((n + fee) * t <= n * t + n * c);
        assert(n * t + n * c == n * (t + c));
        assert(u * (n * (t + c)) == (n * u) * (t + c));
        assert((n * u) * (t + c) <= whole * (t + c));
        assert(u * ((n + fee) * t) <= u * (n * (t + c)));
        assert(u * ((n + fee) * t) == (n + fee) * (u * t));
        assert(r * u * t == r * (u * t));
        assert((n + fee) * (u * t) <= r * (u * t));
        assert(u * t > 0);
    }
}

/// Whether promising what rests of an order, and giving it back, is exact.
pub open spec fn promise_is_exact(pf: PortfolioView, req: RequestView, qty: Decimal) -> bool {
    let id = req.instrument;
    match req.side {
        Side::Buy => {
            let had = amount_of(pf.reserved_cash, id.0.currency());
            reserve_for(req.limit_price->0, id.0, qty) matches Some(amount) && had.value() >= 0 && adds_exactly(
                had,
                amount,
            ) && subtracts_exactly(had.plus(amount)->0, amount)
        },
        Side::Sell => {
            let had = position_of(pf, id).reserved;
            had.value() >= 0 && adds_exactly(had, qty) && subtracts_exactly(had.plus(qty)->0, qty)
        },
    }
}

/// Whether two accounts hold the same and have as much of it promised.
pub open spec fn as_good_as(a: PortfolioView, b: PortfolioView, c: Currency, id: (Venue, Seq<char>)) -> bool {
    &&& a.cash == b.cash
    &&& amount_of(a.reserved_cash, c).value() == amount_of(b.reserved_cash, c).value()
    &&& position_of(a, id).qty == position_of(b, id).qty
    &&& position_of(a, id).avg_cost == position_of(b, id).avg_cost
    &&& position_of(a, id).reserved.value() == position_of(b, id).reserved.value()
}

/// Cancelling an order right after it was placed undoes what placing it promised: the order is
/// cancelled with what it had filled, no balance changes, and for a buy as for a sale as much is
/// promised as was before the order came to rest. Where nothing filled that is what was promised
/// before the order was placed. Cancelling it again changes nothing.
pub proof fn law_cancelling_undoes_placing(
    w: World,
    account: Seq<char>,
    req: RequestView,
    now: Timestamp,
    drift: Drift,
    p: PlanView,
)
    requires
        consistent(w),
        !w.orders.contains_key(w.next_order_id),
        prepared(w, account, req, now, drift).1 == Ok::<PlanView, OrderError<Seq<char>>>(p),
        placed(w, account, req, now, drift).1 matches Ok((o, _)) && o.status == OrderStatus::Open,
        promise_is_exact(booked(prepared(w, account, req, now, drift).0, account, req, p, now), req, p.rest_qty),
    ensures
        ({
            let (before, outcome) = placed(w, account, req, now, drift);
            let (order, fills) = outcome->Ok_0;
            let (after, r) = cancelled(before, account, order.id);
            let done = OrderView { status: OrderStatus::Cancelled, ..order };
            let c = req.instrument.0.currency();
            &&& r == Ok::<OrderView, OrderError<Seq<char>>>(done)
            &&& after.orders == before.orders.insert(order.id, done)
            &&& after.accounts[account].cash == before.accounts[account].cash
            &&& as_good_as(
                after.accounts[account],
                booked(prepared(w, account, req, now, drift).0, account, req, p, now),
                c,
                req.instrument,
            )
            &&& fills.len() == 0 ==> as_good_as(after.accounts[account], w.accounts[account], c, req.instrument)
            &&& cancelled(after, account, order.id) == (after, r)
        }),
{
    lemma_dec_parts(0, 0);
    lemma_value_sign(0, 0);
    let id = req.instrument;
    let w1 = prepared(w, account, req, now, drift).0;
    let n = w.next_order_id;
    let (before, outcome) = placed(w, account, req, now, drift);
    let order = (outcome->Ok_0).0;
    let rest = resting_in(before, id);
    let old_rest = resting_in(w, id);
    assert(resting_in(w1, id) == old_rest);
    assert(rest.last().order_id == n);
    assert(rest == old_rest.push(rest.last()));
    assert forall|i: int| 0 <= i < old_rest.len() implies (#[trigger] rest[i]).order_id != n by {
        assert(w.resting[id][i] == rest[i]);
    }
    lemma_place_of(rest, n, 0);
    assert(place_of(rest, n, 0) == Some(rest.len() - 1));
    assert(rest[rest.len() - 1].remaining == p.rest_qty);
}

proof fn lemma_place_of(rest: Seq<Resting>, k: u64, i: int)
    requires
        0 <= i < rest.len(),
        rest.last().order_id == k,
        forall|j: int| i <= j < rest.len() - 1 ==> (#[trigger] rest[j]).order_id != k,
    ensures
        place_of(rest, k, i) == Some(rest.len() - 1),
    decreases rest.len() - i,
{
    if i < rest.len() - 1 {
        lemma_place_of(rest, k, i + 1);
    }
}

/// The levels of the shadow book that an order takes from.
pub open spec fn offered(w: World, req: RequestView, now: Timestamp, drift: Drift) -> Seq<ShadowLevel> {
    let id = req.instrument;
    let sh = decayed(shadow_of(w, id), now, drift)->0;
    match req.side {
        Side::Buy => shadow_from(sh, w.books[id].asks, Side::Sell, w.instruments[id].tick, 0)->0,
        Side::Sell => shadow_from(sh, w.books[id].bids, Side::Buy, w.instruments[id].tick, 0)->0,
    }
}

/// Whether what is left of a quantity is exact after each level.
pub open spec fn quantity_is_exact(
    levels: Seq<ShadowLevel>,
    taker: Side,
    left: Decimal,
    limit: Decimal,
    step: Decimal,
    i: int,
) -> bool
    decreases levels.len() - i,
{
    if i >= levels.len() || worse(taker, levels[i].price, limit) {
        true
    } else {
        match level_take(levels[i], Size::Qty(left), step) {
            None => true,
            Some(q) => if q.value() <= 0 {
                !too_small(levels[i], step) || quantity_is_exact(levels, taker, left, limit, step, i + 1)
            } else {
                subtracts_exactly(left, q) && quantity_is_exact(levels, taker, left.minus(q)->0, limit, step, i + 1)
            },
        }
    }
}

proof fn lemma_taken_first(first: Slice, rest: Seq<Slice>)
    ensures
        taken_value(seq![first] + rest) == first.qty.value() + taken_value(rest),
    decreases rest.len(),
{
    let all = seq![first] + rest;
    if rest.len() == 0 {
        assert(all.drop_last() =~= Seq::<Slice>::empty());
        assert(all.last() == first);
        assert(taken_value(all.drop_last()) == 0);
    } else {
        assert(all.drop_last() =~= seq![first] + rest.drop_last());
        assert(all.last() == rest.last());
        lemma_taken_first(first, rest.drop_last());
    }
}

proof fn lemma_no_more_than_asked(
    levels: Seq<ShadowLevel>,
    taker: Side,
    left: Decimal,
    limit: Decimal,
    step: Decimal,
    i: int,
)
    requires
        0 <= i <= levels.len(),
        step.valid(),
        left.value() >= 0,
        walk_from(levels, taker, Size::Qty(left), limit, step, i) is Some,
        quantity_is_exact(levels, taker, left, limit, step, i),
    ensures
        0 <= taken_value(walk_from(levels, taker, Size::Qty(left), limit, step, i)->0) <= left.value(),
    decreases levels.len() - i,
{
    let s = walk_from(levels, taker, Size::Qty(left), limit, step, i)->0;
    if i < levels.len() && !worse(taker, levels[i].price, limit) {
        let q = level_take(levels[i], Size::Qty(left), step)->0;
        if q.value() > 0 {
            lemma_level_take(levels[i], Size::Qty(left), step);
            let rest = left.minus(q)->0;
            assert(left_after(Size::Qty(left), q, levels[i].price) == Some(Size::Qty(rest)));
            lemma_no_more_than_asked(levels, taker, rest, limit, step, i + 1);
            let tail = walk_from(levels, taker, Size::Qty(rest), limit, step, i + 1)->0;
            let head = Slice { price: levels[i].price, qty: q, real_price: levels[i].real_price };
            assert(s == seq![head] + tail);
            lemma_taken_first(head, tail);
        } else if too_small(levels[i], step) {
            lemma_no_more_than_asked(levels, taker, left, limit, step, i + 1);
        }
    }
}

/// Whether an order comes to rest.
pub open spec fn comes_to_rest(req: RequestView, p: PlanView) -> bool {
    p.rest_qty.value() > 0 && req.limit_price is Some
}

/// Whether no amount on the way of a buy is rounded: what it costs, what it promises, and what is left
/// of the cash.
pub open spec fn buy_is_exact(pf: PortfolioView, req: RequestView, p: PlanView) -> bool {
    let id = req.instrument;
    let cash = amount_of(pf.cash, id.0.currency());
    let had = amount_of(pf.reserved_cash, id.0.currency());
    let held = position_of(pf, id);
    let gross = p.notional.plus(p.fee)->0;
    let cost = gross.plus(p.tax)->0;
    let reserve = reserve_for(worst_price(req, p.mid)->0, id.0, p.rest_qty)->0;
    let left = if p.slices.len() > 0 {
        cash.minus(cost)->0
    } else {
        cash
    };
    let has = if comes_to_rest(req, p) {
        had.plus(reserve)->0
    } else {
        had
    };
    &&& adds_exactly(p.notional, p.fee) && adds_exactly(gross, p.tax) && adds_exactly(cost, reserve)
    &&& subtracts_exactly(cash, had) && subtracts_exactly(cash, cost) && adds_exactly(had, reserve)
    &&& subtracts_exactly(left, has)
    &&& adds_exactly(held.qty, p.qty) && subtracts_exactly(held.qty, held.reserved)
    &&& subtracts_exactly(held.qty.plus(p.qty)->0, held.reserved)
}

/// Whether no amount on the way of a sale is rounded: its charges, what is taken, what is promised, and
/// what is left of the position.
pub open spec fn sale_is_exact(pf: PortfolioView, req: RequestView, p: PlanView) -> bool {
    let id = req.instrument;
    let c = id.0.currency();
    let cash = amount_of(pf.cash, c);
    let had = amount_of(pf.reserved_cash, c);
    let held = position_of(pf, id);
    let net = p.notional.minus(p.fee)->0;
    let gain = net.minus(p.tax)->0;
    let left = if p.slices.len() > 0 {
        held.qty.minus(p.qty)->0
    } else {
        held.qty
    };
    let has = if comes_to_rest(req, p) {
        held.reserved.plus(p.rest_qty)->0
    } else {
        held.reserved
    };
    &&& charges_are_exact(id.0, p.notional)
    &&& subtracts_exactly(p.notional, p.fee) && subtracts_exactly(net, p.tax) && adds_exactly(cash, gain)
    &&& subtracts_exactly(cash, had) && subtracts_exactly(cash.plus(gain)->0, had)
    &&& subtracts_exactly(held.qty, held.reserved) && subtracts_exactly(held.qty, p.qty)
    &&& adds_exactly(held.reserved, p.rest_qty)
    &&& subtracts_exactly(left, has)
}

/// Whether a market makes sense: neither the prices of its book nor what they are multiplied with are
/// negative, and its tick is positive.
pub open spec fn market_is_sound(w: World, id: (Venue, Seq<char>), drift: Drift) -> bool {
    &&& w.instruments[id].lot.step.valid()
    &&& w.instruments[id].tick matches TickRule::Fixed(t) ==> t.value() > 0
    &&& shadow_of(w, id).multiplier.value() >= 0
    &&& drift.multiplier.value() >= 0
    &&& forall|i: int| 0 <= i < w.books[id].bids.len() ==> (#[trigger] w.books[id].bids[i]).price.value() >= 0
    &&& forall|i: int| 0 <= i < w.books[id].asks.len() ==> (#[trigger] w.books[id].asks[i]).price.value() >= 0
}

/// Whether no total of slices from index `i` on is rounded.
pub open spec fn totals_are_exact(slices: Seq<Slice>, i: int, qty: Decimal, notional: Decimal) -> bool
    decreases slices.len() - i,
{
    if i >= slices.len() {
        true
    } else {
        match slices[i].qty.times(slices[i].price) {
            None => true,
            Some(x) => adds_exactly(qty, slices[i].qty) && adds_exactly(notional, x) && totals_are_exact(
                slices,
                i + 1,
                qty.plus(slices[i].qty)->0,
                notional.plus(x)->0,
            ),
        }
    }
}

proof fn lemma_taken_split(slices: Seq<Slice>, i: int)
    requires
        0 <= i < slices.len(),
    ensures
        taken_value(slices.take(i + 1)) == taken_value(slices.take(i)) + slices[i].qty.value(),
{
    assert(slices.take(i + 1).drop_last() =~= slices.take(i));
}

/// Totals of slices at prices that are not negative.
proof fn lemma_totals(slices: Seq<Slice>, i: int, qty: Decimal, notional: Decimal)
    requires
        0 <= i <= slices.len(),
        forall|j: int| 0 <= j < slices.len() ==> (#[trigger] slices[j]).qty.value() > 0 && slices[j].price.value() >= 0,
        qty.value() == taken_value(slices.take(i)),
        qty.value() >= 0,
        notional.value() >= 0,
        totals_are_exact(slices, i, qty, notional),
    ensures
        totals_from(slices, i, qty, notional) matches Some((q, n)) ==> q.value() == taken_value(slices) && q.value() >= 0
            && n.value() >= 0,
    decreases slices.len() - i,
{
    if i < slices.len() {
        lemma_taken_split(slices, i);
        lemma_product(slices[i].qty, slices[i].price);
        if let Some(x) = slices[i].qty.times(slices[i].price) {
            if let (Some(q), Some(n)) = (qty.plus(slices[i].qty), notional.plus(x)) {
                lemma_totals(slices, i + 1, q, n);
            }
        }
    } else {
        assert(slices.take(i) =~= slices);
    }
}

/// No price of a sound market's shadow is negative.
proof fn lemma_shadow_prices(s: ShadowView, levels: Seq<Level>, side: Side, tick: TickRule, i: int)
    requires
        0 <= i <= levels.len(),
        s.multiplier.value() >= 0,
        tick matches TickRule::Fixed(t) ==> t.value() > 0,
        forall|j: int| 0 <= j < levels.len() ==> (#[trigger] levels[j]).price.value() >= 0,
    ensures
        shadow_from(s, levels, side, tick, i) matches Some(v) ==> forall|j: int|
            0 <= j < v.len() ==> (#[trigger] v[j]).price.value() >= 0,
    decreases levels.len() - i,
{
    if i < levels.len() {
        lemma_shadow_prices(s, levels, side, tick, i + 1);
        lemma_product(levels[i].price, s.multiplier);
        if let Some(p) = levels[i].price.times(s.multiplier) {
            lemma_nearest_sign(tick, p);
        }
    }
}

/// What a limit is raised by to cover the commission is not negative, so neither is a reservation.
proof fn lemma_reserve_sign(limit: Decimal, venue: Venue, qty: Decimal)
    requires
        limit.value() >= 0 && qty.value() >= 0 || qty.value() == 0,
    ensures
        reserve_for(limit, venue, qty) matches Some(r) ==> r.value() >= 0,
{
    broadcast use lemma_dec_parts;

    let bps = FeeSchedule::of_venue(venue).commission_bps;
    lemma_unit();
    reveal_with_fuel(pow10, 29);
    assert(0 <= bps.value() <= 10 * unit());
    assert(dec(10_000, 0).value() == 10_000 * unit());
    lemma_quotient(bps, dec(10_000, 0));
    let share = match venue {
        Venue::Krx => dec(15, 5),
        Venue::Us => dec(0, 0),
        Venue::Upbit => dec(5, 4),
        Venue::Binance => dec(10, 4),
    };
    let whole = match venue {
        Venue::Krx => dec(100_015, 5),
        Venue::Us => dec(1, 0),
        Venue::Upbit => dec(10_005, 4),
        Venue::Binance => dec(10_010, 4),
    };
    let v = share.value();
    assert(pow10(27) == 10_000 * pow10(23) && pow10(28) == 10_000 * pow10(24));
    match venue {
        Venue::Krx => {
            assert(bps.value() == 15 * pow10(27) && v == 15 * pow10(23));
        },
        Venue::Us => {},
        Venue::Upbit => {
            assert(bps.value() == 5 * pow10(28) && v == 5 * pow10(24));
        },
        Venue::Binance => {
            assert(bps.value() == 10 * pow10(28) && v == 10 * pow10(24));
        },
    }
    assert(bps.value() == 10_000 * v);
    assert(bps.value() * unit() == v * (10_000 * unit())) by (nonlinear_arith)
        requires
            bps.value() == 10_000 * v,
    ;
    vstd::arithmetic::div_mod::lemma_div_multiples_vanish(v, 10_000 * unit());
    vstd::arithmetic::div_mod::lemma_mod_multiples_basic(v, 10_000 * unit());
    assert((10_000 * unit()) * v == v * (10_000 * unit())) by (nonlinear_arith);
    assert(valid_parts(share.mantissa(), share.scale()) && v == parts_value(share.mantissa(), share.scale()));
    assert(representable(v));
    if let Some(x) = bps.over(dec(10_000, 0)) {
        assert(x.value() == v);
        assert(whole.value() == one().value() + v);
        assert(valid_parts(whole.mantissa(), whole.scale()) && whole.value() == parts_value(
            whole.mantissa(),
            whole.scale(),
        ));
        assert(representable(one().value() + v));
        lemma_sums(one(), x);
        if let Some(y) = one().plus(x) {
            lemma_product(limit, y);
            if let Some(z) = limit.times(y) {
                lemma_product(z, qty);
            }
        }
    }
}

/// Placing an order never spends or promises more than there is. If nothing was overdrawn before,
/// nothing is after, whether or not the order could be booked, in the currency and in the instrument
/// of the order, wherever no amount is rounded. In every other currency and instrument just as much
/// is available as before, and no other account changes.
pub proof fn law_nothing_is_overdrawn(
    w: World,
    account: Seq<char>,
    req: RequestView,
    now: Timestamp,
    drift: Drift,
    p: PlanView,
)
    requires
        prepared(w, account, req, now, drift).1 == Ok::<PlanView, OrderError<Seq<char>>>(p),
        market_is_sound(w, req.instrument, drift),
        totals_are_exact(p.slices, 0, zero(), zero()),
        req.size is Qty ==> subtracts_exactly(size_number(req.size), p.qty) && quantity_is_exact(
            offered(w, req, now, drift),
            req.side,
            size_number(req.size),
            worst_price(req, p.mid)->0,
            w.instruments[req.instrument].lot.step,
            0,
        ),
        cash_available(w.accounts[account], req.instrument.0.currency()) matches Some(x) && x.value() >= 0,
        qty_available(w.accounts[account], req.instrument) matches Some(x) && x.value() >= 0,
        req.side == Side::Buy ==> buy_is_exact(w.accounts[account], req, p),
        req.side == Side::Sell ==> sale_is_exact(w.accounts[account], req, p),
    ensures
        ({
            let before = w.accounts[account];
            let after = placed(w, account, req, now, drift).0.accounts[account];
            &&& cash_available(after, req.instrument.0.currency()) matches Some(x) && x.value() >= 0
            &&& qty_available(after, req.instrument) matches Some(x) && x.value() >= 0
            &&& forall|c: Currency|
                c != req.instrument.0.currency() ==> #[trigger] cash_available(after, c) == cash_available(before, c)
            &&& forall|id: (Venue, Seq<char>)|
                id != req.instrument ==> #[trigger] qty_available(after, id) == qty_available(before, id)
            &&& forall|other: Seq<char>|
                other != account ==> #[trigger] placed(w, account, req, now, drift).0.accounts[other]
                    == w.accounts[other]
        }),
{
    lemma_dec_parts(0, 0);
    lemma_value_sign(0, 0);
    let id = req.instrument;
    let pf = w.accounts[account];
    let limit = worst_price(req, p.mid)->0;
    assert(covered(pf, req, limit, p.notional, p.fee, p.tax, p.rest_qty) is Ok);
    assert(rest_of(req, p.qty) == Some(p.rest_qty));
    let levels = offered(w, req, now, drift);
    let step = w.instruments[id].lot.step;
    let sh0 = decayed(shadow_of(w, id), now, drift)->0;
    lemma_shadow_prices(sh0, w.books[id].bids, Side::Buy, w.instruments[id].tick, 0);
    lemma_shadow_prices(sh0, w.books[id].asks, Side::Sell, w.instruments[id].tick, 0);
    let size = walk_size(req)->0;
    assert(walk_from(levels, req.side, size, limit, step, 0) == Some(p.slices));
    law_walk_takes_levels_in_order(levels, req.side, size, limit, step, 0);
    assert forall|j: int| 0 <= j < p.slices.len() implies (#[trigger] p.slices[j]).qty.value() > 0
        && p.slices[j].price.value() >= 0 by {
        let at = walked(levels, req.side, size, limit, step, 0);
        assert(0 <= at[j] < levels.len());
        assert(levels[at[j]].price.value() >= 0);
    }
    assert(p.slices.take(0) =~= Seq::<Slice>::empty());
    lemma_totals(p.slices, 0, zero(), zero());
    lemma_charges(id.0, req.side, p.notional, id.0.currency().decimals() as int);
    if req.size is Qty {
        lemma_no_more_than_asked(levels, req.side, size_number(req.size), limit, step, 0);
    }
    assert(p.rest_qty.value() >= 0);
    assert(req.limit_price is Some ==> limit.value() > 0);
    assert(req.limit_price is None ==> p.rest_qty.value() == 0);
    lemma_reserve_sign(limit, id.0, p.rest_qty);
    let w1 = prepared(w, account, req, now, drift).0;
    let order = new_order(w.next_order_id, account, req, now);
    if placed(w, account, req, now, drift).1 is Err {
        assert(placed(w, account, req, now, drift).0.accounts == w.accounts);
    }
    let (mid, sh, o, fills) = taken(pf, shadow_of(w1, id), order, p, now)->Ok_0;
    assert(p.slices.len() == 0 ==> p.notional == zero() && p.qty == zero());
    assert(p.slices.len() == 0 ==> mid == pf);
    if req.side == Side::Sell {
        lemma_held_if_sold(w, account, req, now, drift);
        assert(p.qty.value() + (if comes_to_rest(req, p) { p.rest_qty.value() } else { 0 }) <= size_number(
            req.size,
        ).value());
    } else {
        assert(comes_to_rest(req, p) ==> limit == req.limit_price->0);
    }
}

} // verus!
