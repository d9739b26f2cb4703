//! What holds of every alert that is on, whatever happens on the market.
use crate::alerts::deliver::FiringView;
use crate::alerts::watch::{
    asks_about, fill_sayings, fired_from, first_price, in_window, kept_from, percent_away, remembered, session_sayings, traded,
    trade_sayings, windowed, with_trade,
};
use crate::alerts::{AlertState, ConditionView};
use crate::broker::FillView;
use crate::decimal::{
    abs_int, dec, lemma_dec_parts, lemma_magnitude, lemma_product, lemma_quotient, lemma_sums, lemma_times_whole,
    lemma_unit, max_int, pow10, representable, unit, Decimal,
};
use crate::domain::{TradeView, Venue};
use crate::performance::lemma_percent;
use crate::time::Timestamp;
use vstd::arithmetic::div_mod::{lemma_fundamental_div_mod, lemma_fundamental_div_mod_converse};
use vstd::prelude::*;

verus! {

/// Whether an alert may fire: it never did, or it did five minutes ago or longer.
pub open spec fn rested(a: AlertState, now: Timestamp) -> bool {
    match a.last_fired_at {
        None => true,
        Some(t) => now.at() - t.at() >= 5 * 60 * 1_000_000_000,
    }
}

/// Whether one of the firings tells what an alert has to say.
pub open spec fn is_told(out: Seq<FiringView>, a: AlertState, text: Seq<char>) -> bool {
    exists|m: int| 0 <= m < out.len() && tells(#[trigger] out[m], a, text)
}

/// Whether a firing tells what one of the alerts from the `i`th on has to say.
pub open spec fn is_said(alerts: Seq<AlertState>, said: Seq<Option<Seq<char>>>, i: int, f: FiringView) -> bool {
    exists|k: int| i <= k < alerts.len() && (#[trigger] said[k]) is Some && tells(f, alerts[k], said[k]->0)
}

/// Every alert that has something to say is told, with its own id, account and note; nothing else is
/// told, and nothing more often than there are alerts.
pub proof fn law_what_is_said_is_told(alerts: Seq<AlertState>, said: Seq<Option<Seq<char>>>, i: int)
    requires
        0 <= i <= alerts.len(),
        said.len() == alerts.len(),
    ensures
        forall|k: int|
            i <= k < alerts.len() && (#[trigger] said[k]) is Some ==> is_told(
                fired_from(alerts, said, i),
                alerts[k],
                said[k]->0,
            ),
        forall|m: int|
            0 <= m < fired_from(alerts, said, i).len() ==> is_said(
                alerts,
                said,
                i,
                #[trigger] fired_from(alerts, said, i)[m],
            ),
        fired_from(alerts, said, i).len() <= alerts.len() - i,
    decreases alerts.len() - i,
{
    if i < alerts.len() {
        law_what_is_said_is_told(alerts, said, i + 1);
        let rest = fired_from(alerts, said, i + 1);
        let out = fired_from(alerts, said, i);
        let shift: int = if said[i] is Some {
            1
        } else {
            0
        };
        assert(forall|m: int| 0 <= m < rest.len() ==> #[trigger] rest[m] == out[m + shift]);
        assert forall|k: int| i <= k < alerts.len() && (#[trigger] said[k]) is Some implies is_told(
            out,
            alerts[k],
            said[k]->0,
        ) by {
            if k == i {
                assert(tells(out[0], alerts[k], said[k]->0));
            } else {
                assert(is_told(rest, alerts[k], said[k]->0));
                let m = choose|m: int| 0 <= m < rest.len() && tells(#[trigger] rest[m], alerts[k], said[k]->0);
                assert(tells(out[m + shift], alerts[k], said[k]->0));
            }
        }
        assert forall|m: int| 0 <= m < out.len() implies is_said(alerts, said, i, #[trigger] out[m]) by {
            if m < shift {
                assert(said[i] is Some && tells(out[m], alerts[i], said[i]->0));
            } else {
                assert(out[m] == rest[m - shift]);
                assert(is_said(alerts, said, i + 1, rest[m - shift]));
                let k = choose|k: int|
                    i + 1 <= k < alerts.len() && (#[trigger] said[k]) is Some && tells(
                        rest[m - shift],
                        alerts[k],
                        said[k]->0,
                    );
                assert(said[k] is Some && tells(out[m], alerts[k], said[k]->0));
            }
        }
    }
}

/// Whether a firing tells what an alert has to say.
pub open spec fn tells(f: FiringView, a: AlertState, text: Seq<char>) -> bool {
    f.alert_id == a.id && f.account == a.account && f.text == text && f.note == a.note && f.deactivate == a.once
}

/// An alert that says nothing stays on as it is; one that fires again and again stays on and remembers
/// when it fired.
pub proof fn law_alerts_stay_on(alerts: Seq<AlertState>, said: Seq<Option<Seq<char>>>, now: Timestamp, i: int, k: int)
    requires
        0 <= i <= k < alerts.len(),
        said.len() == alerts.len(),
    ensures
        ({
            let kept = kept_from(alerts, said, now, i);
            &&& said[k] is None ==> kept.contains(alerts[k])
            &&& said[k] is Some && !alerts[k].once ==> kept.contains(
                (AlertState { last_fired_at: Some(now), ..alerts[k] }),
            )
        }),
    decreases alerts.len() - i,
{
    let kept = kept_from(alerts, said, now, i);
    let rest = kept_from(alerts, said, now, i + 1);
    if i == k {
        if said[k] is None || !alerts[k].once {
            assert(kept[0] == if said[k] is None {
                alerts[k]
            } else {
                AlertState { last_fired_at: Some(now), ..alerts[k] }
            });
        }
    } else {
        law_alerts_stay_on(alerts, said, now, i + 1, k);
        let shift: int = if said[i] is Some && alerts[i].once {
            0
        } else {
            1
        };
        assert forall|a: AlertState| rest.contains(a) implies kept.contains(a) by {
            let m = choose|m: int| 0 <= m < rest.len() && rest[m] == a;
            assert(kept[m + shift] == a);
        }
    }
}

/// A price alert fires on a trade of its instrument exactly when the trade is at its price or beyond:
/// one for a rise at or above it, one for a fall at or below it.
pub proof fn law_price_alerts_fire_at_their_price(
    alerts: Seq<AlertState>,
    k: int,
    t: TradeView,
    recent: Seq<TradeView>,
    adv: Option<Decimal>,
    now: Timestamp,
)
    requires
        0 <= k < alerts.len(),
    ensures
        alerts[k].condition matches ConditionView::PriceAbove { id, price } ==> (trade_sayings(
            alerts,
            t,
            recent,
            adv,
            now,
        )[k] is Some <==> rested(alerts[k], now) && t.instrument == id && t.price.value() >= price.value()),
        alerts[k].condition matches ConditionView::PriceBelow { id, price } ==> (trade_sayings(
            alerts,
            t,
            recent,
            adv,
            now,
        )[k] is Some <==> rested(alerts[k], now) && t.instrument == id && t.price.value() <= price.value()),
{
}

/// Whether a trade is one of an instrument in the last so many minutes.
pub open spec fn lately(x: TradeView, id: (Venue, Seq<char>), minutes: u32, now: Timestamp) -> bool {
    x.instrument == id && now.at() - x.at.at() <= minutes * 60 * 1_000_000_000
}

proof fn lemma_first_shift(x: TradeView, s: Seq<TradeView>, id: (Venue, Seq<char>), minutes: u32, now: Timestamp, i: int)
    requires
        0 <= i,
    ensures
        first_price(seq![x] + s, id, minutes, now, i + 1) == first_price(s, id, minutes, now, i),
    decreases s.len() - i,
{
    if i < s.len() {
        assert((seq![x] + s)[i + 1] == s[i]);
        lemma_first_shift(x, s, id, minutes, now, i + 1);
    }
}

/// The first trade of a window, among those that are remembered and one more.
proof fn lemma_first_remembered(
    before: Seq<TradeView>,
    t: TradeView,
    id: (Venue, Seq<char>),
    minutes: u32,
    now: Timestamp,
    i: int,
    m: int,
)
    requires
        0 <= i <= m < before.len(),
        minutes <= 240,
        lately(before[m], id, minutes, now),
        forall|j: int| i <= j < m ==> !lately(#[trigger] before[j], id, minutes, now),
    ensures
        first_price(remembered(before, now, i).push(t), id, minutes, now, 0) == Some(before[m].price),
    decreases m - i,
{
    let kept = remembered(before, now, i);
    if i == m {
        assert(kept.push(t)[0] == before[i]);
    } else {
        lemma_first_remembered(before, t, id, minutes, now, i + 1, m);
        let rest = remembered(before, now, i + 1);
        assert(!lately(before[i], id, minutes, now));
        if kept != rest {
            assert(kept.push(t) =~= seq![before[i]] + rest.push(t));
            assert(!in_window(kept.push(t)[0], id, minutes, now));
            lemma_first_shift(before[i], rest.push(t), id, minutes, now, 0);
        }
    }
}

/// A move alert fires on a trade of its instrument exactly when the trade is at least so many percent
/// above or at least so many percent below the first price in its window. `m` is the first trade of
/// the window. Where the quotient is not held by a decimal, the last places of one are left open.
pub proof fn law_moves_fire_both_ways(
    alerts: Seq<AlertState>,
    k: int,
    t: TradeView,
    before: Seq<TradeView>,
    m: int,
    adv: Option<Decimal>,
    now: Timestamp,
)
    requires
        0 <= k < alerts.len(),
        alerts[k].condition is Move,
        alerts[k].condition->Move_window_minutes <= 240,
        t.instrument == alerts[k].condition->Move_id,
        0 <= m < before.len(),
        lately(before[m], t.instrument, alerts[k].condition->Move_window_minutes, now),
        forall|j: int|
            0 <= j < m ==> !lately(
                #[trigger] before[j],
                t.instrument,
                alerts[k].condition->Move_window_minutes,
                now,
            ),
        before[m].price.value() > 0,
        representable(t.price.value() - before[m].price.value()),
        abs_int(t.price.value() - before[m].price.value()) <= before[m].price.value() * pow10(20),
        percent_away(t.price, before[m].price) is Some,
    ensures
        ({
            let pct = alerts[k].condition->Move_pct.value();
            let from = before[m].price.value();
            let moved = abs_int(t.price.value() - from);
            let slack = 100 * max_int(moved, from);
            let fires = trade_sayings(alerts, t, with_trade(before, alerts, t, now), adv, now)[k] is Some;
            &&& fires ==> rested(alerts[k], now) && 100 * moved * unit() + slack >= pct * from
            &&& rested(alerts[k], now) && 100 * moved * unit() >= pct * from + slack ==> fires
            &&& (moved * unit()) % from == 0 && representable((t.price.value() - from) * unit() / from) ==> (fires
                <==> rested(alerts[k], now) && 100 * moved * unit() >= pct * from)
        }),
{
    let c = alerts[k].condition;
    let id = t.instrument;
    let from = before[m].price;
    assert(asks_about(alerts[k].condition, id));
    assert(windowed(alerts, id));
    lemma_first_remembered(before, t, id, c->Move_window_minutes, now, 0, m);
    let recent = with_trade(before, alerts, t, now);
    assert(first_price(recent, id, c->Move_window_minutes, now, 0) == Some(from));
    lemma_sums(t.price, from);
    let d = t.price.minus(from)->0;
    lemma_percent(d, from);
    let x = percent_away(t.price, from)->0;
    lemma_magnitude(x);
    let b = from.value();
    let a = d.value();
    let v = x.value();
    let u = unit();
    let pct = c->Move_pct.value();
    let e = 100 * max_int(abs_int(a), b);
    let w = abs_int(v);
    lemma_unit();
    assert(abs_int(w * b - 100 * abs_int(a) * u) <= e) by (nonlinear_arith)
        requires
            -e <= v * b - 100 * a * u <= e,
            w == abs_int(v),
            b > 0,
            u == 10000000000000000000000000000,
    ;
    assert(pct <= w ==> pct * b <= w * b) by (nonlinear_arith)
        requires
            b > 0,
    ;
    assert(pct > w ==> pct * b > w * b) by (nonlinear_arith)
        requires
            b > 0,
    ;
    let moved = abs_int(a);
    if (moved * u) % b == 0 && representable(a * u / b) {
        lemma_quotient(d, from);
        lemma_fundamental_div_mod(moved * u, b);
        let n = moved * u / b;
        let signed = if a < 0 {
            -n
        } else {
            n
        };
        assert(a * u == b * signed) by (nonlinear_arith)
            requires
                moved * u == b * n,
                a < 0 ==> moved == -a && signed == -n,
                a >= 0 ==> moved == a && signed == n,
        ;
        lemma_fundamental_div_mod_converse(a * u, b, signed, 0);
        let q = d.over(from)->0;
        assert(q.value() == signed);
        assert(100 * abs_int(q.value()) <= crate::decimal::MAX_MANTISSA * u) by {
            assert(pow10(20) == 100000000000000000000) by {
                reveal_with_fuel(pow10, 21);
            }
            assert(n * b == b * n) by (nonlinear_arith);
            assert(100 * n <= crate::decimal::MAX_MANTISSA * u && n >= 0) by (nonlinear_arith)
                requires
                    n * b == moved * u,
                    0 <= moved <= b * pow10(20),
                    pow10(20) == 100000000000000000000,
                    u == 10000000000000000000000000000,
                    b > 0,
            ;
        }
        crate::decimal::lemma_hundredfold(q);
        assert(w * b == 100 * moved * u) by (nonlinear_arith)
            requires
                w == abs_int(v),
                v == signed * 100,
                moved * u == b * n,
                n >= 0,
                signed == n || signed == -n,
        ;
    }
}

/// The value of the trades of an instrument in the last so many minutes, exactly.
pub open spec fn value_lately(v: Seq<TradeView>, id: (Venue, Seq<char>), minutes: u32, now: Timestamp) -> int
    decreases v.len(),
{
    if v.len() == 0 {
        0
    } else {
        value_lately(v.drop_last(), id, minutes, now) + if lately(v.last(), id, minutes, now) {
            v.last().price.value() * v.last().qty.value() / unit()
        } else {
            0
        }
    }
}

/// Whether decimals hold the value of each trade, and each sum on the way.
pub open spec fn values_held(v: Seq<TradeView>, id: (Venue, Seq<char>), minutes: u32, now: Timestamp) -> bool {
    &&& forall|i: int|
        0 <= i < v.len() ==> crate::decimal::product_held((#[trigger] v[i]).price, v[i].qty)
    &&& forall|i: int| 0 <= i <= v.len() ==> representable(#[trigger] value_lately(v.take(i), id, minutes, now))
}

proof fn lemma_traded(v: Seq<TradeView>, id: (Venue, Seq<char>), minutes: u32, now: Timestamp, n: int)
    requires
        0 <= n <= v.len(),
        values_held(v, id, minutes, now),
    ensures
        traded(v, id, minutes, now, n) matches Some(s) ==> s.value() == value_lately(v.take(n), id, minutes, now),
    decreases n,
{
    lemma_dec_parts(0, 0);
    if n > 0 {
        lemma_traded(v, id, minutes, now, n - 1);
        let x = v[n - 1];
        assert(v.take(n).drop_last() =~= v.take(n - 1));
        assert(v.take(n).last() == x);
        assert(representable(value_lately(v.take(n), id, minutes, now)));
        assert(crate::decimal::product_held(x.price, x.qty));
        lemma_product(x.price, x.qty);
        if let (Some(s), Some(y)) = (traded(v, id, minutes, now, n - 1), x.price.times(x.qty)) {
            lemma_sums(s, y);
        }
    } else {
        assert(v.take(0) =~= Seq::<TradeView>::empty());
    }
}

/// A volume alert fires on a trade of its instrument exactly when what was traded in its window is at
/// least so many times what an average day trades in as many of its 1440 minutes, and that is something.
/// Decimals hold the amounts on the way.
pub proof fn law_surges_fire_above_the_usual_pace(
    alerts: Seq<AlertState>,
    k: int,
    t: TradeView,
    recent: Seq<TradeView>,
    day: Decimal,
    now: Timestamp,
)
    requires
        0 <= k < alerts.len(),
        alerts[k].condition is VolumeSurge,
        values_held(recent, t.instrument, alerts[k].condition->VolumeSurge_window_minutes, now),
        day.valid(),
        ({
            let n = alerts[k].condition->VolumeSurge_window_minutes as int;
            let factor = alerts[k].condition->VolumeSurge_factor.value();
            &&& representable(day.value() * n)
            &&& (day.value() * n) % 1440 == 0
            &&& representable(day.value() * n / 1440)
            &&& (day.value() * n / 1440 * factor) % unit() == 0
            &&& representable(day.value() * n / 1440 * factor / unit())
        }),
        traded(
            recent,
            t.instrument,
            alerts[k].condition->VolumeSurge_window_minutes,
            now,
            recent.len() as int,
        ) is Some,
        crate::alerts::watch::pace(
            day,
            alerts[k].condition->VolumeSurge_factor,
            alerts[k].condition->VolumeSurge_window_minutes,
        ) is Some,
    ensures
        ({
            let c = alerts[k].condition;
            let sum = value_lately(recent, t.instrument, c->VolumeSurge_window_minutes, now);
            let least = day.value() * c->VolumeSurge_window_minutes * c->VolumeSurge_factor.value();
            let fires = trade_sayings(alerts, t, recent, Some(day), now)[k] is Some;
            fires <==> rested(alerts[k], now) && t.instrument == c->VolumeSurge_id && least > 0 && sum * 1440 * unit()
                >= least
        }),
{
    let c = alerts[k].condition;
    let n = c->VolumeSurge_window_minutes as int;
    let f = c->VolumeSurge_factor;
    lemma_traded(recent, t.instrument, c->VolumeSurge_window_minutes, now, recent.len() as int);
    assert(recent.take(recent.len() as int) =~= recent);
    lemma_times_whole(day, n);
    lemma_dec_parts(n, 0);
    lemma_dec_parts(1440, 0);
    lemma_unit();
    let u = unit();
    let x = day.times(dec(n, 0))->0;
    let v = x.value();
    lemma_fundamental_div_mod(v, 1440);
    let h = v / 1440;
    let by = dec(1440, 0);
    assert(v * u == by.value() * h) by (nonlinear_arith)
        requires
            v == 1440 * h,
            by.value() == 1440 * u,
    ;
    lemma_fundamental_div_mod_converse(v * u, by.value(), h, 0);
    lemma_quotient(x, by);
    let q = x.over(by)->0;
    assert(q.value() == h);
    crate::decimal::lemma_product_held(q, f);
    let least = q.times(f)->0;
    let exact = v * f.value();
    assert(exact == 1440 * u * least.value()) by (nonlinear_arith)
        requires
            exact == v * f.value(),
            v == 1440 * h,
            least.value() * u == h * f.value(),
    ;
    let sum = value_lately(recent, t.instrument, c->VolumeSurge_window_minutes, now);
    assert(sum * 1440 * u >= exact <==> sum >= least.value()) by (nonlinear_arith)
        requires
            exact == 1440 * u * least.value(),
            u == 10000000000000000000000000000,
    ;
    assert(exact > 0 <==> least.value() > 0) by (nonlinear_arith)
        requires
            exact == 1440 * u * least.value(),
            u == 10000000000000000000000000000,
    ;
}

/// A fill alert fires on a fill of its own account, of any instrument or of the one that it names.
pub proof fn law_fill_alerts_fire_for_their_account(alerts: Seq<AlertState>, k: int, f: FillView, now: Timestamp)
    requires
        0 <= k < alerts.len(),
    ensures
        fill_sayings(alerts, f, now)[k] is Some <==> {
            &&& rested(alerts[k], now)
            &&& alerts[k].account == f.account
            &&& alerts[k].condition matches ConditionView::OrderFilled { id } && (id is None || id == Some(f.instrument))
        },
{
}

/// A session alert fires when its venue is seen open after it was last seen shut, or the other way
/// round; never at the first look, and never while nothing changed.
pub proof fn law_session_alerts_fire_on_the_edge(
    alerts: Seq<AlertState>,
    k: int,
    venue: Venue,
    was: Option<bool>,
    open: bool,
    now: Timestamp,
)
    requires
        0 <= k < alerts.len(),
    ensures
        session_sayings(alerts, venue, was, open, now)[k] is Some <==> {
            &&& rested(alerts[k], now)
            &&& was == Some(!open)
            &&& (open && alerts[k].condition == ConditionView::SessionOpen { venue }) || (!open && alerts[k].condition
                == ConditionView::SessionClose { venue })
        },
{
}

/// Trades are remembered for as long as the longest window: one of an instrument that an alert with a
/// window is about is remembered at once, and none is forgotten before 240 minutes are over.
pub proof fn law_trades_are_remembered_for_four_hours(
    before: Seq<TradeView>,
    alerts: Seq<AlertState>,
    t: TradeView,
    now: Timestamp,
    i: int,
)
    requires
        0 <= i < before.len(),
        before[i].instrument == t.instrument,
    ensures
        ({
            let after = with_trade(before, alerts, t, now);
            &&& windowed(alerts, t.instrument) ==> after.len() > 0 && after.last() == t
            &&& now.at() - before[i].at.at() <= 240 * 60 * 1_000_000_000 ==> after.contains(before[i])
        }),
{
    lemma_remembered(before, now, 0, i);
    let kept = remembered(before, now, 0);
    if kept.contains(before[i]) {
        let m = choose|m: int| 0 <= m < kept.len() && kept[m] == before[i];
        assert(kept.push(t)[m] == before[i]);
    }
}

proof fn lemma_remembered(v: Seq<TradeView>, now: Timestamp, i: int, k: int)
    requires
        0 <= i <= k < v.len(),
    ensures
        now.at() - v[k].at.at() <= 240 * 60 * 1_000_000_000 ==> remembered(v, now, i).contains(v[k]),
    decreases k - i,
{
    let kept = remembered(v, now, i);
    if i < k {
        lemma_remembered(v, now, i + 1, k);
        let rest = remembered(v, now, i + 1);
        if rest.contains(v[k]) {
            let m = choose|m: int| 0 <= m < rest.len() && rest[m] == v[k];
            if kept == seq![v[i]] + rest {
                assert(kept[m + 1] == v[k]);
            }
        }
    } else if now.at() - v[k].at.at() <= 240 * 60 * 1_000_000_000 {
        assert(kept[0] == v[k]);
    }
}

} // verus!
