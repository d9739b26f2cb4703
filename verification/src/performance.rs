//! Account performance from equity snapshots and fills.
use crate::accounts::krw_per;
use crate::broker::world::won_per;
use crate::broker::{Fill, FillView};
use crate::decimal::{
    abs_int, dec, lemma_dec_parts, lemma_hundredfold, lemma_pow10_positive, lemma_product, lemma_quotient, lemma_rounded,
    lemma_rounded_keeps_sides, lemma_sums, lemma_unit, max_int, opt_over, opt_plus, opt_rounded, opt_times, parts_value,
    pow10, representable, unit, valid_parts, zero, Decimal, MAX_MANTISSA,
};
use crate::domain::{Currency, Side};
use crate::stats::{mean, mean_of};
use crate::time::Timestamp;
use vstd::prelude::*;

verus! {

#[derive(Debug, Clone, Copy, PartialEq, Eq, Structural)]
pub enum SnapshotKind {
    Minute,
    Daily,
}

#[derive(Debug)]
pub struct Snapshot {
    pub account: String,
    pub generation: i32,
    pub at: Timestamp,
    pub kind: SnapshotKind,
    pub equity_krw: Decimal,
    pub cash_krw: Decimal,
    pub positions_krw: Decimal,
}

/// What an account did. Volatility and Sharpe ratio are worked out in floating point elsewhere,
/// from `daily_equity`.
#[derive(Debug, Clone, Copy, PartialEq)]
pub struct Performance {
    pub start_equity_krw: Decimal,
    pub end_equity_krw: Decimal,
    pub return_pct: Decimal,
    pub max_drawdown_pct: Decimal,
    pub trades: usize,
    pub sells: usize,
    pub win_rate_pct: Option<Decimal>,
    pub realized_pnl_krw: Decimal,
    pub fees_krw: Decimal,
    /// Traded notional (KRW) over average equity.
    pub turnover: Option<Decimal>,
}

/// The equities of snapshots.
pub open spec fn equities(s: Seq<Snapshot>) -> Seq<Decimal> {
    s.map_values(|x: Snapshot| x.equity_krw)
}

/// The equities of the daily snapshots.
pub open spec fn daily_equities(s: Seq<Snapshot>) -> Seq<Decimal>
    decreases s.len(),
{
    if s.len() == 0 {
        Seq::empty()
    } else if s.last().kind == SnapshotKind::Daily {
        daily_equities(s.drop_last()).push(s.last().equity_krw)
    } else {
        daily_equities(s.drop_last())
    }
}

/// `part` as a percentage of `whole`.
pub open spec fn percent(part: Option<Decimal>, whole: Decimal) -> Option<Decimal> {
    opt_times(opt_over(part, Some(whole)), Some(dec(100, 0)))
}

/// The gain from the first equity to the last, in percent; none on nothing.
pub open spec fn gain(start: Decimal, end: Decimal) -> Option<Decimal> {
    if start.value() > 0 {
        opt_rounded(percent(end.minus(start), start), 2)
    } else {
        Some(zero())
    }
}

/// The largest fall below the highest equity so far, in percent, over the equities from index `i`
/// on.
pub open spec fn drawdown_from(e: Seq<Decimal>, i: int, peak: Decimal, worst: Decimal) -> Option<Decimal>
    decreases e.len() - i,
{
    if i >= e.len() {
        Some(worst)
    } else {
        let high = peak.greater(e[i]);
        if high.value() > 0 {
            match percent(high.minus(e[i]), high) {
                Some(fall) => drawdown_from(e, i + 1, high, worst.greater(fall)),
                None => None,
            }
        } else {
            drawdown_from(e, i + 1, high, worst)
        }
    }
}

/// An amount of a fill's currency in won.
pub open spec fn in_won(f: FillView, v: Option<Decimal>, usd_krw: Decimal) -> Option<Decimal> {
    opt_times(v, Some(won_per(f.instrument.0.currency(), usd_krw)))
}

/// A realised profit; nothing where there is none.
pub open spec fn realized(f: FillView) -> Decimal {
    if f.realized_pnl is Some {
        f.realized_pnl->0
    } else {
        zero()
    }
}

/// What is added up over the fills: the value traded, the profits of the sells and the costs in
/// won, and how many sells there were and how many of them won.
pub ghost struct TradeSums {
    pub traded: Decimal,
    pub profit: Decimal,
    pub costs: Decimal,
    pub sells: nat,
    pub wins: nat,
}

/// The sums after one more fill.
pub open spec fn one_more(s: TradeSums, f: FillView, usd_krw: Decimal) -> Option<TradeSums> {
    let sell = f.side == Side::Sell;
    let traded = opt_plus(Some(s.traded), in_won(f, Some(f.notional), usd_krw));
    let costs = opt_plus(Some(s.costs), in_won(f, f.fee.plus(f.tax), usd_krw));
    let profit = if sell {
        opt_plus(Some(s.profit), in_won(f, Some(realized(f)), usd_krw))
    } else {
        Some(s.profit)
    };
    match (traded, costs, profit) {
        (Some(traded), Some(costs), Some(profit)) => Some(
            TradeSums {
                traded,
                profit,
                costs,
                sells: s.sells + if sell { 1nat } else { 0 },
                wins: s.wins + if sell && realized(f).value() > 0 { 1nat } else { 0 },
            },
        ),
        _ => None,
    }
}

/// The sums over the fills from index `i` on.
pub open spec fn sums_from(fills: Seq<FillView>, usd_krw: Decimal, i: int, s: TradeSums) -> Option<TradeSums>
    decreases fills.len() - i,
{
    if i >= fills.len() {
        Some(s)
    } else {
        match one_more(s, fills[i], usd_krw) {
            Some(t) => sums_from(fills, usd_krw, i + 1, t),
            None => None,
        }
    }
}

/// The sums over no fills.
pub open spec fn no_sums() -> TradeSums {
    TradeSums { traded: zero(), profit: zero(), costs: zero(), sells: 0, wins: 0 }
}

/// The share of sells that won, in percent, if there were sells.
pub open spec fn win_rate(wins: nat, sells: nat) -> Option<Decimal> {
    opt_rounded(percent(Some(dec(wins as int, 0)), dec(sells as int, 0)), 2)
}

/// What an account did, from its equities and fills.
pub open spec fn performed(e: Seq<Decimal>, fills: Seq<FillView>, usd_krw: Decimal) -> Option<Performance> {
    let start = if e.len() > 0 {
        e[0]
    } else {
        zero()
    };
    let end = if e.len() > 0 {
        e.last()
    } else {
        zero()
    };
    let average = if e.len() > 0 {
        mean_of(e)
    } else {
        Some(zero())
    };
    match (gain(start, end), drawdown_from(e, 0, zero(), zero()), average, sums_from(fills, usd_krw, 0, no_sums())) {
        (Some(return_pct), Some(drawdown), Some(average), Some(s)) => {
            let rate = if s.sells > 0 {
                win_rate(s.wins, s.sells)
            } else {
                None
            };
            let turnover = if average.value() > 0 && fills.len() > 0 {
                opt_rounded(s.traded.over(average), 2)
            } else {
                None
            };
            if (s.sells > 0 && rate is None) || (average.value() > 0 && fills.len() > 0 && turnover is None) {
                None
            } else {
                Some(
                    Performance {
                        start_equity_krw: start,
                        end_equity_krw: end,
                        return_pct,
                        max_drawdown_pct: drawdown.rounded(2),
                        trades: fills.len() as usize,
                        sells: s.sells as usize,
                        win_rate_pct: rate,
                        realized_pnl_krw: s.profit.rounded(0),
                        fees_krw: s.costs.rounded(0),
                        turnover,
                    },
                )
            }
        },
        _ => None,
    }
}

fn percent_of(part: Decimal, whole: Decimal) -> (r: Option<Decimal>)
    ensures
        r == percent(Some(part), whole),
{
    part.checked_div(whole)?.checked_mul(Decimal::new(100, 0))
}

fn gain_of(start: Decimal, end: Decimal) -> (r: Option<Decimal>)
    ensures
        r == gain(start, end),
{
    if !start.is_positive() {
        return Some(Decimal::zero());
    }
    Some(percent_of(end.checked_sub(start)?, start)?.round_dp(2))
}

fn drawdown(e: &[Decimal]) -> (r: Option<Decimal>)
    ensures
        r == drawdown_from(e@, 0, zero(), zero()),
{
    let mut peak = Decimal::zero();
    let mut worst = Decimal::zero();
    let mut i: usize = 0;
    while i < e.len()
        invariant
            i <= e@.len(),
            drawdown_from(e@, 0, zero(), zero()) == drawdown_from(e@, i as int, peak, worst),
        decreases e@.len() - i,
    {
        peak = peak.max(e[i]);
        if peak.is_positive() {
            worst = worst.max(percent_of(peak.checked_sub(e[i])?, peak)?);
        }
        i += 1;
    }
    Some(worst)
}

struct Sums {
    traded: Decimal,
    profit: Decimal,
    costs: Decimal,
    sells: usize,
    wins: usize,
}

impl Sums {
    spec fn model(&self) -> TradeSums {
        TradeSums {
            traded: self.traded,
            profit: self.profit,
            costs: self.costs,
            sells: self.sells as nat,
            wins: self.wins as nat,
        }
    }
}

fn add_fill(s: Sums, f: &Fill, usd_krw: Decimal) -> (r: Option<Sums>)
    requires
        s.sells < usize::MAX,
        s.wins < usize::MAX,
    ensures
        match one_more(s.model(), f@, usd_krw) {
            Some(m) => r matches Some(t) && t.model() == m,
            None => r is None,
        },
        r matches Some(t) ==> t.sells <= s.sells + 1 && t.wins <= s.wins + 1,
{
    let rate = krw_per(f.instrument.venue.currency(), usd_krw);
    let traded = s.traded.checked_add(f.notional.checked_mul(rate)?)?;
    let costs = s.costs.checked_add(f.fee.checked_add(f.tax)?.checked_mul(rate)?)?;
    let mut profit = s.profit;
    let mut sells = s.sells;
    let mut wins = s.wins;
    if f.side == Side::Sell {
        let pnl = match f.realized_pnl {
            Some(p) => p,
            None => Decimal::zero(),
        };
        profit = profit.checked_add(pnl.checked_mul(rate)?)?;
        sells += 1;
        if pnl.is_positive() {
            wins += 1;
        }
    }
    Some(Sums { traded, profit, costs, sells, wins })
}

/// Fills as what they say.
pub open spec fn fill_views(fills: Seq<Fill>) -> Seq<FillView> {
    fills.map_values(|f: Fill| f@)
}

fn add_fills(fills: &[Fill], usd_krw: Decimal) -> (r: Option<Sums>)
    ensures
        match sums_from(fill_views(fills@), usd_krw, 0, no_sums()) {
            Some(m) => r matches Some(t) && t.model() == m,
            None => r is None,
        },
        r matches Some(t) ==> t.sells <= fills@.len() && t.wins <= fills@.len(),
{
    let mut s = Sums {
        traded: Decimal::zero(),
        profit: Decimal::zero(),
        costs: Decimal::zero(),
        sells: 0,
        wins: 0,
    };
    let mut i: usize = 0;
    while i < fills.len()
        invariant
            i <= fills@.len(),
            s.sells <= i,
            s.wins <= i,
            sums_from(fill_views(fills@), usd_krw, 0, no_sums()) == sums_from(
                fill_views(fills@),
                usd_krw,
                i as int,
                s.model(),
            ),
        decreases fills@.len() - i,
    {
        assert(fill_views(fills@)[i as int] == fills@[i as int]@);
        s = add_fill(s, &fills[i], usd_krw)?;
        i += 1;
    }
    Some(s)
}

/// The equities of the daily snapshots, oldest first.
pub fn daily_equity(snapshots: &[Snapshot]) -> (r: Vec<Decimal>)
    ensures
        r@ == daily_equities(snapshots@),
{
    let mut out: Vec<Decimal> = Vec::new();
    let mut i: usize = 0;
    while i < snapshots.len()
        invariant
            i <= snapshots@.len(),
            out@ == daily_equities(snapshots@.take(i as int)),
        decreases snapshots@.len() - i,
    {
        assert(snapshots@.take(i + 1).drop_last() =~= snapshots@.take(i as int));
        if snapshots[i].kind == SnapshotKind::Daily {
            out.push(snapshots[i].equity_krw);
        }
        i += 1;
    }
    assert(snapshots@.take(i as int) =~= snapshots@);
    out
}

/// `snapshots` oldest first (any kinds), `fills` within the same period. `None` where a decimal
/// cannot hold a sum.
pub fn performance(snapshots: &[Snapshot], fills: &[Fill], usd_krw: Decimal) -> (r: Option<Performance>)
    ensures
        r == performed(equities(snapshots@), fill_views(fills@), usd_krw),
{
    let mut equity: Vec<Decimal> = Vec::new();
    let mut i: usize = 0;
    while i < snapshots.len()
        invariant
            i <= snapshots@.len(),
            equity@ == equities(snapshots@).take(i as int),
        decreases snapshots@.len() - i,
    {
        equity.push(snapshots[i].equity_krw);
        i += 1;
        assert(equities(snapshots@).take(i as int) =~= equities(snapshots@).take(i - 1).push(
            snapshots@[i - 1].equity_krw,
        ));
    }
    assert(equities(snapshots@).take(i as int) =~= equities(snapshots@));
    let n = equity.len();
    let mut start = Decimal::zero();
    let mut end = Decimal::zero();
    let mut average = Decimal::zero();
    if n > 0 {
        start = equity[0];
        end = equity[n - 1];
        average = mean(&equity)?;
    }
    let return_pct = gain_of(start, end)?;
    let worst = drawdown(&equity)?;
    let s = add_fills(fills, usd_krw)?;
    let mut win_rate_pct: Option<Decimal> = None;
    if s.sells > 0 {
        win_rate_pct = Some(percent_of(Decimal::from_count(s.wins), Decimal::from_count(s.sells))?.round_dp(2));
    }
    let mut turnover: Option<Decimal> = None;
    if average.is_positive() && fills.len() > 0 {
        turnover = Some(s.traded.checked_div(average)?.round_dp(2));
    }
    Some(
        Performance {
            start_equity_krw: start,
            end_equity_krw: end,
            return_pct,
            max_drawdown_pct: worst.round_dp(2),
            trades: fills.len(),
            sells: s.sells,
            win_rate_pct,
            realized_pnl_krw: s.profit.round_dp(0),
            fees_krw: s.costs.round_dp(0),
            turnover,
        },
    )
}

/// Whether a fall of `d` percent covers that from one equity to a later one, up to the last places of a
/// decimal.
pub open spec fn covers_fall(e: Seq<Decimal>, i: int, j: int, d: int) -> bool {
    (d + 100) * e[i].value() >= 100 * (e[i].value() - e[j].value()) * unit()
}

/// Whether a fall of `d` percent is that from one equity to a later one, up to the last places of a
/// decimal.
pub open spec fn is_fall(e: Seq<Decimal>, i: int, j: int, d: int) -> bool {
    e[i].value() > 0 && abs_int(d * e[i].value() - 100 * (e[i].value() - e[j].value()) * unit()) <= 100 * e[i].value()
}

/// Whether a fall is that between two of the first `n` equities.
pub open spec fn fell(e: Seq<Decimal>, n: int, d: int) -> bool {
    exists|i: int, j: int| 0 <= i <= j < n && #[trigger] is_fall(e, i, j, d)
}

/// Whether no equity is negative and decimals hold how far each is above each other.
pub open spec fn falls_held(e: Seq<Decimal>) -> bool {
    &&& forall|i: int| 0 <= i < e.len() ==> (#[trigger] e[i]).value() >= 0
    &&& forall|i: int, j: int|
        0 <= i < e.len() && 0 <= j < e.len() ==> representable((#[trigger] e[i]).value() - (#[trigger] e[j]).value())
}

/// By how many percent a part of a whole: exact up to the last places of a decimal.
pub proof fn lemma_percent(part: Decimal, whole: Decimal)
    requires
        whole.value() > 0,
        abs_int(part.value()) <= whole.value() * pow10(20),
    ensures
        percent(Some(part), whole) matches Some(x) ==> x.valid() && abs_int(
            x.value() * whole.value() - 100 * part.value() * unit(),
        ) <= 100 * max_int(abs_int(part.value()), whole.value()) && (part.value() >= 0 ==> x.value() >= 0),
{
    lemma_quotient(part, whole);
    lemma_unit();
    lemma_pow10_positive(20);
    reveal_with_fuel(pow10, 21);
    if let Some(q) = part.over(whole) {
        let a = part.value();
        let b = whole.value();
        let e = max_int(abs_int(a), b);
        let x = q.value();
        assert(abs_int(x) * b <= abs_int(a) * unit() + e) by (nonlinear_arith)
            requires
                abs_int(x * b - a * unit()) <= e,
                b > 0,
                unit() == 10000000000000000000000000000,
        ;
        assert(b <= b * pow10(20)) by (nonlinear_arith)
            requires
                b > 0,
                pow10(20) > 0,
        ;
        assert(100 * abs_int(x) <= MAX_MANTISSA * unit()) by (nonlinear_arith)
            requires
                abs_int(x) * b <= abs_int(a) * unit() + e,
                e <= b * pow10(20),
                abs_int(a) <= b * pow10(20),
                pow10(20) == 100000000000000000000,
                unit() == 10000000000000000000000000000,
                b > 0,
        ;
        lemma_hundredfold(q);
        assert(100 * a * unit() == 100 * (a * unit())) by (nonlinear_arith);
        assert((100 * x) * b == 100 * (x * b)) by (nonlinear_arith);
        assert(abs_int(100 * (x * b) - 100 * (a * unit())) == 100 * abs_int(x * b - a * unit()));
    }
}

/// The fall below the highest equity so far covers that below any equity so far.
proof fn lemma_highest_covers(e: Seq<Decimal>, k: int, high: int, j: int, d: int)
    requires
        0 <= k < e.len(),
        0 <= j < e.len(),
        0 < e[k].value() <= high,
        e[j].value() >= 0,
        (d + 100) * high >= 100 * (high - e[j].value()) * unit(),
    ensures
        covers_fall(e, k, j, d),
{
    lemma_unit();
    let b = e[k].value();
    let x = e[j].value();
    let u = unit();
    let c = d + 100;
    assert(c * b * high >= (100 * (high - x) * u) * b) by (nonlinear_arith)
        requires
            c * high >= 100 * (high - x) * u,
            b > 0,
    ;
    assert((100 * (high - x) * u) * b >= (100 * (b - x) * u) * high) by (nonlinear_arith)
        requires
            0 < b <= high,
            x >= 0,
            u == 10000000000000000000000000000,
    ;
    assert(c * b >= 100 * (b - x) * u) by (nonlinear_arith)
        requires
            (c * b) * high >= (100 * (b - x) * u) * high,
            high > 0,
            c * b * high == (c * b) * high,
    ;
}

proof fn lemma_drawdown_from(e: Seq<Decimal>, i: int, peak: Decimal, at: int, worst: Decimal)
    requires
        0 <= i <= e.len(),
        falls_held(e),
        forall|k: int| 0 <= k < i ==> (#[trigger] e[k]).value() <= peak.value(),
        peak.value() == 0 || (0 <= at < i && peak == e[at]),
        worst.valid(),
        worst.value() == 0 || fell(e, i, worst.value()),
        worst.value() >= 0,
        forall|k: int, j: int|
            0 <= k <= j < i && (#[trigger] e[k]).value() > 0 ==> #[trigger] covers_fall(e, k, j, worst.value()),
    ensures
        drawdown_from(e, i, peak, worst) matches Some(d) ==> {
            &&& d.valid()
            &&& d.value() >= 0
            &&& d.value() == 0 || fell(e, e.len() as int, d.value())
            &&& forall|k: int, j: int|
                0 <= k <= j < e.len() && (#[trigger] e[k]).value() > 0 ==> #[trigger] covers_fall(e, k, j, d.value())
        },
    decreases e.len() - i,
{
    if i < e.len() {
        let high = peak.greater(e[i]);
        let now = if high == e[i] {
            i
        } else {
            at
        };
        if high.value() > 0 {
            let h = high.value();
            assert(high == e[now]);
            assert(representable(e[now].value() - e[i].value()));
            lemma_sums(high, e[i]);
            if let Some(part) = high.minus(e[i]) {
                lemma_pow10_positive(20);
                assert(h <= h * pow10(20)) by (nonlinear_arith)
                    requires
                        h > 0,
                        pow10(20) > 0,
                ;
                lemma_percent(part, high);
                if let Some(fall) = percent(Some(part), high) {
                    let f = fall.value();
                    let next = worst.greater(fall);
                    assert(is_fall(e, now, i, f));
                    assert(fell(e, i + 1, f));
                    if worst.value() != 0 {
                        let (a, b) = choose|a: int, b: int| 0 <= a <= b < i && #[trigger] is_fall(e, a, b, worst.value());
                        assert(is_fall(e, a, b, worst.value()));
                    }
                    assert((f + 100) * h >= 100 * (h - e[i].value()) * unit()) by (nonlinear_arith)
                        requires
                            f * h - 100 * (h - e[i].value()) * unit() >= -(100 * h),
                    ;
                    assert forall|k: int, j: int|
                        0 <= k <= j < i + 1 && (#[trigger] e[k]).value() > 0 implies #[trigger] covers_fall(
                        e,
                        k,
                        j,
                        next.value(),
                    ) by {
                        let m = if j < i {
                            worst.value()
                        } else {
                            f
                        };
                        if j == i {
                            lemma_highest_covers(e, k, h, i, f);
                        } else {
                            assert(covers_fall(e, k, j, worst.value()));
                        }
                        assert((next.value() + 100) * e[k].value() >= (m + 100) * e[k].value()) by (nonlinear_arith)
                            requires
                                next.value() >= m,
                                e[k].value() > 0,
                        ;
                    }
                    lemma_drawdown_from(e, i + 1, high, now, next);
                }
            }
        } else {
            assert(e[i].value() == 0);
            if worst.value() != 0 {
                let (a, b) = choose|a: int, b: int| 0 <= a <= b < i && #[trigger] is_fall(e, a, b, worst.value());
                assert(is_fall(e, a, b, worst.value()));
            }
            assert forall|k: int, j: int|
                0 <= k <= j < i + 1 && (#[trigger] e[k]).value() > 0 implies #[trigger] covers_fall(
                e,
                k,
                j,
                worst.value(),
            ) by {
                assert(e[k].value() <= high.value());
            }
            lemma_drawdown_from(e, i + 1, high, now, worst);
        }
    }
}

/// The drawdown is the largest fall from any equity to any later one, in percent of the first: it covers
/// each, and is that of one of them, or nothing. It is given to two places. No equity is negative, and
/// decimals hold how far each is above each other.
pub proof fn law_drawdown_is_the_largest_fall(e: Seq<Decimal>, fills: Seq<FillView>, usd_krw: Decimal)
    requires
        falls_held(e),
        performed(e, fills, usd_krw) is Some,
    ensures
        ({
            let d = performed(e, fills, usd_krw)->0.max_drawdown_pct.value();
            let slack = 2 * 100 + pow10(26);
            &&& forall|i: int, j: int|
                0 <= i <= j < e.len() && (#[trigger] e[i]).value() > 0 ==> (2 * d + slack) * e[i].value() >= 2 * (100 * (
                e[i].value() - (#[trigger] e[j]).value()) * unit())
            &&& d == 0 || exists|i: int, j: int|
                0 <= i <= j < e.len() && (#[trigger] e[i]).value() > 0 && abs_int(
                    2 * d * e[i].value() - 2 * (100 * (e[i].value() - (#[trigger] e[j]).value()) * unit()),
                ) <= slack * e[i].value()
        }),
{
    lemma_dec_parts(0, 0);
    lemma_drawdown_from(e, 0, zero(), 0, zero());
    let raw = drawdown_from(e, 0, zero(), zero())->0;
    let w = raw.value();
    lemma_rounded(raw, 2);
    let d = raw.rounded(2).value();
    let g = pow10(26);
    let slack = 2 * 100 + g;
    assert forall|i: int, j: int|
        0 <= i <= j < e.len() && (#[trigger] e[i]).value() > 0 implies (2 * d + slack) * e[i].value() >= 2 * (100 * (
    e[i].value() - (#[trigger] e[j]).value()) * unit()) by {
        assert(covers_fall(e, i, j, w));
        assert((2 * d + slack) * e[i].value() >= 2 * ((w + 100) * e[i].value())) by (nonlinear_arith)
            requires
                2 * d + slack >= 2 * (w + 100),
                e[i].value() > 0,
        ;
    }
    if w == 0 {
        lemma_rounded_keeps_sides(raw, zero(), 2);
    } else {
        let (i, j) = choose|i: int, j: int| 0 <= i <= j < e.len() && #[trigger] is_fall(e, i, j, w);
        let b = e[i].value();
        let x = 100 * (b - e[j].value()) * unit();
        assert(abs_int(2 * d * b - 2 * x) <= slack * b) by (nonlinear_arith)
            requires
                -g <= 2 * (d - w) <= g,
                -(100 * b) <= w * b - x <= 100 * b,
                b > 0,
                slack == 2 * 100 + g,
        ;
        assert(e[i].value() > 0 && e[j].value() >= 0);
    }
}

/// The return is the gain from the first equity to the last in percent of the first, to two places, and
/// there is none on nothing.
pub proof fn law_the_return_is_from_first_to_last(e: Seq<Decimal>, fills: Seq<FillView>, usd_krw: Decimal)
    requires
        performed(e, fills, usd_krw) is Some,
        e.len() > 0,
        representable(e[e.len() - 1].value() - e[0].value()),
        abs_int(e[e.len() - 1].value() - e[0].value()) <= e[0].value() * pow10(20) || e[0].value() <= 0,
    ensures
        ({
            let p = performed(e, fills, usd_krw)->0;
            let a = e[0].value();
            let z = e[e.len() - 1].value();
            let r = p.return_pct.value();
            &&& p.start_equity_krw == e[0]
            &&& p.end_equity_krw == e[e.len() - 1]
            &&& a <= 0 ==> r == 0
            &&& a > 0 ==> abs_int(2 * r * a - 2 * (100 * (z - a) * unit())) <= a * pow10(26) + 200 * max_int(
                abs_int(z - a),
                a,
            )
        }),
{
    lemma_dec_parts(0, 0);
    let start = e[0];
    let end = e.last();
    let a = start.value();
    if a > 0 {
        lemma_sums(end, start);
        let part = end.minus(start)->0;
        lemma_percent(part, start);
        let x = percent(Some(part), start)->0;
        lemma_rounded(x, 2);
        let r = x.rounded(2).value();
        let g = pow10(26);
        let v = x.value();
        let t = 100 * part.value() * unit();
        let m = max_int(abs_int(part.value()), a);
        assert(abs_int(2 * r * a - 2 * t) <= a * g + 200 * m) by (nonlinear_arith)
            requires
                -g <= 2 * (r - v) <= g,
                -(100 * m) <= v * a - t <= 100 * m,
                a > 0,
        ;
    }
}

/// How many fills are sells.
pub open spec fn sell_count(fills: Seq<FillView>) -> nat {
    fills.filter(|f: FillView| f.side == Side::Sell).len()
}

/// How many fills are sells with a profit.
pub open spec fn win_count(fills: Seq<FillView>) -> nat {
    fills.filter(|f: FillView| f.side == Side::Sell && f.realized_pnl is Some && f.realized_pnl->0.value() > 0).len()
}

/// Won per unit of a fill's currency: one for won, and the dollar's rate for the rest.
pub open spec fn won_rate(f: FillView, usd_krw: Decimal) -> int {
    if f.instrument.0.currency() == Currency::Krw {
        unit()
    } else {
        usd_krw.value()
    }
}

/// What fills came to in won, exactly: the value traded, the profits of the sells, and fees and taxes.
pub open spec fn exact_totals(fills: Seq<FillView>, usd_krw: Decimal) -> (int, int, int)
    decreases fills.len(),
{
    if fills.len() == 0 {
        (0, 0, 0)
    } else {
        let (traded, profit, costs) = exact_totals(fills.drop_last(), usd_krw);
        let f = fills.last();
        let rate = won_rate(f, usd_krw);
        (
            traded + f.notional.value() * rate / unit(),
            profit + if f.side == Side::Sell && f.realized_pnl is Some {
                f.realized_pnl->0.value() * rate / unit()
            } else {
                0
            },
            costs + (f.fee.value() + f.tax.value()) * rate / unit(),
        )
    }
}

/// Whether decimals hold a fill's amounts in won.
pub open spec fn fill_held(f: FillView, usd_krw: Decimal) -> bool {
    let rate = won_rate(f, usd_krw);
    &&& representable(f.fee.value() + f.tax.value())
    &&& (f.notional.value() * rate) % unit() == 0 && representable(f.notional.value() * rate / unit())
    &&& ((f.fee.value() + f.tax.value()) * rate) % unit() == 0 && representable(
        (f.fee.value() + f.tax.value()) * rate / unit(),
    )
    &&& f.realized_pnl matches Some(x) ==> (x.value() * rate) % unit() == 0 && representable(x.value() * rate / unit())
}

/// Whether decimals hold the amounts in won and each of their sums on the way.
pub open spec fn fills_held(fills: Seq<FillView>, usd_krw: Decimal) -> bool {
    &&& forall|i: int| 0 <= i < fills.len() ==> fill_held(#[trigger] fills[i], usd_krw)
    &&& forall|k: int|
        0 <= k <= fills.len() ==> {
            let t = #[trigger] exact_totals(fills.take(k), usd_krw);
            representable(t.0) && representable(t.1) && representable(t.2)
        }
}

proof fn lemma_in_won(f: FillView, x: Decimal, usd_krw: Decimal)
    requires
        (x.value() * won_rate(f, usd_krw)) % unit() == 0,
        representable(x.value() * won_rate(f, usd_krw) / unit()),
    ensures
        in_won(f, Some(x), usd_krw) matches Some(y) ==> y.value() == x.value() * won_rate(f, usd_krw) / unit(),
{
    lemma_dec_parts(1, 0);
    lemma_unit();
    lemma_product(x, won_per(f.instrument.0.currency(), usd_krw));
}

proof fn lemma_sums_from(fills: Seq<FillView>, usd_krw: Decimal, i: int, s: TradeSums)
    requires
        0 <= i <= fills.len(),
        fills_held(fills, usd_krw),
        (s.traded.value(), s.profit.value(), s.costs.value()) == exact_totals(fills.take(i), usd_krw),
        s.sells == sell_count(fills.take(i)),
        s.wins == win_count(fills.take(i)),
    ensures
        sums_from(fills, usd_krw, i, s) matches Some(t) ==> {
            &&& (t.traded.value(), t.profit.value(), t.costs.value()) == exact_totals(fills, usd_krw)
            &&& t.sells == sell_count(fills)
            &&& t.wins == win_count(fills)
        },
    decreases fills.len() - i,
{
    if i < fills.len() {
        let f = fills[i];
        let so_far = fills.take(i);
        let more = fills.take(i + 1);
        assert(more =~= so_far.push(f));
        assert(more.drop_last() =~= so_far);
        reveal(Seq::filter);
        assert(fill_held(f, usd_krw));
        let t = exact_totals(more, usd_krw);
        assert(representable(t.0) && representable(t.1) && representable(t.2));
        lemma_dec_parts(0, 0);
        lemma_sums(f.fee, f.tax);
        lemma_in_won(f, f.notional, usd_krw);
        if let Some(cost) = f.fee.plus(f.tax) {
            lemma_in_won(f, cost, usd_krw);
            if let Some(y) = in_won(f, Some(cost), usd_krw) {
                lemma_sums(s.costs, y);
            }
        }
        if let Some(y) = in_won(f, Some(f.notional), usd_krw) {
            lemma_sums(s.traded, y);
        }
        let r = realized(f);
        if f.side == Side::Sell {
            if f.realized_pnl is None {
                let rate = won_rate(f, usd_krw);
                lemma_unit();
                assert(r.value() * rate == 0) by (nonlinear_arith)
                    requires
                        r.value() == 0,
                ;
                assert(valid_parts(0, 0) && 0 == parts_value(0, 0));
            }
            lemma_in_won(f, r, usd_krw);
            if let Some(y) = in_won(f, Some(r), usd_krw) {
                lemma_sums(s.profit, y);
            }
        }
        if let Some(next) = one_more(s, f, usd_krw) {
            lemma_sums_from(fills, usd_krw, i + 1, next);
        }
    } else {
        assert(fills.take(i) =~= fills);
    }
}

/// What the fills of a performance come to: how many there were and how many of them sold, the profits of
/// the sells and all fees and taxes in won, to the won, the share of the sells that won something in
/// percent, to two places, and how often the average equity was turned over. Decimals hold the amounts.
pub proof fn law_fills_are_counted_in(e: Seq<Decimal>, fills: Seq<FillView>, usd_krw: Decimal)
    requires
        performed(e, fills, usd_krw) is Some,
        fills_held(fills, usd_krw),
        fills.len() <= usize::MAX,
    ensures
        ({
            let p = performed(e, fills, usd_krw)->0;
            let (traded, profit, costs) = exact_totals(fills, usd_krw);
            let n = sell_count(fills) as int;
            &&& p.trades == fills.len()
            &&& p.sells == n
            &&& 2 * abs_int(p.realized_pnl_krw.value() - profit) <= unit()
            &&& 2 * abs_int(p.fees_krw.value() - costs) <= unit()
            &&& p.win_rate_pct is Some <==> n > 0
            &&& p.win_rate_pct matches Some(w) ==> abs_int(
                2 * w.value() * n - 2 * (100 * win_count(fills) * unit()),
            ) <= n * pow10(26) + 200 * n
            &&& p.turnover is Some <==> fills.len() > 0 && e.len() > 0 && mean_of(e)->0.value() > 0
            &&& p.turnover matches Some(t) ==> {
                let m = mean_of(e)->0.value();
                abs_int(2 * t.value() * m - 2 * (traded * unit())) <= m * pow10(26) + 2 * max_int(abs_int(traded), m)
            }
        }),
{
    let none = Seq::<FillView>::empty();
    assert(fills.take(0) =~= none);
    reveal(Seq::filter);
    lemma_dec_parts(0, 0);
    lemma_unit();
    assert(sell_count(none) == 0 && win_count(none) == 0);
    lemma_sums_from(fills, usd_krw, 0, no_sums());
    let s = sums_from(fills, usd_krw, 0, no_sums())->0;
    lemma_valid_sums(fills, usd_krw, 0, no_sums());
    lemma_rounded(s.profit, 0);
    lemma_rounded(s.costs, 0);
    lemma_counts(fills);
    let n = s.sells as int;
    let g = pow10(26);
    if n > 0 {
        let k = s.wins as int;
        lemma_dec_parts(k, 0);
        lemma_dec_parts(n, 0);
        let part = dec(k, 0);
        let whole = dec(n, 0);
        let u = unit();
        assert(0 <= part.value() <= whole.value() && whole.value() > 0) by (nonlinear_arith)
            requires
                part.value() == k * u,
                whole.value() == n * u,
                0 <= k <= n,
                n > 0,
                u == 10000000000000000000000000000,
        ;
        lemma_pow10_positive(20);
        assert(whole.value() <= whole.value() * pow10(20)) by (nonlinear_arith)
            requires
                whole.value() > 0,
                pow10(20) > 0,
        ;
        lemma_percent(part, whole);
        let x = percent(Some(part), whole)->0;
        lemma_rounded(x, 2);
        let w = x.rounded(2).value();
        let v = x.value();
        assert(abs_int(v * n - 100 * k * u) <= 100 * n) by (nonlinear_arith)
            requires
                -(100 * (n * u)) <= v * (n * u) - 100 * (k * u) * u <= 100 * (n * u),
                u == 10000000000000000000000000000,
        ;
        assert(abs_int(2 * w * n - 2 * (100 * k * u)) <= n * g + 200 * n) by (nonlinear_arith)
            requires
                -g <= 2 * (w - v) <= g,
                -(100 * n) <= v * n - 100 * k * u <= 100 * n,
                n > 0,
        ;
    }
    if fills.len() > 0 && e.len() > 0 && mean_of(e)->0.value() > 0 {
        let avg = mean_of(e)->0;
        lemma_quotient(s.traded, avg);
        let q = s.traded.over(avg)->0;
        lemma_rounded(q, 2);
        let t = q.rounded(2).value();
        let m = avg.value();
        let v = q.value();
        let x = s.traded.value() * unit();
        let c = max_int(abs_int(s.traded.value()), m);
        assert(abs_int(2 * t * m - 2 * x) <= m * g + 2 * c) by (nonlinear_arith)
            requires
                -g <= 2 * (t - v) <= g,
                -c <= v * m - x <= c,
                m > 0,
        ;
    }
}

proof fn lemma_counts(fills: Seq<FillView>)
    ensures
        win_count(fills) <= sell_count(fills) <= fills.len(),
    decreases fills.len(),
{
    reveal(Seq::filter);
    if fills.len() > 0 {
        lemma_counts(fills.drop_last());
    }
}

proof fn lemma_valid_sums(fills: Seq<FillView>, usd_krw: Decimal, i: int, s: TradeSums)
    requires
        0 <= i <= fills.len(),
        s.profit.valid(),
        s.costs.valid(),
    ensures
        sums_from(fills, usd_krw, i, s) matches Some(t) ==> t.profit.valid() && t.costs.valid(),
    decreases fills.len() - i,
{
    if i < fills.len() {
        let f = fills[i];
        if let Some(next) = one_more(s, f, usd_krw) {
            lemma_sums(s.costs, in_won(f, f.fee.plus(f.tax), usd_krw)->0);
            if f.side == Side::Sell {
                lemma_sums(s.profit, in_won(f, Some(realized(f)), usd_krw)->0);
            }
            lemma_valid_sums(fills, usd_krw, i + 1, next);
        }
    }
}

/// Only the daily snapshots count for daily equity, and they count in their order.
pub proof fn law_daily_equity_is_that_of_the_daily_snapshots(s: Seq<Snapshot>)
    ensures
        daily_equities(s) == equities(s.filter(|x: Snapshot| x.kind == SnapshotKind::Daily)),
    decreases s.len(),
{
    reveal(Seq::filter);
    let daily = s.filter(|x: Snapshot| x.kind == SnapshotKind::Daily);
    if s.len() > 0 {
        law_daily_equity_is_that_of_the_daily_snapshots(s.drop_last());
        let rest = s.drop_last().filter(|x: Snapshot| x.kind == SnapshotKind::Daily);
        if s.last().kind == SnapshotKind::Daily {
            assert(daily =~= rest.push(s.last()));
            assert(equities(daily) =~= equities(rest).push(s.last().equity_krw));
        }
    } else {
        assert(equities(daily) =~= Seq::<Decimal>::empty());
    }
}

} // verus!
