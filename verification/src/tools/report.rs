//! What an account holds and what a company reports, as the agent is told.
use crate::accounts::{krw_per, AccountRow};
use crate::broker::world::won_per;
use crate::broker::{SimBroker, World};
use crate::candles::{resample, resampled, Candle, Interval};
use crate::decimal::{dec, opt_plus, opt_rounded, opt_times, zero, Decimal};
use crate::domain::{id_text, Currency, InstrumentId, Venue};
use crate::fundamentals::{period_views, quarter_view, ratios, ratios_of, Fundamentals, PeriodFinancials};
use crate::ledger::{amount_of, cash_available, Portfolio, PortfolioView, Position};
use crate::table::Table;
use crate::time::Timestamp;
use crate::tools::Filer;
use vstd::prelude::*;

verus! {

/// One valued position. `value` is at the current price, `value_krw` is that in won.
#[derive(Debug)]
pub struct ValueLine {
    pub id: InstrumentId,
    /// Empty where the instrument is not loaded.
    pub name: String,
    pub qty: Decimal,
    pub avg_cost: Decimal,
    pub price: Option<Decimal>,
    pub value: Decimal,
    pub value_krw: Decimal,
}

/// The figures of a position as they are told.
#[derive(Debug, Clone, Copy, PartialEq)]
pub struct PositionFigures {
    pub avg_cost: Decimal,
    pub unrealized_pnl: Decimal,
    pub unrealized_pct: Decimal,
    /// Share of account equity, percent.
    pub weight_pct: Decimal,
}

/// Profit over cost, in percent to two places; zero where there was no cost.
pub open spec fn profit_pct(profit: Decimal, cost: Decimal) -> Option<Decimal> {
    if cost.value() == 0 {
        Some(zero())
    } else {
        opt_rounded(opt_times(profit.over(cost), Some(dec(100, 0))), 2)
    }
}

/// The figures of a position; nothing where a decimal cannot hold one.
pub open spec fn figures_of(
    qty: Decimal,
    avg_cost: Decimal,
    value: Decimal,
    value_krw: Decimal,
    equity_krw: Decimal,
    places: int,
) -> Option<PositionFigures> {
    match qty.times(avg_cost) {
        Some(cost) => match value.minus(cost) {
            Some(profit) => match (profit_pct(profit, cost), profit_pct(value_krw, equity_krw)) {
                (Some(pct), Some(weight)) => Some(
                    PositionFigures {
                        avg_cost: avg_cost.rounded(8),
                        unrealized_pnl: profit.rounded(places),
                        unrealized_pct: pct,
                        weight_pct: weight,
                    },
                ),
                _ => None,
            },
            None => None,
        },
        None => None,
    }
}

fn pct(profit: Decimal, cost: Decimal) -> (r: Option<Decimal>)
    ensures
        r == profit_pct(profit, cost),
{
    if cost.is_zero() {
        return Some(Decimal::zero());
    }
    Some(profit.checked_div(cost)?.checked_mul(Decimal::new(100, 0))?.round_dp(2))
}

/// The figures of a position.
pub fn figures(l: &ValueLine, equity_krw: Decimal) -> (r: Option<PositionFigures>)
    ensures
        r == figures_of(
            l.qty,
            l.avg_cost,
            l.value,
            l.value_krw,
            equity_krw,
            l.id.venue.currency().decimals() as int,
        ),
{
    let cost = l.qty.checked_mul(l.avg_cost)?;
    let profit = l.value.checked_sub(cost)?;
    let unrealized_pct = pct(profit, cost)?;
    let weight_pct = pct(l.value_krw, equity_krw)?;
    Some(
        PositionFigures {
            avg_cost: l.avg_cost.round_dp(8),
            unrealized_pnl: profit.round_dp(l.id.venue.currency().decimals()),
            unrealized_pct,
            weight_pct,
        },
    )
}

/// The cash of one currency.
#[derive(Debug, Clone, Copy, PartialEq)]
pub struct CashView {
    pub currency: Currency,
    pub balance: Decimal,
    /// Balance minus cash reserved for open buy orders.
    pub available: Decimal,
}

/// The cash of a currency, if the account has any; the outer option is none where a decimal cannot
/// hold what is available.
pub open spec fn cash_of(pf: PortfolioView, c: Currency) -> Option<Option<CashView>> {
    if pf.cash.contains_key(c) {
        match cash_available(pf, c) {
            Some(available) => Some(Some(CashView { currency: c, balance: pf.cash[c], available })),
            None => None,
        }
    } else {
        Some(None)
    }
}

/// The cash of an account, in won, dollars and USDT.
pub open spec fn cash_listed(pf: PortfolioView) -> Option<Seq<CashView>> {
    match (cash_of(pf, Currency::Krw), cash_of(pf, Currency::Usd), cash_of(pf, Currency::Usdt)) {
        (Some(a), Some(b), Some(c)) => Some(listed(a) + listed(b) + listed(c)),
        _ => None,
    }
}

/// An optional row as rows.
pub open spec fn listed(c: Option<CashView>) -> Seq<CashView> {
    match c {
        Some(c) => seq![c],
        None => Seq::empty(),
    }
}

fn add_cash(out: &mut Vec<CashView>, pf: &Portfolio, c: Currency) -> (ok: bool)
    requires
        pf.wf(),
    ensures
        match cash_of(pf@, c) {
            Some(x) => ok && final(out)@ == old(out)@ + listed(x),
            None => !ok,
        },
{
    match pf.cash.get(&c) {
        Some(b) => match pf.available_cash(c) {
            Some(available) => {
                let ghost before = out@;
                out.push(CashView { currency: c, balance: *b, available });
                assert(out@ =~= before + seq![CashView { currency: c, balance: *b, available }]);
                true
            },
            None => false,
        },
        None => {
            assert(out@ =~= out@ + Seq::<CashView>::empty());
            true
        },
    }
}

/// The cash of an account, in won, dollars and USDT.
pub fn list_cash(pf: &Portfolio) -> (r: Option<Vec<CashView>>)
    requires
        pf.wf(),
    ensures
        match cash_listed(pf@) {
            Some(s) => r matches Some(v) && v@ == s,
            None => r is None,
        },
{
    let mut out: Vec<CashView> = Vec::new();
    if !add_cash(&mut out, pf, Currency::Krw) {
        return None;
    }
    if !add_cash(&mut out, pf, Currency::Usd) {
        return None;
    }
    if !add_cash(&mut out, pf, Currency::Usdt) {
        return None;
    }
    assert(Seq::<CashView>::empty() + listed(cash_of(pf@, Currency::Krw)->0) =~= listed(
        cash_of(pf@, Currency::Krw)->0,
    ));
    Some(out)
}

/// What a valued position says.
pub ghost struct LineView {
    pub id: (Venue, Seq<char>),
    pub name: Seq<char>,
    pub qty: Decimal,
    pub avg_cost: Decimal,
    pub price: Option<Decimal>,
    pub value: Decimal,
    pub value_krw: Decimal,
}

impl View for ValueLine {
    type V = LineView;

    open spec fn view(&self) -> LineView {
        LineView {
            id: self.id@,
            name: self.name@,
            qty: self.qty,
            avg_cost: self.avg_cost,
            price: self.price,
            value: self.value,
            value_krw: self.value_krw,
        }
    }
}

impl Clone for ValueLine {
    fn clone(&self) -> (r: ValueLine)
        ensures
            r@ == self@,
    {
        ValueLine {
            id: self.id.clone(),
            name: self.name.clone(),
            qty: self.qty,
            avg_cost: self.avg_cost,
            price: self.price,
            value: self.value,
            value_krw: self.value_krw,
        }
    }
}

/// Valued positions as what they say.
pub open spec fn line_views(v: Seq<ValueLine>) -> Seq<LineView> {
    v.map_values(|l: ValueLine| l@)
}

/// What an account is worth: its positions line by line, and all of it in won.
#[derive(Debug)]
pub struct Valuation {
    pub lines: Vec<ValueLine>,
    pub positions_krw: Decimal,
    pub equity_krw: Decimal,
}

/// A position at its current price, or at cost where there is none; nothing where a decimal cannot
/// hold its value.
pub open spec fn valued(
    w: World,
    id: (Venue, Seq<char>),
    p: Position,
    marks: Map<(Venue, Seq<char>), Decimal>,
    usd_krw: Decimal,
) -> Option<LineView> {
    let price = if marks.contains_key(id) {
        Some(marks[id])
    } else {
        None
    };
    let value = p.qty.times(if price is Some {
        price->0
    } else {
        p.avg_cost
    });
    match (value, opt_times(value, Some(won_per(id.0.currency(), usd_krw)))) {
        (Some(value), Some(value_krw)) => Some(
            LineView {
                id,
                name: if w.instruments.contains_key(id) {
                    w.instruments[id].name
                } else {
                    Seq::empty()
                },
                qty: p.qty,
                avg_cost: p.avg_cost,
                price,
                value,
                value_krw,
            },
        ),
        _ => None,
    }
}

/// The first `n` positions that are not flat, and what they come to in won.
pub open spec fn all_valued(
    w: World,
    rows: Seq<((Venue, Seq<char>), Position)>,
    marks: Map<(Venue, Seq<char>), Decimal>,
    usd_krw: Decimal,
    n: int,
) -> Option<(Seq<LineView>, Decimal)>
    decreases n,
{
    if n <= 0 {
        Some((Seq::empty(), zero()))
    } else {
        match all_valued(w, rows, marks, usd_krw, n - 1) {
            None => None,
            Some((lines, sum)) => {
                let (id, p) = rows[n - 1];
                if p.qty.value() == 0 {
                    Some((lines, sum))
                } else {
                    match valued(w, id, p, marks, usd_krw) {
                        None => None,
                        Some(l) => match sum.plus(l.value_krw) {
                            Some(s) => Some((lines.push(l), s)),
                            None => None,
                        },
                    }
                }
            },
        }
    }
}

proof fn lemma_valued_none(
    w: World,
    rows: Seq<((Venue, Seq<char>), Position)>,
    marks: Map<(Venue, Seq<char>), Decimal>,
    usd_krw: Decimal,
    i: int,
    n: int,
)
    requires
        0 <= i <= n,
        all_valued(w, rows, marks, usd_krw, i) is None,
    ensures
        all_valued(w, rows, marks, usd_krw, n) is None,
    decreases n,
{
    if i < n {
        lemma_valued_none(w, rows, marks, usd_krw, i, n - 1);
    }
}

/// The cash of an account in won.
pub open spec fn cash_worth(pf: PortfolioView, usd_krw: Decimal) -> Option<Decimal> {
    opt_plus(
        opt_plus(
            amount_of(pf.cash, Currency::Krw).times(won_per(Currency::Krw, usd_krw)),
            amount_of(pf.cash, Currency::Usd).times(won_per(Currency::Usd, usd_krw)),
        ),
        amount_of(pf.cash, Currency::Usdt).times(won_per(Currency::Usdt, usd_krw)),
    )
}

fn value_line(
    broker: &SimBroker,
    id: &InstrumentId,
    p: &Position,
    marks: &Table<InstrumentId, Decimal>,
    usd_krw: Decimal,
) -> (r: Option<ValueLine>)
    requires
        broker.wf(),
        marks.wf(),
    ensures
        match valued(broker@, id@, *p, marks@, usd_krw) {
            Some(l) => r matches Some(x) && x@ == l,
            None => r is None,
        },
{
    let price = match marks.get(id) {
        Some(m) => Some(*m),
        None => None,
    };
    let value = p.qty.checked_mul(
        match price {
            Some(m) => m,
            None => p.avg_cost,
        },
    )?;
    let value_krw = value.checked_mul(krw_per(id.venue.currency(), usd_krw))?;
    let name = match broker.instruments.get(id) {
        Some(i) => i.name.clone(),
        None => String::new(),
    };
    assert(!broker@.instruments.contains_key(id@) ==> name@ =~= Seq::empty());
    Some(ValueLine { id: id.clone(), name, qty: p.qty, avg_cost: p.avg_cost, price, value, value_krw })
}

/// What an account is worth at the current prices that are known; `None` where a decimal cannot hold
/// a value.
pub fn value_account(broker: &SimBroker, pf: &Portfolio, marks: &Table<InstrumentId, Decimal>, usd_krw: Decimal) -> (r:
    Option<Valuation>)
    requires
        broker.wf(),
        pf.wf(),
        marks.wf(),
    ensures
        match (
            all_valued(broker@, pf.positions.rows(), marks@, usd_krw, pf.positions.rows().len() as int),
            cash_worth(pf@, usd_krw),
        ) {
            (Some((lines, sum)), Some(cash)) => match sum.plus(cash) {
                Some(equity) => r matches Some(v) && line_views(v.lines@) == lines && v.positions_krw == sum
                    && v.equity_krw == equity,
                None => r is None,
            },
            _ => r is None,
        },
{
    let ghost rows = pf.positions.rows();
    let mut lines: Vec<ValueLine> = Vec::new();
    let mut sum = Decimal::zero();
    assert(line_views(lines@) =~= Seq::empty());
    let mut i: usize = 0;
    while i < pf.positions.len()
        invariant
            broker.wf(),
            pf.wf(),
            marks.wf(),
            rows == pf.positions.rows(),
            i <= rows.len(),
            all_valued(broker@, rows, marks@, usd_krw, i as int) == Some((line_views(lines@), sum)),
        decreases rows.len() - i,
    {
        let id = pf.positions.key_at(i);
        let p = pf.positions.value_at(i);
        if !p.qty.is_zero() {
            let ghost before = line_views(lines@);
            let l = match value_line(broker, id, p, marks, usd_krw) {
                Some(l) => l,
                None => {
                    proof {
                        lemma_valued_none(broker@, rows, marks@, usd_krw, i + 1, rows.len() as int);
                    }
                    return None;
                },
            };
            let more = match sum.checked_add(l.value_krw) {
                Some(s) => s,
                None => {
                    proof {
                        lemma_valued_none(broker@, rows, marks@, usd_krw, i + 1, rows.len() as int);
                    }
                    return None;
                },
            };
            let ghost lv = l@;
            lines.push(l);
            assert(line_views(lines@) =~= before.push(lv));
            sum = more;
        }
        i += 1;
    }
    let won = pf.cash(Currency::Krw).checked_mul(krw_per(Currency::Krw, usd_krw))?;
    let dollars = pf.cash(Currency::Usd).checked_mul(krw_per(Currency::Usd, usd_krw))?;
    let coins = pf.cash(Currency::Usdt).checked_mul(krw_per(Currency::Usdt, usd_krw))?;
    let cash = won.checked_add(dollars)?.checked_add(coins)?;
    let equity_krw = sum.checked_add(cash)?;
    Some(Valuation { lines, positions_krw: sum, equity_krw })
}

/// A line put into its place among lines of falling value.
pub open spec fn line_in(lines: Seq<LineView>, l: LineView) -> Seq<LineView>
    decreases lines.len(),
{
    if lines.len() > 0 && lines.last().value_krw.value() < l.value_krw.value() {
        line_in(lines.drop_last(), l).push(lines.last())
    } else {
        lines.push(l)
    }
}

/// Lines in order of falling value; equal ones keep their order.
pub open spec fn by_value(lines: Seq<LineView>) -> Seq<LineView>
    decreases lines.len(),
{
    if lines.len() == 0 {
        lines
    } else {
        line_in(by_value(lines.drop_last()), lines.last())
    }
}

fn put_line(lines: &mut Vec<ValueLine>, l: ValueLine)
    ensures
        line_views(final(lines)@) == line_in(line_views(old(lines)@), l@),
{
    let ghost whole = line_views(lines@);
    let ghost lv = l@;
    let mut i: usize = lines.len();
    assert(whole.take(whole.len() as int) =~= whole);
    assert(line_in(whole, lv) + whole.skip(whole.len() as int) =~= line_in(whole, lv));
    while i > 0 && lines[i - 1].value_krw.lt(l.value_krw)
        invariant
            i <= lines@.len(),
            line_views(lines@) == whole,
            lv == l@,
            line_in(whole, lv) == line_in(whole.take(i as int), lv) + whole.skip(i as int),
        decreases i,
    {
        proof {
            let head = whole.take(i as int);
            assert(head.last() == lines@[i - 1]@);
            assert(head.drop_last() =~= whole.take(i - 1));
            assert(line_in(head.drop_last(), lv).push(head.last()) + whole.skip(i as int) =~= line_in(
                head.drop_last(),
                lv,
            ) + whole.skip(i - 1));
        }
        i -= 1;
    }
    proof {
        if i > 0 {
            assert(whole.take(i as int).last() == lines@[i - 1]@);
        }
        assert(whole.take(i as int).push(lv) + whole.skip(i as int) =~= whole.insert(i as int, lv));
    }
    lines.insert(i, l);
    assert(line_views(lines@) =~= whole.insert(i as int, lv));
}

/// A holding as it is told.
#[derive(Debug)]
pub struct PositionView {
    pub instrument: String,
    pub name: String,
    pub currency: &'static str,
    pub qty: Decimal,
    /// Current simulated mid; absent when there is no market data (valued at cost then).
    pub price: Option<Decimal>,
    pub market_value: Decimal,
    pub figures: PositionFigures,
}

/// What a holding says.
pub ghost struct HoldingView {
    pub instrument: Seq<char>,
    pub name: Seq<char>,
    pub currency: Seq<char>,
    pub qty: Decimal,
    pub price: Option<Decimal>,
    pub market_value: Decimal,
    pub figures: PositionFigures,
}

impl View for PositionView {
    type V = HoldingView;

    open spec fn view(&self) -> HoldingView {
        HoldingView {
            instrument: self.instrument@,
            name: self.name@,
            currency: self.currency@,
            qty: self.qty,
            price: self.price,
            market_value: self.market_value,
            figures: self.figures,
        }
    }
}

/// A line as it is told, given the equity of the account.
pub open spec fn holding_of(l: LineView, equity_krw: Decimal) -> Option<HoldingView> {
    let currency = l.id.0.currency();
    match figures_of(l.qty, l.avg_cost, l.value, l.value_krw, equity_krw, currency.decimals() as int) {
        Some(figures) => Some(
            HoldingView {
                instrument: id_text(l.id),
                name: l.name,
                currency: currency.code_text(),
                qty: l.qty,
                price: l.price,
                market_value: l.value,
                figures,
            },
        ),
        None => None,
    }
}

/// The first `n` lines as they are told.
pub open spec fn holdings(lines: Seq<LineView>, equity_krw: Decimal, n: int) -> Option<Seq<HoldingView>>
    decreases n,
{
    if n <= 0 {
        Some(Seq::empty())
    } else {
        match (holdings(lines, equity_krw, n - 1), holding_of(lines[n - 1], equity_krw)) {
            (Some(s), Some(h)) => Some(s.push(h)),
            _ => None,
        }
    }
}

proof fn lemma_holdings_none(lines: Seq<LineView>, equity_krw: Decimal, i: int, n: int)
    requires
        0 <= i <= n,
        holdings(lines, equity_krw, i) is None,
    ensures
        holdings(lines, equity_krw, n) is None,
    decreases n,
{
    if i < n {
        lemma_holdings_none(lines, equity_krw, i, n - 1);
    }
}

/// The holdings of an account, the most valuable first; `None` where a decimal cannot hold a
/// figure.
pub fn positions(lines: &[ValueLine], equity_krw: Decimal) -> (r: Option<Vec<PositionView>>)
    ensures
        match holdings(by_value(line_views(lines@)), equity_krw, by_value(line_views(lines@)).len() as int) {
            Some(s) => r matches Some(v) && v@.map_values(|p: PositionView| p@) == s,
            None => r is None,
        },
{
    let mut sorted: Vec<ValueLine> = Vec::new();
    let ghost all = line_views(lines@);
    assert(line_views(sorted@) =~= by_value(all.take(0)));
    let mut k: usize = 0;
    while k < lines.len()
        invariant
            k <= lines@.len(),
            all == line_views(lines@),
            line_views(sorted@) == by_value(all.take(k as int)),
        decreases lines@.len() - k,
    {
        assert(all.take(k + 1).drop_last() =~= all.take(k as int));
        assert(all[k as int] == lines@[k as int]@);
        put_line(&mut sorted, lines[k].clone());
        k += 1;
    }
    assert(all.take(k as int) =~= all);
    let ghost s = by_value(all);
    let mut out: Vec<PositionView> = Vec::new();
    assert(out@.map_values(|p: PositionView| p@) =~= Seq::empty());
    let mut i: usize = 0;
    while i < sorted.len()
        invariant
            i <= sorted@.len(),
            line_views(sorted@) == s,
            s == by_value(all),
            all == line_views(lines@),
            holdings(s, equity_krw, i as int) == Some(out@.map_values(|p: PositionView| p@)),
        decreases sorted@.len() - i,
    {
        let l = &sorted[i];
        assert(s[i as int] == l@);
        let currency = l.id.venue.currency();
        match figures(l, equity_krw) {
            Some(f) => {
                let p = PositionView {
                    instrument: l.id.to_text(),
                    name: l.name.clone(),
                    currency: currency.code(),
                    qty: l.qty,
                    price: l.price,
                    market_value: l.value,
                    figures: f,
                };
                let ghost before = out@.map_values(|p: PositionView| p@);
                let ghost pv = p@;
                out.push(p);
                assert(out@.map_values(|p: PositionView| p@) =~= before.push(pv));
            },
            None => {
                proof {
                    lemma_holdings_none(s, equity_krw, i + 1, s.len() as int);
                }
                return None;
            },
        }
        i += 1;
    }
    Some(out)
}

/// Whether lines are in order of falling value.
pub open spec fn falling(lines: Seq<LineView>) -> bool {
    forall|i: int, j: int|
        0 <= i < j < lines.len() ==> (#[trigger] lines[i]).value_krw.value() >= (#[trigger] lines[j]).value_krw.value()
}

proof fn lemma_line_in(lines: Seq<LineView>, l: LineView)
    requires
        falling(lines),
    ensures
        falling(line_in(lines, l)),
        line_in(lines, l).to_multiset() =~= lines.to_multiset().insert(l),
        forall|i: int|
            0 <= i < line_in(lines, l).len() ==> (#[trigger] line_in(lines, l)[i] == l || lines.contains(
                line_in(lines, l)[i],
            )),
    decreases lines.len(),
{
    broadcast use vstd::seq_lib::group_to_multiset_ensures;

    if lines.len() > 0 && lines.last().value_krw.value() < l.value_krw.value() {
        let head = lines.drop_last();
        let last = lines.last();
        assert(forall|i: int| 0 <= i < head.len() ==> #[trigger] head[i] == lines[i]);
        lemma_line_in(head, l);
        let placed = line_in(head, l);
        let whole = placed.push(last);
        assert(lines =~= head.push(last));
        assert forall|i: int| 0 <= i < placed.len() implies (#[trigger] placed[i]).value_krw.value()
            >= last.value_krw.value() by {
            if placed[i] != l {
                let k = choose|k: int| 0 <= k < head.len() && head[k] == placed[i];
                assert(lines[k].value_krw.value() >= lines[lines.len() - 1].value_krw.value());
            }
        }
        assert forall|i: int| 0 <= i < whole.len() implies (#[trigger] whole[i] == l || lines.contains(whole[i])) by {
            if i < placed.len() {
                if placed[i] != l {
                    let k = choose|k: int| 0 <= k < head.len() && head[k] == placed[i];
                    assert(lines[k] == placed[i]);
                }
            } else {
                assert(lines[lines.len() - 1] == last);
            }
        }
    } else {
        let whole = lines.push(l);
        assert forall|i: int| 0 <= i < whole.len() implies (#[trigger] whole[i] == l || lines.contains(whole[i])) by {
            if i < lines.len() {
                assert(lines[i] == whole[i]);
            }
        }
        assert forall|i: int| 0 <= i < lines.len() implies (#[trigger] lines[i]).value_krw.value()
            >= l.value_krw.value() by {
            if i < lines.len() - 1 {
                assert(lines[i].value_krw.value() >= lines[lines.len() - 1].value_krw.value());
            }
        }
    }
}

/// The holdings are told with the most valuable first, and each of them once.
pub proof fn law_the_most_valuable_comes_first(lines: Seq<LineView>)
    ensures
        falling(by_value(lines)),
        by_value(lines).to_multiset() == lines.to_multiset(),
    decreases lines.len(),
{
    broadcast use vstd::seq_lib::group_to_multiset_ensures;

    if lines.len() > 0 {
        law_the_most_valuable_comes_first(lines.drop_last());
        lemma_line_in(by_value(lines.drop_last()), lines.last());
        assert(lines =~= lines.drop_last().push(lines.last()));
    }
}

/// An account at a glance.
#[derive(Debug)]
pub struct AccountSummary {
    pub id: String,
    pub name: String,
    pub cash: Vec<CashView>,
    pub positions_value_krw: Decimal,
    /// Cash plus positions at mid prices, in KRW.
    pub equity_krw: Decimal,
    /// KRW per USD used for the valuation (USDT counts as USD).
    pub usd_krw: Decimal,
    pub as_of: Timestamp,
}

/// An account at a glance, with values in whole won; `None` where a decimal cannot hold what is
/// available.
pub fn summary(
    row: &AccountRow,
    pf: &Portfolio,
    positions_krw: Decimal,
    equity_krw: Decimal,
    usd_krw: Decimal,
    now: Timestamp,
) -> (r: Option<AccountSummary>)
    requires
        pf.wf(),
    ensures
        match cash_listed(pf@) {
            Some(cash) => r matches Some(s) && s.id@ == row.id@ && s.name@ == row.name@ && s.cash@ == cash
                && s.positions_value_krw == positions_krw.rounded(0) && s.equity_krw == equity_krw.rounded(0)
                && s.usd_krw == usd_krw && s.as_of == now,
            None => r is None,
        },
{
    let cash = list_cash(pf)?;
    Some(
        AccountSummary {
            id: row.id.clone(),
            name: row.name.clone(),
            cash,
            positions_value_krw: positions_krw.round_dp(0),
            equity_krw: equity_krw.round_dp(0),
            usd_krw,
            as_of: now,
        },
    )
}

/// What a company reports, and how it is priced.
#[derive(Debug)]
pub struct FinancialsView {
    pub id: String,
    /// `DART` or `SEC EDGAR`.
    pub source: &'static str,
    pub currency: &'static str,
    /// Newest first, at most 3.
    pub annual: Vec<PeriodFinancials>,
    pub latest_quarter: Option<PeriodFinancials>,
    pub shares_outstanding: Option<Decimal>,
    /// `reported`, or `computed` as net income over shares.
    pub eps_basis: &'static str,
    pub price: Option<Decimal>,
    pub per: Option<Decimal>,
    pub pbr: Option<Decimal>,
}

/// What a company reports, as it is told. The ratios are missing without a price and where a
/// decimal cannot hold one.
pub fn financials(id: &InstrumentId, source: Filer, f: Fundamentals, price: Option<Decimal>) -> (r: FinancialsView)
    ensures
        r.id@ == id_text(id@),
        r.source@ == (match source {
            Filer::Dart => "DART"@,
            Filer::Edgar => "SEC EDGAR"@,
        }),
        r.currency@ == f.currency.code_text(),
        period_views(r.annual@) == f@.annual,
        quarter_view(r.latest_quarter) == f@.latest_quarter,
        r.shares_outstanding == f.shares_outstanding,
        r.eps_basis@ == (if f.eps_computed {
            "computed"@
        } else {
            "reported"@
        }),
        r.price == price,
        match price {
            Some(p) => match ratios_of(p, f@) {
                Some(q) => r.per == q.per && r.pbr == q.pbr,
                None => r.per is None && r.pbr is None,
            },
            None => r.per is None && r.pbr is None,
        },
{
    let (per, pbr) = match price {
        Some(p) => match ratios(p, &f) {
            Some(q) => (q.per, q.pbr),
            None => (None, None),
        },
        None => (None, None),
    };
    FinancialsView {
        id: id.to_text(),
        source: match source {
            Filer::Dart => "DART",
            Filer::Edgar => "SEC EDGAR",
        },
        currency: f.currency.code(),
        annual: f.annual,
        latest_quarter: f.latest_quarter,
        shares_outstanding: f.shares_outstanding,
        eps_basis: if f.eps_computed {
            "computed"
        } else {
            "reported"
        },
        price,
        per,
        pbr,
    }
}

/// The last `limit` of some candles.
pub open spec fn latest(s: Seq<Candle>, limit: int) -> Seq<Candle> {
    if s.len() <= limit {
        s
    } else {
        s.skip(s.len() - limit)
    }
}

/// Whether candles come from the bars that were recorded, rather than from the venue's feed.
pub fn from_bars(venue: Venue, interval: Interval) -> (r: bool)
    ensures
        r == (interval.secs() < 86_400 && venue.has_session()),
{
    interval.is_intraday() && venue.has_session()
}

/// The latest candles that recorded one-minute bars make up.
pub fn recorded_candles(bars: &[Candle], interval: Interval, limit: usize) -> (r: Option<Vec<Candle>>)
    ensures
        match resampled(bars@, interval, 0, Seq::empty()) {
            Some(s) => r matches Some(v) && v@ == latest(s, limit as int),
            None => r is None,
        },
{
    let out = resample(bars, interval)?;
    let n: usize = out.len();
    if n <= limit {
        return Some(out);
    }
    let ghost all = out@;
    let mut last: Vec<Candle> = Vec::new();
    let mut i: usize = n - limit;
    while i < n
        invariant
            n - limit <= i <= n,
            n == out@.len(),
            limit < n,
            out@ == all,
            last@ == all.subrange(n - limit, i as int),
        decreases n - i,
    {
        last.push(out[i]);
        assert(all.subrange(n - limit, i + 1) =~= all.subrange(n - limit, i as int).push(all[i as int]));
        i += 1;
    }
    assert(last@ =~= all.skip(n - limit));
    Some(last)
}

/// The latest candles are the last ones, in their order, and no fewer than there are.
pub proof fn law_the_latest_candles_come_last(s: Seq<Candle>, limit: int, i: int)
    requires
        limit >= 0,
        0 <= i < latest(s, limit).len(),
    ensures
        latest(s, limit).len() <= limit,
        latest(s, limit).len() == limit || latest(s, limit).len() == s.len(),
        latest(s, limit)[latest(s, limit).len() - 1 - i] == s[s.len() - 1 - i],
{
}

} // verus!
