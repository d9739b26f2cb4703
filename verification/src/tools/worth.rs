//! What an account is worth, in numbers.
use crate::broker::World;
use crate::decimal::{
    abs_int, lemma_dec_parts, lemma_product_held, lemma_rounded, lemma_sums, lemma_unit, max_int, pow10, product_held,
    representable, unit, zero, Decimal,
};
use crate::domain::{Currency, Venue};
use crate::ledger::{amount_of, PortfolioView, Position};
use crate::performance::{lemma_percent, percent};
use crate::tools::report::{all_valued, cash_of, cash_worth, figures_of, profit_pct, valued, LineView};
use vstd::prelude::*;

verus! {

/// Won per unit of a currency: one for won, and the dollar's rate for the rest.
pub open spec fn won_in(c: Currency, usd_krw: Decimal) -> int {
    if c == Currency::Krw {
        unit()
    } else {
        usd_krw.value()
    }
}

/// Whether decimals hold a product.
pub open spec fn held(a: int, b: int) -> bool {
    (a * b) % unit() == 0 && representable(a * b / unit())
}

/// A position is worth its quantity at the current price, or at its average cost where there is no price,
/// and in won at the rate of its currency; wherever decimals hold the products.
pub proof fn law_a_position_is_worth_its_price(
    w: World,
    id: (Venue, Seq<char>),
    p: Position,
    marks: Map<(Venue, Seq<char>), Decimal>,
    usd_krw: Decimal,
)
    requires
        ({
            let price = if marks.contains_key(id) {
                marks[id].value()
            } else {
                p.avg_cost.value()
            };
            &&& held(p.qty.value(), price)
            &&& held(p.qty.value() * price / unit(), won_in(id.0.currency(), usd_krw))
        }),
    ensures
        valued(w, id, p, marks, usd_krw) matches Some(l) ==> {
            let price = if marks.contains_key(id) {
                marks[id].value()
            } else {
                p.avg_cost.value()
            };
            &&& l.id == id && l.qty == p.qty && l.avg_cost == p.avg_cost
            &&& l.price == if marks.contains_key(id) {
                Some(marks[id])
            } else {
                None
            }
            &&& l.value.value() * unit() == p.qty.value() * price
            &&& l.value_krw.value() * unit() == l.value.value() * won_in(id.0.currency(), usd_krw)
        },
{
    lemma_unit();
    lemma_dec_parts(1, 0);
    let price = if marks.contains_key(id) {
        marks[id]
    } else {
        p.avg_cost
    };
    lemma_product_held(p.qty, price);
    let rate = crate::broker::world::won_per(id.0.currency(), usd_krw);
    if let Some(v) = p.qty.times(price) {
        let u = unit();
        let x = p.qty.value() * price.value();
        vstd::arithmetic::div_mod::lemma_fundamental_div_mod(x, u);
        let n = x / u;
        assert(v.value() == n) by (nonlinear_arith)
            requires
                v.value() * u == u * n,
                u == 10000000000000000000000000000,
        ;
        assert(rate.value() == won_in(id.0.currency(), usd_krw));
        lemma_product_held(v, rate);
    }
}

/// The values of lines in won, added up, exactly.
pub open spec fn lines_worth(lines: Seq<LineView>) -> int
    decreases lines.len(),
{
    if lines.len() == 0 {
        0
    } else {
        lines_worth(lines.drop_last()) + lines.last().value_krw.value()
    }
}

/// Whether a position is held.
pub open spec fn is_held(row: ((Venue, Seq<char>), Position)) -> bool {
    row.1.qty.value() != 0
}

/// The positions of an account are valued one by one, without the flat ones and in their order, and
/// together they are worth what they are worth in won; wherever decimals hold the sums.
pub proof fn law_positions_add_up(
    w: World,
    rows: Seq<((Venue, Seq<char>), Position)>,
    marks: Map<(Venue, Seq<char>), Decimal>,
    usd_krw: Decimal,
    n: int,
)
    requires
        0 <= n <= rows.len(),
        forall|k: int|
            0 <= k <= n ==> (#[trigger] all_valued(w, rows, marks, usd_krw, k) matches Some((lines, _))
                ==> representable(lines_worth(lines))),
    ensures
        all_valued(w, rows, marks, usd_krw, n) matches Some((lines, sum)) ==> {
            let kept = rows.take(n).filter(|r: ((Venue, Seq<char>), Position)| is_held(r));
            &&& sum.value() == lines_worth(lines)
            &&& lines.len() == kept.len()
            &&& forall|i: int|
                0 <= i < lines.len() ==> Some(#[trigger] lines[i]) == valued(w, kept[i].0, kept[i].1, marks, usd_krw)
        },
    decreases n,
{
    lemma_dec_parts(0, 0);
    reveal(Seq::filter);
    let held_only = |r: ((Venue, Seq<char>), Position)| is_held(r);
    if n > 0 {
        law_positions_add_up(w, rows, marks, usd_krw, n - 1);
        assert(rows.take(n).drop_last() =~= rows.take(n - 1));
        assert(rows.take(n).last() == rows[n - 1]);
        if let Some((lines, sum)) = all_valued(w, rows, marks, usd_krw, n) {
            let (less, part) = all_valued(w, rows, marks, usd_krw, n - 1)->0;
            let kept = rows.take(n).filter(held_only);
            let before = rows.take(n - 1).filter(held_only);
            let (id, p) = rows[n - 1];
            if p.qty.value() != 0 {
                let l = valued(w, id, p, marks, usd_krw)->0;
                assert(lines == less.push(l));
                assert(lines.drop_last() =~= less);
                assert(kept =~= before.push(rows[n - 1]));
                assert(representable(lines_worth(lines)));
                lemma_sums(part, l.value_krw);
                assert forall|i: int| 0 <= i < lines.len() implies Some(#[trigger] lines[i]) == valued(
                    w,
                    kept[i].0,
                    kept[i].1,
                    marks,
                    usd_krw,
                ) by {
                    if i < less.len() {
                        assert(lines[i] == less[i]);
                        assert(kept[i] == before[i]);
                    }
                }
            } else {
                assert(kept == before);
            }
        }
    } else {
        assert(rows.take(0) =~= Seq::<((Venue, Seq<char>), Position)>::empty());
    }
}

/// The cash of an account in won is its won, and its dollars and USDT at the dollar's rate; wherever
/// decimals hold the products and the sums.
pub proof fn law_cash_is_worth_its_rate(pf: PortfolioView, usd_krw: Decimal)
    requires
        ({
            let won = amount_of(pf.cash, Currency::Krw).value();
            let dollars = amount_of(pf.cash, Currency::Usd).value();
            let coins = amount_of(pf.cash, Currency::Usdt).value();
            let r = usd_krw.value();
            &&& representable(won)
            &&& held(dollars, r)
            &&& held(coins, r)
            &&& representable(won + dollars * r / unit())
            &&& representable(won + dollars * r / unit() + coins * r / unit())
        }),
    ensures
        cash_worth(pf, usd_krw) matches Some(x) ==> x.value() * unit() == amount_of(pf.cash, Currency::Krw).value() * unit()
            + (amount_of(pf.cash, Currency::Usd).value() + amount_of(pf.cash, Currency::Usdt).value())
            * usd_krw.value(),
{
    lemma_unit();
    lemma_dec_parts(1, 0);
    let u = unit();
    let a = amount_of(pf.cash, Currency::Krw);
    let b = amount_of(pf.cash, Currency::Usd);
    let c = amount_of(pf.cash, Currency::Usdt);
    let one = crate::decimal::one();
    assert(a.value() * one.value() == u * a.value()) by (nonlinear_arith)
        requires
            one.value() == u,
    ;
    vstd::arithmetic::div_mod::lemma_fundamental_div_mod_converse(u * a.value(), u, a.value(), 0);
    lemma_product_held(a, one);
    lemma_product_held(b, usd_krw);
    lemma_product_held(c, usd_krw);
    if let (Some(x), Some(y), Some(z)) = (a.times(one), b.times(usd_krw), c.times(usd_krw)) {
        assert(x.value() == a.value()) by (nonlinear_arith)
            requires
                x.value() * u == u * a.value(),
                u == 10000000000000000000000000000,
        ;
        let dollars = b.value() * usd_krw.value();
        let coins = c.value() * usd_krw.value();
        vstd::arithmetic::div_mod::lemma_fundamental_div_mod(dollars, u);
        vstd::arithmetic::div_mod::lemma_fundamental_div_mod(coins, u);
        assert(y.value() == dollars / u) by (nonlinear_arith)
            requires
                y.value() * u == u * (dollars / u),
                u == 10000000000000000000000000000,
        ;
        assert(z.value() == coins / u) by (nonlinear_arith)
            requires
                z.value() * u == u * (coins / u),
                u == 10000000000000000000000000000,
        ;
        lemma_sums(x, y);
        if let Some(s) = x.plus(y) {
            lemma_sums(s, z);
            if let Some(t) = s.plus(z) {
                assert(t.value() * u == a.value() * u + (b.value() + c.value()) * usd_krw.value()) by (nonlinear_arith)
                    requires
                        t.value() == a.value() + y.value() + z.value(),
                        y.value() * u == b.value() * usd_krw.value(),
                        z.value() * u == c.value() * usd_krw.value(),
                ;
            }
        }
    }
}

/// The figures of a position: its profit is its value over what it cost, to the places of its currency,
/// and in percent of the cost; its weight is its value in won in percent of the equity. Both percentages
/// are to two places, and zero of nothing. Decimals hold the cost and the profit.
pub proof fn law_figures_compare_value_and_cost(
    qty: Decimal,
    avg_cost: Decimal,
    value: Decimal,
    value_krw: Decimal,
    equity_krw: Decimal,
    places: int,
)
    requires
        0 <= places <= 28,
        product_held(qty, avg_cost),
        qty.value() * avg_cost.value() >= 0,
        representable(value.value() - qty.value() * avg_cost.value() / unit()),
        equity_krw.value() >= 0,
        ({
            let cost = qty.value() * avg_cost.value() / unit();
            &&& abs_int(value.value() - cost) <= cost * pow10(20) || cost == 0
            &&& abs_int(value_krw.value()) <= equity_krw.value() * pow10(20) || equity_krw.value() == 0
        }),
    ensures
        figures_of(qty, avg_cost, value, value_krw, equity_krw, places) matches Some(f) ==> {
            let cost = qty.value() * avg_cost.value() / unit();
            let profit = value.value() - cost;
            let e = equity_krw.value();
            &&& 2 * abs_int(f.unrealized_pnl.value() - profit) <= pow10((28 - places) as nat)
            &&& cost == 0 ==> f.unrealized_pct.value() == 0
            &&& cost > 0 ==> abs_int(2 * f.unrealized_pct.value() * cost - 2 * (100 * profit * unit())) <= cost * pow10(26)
                + 200 * max_int(abs_int(profit), cost)
            &&& e == 0 ==> f.weight_pct.value() == 0
            &&& e > 0 ==> abs_int(2 * f.weight_pct.value() * e - 2 * (100 * value_krw.value() * unit())) <= e * pow10(26)
                + 200 * max_int(abs_int(value_krw.value()), e)
        },
{
    lemma_unit();
    lemma_dec_parts(0, 0);
    let u = unit();
    if let Some(f) = figures_of(qty, avg_cost, value, value_krw, equity_krw, places) {
        lemma_product_held(qty, avg_cost);
        let cost = qty.times(avg_cost)->0;
        let x = qty.value() * avg_cost.value();
        vstd::arithmetic::div_mod::lemma_fundamental_div_mod(x, u);
        let n = x / u;
        assert(cost.value() == n && n >= 0) by (nonlinear_arith)
            requires
                cost.value() * u == u * n,
                x == u * n,
                x >= 0,
                u == 10000000000000000000000000000,
        ;
        lemma_sums(value, cost);
        let profit = value.minus(cost)->0;
        lemma_rounded(profit, places);
        lemma_share(profit, cost);
        lemma_share(value_krw, equity_krw);
    }
}

proof fn lemma_share(part: Decimal, whole: Decimal)
    requires
        whole.value() >= 0,
        abs_int(part.value()) <= whole.value() * pow10(20) || whole.value() == 0,
    ensures
        whole.value() == 0 ==> profit_pct(part, whole) == Some(zero()),
        whole.value() > 0 ==> (profit_pct(part, whole) matches Some(x) ==> abs_int(
            2 * x.value() * whole.value() - 2 * (100 * part.value() * unit()),
        ) <= whole.value() * pow10(26) + 200 * max_int(abs_int(part.value()), whole.value())),
{
    if whole.value() > 0 {
        lemma_percent(part, whole);
        if let Some(y) = percent(Some(part), whole) {
            lemma_rounded(y, 2);
            let w = y.rounded(2).value();
            let v = y.value();
            let b = whole.value();
            let t = 100 * part.value() * unit();
            let c = max_int(abs_int(part.value()), b);
            let g = pow10(26);
            assert(abs_int(2 * w * b - 2 * t) <= b * g + 200 * c) by (nonlinear_arith)
                requires
                    -g <= 2 * (w - v) <= g,
                    -(100 * c) <= v * b - t <= 100 * c,
                    b > 0,
            ;
        }
    }
}

/// The cash that is told of a currency is the balance, and what of it is not promised: together with the promises
/// it makes up the balance, where a decimal holds the difference.
pub proof fn law_told_cash_is_the_balance(pf: PortfolioView, c: Currency)
    requires
        representable(amount_of(pf.cash, c).value() - amount_of(pf.reserved_cash, c).value()),
    ensures
        cash_of(pf, c) matches Some(Some(told)) ==> pf.cash.contains_key(c) && told.currency == c && told.balance
            == pf.cash[c] && told.available.value() + amount_of(pf.reserved_cash, c).value() == pf.cash[c].value(),
        cash_of(pf, c) matches Some(None) ==> !pf.cash.contains_key(c),
{
    lemma_sums(amount_of(pf.cash, c), amount_of(pf.reserved_cash, c));
}

} // verus!
