//! The part of the daily statistics that is exact.
use crate::decimal::{
    abs_int, dec, lemma_dec_parts, lemma_quotient, lemma_rounded, lemma_sums, lemma_unit, max_int, opt_over, opt_rounded,
    pow10, representable, unit, zero, Decimal, MAX_MANTISSA,
};
use crate::sim::DailyStats;
use vstd::prelude::*;

verus! {

/// The amounts from index `i` on, added to what came before.
pub open spec fn sum_from(v: Seq<Decimal>, i: int, sum: Decimal) -> Option<Decimal>
    decreases v.len() - i,
{
    if i >= v.len() {
        Some(sum)
    } else {
        match sum.plus(v[i]) {
            Some(s) => sum_from(v, i + 1, s),
            None => None,
        }
    }
}

/// The amounts added up, first to last.
pub open spec fn sum_of(v: Seq<Decimal>) -> Option<Decimal> {
    sum_from(v, 0, zero())
}

/// Adds up amounts; `None` where a decimal cannot hold the sum.
pub fn sum(v: &[Decimal]) -> (r: Option<Decimal>)
    ensures
        r == sum_of(v@),
{
    let mut s = Decimal::zero();
    let mut i: usize = 0;
    while i < v.len()
        invariant
            i <= v@.len(),
            sum_of(v@) == sum_from(v@, i as int, s),
        decreases v@.len() - i,
    {
        s = s.checked_add(v[i])?;
        i += 1;
    }
    Some(s)
}

/// The mean of amounts.
pub open spec fn mean_of(v: Seq<Decimal>) -> Option<Decimal> {
    opt_over(sum_of(v), Some(dec(v.len() as int, 0)))
}

/// The mean of amounts; `None` for no amounts and where a decimal cannot hold it.
pub fn mean(v: &[Decimal]) -> (r: Option<Decimal>)
    ensures
        v@.len() > 0 ==> r == mean_of(v@),
        v@.len() == 0 ==> r is None,
{
    if v.len() == 0 {
        return None;
    }
    sum(v)?.checked_div(Decimal::from_count(v.len()))
}

/// Whether there is history enough for statistics: three closes and one traded value.
pub fn enough_history(closes: &[Decimal], values: &[Decimal]) -> (r: bool)
    ensures
        r == (closes@.len() >= 3 && values@.len() > 0),
{
    closes.len() >= 3 && values.len() > 0
}

/// Average daily traded value, to two places.
pub fn average_value(values: &[Decimal]) -> (r: Option<Decimal>)
    ensures
        values@.len() > 0 ==> r == opt_rounded(mean_of(values@), 2),
        values@.len() == 0 ==> r is None,
{
    match mean(values) {
        Some(m) => Some(m.round_dp(2)),
        None => None,
    }
}

/// Daily history, oldest first.
#[derive(Debug)]
pub struct History {
    pub closes: Vec<Decimal>,
    pub values: Vec<Decimal>,
}

/// Daily statistics from history ordered oldest first. `sigma_bits` holds the volatility (sample σ
/// of daily log returns), as the bits of a double, where there are returns enough for one. The
/// outer option is none where a decimal cannot hold the average.
pub open spec fn stats_of(closes: Seq<Decimal>, values: Seq<Decimal>, sigma_bits: Option<u64>) -> Option<
    Option<DailyStats>,
> {
    match sigma_bits {
        Some(s) => if closes.len() >= 3 && values.len() > 0 {
            match opt_rounded(mean_of(values), 2) {
                Some(adv) => Some(Some(DailyStats { sigma_bits: s, adv_notional: adv })),
                None => None,
            }
        } else {
            Some(None)
        },
        None => Some(None),
    }
}

/// Volatility and average daily traded value, from history ordered oldest first.
pub fn daily_stats(closes: &[Decimal], values: &[Decimal], sigma_bits: Option<u64>) -> (r: Option<Option<DailyStats>>)
    ensures
        r == stats_of(closes@, values@, sigma_bits),
{
    if !enough_history(closes, values) {
        return Some(None);
    }
    match sigma_bits {
        Some(s) => match average_value(values) {
            Some(adv) => Some(Some(DailyStats { sigma_bits: s, adv_notional: adv })),
            None => None,
        },
        None => Some(None),
    }
}

/// Amounts added up, exactly.
pub open spec fn exact_sum(v: Seq<Decimal>) -> int
    decreases v.len(),
{
    if v.len() == 0 {
        0
    } else {
        exact_sum(v.drop_last()) + v.last().value()
    }
}

/// Whether decimals hold each sum on the way.
pub open spec fn sums_held(v: Seq<Decimal>) -> bool {
    forall|k: int| 0 <= k <= v.len() ==> representable(#[trigger] exact_sum(v.take(k)))
}

proof fn lemma_sum_from(v: Seq<Decimal>, i: int, sum: Decimal)
    requires
        0 <= i <= v.len(),
        sums_held(v),
        sum.value() == exact_sum(v.take(i)),
    ensures
        sum_from(v, i, sum) matches Some(s) ==> s.value() == exact_sum(v) && (sum.valid() ==> s.valid()),
    decreases v.len() - i,
{
    if i < v.len() {
        assert(v.take(i + 1).drop_last() =~= v.take(i));
        assert(v.take(i + 1).last() == v[i]);
        assert(representable(exact_sum(v.take(i + 1))));
        lemma_sums(sum, v[i]);
        if let Some(s) = sum.plus(v[i]) {
            lemma_sum_from(v, i + 1, s);
        }
    } else {
        assert(v.take(i) =~= v);
    }
}

/// A sum is the amounts added up.
pub proof fn law_sums_add_up(v: Seq<Decimal>)
    requires
        sums_held(v),
    ensures
        sum_of(v) matches Some(s) ==> s.value() == exact_sum(v) && s.valid(),
{
    lemma_dec_parts(0, 0);
    assert(v.take(0) =~= Seq::<Decimal>::empty());
    lemma_sum_from(v, 0, zero());
}

/// The mean of amounts, so many times over, is their sum, up to the last place of a decimal.
pub proof fn law_the_mean_makes_up_the_sum(v: Seq<Decimal>)
    requires
        sums_held(v),
        0 < v.len() <= MAX_MANTISSA,
    ensures
        mean_of(v) matches Some(m) ==> m.valid() && abs_int((m.value() * v.len() - exact_sum(v)) * unit()) <= max_int(
            abs_int(exact_sum(v)),
            v.len() * unit(),
        ),
{
    law_sums_add_up(v);
    let n = v.len() as int;
    lemma_dec_parts(n, 0);
    lemma_unit();
    if let Some(s) = sum_of(v) {
        let d = dec(n, 0);
        assert(d.value() > 0) by (nonlinear_arith)
            requires
                d.value() == n * unit(),
                n > 0,
                unit() == 10000000000000000000000000000,
        ;
        lemma_quotient(s, d);
        if let Some(m) = s.over(d) {
            assert((m.value() * n - s.value()) * unit() == m.value() * d.value() - s.value() * unit()) by (nonlinear_arith)
                requires
                    d.value() == n * unit(),
            ;
        }
    }
}

/// The average daily value is the mean of the values to the nearest cent, and there are statistics
/// exactly where there are three closes, a value and a volatility.
pub proof fn law_the_average_is_to_the_cent(closes: Seq<Decimal>, values: Seq<Decimal>, sigma_bits: Option<u64>)
    requires
        sums_held(values),
        values.len() <= MAX_MANTISSA,
    ensures
        stats_of(closes, values, sigma_bits) matches Some(r) ==> {
            &&& r is Some <==> closes.len() >= 3 && values.len() > 0 && sigma_bits is Some
            &&& r matches Some(x) ==> {
                &&& Some(x.sigma_bits) == sigma_bits
                &&& 2 * abs_int((x.adv_notional.value() * values.len() - exact_sum(values)) * unit()) <= values.len()
                    * unit() * pow10(26) + 2 * max_int(abs_int(exact_sum(values)), values.len() * unit())
            }
        },
{
    if values.len() > 0 {
        law_the_mean_makes_up_the_sum(values);
        if let Some(m) = mean_of(values) {
            lemma_rounded(m, 2);
            let a = m.rounded(2).value();
            let n = values.len() as int;
            let s = exact_sum(values);
            let u = unit();
            let g = pow10(26);
            lemma_unit();
            let off = (m.value() * n - s) * u;
            assert((a * n - s) * u == (a - m.value()) * (n * u) + off) by (nonlinear_arith)
                requires
                    off == (m.value() * n - s) * u,
            ;
            assert(n * u > 0) by (nonlinear_arith)
                requires
                    n > 0,
                    u == 10000000000000000000000000000,
            ;
            let w = n * u;
            assert(-(w * g) <= 2 * ((a - m.value()) * w) <= w * g) by (nonlinear_arith)
                requires
                    -g <= 2 * (a - m.value()) <= g,
                    w > 0,
            ;
        }
    }
}

} // verus!
