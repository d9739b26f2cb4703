//! The rules of each venue: ticks, lots, price limits, fees and sessions.
use crate::decimal::{
    abs_int, aligned, dec, half_even, lemma_dec_parts, lemma_exact_quotient, lemma_pow10_add, lemma_pow10_positive,
    lemma_product, lemma_product_held, lemma_quotient, lemma_sums, lemma_truncated, lemma_truncated_value, lemma_unit,
    lemma_value_sign, max_int, one, opt_over, opt_plus, opt_truncated, parts_value, pow10, product_held, representable,
    unit, valid_parts, zero, Decimal, MAX_MANTISSA,
};
use crate::domain::{quote, quoted, InstrumentId, Side, Venue};
use crate::table::{lemma_push_contains, Stored};
use crate::text::join_text;
use crate::time::{
    day_of, instant, instant_at, offset_at, quiet, second_of_day, split_second, weekday, weekday_of, zone_instant,
    zone_offset, Timestamp, Zone, FIRST_SECOND, LAST_SECOND, NANOS_PER_SEC, SECS_PER_DAY,
};
use vstd::arithmetic::div_mod::{lemma_div_multiples_vanish, lemma_mod_multiples_basic};
use vstd::prelude::*;

verus! {

/// An amount that no decimal can hold.
#[derive(Debug, Clone, Copy, PartialEq, Eq, Structural)]
pub struct Overflow;

/// How far apart valid prices are.
#[derive(Debug, Clone, Copy, PartialEq)]
pub enum TickRule {
    /// KRX unified price-band table (KOSPI and KOSDAQ, since 2023-01-25).
    Krx,
    /// US equities: $0.01 at or above $1, $0.0001 below.
    Us,
    /// Upbit KRW market table.
    Upbit,
    /// One tick size for every price (crypto, from exchange metadata).
    Fixed(Decimal),
}

/// Whether `p` is below `num` / 10^`scale`.
pub open spec fn below(p: Decimal, num: int, scale: int) -> bool {
    p.value() < parts_value(num, scale)
}

fn is_below(p: Decimal, num: i64, scale: u32) -> (r: bool)
    requires
        scale <= 28,
    ensures
        r == below(p, num as int, scale as int),
{
    p.lt(Decimal::new(num, scale))
}

/// The KRX tick of a price.
pub open spec fn krx_tick(p: Decimal) -> Decimal {
    if below(p, 2_000, 0) {
        dec(1, 0)
    } else if below(p, 5_000, 0) {
        dec(5, 0)
    } else if below(p, 20_000, 0) {
        dec(10, 0)
    } else if below(p, 50_000, 0) {
        dec(50, 0)
    } else if below(p, 200_000, 0) {
        dec(100, 0)
    } else if below(p, 500_000, 0) {
        dec(500, 0)
    } else {
        dec(1_000, 0)
    }
}

/// The Upbit tick of a price.
pub open spec fn upbit_tick(p: Decimal) -> Decimal {
    if !below(p, 1_000_000, 0) {
        dec(1_000, 0)
    } else if !below(p, 500_000, 0) {
        dec(500, 0)
    } else if !below(p, 100_000, 0) {
        dec(100, 0)
    } else if !below(p, 50_000, 0) {
        dec(50, 0)
    } else if !below(p, 10_000, 0) {
        dec(10, 0)
    } else if !below(p, 5_000, 0) {
        dec(5, 0)
    } else if !below(p, 100, 0) {
        dec(1, 0)
    } else if !below(p, 10, 0) {
        dec(1, 1)
    } else if !below(p, 1, 0) {
        dec(1, 2)
    } else if !below(p, 1, 1) {
        dec(1, 3)
    } else if !below(p, 1, 2) {
        dec(1, 4)
    } else if !below(p, 1, 3) {
        dec(1, 5)
    } else if !below(p, 1, 4) {
        dec(1, 6)
    } else if !below(p, 1, 5) {
        dec(1, 7)
    } else {
        dec(1, 8)
    }
}

/// Whether a price and a tick are small enough, for the places they have, that the price falls
/// between two multiples of the tick without rounding.
pub open spec fn snappable(p: Decimal, t: Decimal) -> bool {
    let places = max_int(p.scale(), t.scale());
    &&& p.value() >= 0
    &&& t.value() > 0
    &&& p.value() < pow10((56 - places) as nat)
    &&& t.value() < pow10((56 - places) as nat)
}

/// Whether the remainder of a number by a positive one is exact: both keep within the mantissa when
/// written at their common scale.
pub open spec fn divides_exactly(p: Decimal, t: Decimal) -> bool {
    t.value() > 0 && aligned(p.mantissa(), p.scale(), t.mantissa(), t.scale())
}

/// Whether a price and a tick are small enough, for the places they have, that the price is nearer
/// to one of two multiples of the tick without rounding.
pub open spec fn nearable(p: Decimal, t: Decimal) -> bool {
    let places = max_int(p.scale(), t.scale());
    &&& p.value() >= 0
    &&& t.value() > 0
    &&& 2 * p.value() < pow10((56 - places) as nat)
    &&& 2 * t.value() < pow10((56 - places) as nat)
}

impl TickRule {
    /// The tick at a price.
    pub open spec fn tick_at(self, price: Decimal) -> Decimal {
        match self {
            TickRule::Krx => krx_tick(price),
            TickRule::Us => if below(price, 1, 0) {
                dec(1, 4)
            } else {
                dec(1, 2)
            },
            TickRule::Upbit => upbit_tick(price),
            TickRule::Fixed(t) => t,
        }
    }

    /// The price as a number of ticks.
    pub open spec fn ticks(self, price: Decimal) -> Option<Decimal> {
        price.over(self.tick_at(price))
    }

    /// The last multiple of the tick that is not above the price.
    pub open spec fn tick_below(self, price: Decimal) -> Option<Decimal> {
        match self.ticks(price) {
            Some(q) => q.floored().times(self.tick_at(price)),
            None => None,
        }
    }

    /// The first multiple of the tick that is not below the price.
    pub open spec fn tick_above(self, price: Decimal) -> Option<Decimal> {
        match self.ticks(price) {
            Some(q) => q.ceiled().times(self.tick_at(price)),
            None => None,
        }
    }

    /// The multiple of the tick nearest to the price.
    pub open spec fn nearest_tick(self, price: Decimal) -> Option<Decimal> {
        match self.ticks(price) {
            Some(q) => q.rounded(0).times(self.tick_at(price)),
            None => None,
        }
    }

    /// A price that can be quoted: positive and a whole number of ticks.
    pub open spec fn quotable(self, price: Decimal) -> bool {
        price.value() > 0 && match price.modulo(self.tick_at(price)) {
            Some(m) => m.value() == 0,
            None => false,
        }
    }

    fn krx_size(price: Decimal) -> (r: Decimal)
        ensures
            r == krx_tick(price),
    {
        if is_below(price, 2_000, 0) {
            Decimal::new(1, 0)
        } else if is_below(price, 5_000, 0) {
            Decimal::new(5, 0)
        } else if is_below(price, 20_000, 0) {
            Decimal::new(10, 0)
        } else if is_below(price, 50_000, 0) {
            Decimal::new(50, 0)
        } else if is_below(price, 200_000, 0) {
            Decimal::new(100, 0)
        } else if is_below(price, 500_000, 0) {
            Decimal::new(500, 0)
        } else {
            Decimal::new(1_000, 0)
        }
    }

    fn upbit_size(price: Decimal) -> (r: Decimal)
        ensures
            r == upbit_tick(price),
    {
        if !is_below(price, 1_000_000, 0) {
            Decimal::new(1_000, 0)
        } else if !is_below(price, 500_000, 0) {
            Decimal::new(500, 0)
        } else if !is_below(price, 100_000, 0) {
            Decimal::new(100, 0)
        } else if !is_below(price, 50_000, 0) {
            Decimal::new(50, 0)
        } else if !is_below(price, 10_000, 0) {
            Decimal::new(10, 0)
        } else if !is_below(price, 5_000, 0) {
            Decimal::new(5, 0)
        } else if !is_below(price, 100, 0) {
            Decimal::new(1, 0)
        } else if !is_below(price, 10, 0) {
            Decimal::new(1, 1)
        } else if !is_below(price, 1, 0) {
            Decimal::new(1, 2)
        } else if !is_below(price, 1, 1) {
            Decimal::new(1, 3)
        } else if !is_below(price, 1, 2) {
            Decimal::new(1, 4)
        } else if !is_below(price, 1, 3) {
            Decimal::new(1, 5)
        } else if !is_below(price, 1, 4) {
            Decimal::new(1, 6)
        } else if !is_below(price, 1, 5) {
            Decimal::new(1, 7)
        } else {
            Decimal::new(1, 8)
        }
    }

    /// The tick size at a price.
    pub fn size_at(&self, price: Decimal) -> (r: Decimal)
        ensures
            r == self.tick_at(price),
    {
        match self {
            TickRule::Krx => Self::krx_size(price),
            TickRule::Us => if is_below(price, 1, 0) {
                Decimal::new(1, 4)
            } else {
                Decimal::new(1, 2)
            },
            TickRule::Upbit => Self::upbit_size(price),
            TickRule::Fixed(t) => *t,
        }
    }

    /// The price rounded down to a tick; `None` where no decimal can hold it or the tick is zero.
    pub fn floor(&self, price: Decimal) -> (r: Option<Decimal>)
        ensures
            r == self.tick_below(price),
            snappable(price, self.tick_at(price)) ==> r is Some && r->0.value() <= price.value() < r->0.value()
                + self.tick_at(price).value() && r->0.value() % self.tick_at(price).value() == 0,
    {
        let t = self.size_at(price);
        proof {
            use_type_invariant(price);
            use_type_invariant(t);
            if snappable(price, t) {
                lemma_quotient_in_range(price, t);
            }
        }
        let q = price.checked_div(t)?;
        let n = q.floor();
        let r = n.checked_mul(t);
        proof {
            use_type_invariant(q);
            if snappable(price, t) {
                lemma_whole_ticks(price, t, q);
                lemma_snap(price, t, price.value() / t.value());
                lemma_floored_value(q);
            }
        }
        r
    }

    /// The price rounded up to a tick; `None` where no decimal can hold it or the tick is zero.
    pub fn ceil(&self, price: Decimal) -> (r: Option<Decimal>)
        ensures
            r == self.tick_above(price),
            snappable(price, self.tick_at(price)) ==> r is Some && r->0.value() - self.tick_at(price).value()
                < price.value() <= r->0.value() && r->0.value() % self.tick_at(price).value() == 0,
    {
        let t = self.size_at(price);
        proof {
            use_type_invariant(price);
            use_type_invariant(t);
            if snappable(price, t) {
                lemma_quotient_in_range(price, t);
            }
        }
        let q = price.checked_div(t)?;
        let n = q.ceil();
        let r = n.checked_mul(t);
        proof {
            use_type_invariant(q);
            if snappable(price, t) {
                let whole = price.value() / t.value();
                lemma_whole_ticks(price, t, q);
                lemma_ceiled_value(q);
                lemma_snap(price, t, whole);
                lemma_snap(price, t, whole + 1);
                assert((whole + 1) * t.value() == whole * t.value() + t.value()) by (nonlinear_arith);
            }
        }
        r
    }

    /// The price rounded to the nearest tick, halfway to the even multiple; `None` where no decimal
    /// can hold it or the tick is zero.
    pub fn round(&self, price: Decimal) -> (r: Option<Decimal>)
        ensures
            r == self.nearest_tick(price),
            nearable(price, self.tick_at(price)) ==> r is Some && r->0.value() == half_even(
                price.value(),
                self.tick_at(price).value(),
            ) * self.tick_at(price).value(),
    {
        let t = self.size_at(price);
        proof {
            use_type_invariant(price);
            use_type_invariant(t);
            if nearable(price, t) {
                lemma_quotient_in_range(price, t);
            }
        }
        let q = price.checked_div(t)?;
        let n = q.round_dp(0);
        let r = n.checked_mul(t);
        proof {
            use_type_invariant(q);
            if nearable(price, t) {
                lemma_nearest_ticks(price, t, q);
                lemma_rounded_value(q);
                lemma_snap(price, t, half_even(price.value(), t.value()));
            }
        }
        r
    }

    /// Whether the price can be quoted.
    pub fn is_valid(&self, price: Decimal) -> (r: bool)
        ensures
            r == self.quotable(price),
            divides_exactly(price, self.tick_at(price)) ==> r == (price.value() > 0 && price.value() % self.tick_at(
                price,
            ).value() == 0),
    {
        if !price.is_positive() {
            return false;
        }
        match price.checked_rem(self.size_at(price)) {
            Some(m) => m.is_zero(),
            None => false,
        }
    }
}

/// How quantities are sized.
#[derive(Debug, Clone, Copy, PartialEq)]
pub struct LotRule {
    pub step: Decimal,
    pub min_qty: Decimal,
    pub min_notional: Decimal,
}

impl LotRule {
    /// A quantity that can be ordered at a price: positive, a whole number of steps, and not below
    /// the two minimums.
    pub open spec fn orderable(self, qty: Decimal, price: Decimal) -> bool {
        &&& qty.value() > 0
        &&& match qty.modulo(self.step) {
            Some(m) => m.value() == 0,
            None => false,
        }
        &&& qty.value() >= self.min_qty.value()
        &&& match qty.times(price) {
            Some(n) => n.value() >= self.min_notional.value(),
            None => false,
        }
    }

    pub fn is_valid(&self, qty: Decimal, price: Decimal) -> (r: bool)
        ensures
            r == self.orderable(qty, price),
            divides_exactly(qty, self.step) && r ==> qty.value() % self.step.value() == 0,
            divides_exactly(qty, self.step) && product_held(qty, price) ==> r == (qty.value() > 0 && qty.value()
                % self.step.value() == 0 && qty.value() >= self.min_qty.value() && qty.value() * price.value()
                >= self.min_notional.value() * unit()),
    {
        proof {
            lemma_product(qty, price);
            lemma_unit();
            if product_held(qty, price) {
                lemma_product_held(qty, price);
            }
        }
        if !qty.is_positive() {
            return false;
        }
        let whole = match qty.checked_rem(self.step) {
            Some(m) => m.is_zero(),
            None => false,
        };
        if !whole || qty.lt(self.min_qty) {
            return false;
        }
        match qty.checked_mul(price) {
            Some(n) => {
                proof {
                    let (least, v) = (self.min_notional.value(), n.value());
                    assert((least <= v) == (least * unit() <= v * unit())) by (nonlinear_arith)
                        requires
                            unit() > 0,
                    ;
                }
                self.min_notional.le(n)
            },
            None => false,
        }
    }
}

/// Integer shares, no minimum notional (KRX and US).
pub fn whole_shares() -> (r: LotRule)
    ensures
        r == (LotRule { step: one(), min_qty: one(), min_notional: zero() }),
{
    LotRule { step: Decimal::one(), min_qty: Decimal::one(), min_notional: Decimal::zero() }
}

#[derive(Debug)]
pub struct Instrument {
    pub id: InstrumentId,
    pub name: String,
    pub tick: TickRule,
    pub lot: LotRule,
    pub tradable: bool,
}

/// What is known of an instrument.
pub ghost struct InstrumentView {
    pub id: (Venue, Seq<char>),
    pub name: Seq<char>,
    pub tick: TickRule,
    pub lot: LotRule,
    pub tradable: bool,
}

impl View for Instrument {
    type V = InstrumentView;

    open spec fn view(&self) -> InstrumentView {
        InstrumentView { id: self.id@, name: self.name@, tick: self.tick, lot: self.lot, tradable: self.tradable }
    }
}

impl Stored for Instrument {
    open spec fn sound(&self) -> bool {
        true
    }
}

impl Clone for Instrument {
    fn clone(&self) -> (r: Instrument)
        ensures
            r@ == self@,
    {
        Instrument {
            id: self.id.clone(),
            name: self.name.clone(),
            tick: self.tick,
            lot: self.lot,
            tradable: self.tradable,
        }
    }
}

/// The KRX daily price limit: 30% either side of the previous close, snapped inward to ticks.
/// Other venues have none, nor has a KRX instrument without a previous close.
pub open spec fn band(venue: Venue, tick: TickRule, prev_close: Option<Decimal>) -> Result<
    Option<(Decimal, Decimal)>,
    Overflow,
> {
    if venue != Venue::Krx || prev_close is None {
        Ok(None)
    } else {
        match (prev_close->0.times(dec(7, 1)), prev_close->0.times(dec(13, 1))) {
            (Some(low), Some(high)) => match (tick.tick_above(low), tick.tick_below(high)) {
                (Some(lower), Some(upper)) => Ok(Some((lower, upper))),
                _ => Err(Overflow),
            },
            _ => Err(Overflow),
        }
    }
}

/// Whether neither 70% nor 130% of a price is rounded, and both fall between two ticks without
/// rounding.
pub open spec fn limits_are_exact(tick: TickRule, p: Decimal) -> bool {
    &&& p.value() % 10 == 0
    &&& representable(p.value() / 10 * 7)
    &&& representable(p.value() / 10 * 13)
    &&& p.times(dec(7, 1)) matches Some(low) && snappable(low, tick.tick_at(low))
    &&& p.times(dec(13, 1)) matches Some(high) && snappable(high, tick.tick_at(high))
}

/// So many tenths of a number that is a multiple of ten.
proof fn lemma_tenths(v: int, n: int)
    requires
        v % 10 == 0,
        n == 7 || n == 13,
    ensures
        v * dec(n, 1).value() % unit() == 0,
        v * dec(n, 1).value() / unit() == v / 10 * n,
{
    lemma_dec_parts(n, 1);
    lemma_pow10_positive(27);
    let tenth = pow10(27);
    let q = v / 10 * n;
    assert(unit() == 10 * tenth);
    assert(v * (n * tenth) == q * (10 * tenth)) by (nonlinear_arith)
        requires
            v == v / 10 * 10,
            q == v / 10 * n,
    ;
    lemma_div_multiples_vanish(q, 10 * tenth);
    assert((10 * tenth) * q == q * (10 * tenth)) by (nonlinear_arith);
    lemma_mod_multiples_basic(q, 10 * tenth);
}

/// KRX daily price limit: ±30% of the previous close, snapped inward to valid ticks.
/// Other venues have none.
pub fn price_band(venue: Venue, tick: &TickRule, prev_close: Option<Decimal>) -> (r: Result<
    Option<(Decimal, Decimal)>,
    Overflow,
>)
    ensures
        r == band(venue, *tick, prev_close),
        venue == Venue::Krx && prev_close is Some && limits_are_exact(*tick, prev_close->0) ==> (r matches Ok(
            Some((lower, upper)),
        ) && 7 * prev_close->0.value() <= 10 * lower.value() && 10 * upper.value() <= 13 * prev_close->0.value()
            && lower.value() % tick.tick_at(prev_close->0.times(dec(7, 1))->0).value() == 0 && upper.value()
            % tick.tick_at(prev_close->0.times(dec(13, 1))->0).value() == 0 && 10 * lower.value() < 7
            * prev_close->0.value() + 10 * tick.tick_at(prev_close->0.times(dec(7, 1))->0).value() && 10 * upper.value()
            + 10 * tick.tick_at(prev_close->0.times(dec(13, 1))->0).value() > 13 * prev_close->0.value()),
        venue != Venue::Krx || prev_close is None ==> r == Ok::<Option<(Decimal, Decimal)>, Overflow>(None),
{
    if venue != Venue::Krx {
        return Ok(None);
    }
    let p = match prev_close {
        Some(p) => p,
        None => return Ok(None),
    };
    let low = p.checked_mul(Decimal::new(7, 1));
    let high = p.checked_mul(Decimal::new(13, 1));
    proof {
        if limits_are_exact(*tick, p) {
            lemma_tenths(p.value(), 7);
            lemma_tenths(p.value(), 13);
        }
    }
    match (low, high) {
        (Some(low), Some(high)) => match (tick.ceil(low), tick.floor(high)) {
            (Some(lower), Some(upper)) => Ok(Some((lower, upper))),
            _ => Err(Overflow),
        },
        _ => Err(Overflow),
    }
}

/// What an execution costs, in hundredths of a percent of its value.
#[derive(Debug, Clone, Copy, PartialEq)]
pub struct FeeSchedule {
    pub commission_bps: Decimal,
    pub sell_tax_bps: Decimal,
    pub sell_reg_fee_bps: Decimal,
}

/// `b` basis points of `notional`.
pub open spec fn bps_of(notional: Decimal, b: Decimal) -> Option<Decimal> {
    opt_over(notional.times(b), Some(dec(10_000, 0)))
}

/// Whether none of the charges of a sale is rounded before it is cut off to the minor unit.
pub open spec fn charges_are_exact(venue: Venue, notional: Decimal) -> bool {
    let s = FeeSchedule::of_venue(venue);
    let n = notional.value();
    match (bps_of(notional, s.commission_bps), bps_of(notional, s.sell_reg_fee_bps), bps_of(notional, s.sell_tax_bps)) {
        (Some(a), Some(b), Some(c)) => {
            &&& a.value() * (10_000 * unit()) == n * s.commission_bps.value()
            &&& b.value() * (10_000 * unit()) == n * s.sell_reg_fee_bps.value()
            &&& c.value() * (10_000 * unit()) == n * s.sell_tax_bps.value()
            &&& a.plus(b) matches Some(x) && x.value() == a.value() + b.value()
        },
        _ => true,
    }
}

impl FeeSchedule {
    /// The fees of a venue. The KRX securities transaction tax (20 bps) follows the law in force
    /// for 2026.
    pub open spec fn of_venue(venue: Venue) -> FeeSchedule {
        match venue {
            Venue::Krx => FeeSchedule {
                commission_bps: dec(15, 1),
                sell_tax_bps: dec(20, 0),
                sell_reg_fee_bps: dec(0, 0),
            },
            Venue::Us => FeeSchedule {
                commission_bps: dec(0, 0),
                sell_tax_bps: dec(0, 0),
                sell_reg_fee_bps: dec(278, 3),
            },
            Venue::Upbit => FeeSchedule {
                commission_bps: dec(5, 0),
                sell_tax_bps: dec(0, 0),
                sell_reg_fee_bps: dec(0, 0),
            },
            Venue::Binance => FeeSchedule {
                commission_bps: dec(10, 0),
                sell_tax_bps: dec(0, 0),
                sell_reg_fee_bps: dec(0, 0),
            },
        }
    }

    /// Fee and tax of one execution.
    pub open spec fn charged(self, side: Side, notional: Decimal, dp: int) -> Option<(Decimal, Decimal)> {
        let commission = bps_of(notional, self.commission_bps);
        let fee = if side == Side::Sell {
            opt_plus(commission, bps_of(notional, self.sell_reg_fee_bps))
        } else {
            commission
        };
        let tax = if side == Side::Sell {
            bps_of(notional, self.sell_tax_bps)
        } else {
            Some(zero())
        };
        match (opt_truncated(fee, dp), opt_truncated(tax, dp)) {
            (Some(f), Some(t)) => Some((f, t)),
            _ => None,
        }
    }

    pub fn default_for(venue: Venue) -> (r: FeeSchedule)
        ensures
            r == FeeSchedule::of_venue(venue),
    {
        match venue {
            Venue::Krx => FeeSchedule {
                commission_bps: Decimal::new(15, 1),
                sell_tax_bps: Decimal::new(20, 0),
                sell_reg_fee_bps: Decimal::new(0, 0),
            },
            Venue::Us => FeeSchedule {
                commission_bps: Decimal::new(0, 0),
                sell_tax_bps: Decimal::new(0, 0),
                sell_reg_fee_bps: Decimal::new(278, 3),
            },
            Venue::Upbit => FeeSchedule {
                commission_bps: Decimal::new(5, 0),
                sell_tax_bps: Decimal::new(0, 0),
                sell_reg_fee_bps: Decimal::new(0, 0),
            },
            Venue::Binance => FeeSchedule {
                commission_bps: Decimal::new(10, 0),
                sell_tax_bps: Decimal::new(0, 0),
                sell_reg_fee_bps: Decimal::new(0, 0),
            },
        }
    }

    /// (fee, tax) for one execution of `notional`, truncated to `dp` decimal places (brokers drop
    /// the sub-unit remainder). Truncation also keeps a fee within the commission reserved for it.
    pub fn cost(&self, side: Side, notional: Decimal, dp: u32) -> (r: Option<(Decimal, Decimal)>)
        ensures
            r == self.charged(side, notional, dp as int),
    {
        let base = Decimal::new(10_000, 0);
        let mut fee = notional.checked_mul(self.commission_bps)?.checked_div(base)?;
        let mut tax = Decimal::zero();
        if side == Side::Sell {
            fee = fee.checked_add(notional.checked_mul(self.sell_reg_fee_bps)?.checked_div(base)?)?;
            tax = notional.checked_mul(self.sell_tax_bps)?.checked_div(base)?;
        }
        Some((fee.trunc_dp(dp), tax.trunc_dp(dp)))
    }
}

/// A regular session in venue-local time: zone, opening and closing second of the day. Crypto
/// venues have none: they trade around the clock.
pub open spec fn session_of(venue: Venue) -> Option<(Zone, int, int)> {
    match venue {
        Venue::Krx => Some((Zone::Seoul, 32_400, 55_800)),
        Venue::Us => Some((Zone::NewYork, 34_200, 57_600)),
        Venue::Upbit => None,
        Venue::Binance => None,
    }
}

fn session(venue: Venue) -> (r: Option<(Zone, i64, i64)>)
    ensures
        match session_of(venue) {
            Some(s) => r is Some && (r->0).0 == s.0 && (r->0).1 == s.1 && (r->0).2 == s.2,
            None => r is None,
        },
{
    match venue {
        Venue::Krx => Some((Zone::Seoul, 32_400, 55_800)),
        Venue::Us => Some((Zone::NewYork, 34_200, 57_600)),
        Venue::Upbit | Venue::Binance => None,
    }
}

/// The local second of a zone at an instant.
pub open spec fn local_second(zone: Zone, now: Timestamp) -> int {
    now.second() + zone_offset(zone, now.second())
}

/// Which days are holidays where.
#[derive(Debug)]
pub struct Calendar {
    holidays: Vec<(Venue, i64)>,
}

impl View for Calendar {
    type V = Set<(Venue, i64)>;

    closed spec fn view(&self) -> Set<(Venue, i64)> {
        self.holidays@.to_set()
    }
}

/// Whether a venue trades on a day: no weekend and no holiday.
pub open spec fn trading_day(holidays: Set<(Venue, i64)>, venue: Venue, day: int) -> bool {
    weekday(day) < 5 && !holidays.contains((venue, day as i64))
}

/// Whether a venue is open at an instant.
pub open spec fn open_at(holidays: Set<(Venue, i64)>, venue: Venue, now: Timestamp) -> bool {
    match session_of(venue) {
        None => true,
        Some((zone, open, close)) => {
            let local = local_second(zone, now);
            trading_day(holidays, venue, day_of(local)) && open <= second_of_day(local) < close
        },
    }
}

/// The opening instant on a day, if the venue trades that day and its clock shows the opening
/// time exactly once.
pub open spec fn opening_on(holidays: Set<(Venue, i64)>, venue: Venue, zone: Zone, open: int, day: int) -> Option<i64> {
    let local = day * SECS_PER_DAY + open;
    if trading_day(holidays, venue, day) && FIRST_SECOND <= local <= LAST_SECOND {
        zone_instant(zone, local)
    } else {
        None
    }
}

/// The first opening after `now`, from `i` days after `today` on, within fifteen days of it.
pub open spec fn first_opening(
    holidays: Set<(Venue, i64)>,
    venue: Venue,
    zone: Zone,
    open: int,
    today: int,
    i: int,
    now: int,
) -> Option<i64>
    decreases 15 - i,
{
    if i >= 15 {
        None
    } else {
        match opening_on(holidays, venue, zone, open, today + i) {
            Some(t) if t * NANOS_PER_SEC > now => Some(t),
            _ => first_opening(holidays, venue, zone, open, today, i + 1, now),
        }
    }
}

/// When a venue opens next: `None` for one without sessions, and where it does not open within
/// fifteen days.
pub open spec fn opening_after(holidays: Set<(Venue, i64)>, venue: Venue, now: Timestamp) -> Option<Timestamp> {
    match session_of(venue) {
        None => None,
        Some((zone, open, _)) => match first_opening(
            holidays,
            venue,
            zone,
            open,
            day_of(local_second(zone, now)),
            0,
            now.at(),
        ) {
            Some(t) => Some(instant(t * NANOS_PER_SEC)),
            None => None,
        },
    }
}

/// Whether a session of a venue opens at an instant: a whole second at which its clock shows the
/// opening time of a trading day, and shows it that once.
pub open spec fn opens_at(holidays: Set<(Venue, i64)>, venue: Venue, t: Timestamp) -> bool {
    match session_of(venue) {
        None => false,
        Some((zone, open, _)) => {
            let local = local_second(zone, t);
            &&& t.at() == t.second() * NANOS_PER_SEC
            &&& second_of_day(local) == open
            &&& opening_on(holidays, venue, zone, open, day_of(local)) == Some(t.second() as i64)
            &&& t.second() == t.second() as i64
        },
    }
}

/// The clock of a venue is not changed in the second before it opens.
proof fn lemma_second_before(zone: Zone, open: int, second: int)
    requires
        session_of(Venue::Krx) == Some((zone, open, 55_800int)) || session_of(Venue::Us) == Some((zone, open, 57_600int)),
        second_of_day(second + zone_offset(zone, second)) == open,
    ensures
        zone_offset(zone, second - 1) == zone_offset(zone, second),
{
    let day = SECS_PER_DAY as int;
    let o = zone_offset(zone, second);
    let d = day_of(second + o);
    let (start, length) = quiet(zone);
    vstd::arithmetic::div_mod::lemma_fundamental_div_mod(second + o, day);
    let x = second - start;
    // The second, counted from where a quiet part of a day begins.
    let since = match zone {
        Zone::Seoul => open - o + 86_400 - start,
        Zone::NewYork => open - o - start,
    };
    let n = match zone {
        Zone::Seoul => d - 1,
        Zone::NewYork => d,
    };
    assert(x == n * day + since);
    assert(1 <= since < length);
    vstd::arithmetic::div_mod::lemma_fundamental_div_mod_converse(x, day, n, since);
    vstd::arithmetic::div_mod::lemma_fundamental_div_mod_converse(x - 1, day, n, since - 1);
}

/// An opening lies on no day before today and on none behind the day of a later opening.
proof fn lemma_opening_day(
    holidays: Set<(Venue, i64)>,
    venue: Venue,
    zone: Zone,
    open: int,
    close: int,
    now: Timestamp,
    u: Timestamp,
    t: Timestamp,
)
    requires
        session_of(venue) == Some((zone, open, close)),
        opens_at(holidays, venue, u),
        now.at() < u.at() < t.at(),
        t.at() == t.second() * NANOS_PER_SEC,
    ensures
        day_of(local_second(zone, now)) <= day_of(local_second(zone, u)),
        second_of_day(local_second(zone, t)) == open ==> day_of(local_second(zone, u)) <= day_of(
            local_second(zone, t),
        ),
{
    let ln = local_second(zone, now);
    let lu = local_second(zone, u);
    let lt = local_second(zone, t);
    let day = SECS_PER_DAY as int;
    vstd::arithmetic::div_mod::lemma_fundamental_div_mod(ln, day);
    vstd::arithmetic::div_mod::lemma_fundamental_div_mod(lu, day);
    vstd::arithmetic::div_mod::lemma_fundamental_div_mod(lt, day);
    vstd::arithmetic::div_mod::lemma_fundamental_div_mod(now.at(), NANOS_PER_SEC as int);
    assert(now.second() <= u.second());
    assert(u.second() < t.second());
    let dn = day_of(ln);
    let du = day_of(lu);
    let dt = day_of(lt);
    assert(ln >= 86_400 * dn);
    assert(lu == 86_400 * du + open);
}

/// What `toml::from_str` reads from a text as a table of lists of dates, each date as the second
/// of its midnight, or the error it prints.
pub uninterp spec fn toml_dates(src: Seq<char>) -> Result<Seq<(Seq<char>, Seq<i64>)>, Seq<char>>;

/// Calls `toml::from_str` for a table of lists of dates. Claimed: the outcome depends on the text
/// alone.
#[verifier::external_body]
fn parse_toml_dates(src: &str) -> (r: Result<Vec<(String, Vec<i64>)>, String>)
    ensures
        match toml_dates(src@) {
            Ok(rows) => r is Ok && r->Ok_0@.len() == rows.len() && forall|i: int|
                0 <= i < rows.len() ==> (#[trigger] r->Ok_0@[i]).0@ == rows[i].0 && r->Ok_0@[i].1@ == rows[i].1,
            Err(m) => r is Err && r->Err_0@ == m,
        },
{
    let rows: Result<std::collections::BTreeMap<String, Vec<chrono::NaiveDate>>, toml::de::Error> = toml::from_str(src);
    let midnight = |d: chrono::NaiveDate| d.and_time(chrono::NaiveTime::MIN).and_utc().timestamp();
    match rows {
        Ok(m) => Ok(m.into_iter().map(|(k, v)| (k, v.into_iter().map(midnight).collect())).collect()),
        Err(e) => Err(e.to_string()),
    }
}

/// The tags of the rows, all of which name venues, or the first one that does not.
pub open spec fn unknown_tag(rows: Seq<(Seq<char>, Seq<i64>)>, from: int) -> Option<Seq<char>>
    decreases rows.len() - from,
{
    if from >= rows.len() {
        None
    } else if Venue::tagged(rows[from].0) is None {
        Some(rows[from].0)
    } else {
        unknown_tag(rows, from + 1)
    }
}

/// The holidays that a table lists.
pub open spec fn listed_holidays(rows: Seq<(Seq<char>, Seq<i64>)>) -> Set<(Venue, i64)> {
    Set::new(
        |h: (Venue, i64)|
            exists|i: int, j: int|
                0 <= i < rows.len() && 0 <= j < rows[i].1.len() && Venue::tagged(rows[i].0) == Some(h.0) && day_of(
                    #[trigger] rows[i].1[j] as int,
                ) == h.1,
    )
}

impl Calendar {
    /// A calendar with these holidays, each a venue and a day counted from 1970-01-01.
    pub fn new(holidays: Vec<(Venue, i64)>) -> (r: Calendar)
        ensures
            r@ == holidays@.to_set(),
    {
        Calendar { holidays }
    }

    fn is_trading_day(&self, venue: Venue, day: i64) -> (r: bool)
        requires
            -200_000_000 <= day <= 200_000_000,
        ensures
            r == trading_day(self@, venue, day as int),
    {
        let mut i: usize = 0;
        while i < self.holidays.len()
            invariant
                i <= self.holidays@.len(),
                forall|j: int| 0 <= j < i ==> self.holidays@[j] != (venue, day),
            decreases self.holidays@.len() - i,
        {
            let (v, d) = self.holidays[i];
            if v == venue && d == day {
                assert(self.holidays@.to_set().contains((venue, day)));
                return false;
            }
            i += 1;
        }
        assert(!self.holidays@.to_set().contains((venue, day)));
        weekday_of(day) < 5
    }

    pub fn is_open(&self, venue: Venue, now: Timestamp) -> (r: bool)
        ensures
            r == open_at(self@, venue, now),
    {
        match session(venue) {
            None => true,
            Some((zone, open, close)) => {
                let second = now.secs();
                let (day, time) = split_second(second + offset_at(zone, second));
                self.is_trading_day(venue, day) && open <= time && time < close
            },
        }
    }

    /// When the venue opens next. It is open at that instant, which is after `now`, and shut a second
    /// before; and no session of it opens in between.
    pub fn next_open(&self, venue: Venue, now: Timestamp) -> (r: Option<Timestamp>)
        ensures
            r == opening_after(self@, venue, now),
            r matches Some(t) ==> t.at() > now.at() && open_at(self@, venue, t) && opens_at(self@, venue, t),
            r matches Some(t) ==> forall|u: Timestamp|
                u.at() == t.at() - NANOS_PER_SEC ==> !(#[trigger] open_at(self@, venue, u)),
            r matches Some(t) ==> forall|u: Timestamp|
                now.at() < u.at() < t.at() ==> !(#[trigger] opens_at(self@, venue, u)),
    {
        let (zone, open, close) = session(venue)?;
        let second = now.secs();
        let (today, _) = split_second(second + offset_at(zone, second));
        let mut i: i64 = 0;
        while i < 15
            invariant
                0 <= i <= 15,
                -200_000_000 <= today <= 190_000_000,
                session_of(venue) == Some((zone, open as int, close as int)),
                today == day_of(local_second(zone, now)),
                0 <= open < close < SECS_PER_DAY,
                first_opening(self@, venue, zone, open as int, today as int, 0, now.at()) == first_opening(
                    self@,
                    venue,
                    zone,
                    open as int,
                    today as int,
                    i as int,
                    now.at(),
                ),
                forall|d: int|
                    0 <= d < i ==> (#[trigger] opening_on(self@, venue, zone, open as int, today + d) matches Some(u)
                        ==> u * NANOS_PER_SEC <= now.at()),
            decreases 15 - i,
        {
            let day = today + i;
            let local = day * SECS_PER_DAY + open;
            if self.is_trading_day(venue, day) && FIRST_SECOND <= local && local <= LAST_SECOND {
                if let Some(t) = instant_at(zone, local) {
                    if let Some(at) = Timestamp::from_secs(t) {
                        if at.after(now) {
                            proof {
                                vstd::arithmetic::div_mod::lemma_fundamental_div_mod_converse(
                                    at.at(),
                                    NANOS_PER_SEC as int,
                                    t as int,
                                    0,
                                );
                                vstd::arithmetic::div_mod::lemma_fundamental_div_mod_converse(
                                    local as int,
                                    SECS_PER_DAY as int,
                                    day as int,
                                    open as int,
                                );
                                assert(local_second(zone, at) == local);
                                self.lemma_next(venue, zone, open as int, close as int, now, at, today as int, i as int);
                            }
                            return Some(at);
                        }
                    }
                }
            }
            i += 1;
        }
        None
    }

    /// What holds of the first opening that is found after `now`.
    proof fn lemma_next(
        &self,
        venue: Venue,
        zone: Zone,
        open: int,
        close: int,
        now: Timestamp,
        t: Timestamp,
        today: int,
        i: int,
    )
        requires
            session_of(venue) == Some((zone, open, close)),
            0 < open < SECS_PER_DAY,
            t.at() == t.second() * NANOS_PER_SEC,
            opens_at(self@, venue, t),
            today == day_of(local_second(zone, now)),
            day_of(local_second(zone, t)) == today + i,
            forall|d: int|
                0 <= d < i ==> (#[trigger] opening_on(self@, venue, zone, open, today + d) matches Some(u) ==> u
                    * NANOS_PER_SEC <= now.at()),
        ensures
            forall|u: Timestamp|
                u.at() == t.at() - NANOS_PER_SEC ==> !(#[trigger] open_at(self@, venue, u)),
            forall|u: Timestamp|
                now.at() < u.at() < t.at() ==> !(#[trigger] opens_at(self@, venue, u)),
    {
        let day = SECS_PER_DAY as int;
        assert forall|u: Timestamp| u.at() == t.at() - NANOS_PER_SEC implies !(#[trigger] open_at(self@, venue, u)) by {
            lemma_second_before(zone, open, t.second());
            vstd::arithmetic::div_mod::lemma_fundamental_div_mod_converse(
                u.at(),
                NANOS_PER_SEC as int,
                t.second() - 1,
                0,
            );
            let lt = local_second(zone, t);
            vstd::arithmetic::div_mod::lemma_fundamental_div_mod(lt, day);
            vstd::arithmetic::div_mod::lemma_fundamental_div_mod_converse(lt - 1, day, lt / day, open - 1);
            assert(local_second(zone, u) == lt - 1);
        }
        assert forall|u: Timestamp| now.at() < u.at() < t.at() implies !(#[trigger] opens_at(self@, venue, u)) by {
            if opens_at(self@, venue, u) {
                lemma_opening_day(self@, venue, zone, open, close, now, u, t);
                let d = day_of(local_second(zone, u)) - today;
                assert(opening_on(self@, venue, zone, open, today + d) == Some(u.second() as i64));
                assert(0 <= d <= i);
            }
        }
    }

    /// Reads `VENUE = ["YYYY-MM-DD", ...]` lines.
    pub fn from_toml(src: &str) -> (r: Result<Calendar, String>)
        ensures
            match toml_dates(src@) {
                Err(m) => r is Err && r->Err_0@ == m,
                Ok(rows) => match unknown_tag(rows, 0) {
                    Some(tag) => r is Err && r->Err_0@ == "unknown venue "@ + quoted(tag),
                    None => r is Ok && r->Ok_0@ == listed_holidays(rows),
                },
            },
    {
        match parse_toml_dates(src) {
            Err(e) => Err(e),
            Ok(raw) => {
                assert(raw@.map_values(|e: (String, Vec<i64>)| (e.0@, e.1@)) =~= toml_dates(src@)->Ok_0);
                Self::from_rows(&raw)
            },
        }
    }

    /// The calendar of a table of venue tags and midnights.
    pub fn from_rows(raw: &Vec<(String, Vec<i64>)>) -> (r: Result<Calendar, String>)
        ensures
            ({
                let rows = raw@.map_values(|e: (String, Vec<i64>)| (e.0@, e.1@));
                match unknown_tag(rows, 0) {
                    Some(tag) => r is Err && r->Err_0@ == "unknown venue "@ + quoted(tag),
                    None => r is Ok && r->Ok_0@ == listed_holidays(rows),
                }
            }),
    {
        let ghost rows = raw@.map_values(|e: (String, Vec<i64>)| (e.0@, e.1@));
        let mut holidays: Vec<(Venue, i64)> = Vec::new();
        let mut i: usize = 0;
        while i < raw.len()
            invariant
                i <= raw@.len(),
                rows == raw@.map_values(|e: (String, Vec<i64>)| (e.0@, e.1@)),
                unknown_tag(rows, 0) == unknown_tag(rows, i as int),
                holidays@.to_set() == listed_holidays(rows.take(i as int)),
            decreases raw@.len() - i,
        {
            match Venue::from_tag(raw[i].0.as_str()) {
                None => {
                    return Err(join_text("unknown venue ", quote(raw[i].0.as_str()).as_str()));
                },
                Some(venue) => {
                    let days = &raw[i].1;
                    let ghost before = holidays@;
                    let mut j: usize = 0;
                    while j < days.len()
                        invariant
                            j <= days@.len(),
                            i < rows.len(),
                            days@ == rows[i as int].1,
                            Venue::tagged(rows[i as int].0) == Some(venue),
                            before.to_set() == listed_holidays(rows.take(i as int)),
                            forall|h: (Venue, i64)| #[trigger]
                                holidays@.contains(h) <==> before.contains(h) || (h.0 == venue && exists|k: int|
                                    0 <= k < j && day_of(#[trigger] days@[k] as int) == h.1),
                        decreases days@.len() - j,
                    {
                        let (day, _) = split_second(days[j]);
                        let ghost prior = holidays@;
                        holidays.push((venue, day));
                        proof {
                            assert forall|h: (Venue, i64)| #[trigger]
                                holidays@.contains(h) <==> before.contains(h) || (h.0 == venue && exists|k: int|
                                    0 <= k < j + 1 && day_of(#[trigger] days@[k] as int) == h.1) by {
                                lemma_push_contains(prior, (venue, day), h);
                                assert(day_of(days@[j as int] as int) == day);
                            }
                        }
                        j += 1;
                    }
                    proof {
                        lemma_one_more_row(rows, i as int, venue, before, holidays@);
                    }
                },
            }
            i += 1;
        }
        assert(rows.take(i as int) =~= rows);
        Ok(Calendar { holidays })
    }
}

proof fn lemma_one_more_row(
    rows: Seq<(Seq<char>, Seq<i64>)>,
    i: int,
    venue: Venue,
    before: Seq<(Venue, i64)>,
    after: Seq<(Venue, i64)>,
)
    requires
        0 <= i < rows.len(),
        Venue::tagged(rows[i].0) == Some(venue),
        before.to_set() == listed_holidays(rows.take(i)),
        forall|h: (Venue, i64)| #[trigger]
            after.contains(h) <==> before.contains(h) || (h.0 == venue && exists|k: int|
                0 <= k < rows[i].1.len() && day_of(#[trigger] rows[i].1[k] as int) == h.1),
    ensures
        after.to_set() == listed_holidays(rows.take(i + 1)),
{
    let more = rows.take(i + 1);
    assert forall|h: (Venue, i64)| after.to_set().contains(h) <==> #[trigger] listed_holidays(more).contains(h) by {
        assert(after.contains(h) <==> before.contains(h) || (h.0 == venue && exists|k: int|
            0 <= k < rows[i].1.len() && day_of(#[trigger] rows[i].1[k] as int) == h.1));
        assert(before.contains(h) <==> listed_holidays(rows.take(i)).contains(h)) by {
            assert(before.to_set().contains(h) <==> before.contains(h));
        }
        if listed_holidays(rows.take(i)).contains(h) {
            let (a, b) = choose|a: int, b: int|
                0 <= a < rows.take(i).len() && 0 <= b < rows.take(i)[a].1.len() && Venue::tagged(rows.take(i)[a].0) == Some(
                    h.0,
                ) && day_of(#[trigger] rows.take(i)[a].1[b] as int) == h.1;
            assert(day_of(more[a].1[b] as int) == h.1);
        }
        if h.0 == venue && exists|k: int| 0 <= k < rows[i].1.len() && day_of(#[trigger] rows[i].1[k] as int) == h.1 {
            let k = choose|k: int| 0 <= k < rows[i].1.len() && day_of(#[trigger] rows[i].1[k] as int) == h.1;
            assert(day_of(more[i].1[k] as int) == h.1);
        }
        if listed_holidays(more).contains(h) {
            let (a, b) = choose|a: int, b: int|
                0 <= a < more.len() && 0 <= b < more[a].1.len() && Venue::tagged(more[a].0) == Some(h.0) && day_of(
                    #[trigger] more[a].1[b] as int,
                ) == h.1;
            if a < i {
                assert(day_of(rows.take(i)[a].1[b] as int) == h.1);
            } else {
                assert(day_of(rows[i].1[b] as int) == h.1);
            }
        }
    }
    assert(after.to_set() =~= listed_holidays(more));
}

/// Crypto venues are always open and never open anew.
pub proof fn law_crypto_is_always_open(holidays: Set<(Venue, i64)>, venue: Venue, now: Timestamp)
    requires
        !venue.has_session(),
    ensures
        open_at(holidays, venue, now),
        opening_after(holidays, venue, now) is None,
{
}

impl Default for Calendar {
    /// No holidays.
    fn default() -> (r: Calendar)
        ensures
            r@ == Set::<(Venue, i64)>::empty(),
    {
        let holidays: Vec<(Venue, i64)> = Vec::new();
        assert(holidays@.to_set() =~= Set::<(Venue, i64)>::empty());
        Calendar { holidays }
    }
}

/// Every tick is positive.
pub proof fn lemma_tick_positive(tick: TickRule, price: Decimal)
    requires
        tick matches TickRule::Fixed(t) ==> t.value() > 0,
    ensures
        tick.tick_at(price).value() > 0,
{
    broadcast use lemma_dec_parts;

    let t = tick.tick_at(price);
    if tick !is Fixed {
        lemma_value_sign(t.mantissa(), t.scale());
    }
}

/// The tick nearest to a price that is not negative is not negative either.
pub proof fn lemma_nearest_sign(tick: TickRule, price: Decimal)
    requires
        tick matches TickRule::Fixed(t) ==> t.value() > 0,
        price.value() >= 0,
    ensures
        tick.nearest_tick(price) matches Some(x) ==> x.value() >= 0,
{
    let t = tick.tick_at(price);
    lemma_tick_positive(tick, price);
    lemma_quotient(price, t);
    if let Some(q) = tick.ticks(price) {
        lemma_rounded_value(q);
        lemma_unit();
        let h = half_even(q.value(), unit());
        assert(h >= 0);
        assert(h * unit() >= 0) by (nonlinear_arith)
            requires
                h >= 0,
                unit() > 0,
        ;
        lemma_product(q.rounded(0), t);
    }
}

/// What an execution of a value that is not negative is charged is not negative. Where no charge is
/// rounded before it is cut off, a sale is charged no more than it brings.
pub proof fn lemma_charges(venue: Venue, side: Side, notional: Decimal, dp: int)
    requires
        notional.value() >= 0,
        dp >= 0,
        side == Side::Sell ==> charges_are_exact(venue, notional),
    ensures
        FeeSchedule::of_venue(venue).charged(side, notional, dp) matches Some((fee, tax)) ==> {
            &&& fee.value() >= 0
            &&& tax.value() >= 0
            &&& side == Side::Sell ==> fee.value() + tax.value() <= notional.value()
        },
{
    broadcast use lemma_dec_parts;

    let s = FeeSchedule::of_venue(venue);
    let n = notional.value();
    lemma_unit();
    reveal_with_fuel(pow10, 29);
    assert(0 <= s.commission_bps.value() <= 10 * unit());
    assert(0 <= s.sell_tax_bps.value() <= 20 * unit());
    assert(0 <= s.sell_reg_fee_bps.value() <= unit());
    assert(dec(10_000, 0).value() == 10_000 * unit());
    lemma_bps_sign(notional, s.commission_bps);
    lemma_bps_sign(notional, s.sell_tax_bps);
    lemma_bps_sign(notional, s.sell_reg_fee_bps);
    lemma_truncated(zero(), dp);
    if let Some((fee, tax)) = s.charged(side, notional, dp) {
        let commission = bps_of(notional, s.commission_bps)->0;
        if side == Side::Sell {
            let reg = bps_of(notional, s.sell_reg_fee_bps)->0;
            let levy = bps_of(notional, s.sell_tax_bps)->0;
            let both = commission.plus(reg)->0;
            lemma_sums(commission, reg);
            lemma_truncated(both, dp);
            lemma_truncated(levy, dp);
            let u = unit();
            let a = commission.value();
            let b = reg.value();
            let c = levy.value();
            let (x, y, z) = (s.commission_bps.value(), s.sell_reg_fee_bps.value(), s.sell_tax_bps.value());
            assert(a + b + c <= n) by (nonlinear_arith)
                requires
                    n >= 0,
                    u > 0,
                    a * (10_000 * u) == n * x,
                    b * (10_000 * u) == n * y,
                    c * (10_000 * u) == n * z,
                    x + y + z <= 31 * u,
            {
                assert((a + b + c) * (10_000 * u) == n * (x + y + z));
                assert(n * (x + y + z) <= n * (31 * u));
                assert((a + b + c) * (10_000 * u) <= n * (10_000 * u));
            }
        } else {
            lemma_truncated(commission, dp);
        }
    }
}

/// Basis points of a value that is not negative are not negative.
pub proof fn lemma_bps_sign(notional: Decimal, b: Decimal)
    requires
        notional.value() >= 0,
        b.value() >= 0,
    ensures
        bps_of(notional, b) matches Some(x) ==> x.valid() && x.value() >= 0,
{
    lemma_dec_parts(10_000, 0);
    lemma_value_sign(10_000, 0);
    lemma_product(notional, b);
    if let Some(p) = notional.times(b) {
        lemma_quotient(p, dec(10_000, 0));
    }
}

proof fn lemma_floored_value(q: Decimal)
    requires
        q.valid(),
        q.value() >= 0,
    ensures
        q.floored().value() == (q.value() / unit()) * unit(),
        q.floored().mantissa() == q.value() / unit(),
        q.floored().scale() == 0,
        q.value() / unit() <= MAX_MANTISSA,
{
    let m = q.mantissa();
    let s = q.scale();
    let p = pow10(s as nat);
    let r = pow10((28 - s) as nat);
    lemma_pow10_positive(s as nat);
    lemma_pow10_positive((28 - s) as nat);
    lemma_pow10_add(s as nat, (28 - s) as nat);
    lemma_value_sign(m, s);
    assert((m * r) / (p * r) == m / p) by (nonlinear_arith)
        requires
            p > 0,
            r > 0,
            m >= 0,
    {
        let a = m / p;
        let b = m % p;
        assert(m == p * a + b && 0 <= b < p);
        assert(m * r == (p * r) * a + b * r && 0 <= b * r < p * r);
        vstd::arithmetic::div_mod::lemma_fundamental_div_mod_converse(m * r, p * r, a, b * r);
    }
    assert(0 <= m / p <= m) by (nonlinear_arith)
        requires
            p > 0,
            m >= 0,
    ;
    crate::decimal::lemma_dec_parts(m / p, 0);
}

/// A quotient that is off by less than the gap between two multiples has the right whole part.
proof fn lemma_whole_ticks(price: Decimal, t: Decimal, q: Decimal)
    requires
        price.valid(),
        t.valid(),
        q.valid(),
        snappable(price, t),
        q.value() >= 0,
        abs_int(q.value() * t.value() - price.value() * unit()) <= max_int(abs_int(price.value()), abs_int(t.value())),
        (price.value() * unit()) % t.value() == 0 && representable((price.value() * unit()) / t.value()) ==> q.value()
            == (price.value() * unit()) / t.value(),
    ensures
        q.value() / unit() == price.value() / t.value(),
        q.value() % unit() == 0 <==> price.value() % t.value() == 0,
        price.value() / t.value() >= 0,
{
    let p = price.value();
    let tv = t.value();
    let u = unit();
    let places = max_int(price.scale(), t.scale());
    let g = pow10((28 - places) as nat);
    lemma_pow10_positive((28 - places) as nat);
    lemma_pow10_positive(28);
    lemma_pow10_add(28, (28 - places) as nat);
    assert(g * u == pow10((56 - places) as nat)) by {
        assert(g * u == u * g) by (nonlinear_arith);
    }
    // Both are multiples of `g`.
    let ka = pow10((places - price.scale()) as nat);
    let kb = pow10((places - t.scale()) as nat);
    lemma_pow10_add((places - price.scale()) as nat, (28 - places) as nat);
    lemma_pow10_add((places - t.scale()) as nat, (28 - places) as nat);
    let a = price.mantissa() * ka;
    let b = t.mantissa() * kb;
    assert(p == a * g) by (nonlinear_arith)
        requires
            p == price.mantissa() * (ka * g),
            a == price.mantissa() * ka,
    ;
    assert(tv == b * g) by (nonlinear_arith)
        requires
            tv == t.mantissa() * (kb * g),
            b == t.mantissa() * kb,
    ;
    let n = p / tv;
    let r = p % tv;
    vstd::arithmetic::div_mod::lemma_fundamental_div_mod(p, tv);
    assert(n >= 0) by (nonlinear_arith)
        requires
            p >= 0,
            tv > 0,
            n == p / tv,
    ;
    let c = a - b * n;
    assert(r == c * g) by (nonlinear_arith)
        requires
            p == a * g,
            tv == b * g,
            p == tv * n + r,
            c == a - b * n,
    ;
    if r == 0 {
        assert(p * u == (n * u) * tv) by (nonlinear_arith)
            requires
                p == tv * n,
        ;
        vstd::arithmetic::div_mod::lemma_fundamental_div_mod_converse(p * u, tv, n * u, 0);
        assert(n <= p) by (nonlinear_arith)
            requires
                p == tv * n,
                tv >= 1,
                n >= 0,
        ;
        assert(n * g <= p) by (nonlinear_arith)
            requires
                p == tv * n,
                tv == b * g,
                tv > 0,
                g > 0,
                n >= 0,
        ;
        assert(n < u) by (nonlinear_arith)
            requires
                n * g <= p,
                p < g * u,
                g > 0,
        ;
        lemma_unit();
        assert(n * u == parts_value(n, 0));
        assert(valid_parts(n, 0));
        assert(q.value() == n * u);
        vstd::arithmetic::div_mod::lemma_fundamental_div_mod_converse(q.value(), u, n, 0);
    } else {
        let e = q.value() - n * u;
        let m = max_int(p, tv);
        assert(q.value() * tv - p * u == e * tv - r * u) by (nonlinear_arith)
            requires
                p == tv * n + r,
                e == q.value() - n * u,
        ;
        assert(c >= 1) by (nonlinear_arith)
            requires
                r == c * g,
                r > 0,
                g > 0,
        ;
        assert(c <= b - 1) by (nonlinear_arith)
            requires
                r == c * g,
                tv == b * g,
                r < tv,
                g > 0,
        ;
        assert(e > 0) by (nonlinear_arith)
            requires
                e * tv - r * u >= -m,
                r == c * g,
                c >= 1,
                m < g * u,
                g > 0,
                u > 0,
                tv > 0,
        ;
        assert(e < u) by (nonlinear_arith)
            requires
                e * tv - r * u <= m,
                r == c * g,
                tv == b * g,
                c <= b - 1,
                m < g * u,
                g > 0,
                u > 0,
                tv > 0,
        ;
        vstd::arithmetic::div_mod::lemma_fundamental_div_mod_converse(q.value(), u, n, e);
    }
}

/// The number of ticks in a price is within the range of decimals.
proof fn lemma_quotient_in_range(price: Decimal, t: Decimal)
    requires
        price.valid(),
        t.valid(),
        snappable(price, t),
    ensures
        abs_int(price.value()) <= abs_int(t.value()) * MAX_MANTISSA,
{
    let places = max_int(price.scale(), t.scale());
    let g = pow10((28 - places) as nat);
    let k = pow10((28 - t.scale()) as nat);
    let u = unit();
    lemma_pow10_positive((28 - places) as nat);
    lemma_pow10_add(28, (28 - places) as nat);
    lemma_pow10_add((places - t.scale()) as nat, (28 - places) as nat);
    lemma_pow10_positive((places - t.scale()) as nat);
    lemma_value_sign(t.mantissa(), t.scale());
    let w = pow10((places - t.scale()) as nat);
    assert(t.value() >= g) by (nonlinear_arith)
        requires
            t.value() == t.mantissa() * k,
            k == w * g,
            t.mantissa() >= 1,
            w >= 1,
            g > 0,
    ;
    lemma_unit();
    assert(price.value() <= t.value() * MAX_MANTISSA) by (nonlinear_arith)
        requires
            price.value() < u * g,
            t.value() >= g,
            g > 0,
            0 < u <= MAX_MANTISSA,
    ;
}

/// The least whole number that is not below a number, as a value.
proof fn lemma_ceiled_value(q: Decimal)
    requires
        q.valid(),
        0 <= q.value(),
    ensures
        q.ceiled().value() == (if q.value() % unit() == 0 {
            (q.value() / unit()) * unit()
        } else {
            (q.value() / unit() + 1) * unit()
        }),
{
    let m = q.mantissa();
    let s = q.scale();
    let p = pow10(s as nat);
    let r = pow10((28 - s) as nat);
    lemma_pow10_positive(s as nat);
    lemma_pow10_positive((28 - s) as nat);
    lemma_pow10_add(s as nat, (28 - s) as nat);
    lemma_value_sign(m, s);
    let a = m / p;
    let b = m % p;
    vstd::arithmetic::div_mod::lemma_fundamental_div_mod(m, p);
    assert(m * r == (p * r) * a + b * r && 0 <= b * r < p * r) by (nonlinear_arith)
        requires
            m == p * a + b,
            0 <= b < p,
            r > 0,
    ;
    assert(b * r == 0 <==> b == 0) by (nonlinear_arith)
        requires
            r > 0,
    ;
    vstd::arithmetic::div_mod::lemma_fundamental_div_mod_converse(m * r, p * r, a, b * r);
    assert(0 <= a <= m) by (nonlinear_arith)
        requires
            m == p * a + b,
            0 <= b < p,
            m >= 0,
    ;
    if b == 0 {
        assert(-m == p * (-a)) by (nonlinear_arith)
            requires
                m == p * a + b,
                b == 0,
        ;
        vstd::arithmetic::div_mod::lemma_fundamental_div_mod_converse(-m, p, -a, 0);
        crate::decimal::lemma_dec_parts(a, 0);
    } else {
        assert(-m == p * (-a - 1) + (p - b)) by (nonlinear_arith)
            requires
                m == p * a + b,
        ;
        vstd::arithmetic::div_mod::lemma_fundamental_div_mod_converse(-m, p, -a - 1, p - b);
        assert(a + 1 <= MAX_MANTISSA) by (nonlinear_arith)
            requires
                m == p * a + b,
                0 < b < p,
                m <= MAX_MANTISSA,
                a >= 0,
        ;
        crate::decimal::lemma_dec_parts(a + 1, 0);
    }
}

/// Rounding does not depend on the unit that both numbers are counted in.
proof fn lemma_half_even_scaled(m: int, p: int, r: int)
    requires
        m >= 0,
        p > 0,
        r > 0,
    ensures
        half_even(m * r, p * r) == half_even(m, p),
        m * r >= 0,
{
    let a = m / p;
    let b = m % p;
    vstd::arithmetic::div_mod::lemma_fundamental_div_mod(m, p);
    assert(m * r == (p * r) * a + b * r && 0 <= b * r < p * r && m * r >= 0) by (nonlinear_arith)
        requires
            m == p * a + b,
            0 <= b < p,
            r > 0,
            m >= 0,
    ;
    vstd::arithmetic::div_mod::lemma_fundamental_div_mod_converse(m * r, p * r, a, b * r);
    assert(2 * (b * r) > p * r <==> 2 * b > p) by (nonlinear_arith)
        requires
            r > 0,
    ;
    assert(2 * (b * r) == p * r <==> 2 * b == p) by (nonlinear_arith)
        requires
            r > 0,
    ;
}

/// The nearest whole number, as a value.
proof fn lemma_rounded_value(q: Decimal)
    requires
        q.valid(),
        0 <= q.value(),
    ensures
        q.rounded(0).value() == half_even(q.value(), unit()) * unit(),
{
    let m = q.mantissa();
    let s = q.scale();
    let p = pow10(s as nat);
    let r = pow10((28 - s) as nat);
    lemma_pow10_positive(s as nat);
    lemma_pow10_positive((28 - s) as nat);
    lemma_pow10_add(s as nat, (28 - s) as nat);
    lemma_value_sign(m, s);
    lemma_half_even_scaled(m, p, r);
    let n = half_even(m, p);
    vstd::arithmetic::div_mod::lemma_fundamental_div_mod(m, p);
    let a = m / p;
    let b = m % p;
    assert(0 <= a <= m && (b > 0 ==> a + 1 <= m)) by (nonlinear_arith)
        requires
            m == p * a + b,
            0 <= b < p,
            m >= 0,
    ;
    if s > 0 {
        crate::decimal::lemma_dec_parts(n, 0);
    } else {
        assert(p == 1);
        assert(a == m && b == 0) by (nonlinear_arith)
            requires
                m == p * a + b,
                p == 1,
                0 <= b < p,
        ;
    }
}

/// A quotient that is off by less than half the gap between two multiples is nearest to the right
/// whole number.
proof fn lemma_nearest_ticks(price: Decimal, t: Decimal, q: Decimal)
    requires
        price.valid(),
        t.valid(),
        q.valid(),
        nearable(price, t),
        q.value() >= 0,
        abs_int(q.value() * t.value() - price.value() * unit()) <= max_int(abs_int(price.value()), abs_int(t.value())),
        (price.value() * unit()) % t.value() == 0 && representable((price.value() * unit()) / t.value()) ==> q.value()
            == (price.value() * unit()) / t.value(),
    ensures
        half_even(q.value(), unit()) == half_even(price.value(), t.value()),
        0 <= half_even(price.value(), t.value()) <= price.value() / t.value() + 1,
{
    lemma_whole_ticks(price, t, q);
    let p = price.value();
    let tv = t.value();
    let u = unit();
    let places = max_int(price.scale(), t.scale());
    let g = pow10((28 - places) as nat);
    lemma_pow10_positive((28 - places) as nat);
    lemma_pow10_positive(28);
    lemma_pow10_add(28, (28 - places) as nat);
    assert(g * u == pow10((56 - places) as nat)) by {
        assert(g * u == u * g) by (nonlinear_arith);
    }
    // Both are multiples of `g`.
    let ka = pow10((places - price.scale()) as nat);
    let kb = pow10((places - t.scale()) as nat);
    lemma_pow10_add((places - price.scale()) as nat, (28 - places) as nat);
    lemma_pow10_add((places - t.scale()) as nat, (28 - places) as nat);
    let a = price.mantissa() * ka;
    let b = t.mantissa() * kb;
    assert(p == a * g) by (nonlinear_arith)
        requires
            p == price.mantissa() * (ka * g),
            a == price.mantissa() * ka,
    ;
    assert(tv == b * g) by (nonlinear_arith)
        requires
            tv == t.mantissa() * (kb * g),
            b == t.mantissa() * kb,
    ;
    let n = p / tv;
    let r = p % tv;
    vstd::arithmetic::div_mod::lemma_fundamental_div_mod(p, tv);
    let c = a - b * n;
    assert(r == c * g) by (nonlinear_arith)
        requires
            p == a * g,
            tv == b * g,
            p == tv * n + r,
            c == a - b * n,
    ;
    vstd::arithmetic::div_mod::lemma_fundamental_div_mod(q.value(), u);
    let e = q.value() % u;
    let m = max_int(p, tv);
    assert(q.value() * tv - p * u == e * tv - r * u) by (nonlinear_arith)
        requires
            p == tv * n + r,
            q.value() == u * n + e,
    ;
    if 2 * r == tv {
        // Halfway: the quotient has one place more and is exact.
        let h = 10 * n + 5;
        let w = pow10(27);
        lemma_pow10_add(1, 27);
        assert(pow10(1) == 10) by {
            reveal_with_fuel(pow10, 2);
        }
        assert(p * u == tv * (h * w)) by (nonlinear_arith)
            requires
                p == tv * n + r,
                2 * r == tv,
                u == 10 * w,
                h == 10 * n + 5,
        ;
        vstd::arithmetic::div_mod::lemma_fundamental_div_mod_converse(p * u, tv, h * w, 0);
        assert(n * g <= p) by (nonlinear_arith)
            requires
                p == tv * n + r,
                r >= 0,
                tv == b * g,
                tv > 0,
                g > 0,
                n >= 0,
        ;
        assert(2 * n < u) by (nonlinear_arith)
            requires
                n * g <= p,
                2 * p < g * u,
                g > 0,
        ;
        lemma_unit();
        assert(h * w == parts_value(h, 1));
        assert(u == 10_000_000_000_000_000_000_000_000_000);
        assert(valid_parts(h, 1));
        assert(q.value() == h * w);
        assert(h * w == u * n + 5 * w) by (nonlinear_arith)
            requires
                u == 10 * w,
                h == 10 * n + 5,
        ;
        assert(2 * e == u);
    } else if 2 * r < tv {
        assert(b - 2 * c >= 1) by (nonlinear_arith)
            requires
                r == c * g,
                tv == b * g,
                2 * r < tv,
                g > 0,
        ;
        assert(2 * e < u) by (nonlinear_arith)
            requires
                e * tv - r * u <= m,
                r == c * g,
                tv == b * g,
                b - 2 * c >= 1,
                2 * m < g * u,
                g > 0,
                u > 0,
                tv > 0,
        ;
    } else {
        assert(2 * c - b >= 1) by (nonlinear_arith)
            requires
                r == c * g,
                tv == b * g,
                2 * r > tv,
                g > 0,
        ;
        assert(2 * e > u) by (nonlinear_arith)
            requires
                e * tv - r * u >= -m,
                r == c * g,
                tv == b * g,
                2 * c - b >= 1,
                2 * m < g * u,
                g > 0,
                u > 0,
                tv > 0,
        ;
    }
}

/// A whole number of ticks around a price is held exactly.
proof fn lemma_snap(price: Decimal, t: Decimal, n: int)
    requires
        price.valid(),
        t.valid(),
        snappable(price, t),
        0 <= n <= price.value() / t.value() + 1,
    ensures
        (n * unit()) * t.value() % unit() == 0,
        ((n * unit()) * t.value()) / unit() == n * t.value(),
        representable(n * t.value()),
        n == price.value() / t.value() ==> n * t.value() <= price.value() < n * t.value() + t.value(),
        price.value() % t.value() == 0 && n == price.value() / t.value() ==> n * t.value() == price.value(),
        price.value() % t.value() != 0 && n == price.value() / t.value() ==> n * t.value() < price.value(),
        (n * t.value()) % t.value() == 0,
{
    let u = unit();
    let tv = t.value();
    let p = price.value();
    lemma_pow10_positive(28);
    assert((n * u) * tv == (n * tv) * u) by (nonlinear_arith);
    vstd::arithmetic::div_mod::lemma_fundamental_div_mod_converse((n * u) * tv, u, n * tv, 0);
    vstd::arithmetic::div_mod::lemma_fundamental_div_mod(p, tv);
    let whole = p / tv;
    assert(tv * n == n * tv && tv * whole == whole * tv) by (nonlinear_arith);
    vstd::arithmetic::div_mod::lemma_fundamental_div_mod_converse(n * tv, tv, n, 0);
    let places = max_int(price.scale(), t.scale());
    let k = pow10((28 - t.scale()) as nat);
    lemma_pow10_positive((28 - t.scale()) as nat);
    lemma_value_sign(t.mantissa(), t.scale());
    let m = n * t.mantissa();
    assert(n * tv == m * k) by (nonlinear_arith)
        requires
            tv == t.mantissa() * k,
            m == n * t.mantissa(),
    ;
    assert(n * tv <= p + tv) by (nonlinear_arith)
        requires
            n <= whole + 1,
            whole * tv <= p,
            tv > 0,
    ;
    lemma_pow10_add((28 - t.scale()) as nat, 28);
    lemma_pow10_positive((places - t.scale()) as nat);
    lemma_pow10_positive((56 - places) as nat);
    lemma_pow10_add((56 - places) as nat, (places - t.scale()) as nat);
    let w = pow10((places - t.scale()) as nat);
    let x = pow10((56 - places) as nat);
    assert(x <= x * w) by (nonlinear_arith)
        requires
            w >= 1,
            x > 0,
    ;
    assert(m < 2 * u) by (nonlinear_arith)
        requires
            m * k <= p + tv,
            p < k * u,
            tv < k * u,
            k > 0,
    ;
    assert(m >= 0) by (nonlinear_arith)
        requires
            m == n * t.mantissa(),
            n >= 0,
            t.mantissa() > 0,
    ;
    lemma_unit();
    assert(n * tv == parts_value(m, t.scale()));
    assert(valid_parts(m, t.scale()));
}

/// What an execution is charged in fees, in thousandths of a basis point of its value.
pub open spec fn fee_rate(venue: Venue, side: Side) -> int {
    match venue {
        Venue::Krx => 1_500,
        Venue::Us => if side == Side::Sell {
            278
        } else {
            0
        },
        Venue::Upbit => 5_000,
        Venue::Binance => 10_000,
    }
}

/// What an execution is taxed, in thousandths of a basis point of its value: 0.2 % of a sale in Korea.
pub open spec fn tax_rate(venue: Venue, side: Side) -> int {
    if venue == Venue::Krx && side == Side::Sell {
        20_000
    } else {
        0
    }
}

/// Whether decimals hold a charge at a rate in thousandths of a basis point, and what it is worked out
/// from.
pub open spec fn charge_held(n: int, rate: int) -> bool {
    &&& (n * rate) % 10_000_000 == 0
    &&& representable(n * rate / 1_000)
    &&& representable(n * rate / 10_000_000)
}

proof fn lemma_bps_value(notional: Decimal, m: int, s: int, rate: int)
    requires
        (s == 0 && rate == 1_000 * m) || (s == 1 && rate == 100 * m) || (s == 3 && rate == m),
        valid_parts(m, s),
        charge_held(notional.value(), rate),
    ensures
        bps_of(notional, dec(m, s)) matches Some(x) ==> x.valid() && x.value() == notional.value() * rate / 10_000_000,
{
    lemma_dec_parts(m, s);
    lemma_dec_parts(10_000, 0);
    lemma_unit();
    let b = dec(m, s);
    let g = pow10(25);
    assert(pow10(28) == 10 * pow10(27) && pow10(27) == 10 * pow10(26) && pow10(26) == 10 * pow10(25));
    assert(b.value() == rate * g) by (nonlinear_arith)
        requires
            (s == 0 && rate == 1_000 * m && b.value() == m * (10 * (10 * (10 * g)))) || (s == 1 && rate == 100 * m
                && b.value() == m * (10 * (10 * g))) || (s == 3 && rate == m && b.value() == m * g),
    ;
    let n = notional.value();
    let t = n * rate;
    let u = unit();
    let x = t / 1_000;
    let y = t / 10_000_000;
    vstd::arithmetic::div_mod::lemma_fundamental_div_mod(t, 10_000_000);
    assert(x == 10_000 * y && t == 1_000 * x);
    assert(n * b.value() == u * x) by (nonlinear_arith)
        requires
            b.value() == rate * g,
            t == n * rate,
            t == 1_000 * x,
            u == 1_000 * g,
    ;
    vstd::arithmetic::div_mod::lemma_fundamental_div_mod_converse(n * b.value(), u, x, 0);
    lemma_product(notional, b);
    if let Some(p) = notional.times(b) {
        assert(p.value() == x);
        let d = dec(10_000, 0);
        assert(x * u == d.value() * y) by (nonlinear_arith)
            requires
                x == 10_000 * y,
                d.value() == 10_000 * u,
        ;
        lemma_exact_quotient(p, d, y);
    }
}

/// What an execution costs: its fee and its tax are their shares of its value, cut off at `dp` places.
/// Buys are not taxed, and of the venues only Korea taxes sales. Decimals hold the shares.
pub proof fn law_charges_are_shares_of_the_value(venue: Venue, side: Side, notional: Decimal, dp: int)
    requires
        0 <= dp <= 28,
        notional.value() >= 0,
        charge_held(notional.value(), fee_rate(venue, side)),
        charge_held(notional.value(), tax_rate(venue, side)),
    ensures
        FeeSchedule::of_venue(venue).charged(side, notional, dp) matches Some((fee, tax)) ==> {
            let g = pow10((28 - dp) as nat);
            &&& fee.value() == notional.value() * fee_rate(venue, side) / 10_000_000 / g * g
            &&& tax.value() == notional.value() * tax_rate(venue, side) / 10_000_000 / g * g
        },
{
    let n = notional.value();
    let g = pow10((28 - dp) as nat);
    lemma_pow10_positive((28 - dp) as nat);
    lemma_dec_parts(0, 0);
    assert(n * 0 == 0);
    assert(valid_parts(0, 0) && 0 == parts_value(0, 0));
    assert(charge_held(n, 0));
    let f = n * fee_rate(venue, side) / 10_000_000;
    let t = n * tax_rate(venue, side) / 10_000_000;
    assert(f >= 0 && t >= 0) by {
        assert(n * fee_rate(venue, side) >= 0) by (nonlinear_arith)
            requires
                n >= 0,
                fee_rate(venue, side) >= 0,
        ;
        assert(n * tax_rate(venue, side) >= 0) by (nonlinear_arith)
            requires
                n >= 0,
                tax_rate(venue, side) >= 0,
        ;
    }
    match venue {
        Venue::Krx => lemma_bps_value(notional, 15, 1, 1_500),
        Venue::Us => lemma_bps_value(notional, 0, 0, 0),
        Venue::Upbit => lemma_bps_value(notional, 5, 0, 5_000),
        Venue::Binance => lemma_bps_value(notional, 10, 0, 10_000),
    }
    lemma_bps_value(notional, 0, 0, 0);
    if side == Side::Sell {
        if venue == Venue::Us {
            lemma_bps_value(notional, 278, 3, 278);
        }
        if venue == Venue::Krx {
            lemma_bps_value(notional, 20, 0, 20_000);
        }
    }
    let s = FeeSchedule::of_venue(venue);
    if let Some((fee, tax)) = s.charged(side, notional, dp) {
        let a = bps_of(notional, s.commission_bps)->0;
        let levy = if side == Side::Sell {
            let b = bps_of(notional, s.sell_reg_fee_bps)->0;
            lemma_sums(a, b);
            a.plus(b)->0
        } else {
            a
        };
        let duty = if side == Side::Sell {
            bps_of(notional, s.sell_tax_bps)->0
        } else {
            zero()
        };
        assert(levy.value() == f);
        assert(duty.value() == t);
        lemma_truncated_value(levy, dp);
        lemma_truncated_value(duty, dp);
    }
}

/// When the venues trade: crypto always, stocks from Monday to Friday but for holidays, in Seoul from
/// nine until half past three and in New York from half past nine until four by their own clocks.
pub proof fn law_sessions_keep_their_hours(holidays: Set<(Venue, i64)>, venue: Venue, now: Timestamp)
    ensures
        venue == Venue::Upbit || venue == Venue::Binance ==> open_at(holidays, venue, now),
        venue == Venue::Krx ==> (open_at(holidays, venue, now) <==> {
            let local = now.second() + zone_offset(Zone::Seoul, now.second());
            let (day, time) = (local / 86_400, local % 86_400);
            weekday(day) < 5 && !holidays.contains((venue, day as i64)) && 9 * 3600 <= time < 15 * 3600 + 30 * 60
        }),
        venue == Venue::Us ==> (open_at(holidays, venue, now) <==> {
            let local = now.second() + zone_offset(Zone::NewYork, now.second());
            let (day, time) = (local / 86_400, local % 86_400);
            weekday(day) < 5 && !holidays.contains((venue, day as i64)) && 9 * 3600 + 30 * 60 <= time < 16 * 3600
        }),
{
}

/// The nearest tick is a whole number of ticks and no further from the price than half a tick.
pub proof fn law_the_nearest_tick_is_near(tick: TickRule, price: Decimal)
    requires
        price.valid(),
        tick.tick_at(price).valid(),
        nearable(price, tick.tick_at(price)),
    ensures
        tick.nearest_tick(price) matches Some(x) ==> {
            let t = tick.tick_at(price).value();
            &&& x.value() % t == 0
            &&& 2 * abs_int(x.value() - price.value()) <= t
        },
{
    let t = tick.tick_at(price);
    lemma_quotient(price, t);
    if let Some(q) = tick.ticks(price) {
        let p = price.value();
        let tv = t.value();
        let n = half_even(p, tv);
        lemma_nearest_ticks(price, t, q);
        lemma_rounded_value(q);
        lemma_snap(price, t, n);
        lemma_product(q.rounded(0), t);
        vstd::arithmetic::div_mod::lemma_fundamental_div_mod(p, tv);
        let a = p / tv;
        let r = p % tv;
        assert(abs_int(2 * (n * tv - p)) <= tv) by (nonlinear_arith)
            requires
                p == tv * a + r,
                0 <= r < tv,
                n == a || n == a + 1,
                n == a ==> 2 * r <= tv,
                n == a + 1 ==> 2 * r >= tv,
        ;
    }
}

/// The tick below a price is the last whole number of ticks that is not above it, and the tick above it the
/// first that is not below.
pub proof fn law_ticks_enclose_the_price(tick: TickRule, price: Decimal)
    requires
        price.valid(),
        tick.tick_at(price).valid(),
        snappable(price, tick.tick_at(price)),
    ensures
        ({
            let t = tick.tick_at(price).value();
            &&& tick.tick_below(price) matches Some(x) ==> x.value() % t == 0 && x.value() <= price.value() < x.value() + t
            &&& tick.tick_above(price) matches Some(x) ==> x.value() % t == 0 && x.value() - t < price.value() <= x.value()
        }),
{
    let t = tick.tick_at(price);
    lemma_quotient(price, t);
    if let Some(q) = tick.ticks(price) {
        let whole = price.value() / t.value();
        lemma_whole_ticks(price, t, q);
        lemma_floored_value(q);
        lemma_ceiled_value(q);
        lemma_snap(price, t, whole);
        lemma_snap(price, t, whole + 1);
        lemma_product(q.floored(), t);
        lemma_product(q.ceiled(), t);
        assert((whole + 1) * t.value() == whole * t.value() + t.value()) by (nonlinear_arith);
    }
}

proof fn lemma_whole_won(n: int)
    requires
        0 < n <= 1_000_000,
    ensures
        parts_value(n, 0) == n * unit(),
        dec(n, 0).value() == n * unit(),
{
    lemma_dec_parts(n, 0);
}

proof fn lemma_tenth_of_a_won(places: int)
    requires
        0 < places <= 8,
    ensures
        10 * parts_value(1, places) == parts_value(1, places - 1),
        dec(1, places).value() == parts_value(1, places),
        parts_value(1, places) > 0,
{
    lemma_dec_parts(1, places);
    lemma_pow10_positive((28 - places) as nat);
}

/// How the tick of the Korean exchange goes with the price from a thousand won on: ticks of one, ten, a
/// hundred and a thousand won for prices of five hundred to two thousand ticks, and those of five, fifty and
/// five hundred won for prices of four hundred to a thousand; the largest tick stays however high the price.
pub proof fn law_korean_ticks_go_with_the_price(price: Decimal)
    requires
        price.value() >= 1_000 * unit(),
    ensures
        ({
            let (t, p, won) = (krx_tick(price).value(), price.value(), unit());
            &&& t == won || t == 10 * won || t == 100 * won ==> 500 * t <= p < 2_000 * t
            &&& t == 5 * won || t == 50 * won || t == 500 * won ==> 400 * t <= p < 1_000 * t
            &&& t == 1_000 * won ==> 500 * t <= p
            &&& t == won || t == 5 * won || t == 10 * won || t == 50 * won || t == 100 * won || t == 500 * won || t == 1_000 * won
        }),
{
    lemma_unit();
    lemma_whole_won(1);
    lemma_whole_won(5);
    lemma_whole_won(10);
    lemma_whole_won(50);
    lemma_whole_won(100);
    lemma_whole_won(500);
    lemma_whole_won(1_000);
    lemma_whole_won(2_000);
    lemma_whole_won(5_000);
    lemma_whole_won(20_000);
    lemma_whole_won(50_000);
    lemma_whole_won(200_000);
    lemma_whole_won(500_000);
}

/// How the tick of Upbit goes with the price: from five thousand won on it is the largest of one or five times
/// a power of ten won that is no more than a thousandth of the price, up to a thousand won; below that, down to
/// the smallest tick of a hundred-millionth, the largest power of ten that is no more than a hundredth, up to
/// one won.
pub proof fn law_upbit_ticks_go_with_the_price(price: Decimal)
    ensures
        ({
            let (t, p, won) = (upbit_tick(price).value(), price.value(), unit());
            let smallest = parts_value(1, 8);
            &&& p >= 5_000 * won ==> {
                &&& 1_000 * t <= p
                &&& t == 5 * won || t == 50 * won || t == 500 * won ==> p < 2_000 * t
                &&& t == 10 * won || t == 100 * won ==> p < 5_000 * t
                &&& t == 5 * won || t == 10 * won || t == 50 * won || t == 100 * won || t == 500 * won || t == 1_000 * won
            }
            &&& 1_000 * smallest <= p < 5_000 * won ==> {
                &&& 100 * t <= p
                &&& t < won ==> p < 1_000 * t
                &&& smallest < t <= won
            }
            &&& p < 1_000 * smallest ==> t == smallest
        }),
{
    lemma_unit();
    lemma_whole_won(1);
    lemma_whole_won(5);
    lemma_whole_won(10);
    lemma_whole_won(50);
    lemma_whole_won(100);
    lemma_whole_won(500);
    lemma_whole_won(1_000);
    lemma_whole_won(5_000);
    lemma_whole_won(10_000);
    lemma_whole_won(50_000);
    lemma_whole_won(100_000);
    lemma_whole_won(500_000);
    lemma_whole_won(1_000_000);
    lemma_tenth_of_a_won(1);
    lemma_tenth_of_a_won(2);
    lemma_tenth_of_a_won(3);
    lemma_tenth_of_a_won(4);
    lemma_tenth_of_a_won(5);
    lemma_tenth_of_a_won(6);
    lemma_tenth_of_a_won(7);
    lemma_tenth_of_a_won(8);
}

} // verus!
