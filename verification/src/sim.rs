//! Shadow order book: our fills deplete real liquidity (recovering with a half-life) and shift the
//! price by a permanent-impact offset (decaying with another).
//! Pure: time comes in as arguments, and so do the two decay factors, which are worked out in
//! floating point where the clock is.
use crate::decimal::{
    abs_int, dec, half_even, lemma_dec_parts, lemma_exact_quotient, lemma_pow10_add, lemma_pow10_positive,
    lemma_product, lemma_product_held, lemma_rounded, lemma_stepped, lemma_sums, lemma_truncated_value, lemma_unit,
    lemma_value_sign, one, opt_over, parts_value, pow10, product_held, representable, unit, valid_parts, zero,
    Decimal, MAX_MANTISSA,
};
use crate::domain::{Level, Side, Venue};
use crate::table::{lemma_row, lemma_row_of, Key, Stored, Table};
use crate::time::Timestamp;
use crate::venue::{law_the_nearest_tick_is_near, nearable, TickRule};
use vstd::prelude::*;

verus! {

/// The parameters of the market model.
#[derive(Debug, Clone, Copy, PartialEq)]
pub struct SimParams {
    /// Strength of the square-root impact law.
    pub eta: Decimal,
    /// Half-life of the price offset.
    pub tau_perm_secs: i64,
    /// Half-life of the depletion.
    pub tau_res_secs: i64,
    /// How far from the mid a market order may go.
    pub max_slippage: Decimal,
    pub default_sigma: Decimal,
    pub default_adv: Decimal,
}

impl SimParams {
    pub open spec fn of_venue(venue: Venue) -> SimParams {
        SimParams {
            eta: dec(5, 1),
            tau_perm_secs: if venue.has_session() {
                1_800
            } else {
                600
            },
            tau_res_secs: 60,
            max_slippage: dec(5, 2),
            default_sigma: dec(3, 2),
            default_adv: match venue {
                Venue::Krx => dec(1_000_000_000, 0),
                Venue::Upbit => dec(1_000_000_000, 0),
                Venue::Us => dec(10_000_000, 0),
                Venue::Binance => dec(1_000_000, 0),
            },
        }
    }

    pub fn default_for(venue: Venue) -> (r: SimParams)
        ensures
            r == SimParams::of_venue(venue),
    {
        SimParams {
            eta: Decimal::new(5, 1),
            tau_perm_secs: if venue.has_session() {
                1_800
            } else {
                600
            },
            tau_res_secs: 60,
            max_slippage: Decimal::new(5, 2),
            default_sigma: Decimal::new(3, 2),
            default_adv: match venue {
                Venue::Krx | Venue::Upbit => Decimal::new(1_000_000_000, 0),
                Venue::Us => Decimal::new(10_000_000, 0),
                Venue::Binance => Decimal::new(1_000_000, 0),
            },
        }
    }
}

/// 20-day daily-return volatility and average daily traded value, in the quote currency.
#[derive(Debug, Clone, Copy, PartialEq)]
pub struct DailyStats {
    /// The volatility as the bits of a double: carried, never read here.
    pub sigma_bits: u64,
    pub adv_notional: Decimal,
}

impl View for DailyStats {
    type V = DailyStats;

    open spec fn view(&self) -> DailyStats {
        *self
    }
}

impl Stored for DailyStats {
    open spec fn sound(&self) -> bool {
        true
    }
}

/// One level of the shadow book: what is left of a real level, at a shifted price.
#[derive(Debug, Clone, Copy, PartialEq)]
pub struct ShadowLevel {
    pub price: Decimal,
    pub qty: Decimal,
    pub real_price: Decimal,
}

/// What was taken from one level.
#[derive(Debug, Clone, Copy, PartialEq)]
pub struct Slice {
    pub price: Decimal,
    pub qty: Decimal,
    pub real_price: Decimal,
}

#[derive(Debug, Clone, Copy, PartialEq)]
pub enum Size {
    Qty(Decimal),
    Notional(Decimal),
}

/// A price level on one side of the real book.
#[derive(Debug, Clone, Copy)]
pub struct LevelKey {
    pub side: Side,
    pub price: Decimal,
}

impl View for LevelKey {
    type V = (Side, int);

    open spec fn view(&self) -> (Side, int) {
        (self.side, self.price.value())
    }
}

impl Key for LevelKey {
    fn same_key(&self, o: &LevelKey) -> (r: bool) {
        self.side == o.side && self.price.same(o.price)
    }
}

/// How far the shadow has recovered since it was last looked at: the share of the depletion that
/// is left, and the price multiplier (one plus the offset) that holds now.
#[derive(Debug, Clone, Copy, PartialEq)]
pub struct Drift {
    pub recovery: Decimal,
    pub multiplier: Decimal,
}

pub struct ShadowState {
    /// One plus the permanent impact as a relative price shift (1.01 = +1%).
    pub multiplier: Decimal,
    /// Liquidity we took, keyed by (side of the resting liquidity, real price level).
    pub depletion: Table<LevelKey, Decimal>,
    pub updated_at: Option<Timestamp>,
}

/// The state of a shadow book.
pub ghost struct ShadowView {
    pub multiplier: Decimal,
    pub depletion: Map<(Side, int), Decimal>,
    pub updated_at: Option<Timestamp>,
}

impl View for ShadowState {
    type V = ShadowView;

    open spec fn view(&self) -> ShadowView {
        ShadowView { multiplier: self.multiplier, depletion: self.depletion@, updated_at: self.updated_at }
    }
}

impl Stored for ShadowState {
    open spec fn sound(&self) -> bool {
        self.wf()
    }
}

/// A shadow book that nothing has been taken from.
pub open spec fn fresh_shadow() -> ShadowView {
    ShadowView { multiplier: one(), depletion: Map::empty(), updated_at: None }
}

/// What is left of a depleted quantity.
pub open spec fn recovered(q: Decimal, recovery: Decimal) -> Option<Decimal> {
    match q.times(recovery) {
        Some(x) => Some(x.rounded(8)),
        None => None,
    }
}

/// The depletion after a recovery: every quantity shrinks, and those that reach zero go.
pub open spec fn recovered_depletion(d: Map<(Side, int), Decimal>, recovery: Decimal) -> Map<(Side, int), Decimal> {
    Map::new(
        |k: (Side, int)| d.contains_key(k) && recovered(d[k], recovery)->0.value() != 0,
        |k: (Side, int)| recovered(d[k], recovery)->0,
    )
}

/// The shadow at `now`. A shadow that was never looked at before only starts its clock.
pub open spec fn decayed(s: ShadowView, now: Timestamp, drift: Drift) -> Option<ShadowView> {
    if s.updated_at is None {
        Some(ShadowView { updated_at: Some(now), ..s })
    } else if exists|k: (Side, int)| #[trigger] s.depletion.contains_key(k) && recovered(s.depletion[k], drift.recovery)
        is None {
        None
    } else {
        Some(
            ShadowView {
                multiplier: drift.multiplier,
                depletion: recovered_depletion(s.depletion, drift.recovery),
                updated_at: Some(now),
            },
        )
    }
}

/// A real price moved by the offset, snapped to the nearest valid tick.
pub open spec fn shifted(s: ShadowView, price: Decimal, tick: TickRule) -> Option<Decimal> {
    match price.times(s.multiplier) {
        Some(p) => tick.nearest_tick(p),
        None => None,
    }
}

/// How much of a level we took and that has not recovered.
pub open spec fn depleted(s: ShadowView, side: Side, price: Decimal) -> Decimal {
    if s.depletion.contains_key((side, price.value())) {
        s.depletion[(side, price.value())]
    } else {
        zero()
    }
}

/// `s` in front of an optional sequence.
pub open spec fn prepend<A>(s: Seq<A>, rest: Option<Seq<A>>) -> Option<Seq<A>> {
    match rest {
        Some(r) => Some(s + r),
        None => None,
    }
}

pub proof fn lemma_prepend<A>(s: Seq<A>, a: A, rest: Option<Seq<A>>)
    ensures
        prepend(s, prepend(seq![a], rest)) == prepend(s.push(a), rest),
        prepend(Seq::<A>::empty(), rest) == rest,
        prepend(s, Some(Seq::<A>::empty())) == Some(s),
{
    if let Some(r) = rest {
        assert(s + (seq![a] + r) =~= s.push(a) + r);
        assert(Seq::<A>::empty() + r =~= r);
    }
    assert(s + Seq::<A>::empty() =~= s);
}

/// The shadow levels of `levels` from index `i` on: each real level less what we took from it, at
/// its shifted price; levels with nothing left are gone.
pub open spec fn shadow_from(s: ShadowView, levels: Seq<Level>, side: Side, tick: TickRule, i: int) -> Option<
    Seq<ShadowLevel>,
>
    decreases levels.len() - i,
{
    if i >= levels.len() {
        Some(Seq::empty())
    } else {
        match levels[i].qty.minus(depleted(s, side, levels[i].price)) {
            None => None,
            Some(qty) => if qty.value() > 0 {
                match shifted(s, levels[i].price, tick) {
                    None => None,
                    Some(price) => prepend(
                        seq![ShadowLevel { price, qty, real_price: levels[i].price }],
                        shadow_from(s, levels, side, tick, i + 1),
                    ),
                }
            } else {
                shadow_from(s, levels, side, tick, i + 1)
            },
        }
    }
}

/// The depletion after the slices from index `i` on are taken from the side opposite to `taker`.
pub open spec fn consumed_from(d: Map<(Side, int), Decimal>, taker: Side, slices: Seq<Slice>, i: int) -> Option<
    Map<(Side, int), Decimal>,
>
    decreases slices.len() - i,
{
    if i >= slices.len() {
        Some(d)
    } else {
        let k = (taker.opposite(), slices[i].real_price.value());
        let had = if d.contains_key(k) {
            d[k]
        } else {
            zero()
        };
        match had.plus(slices[i].qty) {
            Some(q) => consumed_from(d.insert(k, q), taker, slices, i + 1),
            None => None,
        }
    }
}

/// A shadow after a taker removed `slices` from it.
pub open spec fn consumed(s: ShadowView, taker: Side, slices: Seq<Slice>) -> Option<ShadowView> {
    match consumed_from(s.depletion, taker, slices, 0) {
        Some(depletion) => Some(ShadowView { depletion, ..s }),
        None => None,
    }
}

fn copy_depletion(t: &Table<LevelKey, Decimal>) -> (r: Table<LevelKey, Decimal>)
    requires
        t.wf(),
    ensures
        r.wf(),
        r@ == t@,
{
    let mut r: Table<LevelKey, Decimal> = Table::new();
    let mut i: usize = 0;
    while i < t.len()
        invariant
            i <= t.rows().len(),
            t.wf(),
            r.wf(),
            forall|k: (Side, int)| #[trigger]
                r@.contains_key(k) <==> exists|j: int| 0 <= j < i && (#[trigger] t.rows()[j]).0 == k,
            forall|k: (Side, int)| #[trigger] r@.contains_key(k) ==> t@.contains_key(k) && r@[k] == t@[k],
        decreases t.rows().len() - i,
    {
        proof {
            lemma_row(t.rows(), i as int);
        }
        let ghost before = r@;
        r.insert(*t.key_at(i), *t.value_at(i));
        proof {
            let kk = t.rows()[i as int].0;
            assert forall|k: (Side, int)| #[trigger]
                r@.contains_key(k) <==> exists|j: int| 0 <= j < i + 1 && (#[trigger] t.rows()[j]).0 == k by {
                if before.contains_key(k) {
                    let j = choose|j: int| 0 <= j < i && (#[trigger] t.rows()[j]).0 == k;
                    assert(t.rows()[j].0 == k);
                }
                assert(t.rows()[i as int].0 == kk);
            }
        }
        i += 1;
    }
    proof {
        assert forall|k: (Side, int)| #[trigger] t@.contains_key(k) implies r@.contains_key(k) by {
            let j = lemma_row_of(t.rows(), k);
            assert(t.rows()[j].0 == k);
        }
        assert(r@ =~= t@);
    }
    r
}

impl ShadowState {
    pub open spec fn wf(&self) -> bool {
        self.depletion.wf()
    }

    pub fn new() -> (r: ShadowState)
        ensures
            r.wf(),
            r@ == fresh_shadow(),
    {
        ShadowState { multiplier: Decimal::one(), depletion: Table::new(), updated_at: None }
    }

    pub fn copied(&self) -> (r: ShadowState)
        requires
            self.wf(),
        ensures
            r.wf(),
            r@ == self@,
    {
        ShadowState {
            multiplier: self.multiplier,
            depletion: copy_depletion(&self.depletion),
            updated_at: self.updated_at,
        }
    }

    /// Recovers to `now`. Where a decimal cannot hold the outcome, nothing changes and the answer
    /// is false.
    pub fn decay(&mut self, now: Timestamp, drift: Drift) -> (ok: bool)
        requires
            old(self).wf(),
        ensures
            final(self).wf(),
            match decayed(old(self)@, now, drift) {
                Some(s) => ok && final(self)@ == s,
                None => !ok && final(self)@ == old(self)@,
            },
    {
        if self.updated_at.is_none() {
            self.updated_at = Some(now);
            return true;
        }
        let mut kept: Table<LevelKey, Decimal> = Table::new();
        let mut i: usize = 0;
        while i < self.depletion.len()
            invariant
                i <= self.depletion.rows().len(),
                self.depletion.wf(),
                self@ == old(self)@,
                self.updated_at is Some,
                kept.wf(),
                forall|j: int|
                    0 <= j < i ==> recovered((#[trigger] self.depletion.rows()[j]).1, drift.recovery) is Some,
                forall|k: (Side, int)| #[trigger]
                    kept@.contains_key(k) <==> exists|j: int|
                        0 <= j < i && (#[trigger] self.depletion.rows()[j]).0 == k && recovered(
                            self.depletion.rows()[j].1,
                            drift.recovery,
                        )->0.value() != 0,
                forall|k: (Side, int)| #[trigger]
                    kept@.contains_key(k) ==> self.depletion@.contains_key(k) && kept@[k] == recovered(
                        self.depletion@[k],
                        drift.recovery,
                    )->0,
            decreases self.depletion.rows().len() - i,
        {
            proof {
                lemma_row(self.depletion.rows(), i as int);
            }
            let key = *self.depletion.key_at(i);
            let q = *self.depletion.value_at(i);
            let ghost rows = self.depletion.rows();
            match q.checked_mul(drift.recovery) {
                None => {
                    assert(self.depletion@.contains_key(rows[i as int].0));
                    assert(recovered(self.depletion@[rows[i as int].0], drift.recovery) is None);
                    return false;
                },
                Some(x) => {
                    let left = x.round_dp(8);
                    let ghost before = kept@;
                    if !left.is_zero() {
                        kept.insert(key, left);
                    }
                    proof {
                        assert forall|k: (Side, int)| #[trigger]
                            kept@.contains_key(k) <==> exists|j: int|
                                0 <= j < i + 1 && (#[trigger] rows[j]).0 == k && recovered(
                                    rows[j].1,
                                    drift.recovery,
                                )->0.value() != 0 by {
                            if before.contains_key(k) {
                                let j = choose|j: int|
                                    0 <= j < i && (#[trigger] rows[j]).0 == k && recovered(
                                        rows[j].1,
                                        drift.recovery,
                                    )->0.value() != 0;
                                assert(rows[j].0 == k);
                            }
                            assert(rows[i as int].0 == key@);
                        }
                    }
                },
            }
            i += 1;
        }
        proof {
            let rows = self.depletion.rows();
            assert forall|k: (Side, int)| #[trigger] self.depletion@.contains_key(k) implies recovered(
                self.depletion@[k],
                drift.recovery,
            ) is Some && (recovered(self.depletion@[k], drift.recovery)->0.value() != 0 ==> kept@.contains_key(k)) by {
                let j = lemma_row_of(rows, k);
                assert(rows[j].0 == k);
            }
            assert forall|k: (Side, int)| #[trigger] kept@.contains_key(k) implies recovered(
                self.depletion@[k],
                drift.recovery,
            )->0.value() != 0 by {
                let j = choose|j: int|
                    0 <= j < rows.len() && (#[trigger] rows[j]).0 == k && recovered(rows[j].1, drift.recovery)->0.value()
                        != 0;
                lemma_row(rows, j);
            }
            assert(kept@ =~= recovered_depletion(self.depletion@, drift.recovery));
        }
        self.multiplier = drift.multiplier;
        self.depletion = kept;
        self.updated_at = Some(now);
        true
    }

    /// A real price moved by the offset, snapped to the nearest valid tick.
    pub fn shift(&self, price: Decimal, tick: &TickRule) -> (r: Option<Decimal>)
        ensures
            r == shifted(self@, price, *tick),
    {
        tick.round(price.checked_mul(self.multiplier)?)
    }

    /// The shadow view of one side of the real book. `side` is the side of the resting liquidity:
    /// asks are `Sell`, bids are `Buy`. `None` where a decimal cannot hold an amount.
    pub fn shadow_side(&self, levels: &[Level], side: Side, tick: &TickRule) -> (r: Option<Vec<ShadowLevel>>)
        requires
            self.wf(),
        ensures
            match shadow_from(self@, levels@, side, *tick, 0) {
                Some(s) => r is Some && r->0@ == s,
                None => r is None,
            },
    {
        let mut out: Vec<ShadowLevel> = Vec::new();
        let mut i: usize = 0;
        proof {
            lemma_prepend(out@, arbitrary(), shadow_from(self@, levels@, side, *tick, 0));
        }
        while i < levels.len()
            invariant
                i <= levels@.len(),
                self.wf(),
                shadow_from(self@, levels@, side, *tick, 0) == prepend(
                    out@,
                    shadow_from(self@, levels@, side, *tick, i as int),
                ),
            decreases levels@.len() - i,
        {
            let l = levels[i];
            let key = LevelKey { side, price: l.price };
            let taken = match self.depletion.get(&key) {
                Some(q) => *q,
                None => Decimal::zero(),
            };
            let qty = l.qty.checked_sub(taken)?;
            if qty.is_positive() {
                let price = self.shift(l.price, tick)?;
                proof {
                    lemma_prepend(
                        out@,
                        ShadowLevel { price, qty, real_price: l.price },
                        shadow_from(self@, levels@, side, *tick, i + 1),
                    );
                }
                out.push(ShadowLevel { price, qty, real_price: l.price });
            }
            i += 1;
        }
        proof {
            lemma_prepend(out@, arbitrary(), None);
        }
        Some(out)
    }

    /// Records liquidity that a `taker` removed from the opposite side. Where a decimal cannot hold
    /// the outcome, nothing changes and the answer is false.
    pub fn consume(&mut self, taker: Side, slices: &[Slice]) -> (ok: bool)
        requires
            old(self).wf(),
        ensures
            final(self).wf(),
            match consumed(old(self)@, taker, slices@) {
                Some(s) => ok && final(self)@ == s,
                None => !ok && final(self)@ == old(self)@,
            },
    {
        let mut d = copy_depletion(&self.depletion);
        let mut i: usize = 0;
        while i < slices.len()
            invariant
                i <= slices@.len(),
                self.depletion.wf(),
                self@ == old(self)@,
                d.wf(),
                consumed_from(self.depletion@, taker, slices@, 0) == consumed_from(d@, taker, slices@, i as int),
            decreases slices@.len() - i,
        {
            let key = LevelKey { side: taker.opposite(), price: slices[i].real_price };
            let had = match d.get(&key) {
                Some(q) => *q,
                None => Decimal::zero(),
            };
            match had.checked_add(slices[i].qty) {
                Some(q) => d.insert(key, q),
                None => return false,
            }
            i += 1;
        }
        self.depletion = d;
        true
    }
}

/// Whether a price is worse than the taker's limit.
pub open spec fn worse(taker: Side, price: Decimal, limit: Decimal) -> bool {
    match taker {
        Side::Buy => price.value() > limit.value(),
        Side::Sell => price.value() < limit.value(),
    }
}

/// How much of a level is taken towards what is left: no more than the level holds and in whole
/// steps only.
pub open spec fn level_take(l: ShadowLevel, left: Size, step: Decimal) -> Option<Decimal> {
    match left {
        Size::Qty(q) => l.qty.lesser(q).stepped(step),
        Size::Notional(n) => match opt_over(n.over(l.price), Some(step)) {
            Some(steps) => match steps.floored().times(step) {
                Some(q) => l.qty.lesser(q).stepped(step),
                None => None,
            },
            None => None,
        },
    }
}

/// Whether a level holds less than one step: nothing can be taken of it.
pub open spec fn too_small(l: ShadowLevel, step: Decimal) -> bool {
    l.qty.value() < step.value()
}

/// What is left after taking `q` at `price`.
pub open spec fn left_after(left: Size, q: Decimal, price: Decimal) -> Option<Size> {
    match left {
        Size::Qty(q0) => match q0.minus(q) {
            Some(x) => Some(Size::Qty(x)),
            None => None,
        },
        Size::Notional(n) => match q.times(price) {
            Some(cost) => match n.minus(cost) {
                Some(x) => Some(Size::Notional(x)),
                None => None,
            },
            None => None,
        },
    }
}

/// The slices taken from `levels`, from index `i` on, best level first, until `left` is met or the
/// next level is worse than `limit`. Levels that hold less than a step are passed over.
pub open spec fn walk_from(
    levels: Seq<ShadowLevel>,
    taker: Side,
    left: Size,
    limit: Decimal,
    step: Decimal,
    i: int,
) -> Option<Seq<Slice>>
    decreases levels.len() - i,
{
    if i >= levels.len() || worse(taker, levels[i].price, limit) {
        Some(Seq::empty())
    } else {
        match level_take(levels[i], left, step) {
            None => None,
            Some(q) => if q.value() <= 0 {
                if too_small(levels[i], step) {
                    walk_from(levels, taker, left, limit, step, i + 1)
                } else {
                    Some(Seq::empty())
                }
            } else {
                match left_after(left, q, levels[i].price) {
                    None => None,
                    Some(rest) => prepend(
                        seq![Slice { price: levels[i].price, qty: q, real_price: levels[i].real_price }],
                        walk_from(levels, taker, rest, limit, step, i + 1),
                    ),
                }
            },
        }
    }
}

/// The quantities of slices, added up.
pub open spec fn taken_value(s: Seq<Slice>) -> int
    decreases s.len(),
{
    if s.len() == 0 {
        0
    } else {
        taken_value(s.drop_last()) + s.last().qty.value()
    }
}

/// Whether a number is a multiple of 10^-`places` and within what a decimal of that many places
/// holds.
pub open spec fn on_grid(v: int, places: int) -> bool {
    &&& 0 <= places <= 28
    &&& v % pow10((28 - places) as nat) == 0
    &&& -MAX_MANTISSA * pow10((28 - places) as nat) <= v <= MAX_MANTISSA * pow10((28 - places) as nat)
}

/// A number on a grid is held exactly, and so is the difference of two that are not negative.
pub proof fn lemma_on_grid(v: int, w: int, places: int)
    requires
        on_grid(v, places),
        on_grid(w, places),
    ensures
        representable(v),
        0 <= w && 0 <= v ==> on_grid(v - w, places) && representable(v - w),
{
    let g = pow10((28 - places) as nat);
    lemma_pow10_positive((28 - places) as nat);
    vstd::arithmetic::div_mod::lemma_fundamental_div_mod(v, g);
    vstd::arithmetic::div_mod::lemma_fundamental_div_mod(w, g);
    let a = v / g;
    let b = w / g;
    assert(-MAX_MANTISSA <= a <= MAX_MANTISSA) by (nonlinear_arith)
        requires
            v == g * a,
            g > 0,
            -MAX_MANTISSA * g <= v <= MAX_MANTISSA * g,
    ;
    assert(a * g == v) by (nonlinear_arith)
        requires
            v == g * a,
    ;
    assert(valid_parts(a, places) && v == parts_value(a, places));
    if 0 <= w && 0 <= v {
        assert((a - b) * g == v - w) by (nonlinear_arith)
            requires
                v == g * a,
                w == g * b,
        ;
        assert(-MAX_MANTISSA <= a - b <= MAX_MANTISSA) by (nonlinear_arith)
            requires
                (a - b) * g == v - w,
                g > 0,
                0 <= w <= MAX_MANTISSA * g,
                0 <= v <= MAX_MANTISSA * g,
        ;
        assert(valid_parts(a - b, places) && v - w == parts_value(a - b, places));
        vstd::arithmetic::div_mod::lemma_fundamental_div_mod_converse(v - w, g, a - b, 0);
    }
}

/// The levels that a walk takes from, by their index.
pub open spec fn walked(
    levels: Seq<ShadowLevel>,
    taker: Side,
    left: Size,
    limit: Decimal,
    step: Decimal,
    i: int,
) -> Seq<int>
    decreases levels.len() - i,
{
    if i >= levels.len() || worse(taker, levels[i].price, limit) {
        Seq::empty()
    } else {
        match level_take(levels[i], left, step) {
            None => Seq::empty(),
            Some(q) => if q.value() <= 0 {
                if too_small(levels[i], step) {
                    walked(levels, taker, left, limit, step, i + 1)
                } else {
                    Seq::empty()
                }
            } else {
                match left_after(left, q, levels[i].price) {
                    None => Seq::empty(),
                    Some(rest) => seq![i] + walked(levels, taker, rest, limit, step, i + 1),
                }
            },
        }
    }
}

/// What is taken of a level is no more than it holds and a whole number of steps.
pub proof fn lemma_level_take(l: ShadowLevel, left: Size, step: Decimal)
    requires
        step.valid(),
        level_take(l, left, step) is Some,
        level_take(l, left, step)->0.value() > 0,
    ensures
        level_take(l, left, step)->0.value() <= l.qty.value(),
        left is Qty ==> level_take(l, left, step)->0.value() <= left->Qty_0.value(),
        step.value() > 0 ==> level_take(l, left, step)->0.value() % step.value() == 0,
{
    let x = match left {
        Size::Qty(q) => l.qty.lesser(q),
        Size::Notional(n) => l.qty.lesser(opt_over(n.over(l.price), Some(step))->0.floored().times(step)->0),
    };
    if x.value() > 0 && step.value() > 0 {
        lemma_stepped(x, step);
    }
}

/// Every walk goes level by level from the best: its slices have the prices of levels that come one
/// after the other, none of them worse than the limit. It takes whole steps, never more than a level
/// holds, and passes over no level but those that hold less than a step.
pub proof fn law_walk_takes_levels_in_order(
    levels: Seq<ShadowLevel>,
    taker: Side,
    left: Size,
    limit: Decimal,
    step: Decimal,
    i: int,
)
    requires
        0 <= i <= levels.len(),
        step.valid(),
        walk_from(levels, taker, left, limit, step, i) is Some,
    ensures
        ({
            let s = walk_from(levels, taker, left, limit, step, i)->0;
            let at = walked(levels, taker, left, limit, step, i);
            &&& s.len() == at.len()
            &&& forall|j: int|
                0 <= j < s.len() ==> {
                    &&& i <= #[trigger] at[j] < levels.len()
                    &&& s[j].price == levels[at[j]].price
                    &&& s[j].real_price == levels[at[j]].real_price
                    &&& 0 < s[j].qty.value() <= levels[at[j]].qty.value()
                    &&& step.value() > 0 ==> s[j].qty.value() % step.value() == 0
                    &&& !worse(taker, s[j].price, limit)
                }
            &&& forall|j: int, k: int| 0 <= j < k < at.len() ==> #[trigger] at[j] < #[trigger] at[k]
            &&& forall|n: int, j: int|
                i <= n && 0 <= j < at.len() && n < #[trigger] at[j] && !at.contains(n) ==> too_small(
                    #[trigger] levels[n],
                    step,
                )
        }),
    decreases levels.len() - i,
{
    if i < levels.len() && !worse(taker, levels[i].price, limit) {
        let q = level_take(levels[i], left, step)->0;
        if q.value() > 0 {
            lemma_level_take(levels[i], left, step);
            let rest = left_after(left, q, levels[i].price)->0;
            law_walk_takes_levels_in_order(levels, taker, rest, limit, step, i + 1);
            let tail = walk_from(levels, taker, rest, limit, step, i + 1)->0;
            let tail_at = walked(levels, taker, rest, limit, step, i + 1);
            let s = walk_from(levels, taker, left, limit, step, i)->0;
            let at = walked(levels, taker, left, limit, step, i);
            let head = Slice { price: levels[i].price, qty: q, real_price: levels[i].real_price };
            assert(s == seq![head] + tail);
            assert(at == seq![i] + tail_at);
            assert forall|j: int| 0 <= j < s.len() implies {
                &&& i <= #[trigger] at[j] < levels.len()
                &&& s[j].price == levels[at[j]].price
                &&& s[j].real_price == levels[at[j]].real_price
                &&& 0 < s[j].qty.value() <= levels[at[j]].qty.value()
                &&& step.value() > 0 ==> s[j].qty.value() % step.value() == 0
                &&& !worse(taker, s[j].price, limit)
            } by {
                if j > 0 {
                    assert(s[j] == tail[j - 1]);
                    assert(at[j] == tail_at[j - 1]);
                }
            }
            assert forall|j: int, k: int| 0 <= j < k < at.len() implies #[trigger] at[j] < #[trigger] at[k] by {
                assert(at[k] == tail_at[k - 1]);
                if j > 0 {
                    assert(at[j] == tail_at[j - 1]);
                }
            }
            assert forall|n: int, j: int|
                i <= n && 0 <= j < at.len() && n < #[trigger] at[j] && !at.contains(n) implies too_small(
                #[trigger] levels[n],
                step,
            ) by {
                assert(at[0] == i);
                assert(n != i);
                assert(j > 0 && at[j] == tail_at[j - 1]);
                if tail_at.contains(n) {
                    let k = choose|k: int| 0 <= k < tail_at.len() && tail_at[k] == n;
                    assert(at[k + 1] == n);
                }
            }
        } else if too_small(levels[i], step) {
            law_walk_takes_levels_in_order(levels, taker, left, limit, step, i + 1);
        }
    }
}

/// Whether every quantity is on one grid of decimal places.
pub open spec fn quantities_on_grid(levels: Seq<ShadowLevel>, places: int) -> bool {
    forall|i: int| 0 <= i < levels.len() ==> on_grid((#[trigger] levels[i]).qty.value(), places)
}

/// Rounding down to a step of no more places stays on the grid.
proof fn lemma_stepped_on_grid(x: Decimal, step: Decimal, places: int)
    requires
        step.valid(),
        step.scale() <= places,
        on_grid(x.value(), places),
    ensures
        x.stepped(step) is Some,
        on_grid(x.stepped(step)->0.value(), places),
{
    let v = x.value();
    let t = step.value();
    if v > 0 && t > 0 && v % t != 0 {
        let n = v / t;
        let m = n * step.mantissa();
        let k = pow10((28 - step.scale()) as nat);
        let g = pow10((28 - places) as nat);
        let w = pow10((places - step.scale()) as nat);
        lemma_pow10_positive((28 - step.scale()) as nat);
        lemma_pow10_positive((28 - places) as nat);
        lemma_pow10_positive((places - step.scale()) as nat);
        lemma_pow10_add((places - step.scale()) as nat, (28 - places) as nat);
        vstd::arithmetic::div_mod::lemma_fundamental_div_mod(v, t);
        assert(m * k == n * t && n * t <= v && n >= 0) by (nonlinear_arith)
            requires
                m == n * step.mantissa(),
                t == step.mantissa() * k,
                v == t * n + v % t,
                v % t >= 0,
                v > 0,
                t > 0,
                n == v / t,
        ;
        assert(m <= MAX_MANTISSA) by (nonlinear_arith)
            requires
                m * k <= MAX_MANTISSA * g,
                k == w * g,
                w >= 1,
                g > 0,
        ;
        lemma_stepped(x, step);
        let y = m * w;
        assert(m * k == g * y) by (nonlinear_arith)
            requires
                k == w * g,
                y == m * w,
        ;
        vstd::arithmetic::div_mod::lemma_fundamental_div_mod_converse(m * k, g, y, 0);
        assert(-MAX_MANTISSA * g <= m * k) by (nonlinear_arith)
            requires
                m * k == n * t,
                n >= 0,
                t > 0,
                g > 0,
        ;
    }
}

/// Takes liquidity from `levels` (best first) until `size` is met or the next level is worse than
/// `limit`. Quantities are floored to `step`; a level that holds less than a step is passed over.
/// `None` where a decimal cannot hold an amount; that does not happen for a quantity that shares its
/// decimal places with the levels and the step, of which no more is taken than was asked for.
pub fn walk(levels: &[ShadowLevel], taker: Side, size: Size, limit: Decimal, step: Decimal) -> (r: Option<Vec<Slice>>)
    ensures
        match walk_from(levels@, taker, size, limit, step, 0) {
            Some(s) => r is Some && r->0@ == s,
            None => r is None,
        },
        r is Some && step.value() > 0 ==> forall|j: int|
            0 <= j < r->0@.len() ==> (#[trigger] r->0@[j]).qty.value() > 0 && r->0@[j].qty.value() % step.value() == 0,
        forall|places: int|
            size is Qty && size->Qty_0.value() >= 0 && step.scale() <= places && #[trigger] on_grid(
                size->Qty_0.value(),
                places,
            ) && quantities_on_grid(levels@, places) ==> r is Some && taken_value(r->0@) <= size->Qty_0.value(),
{
    proof {
        use_type_invariant(step);
    }
    let mut out: Vec<Slice> = Vec::new();
    let mut left = size;
    let mut i: usize = 0;
    proof {
        lemma_prepend(out@, arbitrary(), walk_from(levels@, taker, size, limit, step, 0));
    }
    while i < levels.len()
        invariant
            i <= levels@.len(),
            walk_from(levels@, taker, size, limit, step, 0) == prepend(
                out@,
                walk_from(levels@, taker, left, limit, step, i as int),
            ),
            size is Qty <==> left is Qty,
            step.valid(),
            step.value() > 0 ==> forall|j: int|
                0 <= j < out@.len() ==> (#[trigger] out@[j]).qty.value() > 0 && out@[j].qty.value() % step.value() == 0,
            forall|places: int|
                size is Qty && size->Qty_0.value() >= 0 && step.scale() <= places && #[trigger] on_grid(
                    size->Qty_0.value(),
                    places,
                ) && quantities_on_grid(levels@, places) ==> {
                    &&& left->Qty_0.value() >= 0
                    &&& on_grid(left->Qty_0.value(), places)
                    &&& taken_value(out@) + left->Qty_0.value() == size->Qty_0.value()
                },
        decreases levels@.len() - i,
    {
        let l = levels[i];
        let is_worse = match taker {
            Side::Buy => limit.lt(l.price),
            Side::Sell => l.price.lt(limit),
        };
        if is_worse {
            proof {
                lemma_prepend(out@, arbitrary(), None);
            }
            return Some(out);
        }
        let wanted = match left {
            Size::Qty(q) => q,
            Size::Notional(n) => {
                let steps = n.checked_div(l.price)?.checked_div(step)?;
                steps.floor().checked_mul(step)?
            },
        };
        let whole = l.qty.min(wanted);
        proof {
            assert forall|places: int|
                size is Qty && size->Qty_0.value() >= 0 && step.scale() <= places && #[trigger] on_grid(
                    size->Qty_0.value(),
                    places,
                ) && quantities_on_grid(levels@, places) implies whole.stepped(step) is Some && on_grid(
                whole.stepped(step)->0.value(),
                places,
            ) by {
                assert(on_grid(levels@[i as int].qty.value(), places));
                lemma_stepped_on_grid(whole, step, places);
            }
        }
        let q = whole.floor_to(step)?;
        if !q.is_positive() {
            if l.qty.lt(step) {
                i += 1;
                continue;
            }
            proof {
                lemma_prepend(out@, arbitrary(), None);
            }
            return Some(out);
        }
        proof {
            lemma_level_take(l, left, step);
            assert forall|places: int|
                size is Qty && size->Qty_0.value() >= 0 && step.scale() <= places && #[trigger] on_grid(
                    size->Qty_0.value(),
                    places,
                ) && quantities_on_grid(levels@, places) implies representable(left->Qty_0.value() - q.value())
                && on_grid(left->Qty_0.value() - q.value(), places) && left->Qty_0.value() - q.value() >= 0 by {
                lemma_on_grid(left->Qty_0.value(), q.value(), places);
            }
        }
        left = match left {
            Size::Qty(q0) => Size::Qty(q0.checked_sub(q)?),
            Size::Notional(n) => Size::Notional(n.checked_sub(q.checked_mul(l.price)?)?),
        };
        let slice = Slice { price: l.price, qty: q, real_price: l.real_price };
        proof {
            lemma_prepend(out@, slice, walk_from(levels@, taker, left, limit, step, i + 1));
            assert(out@.push(slice).drop_last() =~= out@);
        }
        out.push(slice);
        i += 1;
    }
    proof {
        lemma_prepend(out@, arbitrary(), None);
    }
    Some(out)
}

/// Quantity and value of the slices from index `i` on, added to what came before.
pub open spec fn totals_from(slices: Seq<Slice>, i: int, qty: Decimal, notional: Decimal) -> Option<(Decimal, Decimal)>
    decreases slices.len() - i,
{
    if i >= slices.len() {
        Some((qty, notional))
    } else {
        match (qty.plus(slices[i].qty), opt_plus_times(notional, slices[i].qty, slices[i].price)) {
            (Some(q), Some(n)) => totals_from(slices, i + 1, q, n),
            _ => None,
        }
    }
}

/// `n + q * p`.
pub open spec fn opt_plus_times(n: Decimal, q: Decimal, p: Decimal) -> Option<Decimal> {
    match q.times(p) {
        Some(x) => n.plus(x),
        None => None,
    }
}

/// (total qty, total notional) of slices.
pub open spec fn totals_of(slices: Seq<Slice>) -> Option<(Decimal, Decimal)> {
    totals_from(slices, 0, zero(), zero())
}

/// (total qty, total notional) of `slices`.
pub fn totals(slices: &[Slice]) -> (r: Option<(Decimal, Decimal)>)
    ensures
        r == totals_of(slices@),
{
    let mut qty = Decimal::zero();
    let mut notional = Decimal::zero();
    let mut i: usize = 0;
    while i < slices.len()
        invariant
            i <= slices@.len(),
            totals_of(slices@) == totals_from(slices@, i as int, qty, notional),
        decreases slices@.len() - i,
    {
        let q = qty.checked_add(slices[i].qty)?;
        let n = notional.checked_add(slices[i].qty.checked_mul(slices[i].price)?)?;
        qty = q;
        notional = n;
        i += 1;
    }
    Some((qty, notional))
}

/// A resting limit order's place in the shadow book.
#[derive(Debug, Clone, Copy, PartialEq)]
pub struct Resting {
    pub order_id: u64,
    pub side: Side,
    pub price: Decimal,
    pub remaining: Decimal,
    pub queue_ahead: Decimal,
}

/// What a print at `price` does to a resting order and to the part of the print that nobody has
/// yet: the order, the rest of the print, and how much of the order fills. At the order's price
/// the queue ahead goes first. A print through its price fills it directly.
pub open spec fn passively_filled(r: Resting, price: Decimal, avail: Decimal) -> Option<(Resting, Decimal, Decimal)> {
    let through = match r.side {
        Side::Buy => price.value() < r.price.value(),
        Side::Sell => price.value() > r.price.value(),
    };
    if !through && price.value() != r.price.value() {
        Some((r, avail, zero()))
    } else {
        let queued = r.queue_ahead.lesser(avail);
        let (queue, free) = if through {
            (Some(r.queue_ahead), Some(avail))
        } else {
            (r.queue_ahead.minus(queued), avail.minus(queued))
        };
        match (queue, free) {
            (Some(queue_ahead), Some(free)) => {
                let f = r.remaining.lesser(free);
                match (r.remaining.minus(f), free.minus(f)) {
                    (Some(remaining), Some(rest)) => Some((Resting { queue_ahead, remaining, ..r }, rest, f)),
                    _ => None,
                }
            },
            _ => None,
        }
    }
}

/// A real trade printed at `shadow_price` (already shifted). Consumes from `avail`, the trade's
/// unallocated size, and returns how much of `r` fills; `None`, with nothing changed, where a
/// decimal cannot hold an amount. At our price, the queue ahead of us goes first. A print through
/// our price fills us directly.
pub fn passive_fill(r: &mut Resting, shadow_price: Decimal, avail: &mut Decimal) -> (f: Option<Decimal>)
    ensures
        match passively_filled(*old(r), shadow_price, *old(avail)) {
            Some((r2, rest, q)) => f == Some(q) && *final(r) == r2 && *final(avail) == rest,
            None => f is None && *final(r) == *old(r) && *final(avail) == *old(avail),
        },
        f is Some ==> f->0.value() == 0 || f->0.value() <= old(r).remaining.value(),
{
    let through = match r.side {
        Side::Buy => shadow_price.lt(r.price),
        Side::Sell => r.price.lt(shadow_price),
    };
    if !through && !shadow_price.same(r.price) {
        return Some(Decimal::zero());
    }
    let mut queue = r.queue_ahead;
    let mut free = *avail;
    if !through {
        let q = queue.min(free);
        queue = queue.checked_sub(q)?;
        free = free.checked_sub(q)?;
    }
    let f = r.remaining.min(free);
    let remaining = r.remaining.checked_sub(f)?;
    let rest = free.checked_sub(f)?;
    r.queue_ahead = queue;
    r.remaining = remaining;
    *avail = rest;
    Some(f)
}

proof fn lemma_consumed_elsewhere(
    d: Map<(Side, int), Decimal>,
    taker: Side,
    slices: Seq<Slice>,
    i: int,
    k: (Side, int),
)
    requires
        0 <= i <= slices.len(),
        consumed_from(d, taker, slices, i) is Some,
        k.0 == taker || forall|j: int| i <= j < slices.len() ==> (#[trigger] slices[j]).real_price.value() != k.1,
    ensures
        consumed_from(d, taker, slices, i)->0.contains_key(k) == d.contains_key(k),
        consumed_from(d, taker, slices, i)->0[k] == d[k],
    decreases slices.len() - i,
{
    if i < slices.len() {
        let at = (taker.opposite(), slices[i].real_price.value());
        let had = if d.contains_key(at) {
            d[at]
        } else {
            zero()
        };
        lemma_consumed_elsewhere(d.insert(at, had.plus(slices[i].qty)->0), taker, slices, i + 1, k);
    }
}

proof fn lemma_consumed_here(d: Map<(Side, int), Decimal>, taker: Side, slices: Seq<Slice>, i: int, n: int)
    requires
        0 <= i <= n < slices.len(),
        consumed_from(d, taker, slices, i) is Some,
        forall|j: int|
            i <= j < slices.len() && j != n ==> (#[trigger] slices[j]).real_price.value()
                != slices[n].real_price.value(),
    ensures
        ({
            let k = (taker.opposite(), slices[n].real_price.value());
            let had = if d.contains_key(k) {
                d[k]
            } else {
                zero()
            };
            let after = consumed_from(d, taker, slices, i)->0;
            after.contains_key(k) && Some(after[k]) == had.plus(slices[n].qty)
        }),
    decreases n - i,
{
    let at = (taker.opposite(), slices[i].real_price.value());
    let had = if d.contains_key(at) {
        d[at]
    } else {
        zero()
    };
    let next = d.insert(at, had.plus(slices[i].qty)->0);
    if i < n {
        lemma_consumed_here(next, taker, slices, i + 1, n);
    } else {
        lemma_consumed_elsewhere(next, taker, slices, i + 1, at);
    }
}

/// What a taker took is missing from the shadow book: from each level as much as was taken there,
/// on top of what was missing before. The other levels, the own side and the offset stay.
pub proof fn law_taken_liquidity_is_missing(s: ShadowView, taker: Side, slices: Seq<Slice>)
    requires
        consumed(s, taker, slices) is Some,
        forall|i: int, j: int|
            0 <= i < j < slices.len() ==> (#[trigger] slices[i]).real_price.value() != (
            #[trigger] slices[j]).real_price.value(),
    ensures
        ({
            let after = consumed(s, taker, slices)->0;
            &&& forall|n: int|
                0 <= n < slices.len() ==> Some(depleted(after, taker.opposite(), (#[trigger] slices[n]).real_price))
                    == depleted(s, taker.opposite(), slices[n].real_price).plus(slices[n].qty)
            &&& forall|p: Decimal|
                (forall|n: int| 0 <= n < slices.len() ==> (#[trigger] slices[n]).real_price.value() != p.value())
                    ==> #[trigger] depleted(after, taker.opposite(), p) == depleted(s, taker.opposite(), p)
            &&& forall|p: Decimal| #[trigger] depleted(after, taker, p) == depleted(s, taker, p)
            &&& after.multiplier == s.multiplier
            &&& after.updated_at == s.updated_at
        }),
{
    let after = consumed(s, taker, slices)->0;
    assert forall|n: int| 0 <= n < slices.len() implies Some(
        depleted(after, taker.opposite(), (#[trigger] slices[n]).real_price),
    ) == depleted(s, taker.opposite(), slices[n].real_price).plus(slices[n].qty) by {
        lemma_consumed_here(s.depletion, taker, slices, 0, n);
    }
    assert forall|p: Decimal|
        (forall|n: int| 0 <= n < slices.len() ==> (#[trigger] slices[n]).real_price.value() != p.value())
            implies #[trigger] depleted(after, taker.opposite(), p) == depleted(s, taker.opposite(), p) by {
        lemma_consumed_elsewhere(s.depletion, taker, slices, 0, (taker.opposite(), p.value()));
    }
    assert forall|p: Decimal| #[trigger] depleted(after, taker, p) == depleted(s, taker, p) by {
        lemma_consumed_elsewhere(s.depletion, taker, slices, 0, (taker, p.value()));
    }
}

/// Rounding to eight places does not go beyond a number of at most eight.
proof fn lemma_rounded_between(x: Decimal, q: Decimal)
    requires
        x.valid(),
        q.valid(),
        q.scale() <= 8,
        0 <= x.value() <= q.value(),
    ensures
        0 <= x.rounded(8).value() <= q.value(),
{
    if x.scale() > 8 {
        let m = x.mantissa();
        let p = pow10((x.scale() - 8) as nat);
        let u = pow10((28 - x.scale()) as nat);
        let g = pow10(20);
        let w = pow10((8 - q.scale()) as nat);
        lemma_pow10_positive((x.scale() - 8) as nat);
        lemma_pow10_positive((28 - x.scale()) as nat);
        lemma_pow10_positive(20);
        lemma_pow10_add((x.scale() - 8) as nat, (28 - x.scale()) as nat);
        lemma_pow10_add((8 - q.scale()) as nat, 20);
        let whole = q.mantissa() * w;
        assert(q.value() == whole * g) by (nonlinear_arith)
            requires
                q.value() == q.mantissa() * (w * g),
                whole == q.mantissa() * w,
        ;
        assert(m >= 0) by (nonlinear_arith)
            requires
                0 <= m * u,
                u > 0,
        ;
        assert(m <= whole * p) by (nonlinear_arith)
            requires
                m * u <= whole * g,
                g == p * u,
                u > 0,
        ;
        vstd::arithmetic::div_mod::lemma_fundamental_div_mod(m, p);
        let t = m / p;
        let r = m % p;
        let n = half_even(m, p);
        assert(0 <= t && 0 <= r < p && m == p * t + r) by (nonlinear_arith)
            requires
                m >= 0,
                p > 0,
                m == p * (m / p) + m % p,
                t == m / p,
                r == m % p,
        ;
        assert(t <= whole && (r > 0 ==> t < whole)) by (nonlinear_arith)
            requires
                p * t + r <= whole * p,
                0 <= r,
                p > 0,
        ;
        assert(0 <= n <= whole);
        assert(t <= m && (r > 0 ==> t + 1 <= m)) by (nonlinear_arith)
            requires
                m == p * t + r,
                p >= 1,
                t >= 0,
                r >= 0,
        ;
        assert(valid_parts(n, 8));
        lemma_dec_parts(n, 8);
        assert(0 <= n * g <= whole * g) by (nonlinear_arith)
            requires
                0 <= n <= whole,
                g > 0,
        ;
    }
}

/// Liquidity recovers: as time passes no level misses more than before, none starts to miss
/// something, and one of which no share is left misses nothing any more. Levels are kept to eight
/// places, and the share that is left is taken of the quantity without leaving its range.
pub proof fn law_liquidity_recovers(s: ShadowView, now: Timestamp, drift: Drift, side: Side, price: Decimal)
    requires
        s.updated_at is Some,
        decayed(s, now, drift) is Some,
        depleted(s, side, price).valid(),
        depleted(s, side, price).scale() <= 8,
        depleted(s, side, price).value() >= 0,
        depleted(s, side, price).times(drift.recovery) matches Some(x) ==> x.valid() && 0 <= x.value() <= depleted(
            s,
            side,
            price,
        ).value(),
    ensures
        ({
            let before = depleted(s, side, price);
            let after = depleted(decayed(s, now, drift)->0, side, price);
            &&& 0 <= after.value() <= before.value()
            &&& (before.times(drift.recovery) matches Some(x) && x.value() == 0) ==> after.value() == 0
        }),
{
    let k = (side, price.value());
    lemma_dec_parts(0, 0);
    if s.depletion.contains_key(k) {
        let q = s.depletion[k];
        assert(recovered(q, drift.recovery) is Some);
        let x = q.times(drift.recovery)->0;
        lemma_rounded_between(x, q);
        if x.value() == 0 {
            lemma_rounded_between(x, zero());
        }
    }
}

/// At its price an order waits its turn: a print that the queue ahead takes up fills nothing of it,
/// wherever what is left of the print is exact.
pub proof fn law_the_queue_goes_first(r: Resting, avail: Decimal)
    requires
        r.remaining.value() >= 0,
        0 <= avail.value() <= r.queue_ahead.value(),
        avail.minus(r.queue_ahead.lesser(avail)) matches Some(x) && x.value() == avail.value()
            - r.queue_ahead.lesser(avail).value(),
    ensures
        passively_filled(r, r.price, avail) matches Some((after, rest, f)) ==> f.value() == 0,
{
}

/// What a print does to a resting order. Through its price, below that of a buy and above that of a
/// sell, the order fills as far as the print goes, whatever queue is ahead. At its price the queue ahead
/// comes first. On the other side nothing happens. What fills comes off the order and off the print, and
/// nothing of either is lost. Decimals of so many places hold the quantities.
pub proof fn law_prints_fill_at_the_price_and_through_it(r: Resting, price: Decimal, avail: Decimal, places: int)
    requires
        on_grid(r.remaining.value(), places),
        on_grid(r.queue_ahead.value(), places),
        on_grid(avail.value(), places),
        r.remaining.value() >= 0,
        r.queue_ahead.value() >= 0,
        avail.value() >= 0,
    ensures
        passively_filled(r, price, avail) matches Some((after, rest, f)) ==> {
            let better = match r.side {
                Side::Buy => price.value() < r.price.value(),
                Side::Sell => price.value() > r.price.value(),
            };
            let queued = if r.queue_ahead.value() <= avail.value() {
                r.queue_ahead.value()
            } else {
                avail.value()
            };
            let free = if better {
                avail.value()
            } else {
                avail.value() - queued
            };
            &&& after.order_id == r.order_id && after.side == r.side && after.price == r.price
            &&& better || price.value() == r.price.value() ==> f.value() == if r.remaining.value() <= free {
                r.remaining.value()
            } else {
                free
            }
            &&& !better && price.value() != r.price.value() ==> f.value() == 0 && after == r && rest == avail
            &&& better ==> after.queue_ahead == r.queue_ahead
            &&& !better && price.value() == r.price.value() ==> after.queue_ahead.value() == r.queue_ahead.value() - queued
            &&& after.remaining.value() + f.value() == r.remaining.value()
            &&& f.value() + rest.value() + (r.queue_ahead.value() - after.queue_ahead.value()) == avail.value()
        },
{
    lemma_dec_parts(0, 0);
    let queued = r.queue_ahead.lesser(avail);
    lemma_on_grid(r.queue_ahead.value(), queued.value(), places);
    lemma_on_grid(avail.value(), queued.value(), places);
    lemma_sums(r.queue_ahead, queued);
    lemma_sums(avail, queued);
    let better = match r.side {
        Side::Buy => price.value() < r.price.value(),
        Side::Sell => price.value() > r.price.value(),
    };
    let free = if better {
        Some(avail)
    } else {
        avail.minus(queued)
    };
    if let Some(x) = free {
        let f = r.remaining.lesser(x);
        lemma_on_grid(r.remaining.value(), f.value(), places);
        lemma_on_grid(x.value(), f.value(), places);
        lemma_sums(r.remaining, f);
        lemma_sums(x, f);
    }
}

/// What the shadow book shows of a side: levels of the real book in their order, each with what is left
/// of it when what was taken and has not recovered is subtracted, at its price moved and put on a tick.
/// A level with something left is shown, one with nothing left is not. Decimals of so many places hold
/// the quantities.
pub proof fn law_the_shadow_shows_what_is_left(
    s: ShadowView,
    levels: Seq<Level>,
    side: Side,
    tick: TickRule,
    i: int,
    places: int,
)
    requires
        0 <= i <= levels.len(),
        shadow_from(s, levels, side, tick, i) is Some,
        forall|j: int|
            0 <= j < levels.len() ==> on_grid((#[trigger] levels[j]).qty.value(), places) && levels[j].qty.value() >= 0
                && on_grid(depleted(s, side, levels[j].price).value(), places) && depleted(
                s,
                side,
                levels[j].price,
            ).value() >= 0,
    ensures
        ({
            let shown = shadow_from(s, levels, side, tick, i)->0;
            let at = shown_at(s, levels, side, i);
            &&& shown.len() == at.len()
            &&& forall|k: int|
                0 <= k < at.len() ==> {
                    &&& i <= #[trigger] at[k] < levels.len()
                    &&& shown[k].real_price == levels[at[k]].price
                    &&& shown[k].qty.value() == levels[at[k]].qty.value() - depleted(s, side, levels[at[k]].price).value()
                    &&& shown[k].qty.value() > 0
                    &&& Some(shown[k].price) == shifted(s, levels[at[k]].price, tick)
                }
            &&& forall|k: int, m: int| 0 <= k < m < at.len() ==> #[trigger] at[k] < #[trigger] at[m]
            &&& forall|j: int|
                i <= j < levels.len() && levels[j].qty.value() > depleted(s, side, (#[trigger] levels[j]).price).value()
                    ==> at.contains(j)
        }),
    decreases levels.len() - i,
{
    if i < levels.len() {
        let l = levels[i];
        let gone = depleted(s, side, l.price);
        lemma_on_grid(l.qty.value(), gone.value(), places);
        lemma_sums(l.qty, gone);
        law_the_shadow_shows_what_is_left(s, levels, side, tick, i + 1, places);
        let tail = shadow_from(s, levels, side, tick, i + 1)->0;
        let tail_at = shown_at(s, levels, side, i + 1);
        let shown = shadow_from(s, levels, side, tick, i)->0;
        let at = shown_at(s, levels, side, i);
        if l.qty.value() > gone.value() {
            assert(at == seq![i] + tail_at);
            assert(at[0] == i);
            assert forall|k: int| 0 <= k < at.len() implies {
                &&& i <= #[trigger] at[k] < levels.len()
                &&& shown[k].real_price == levels[at[k]].price
                &&& shown[k].qty.value() == levels[at[k]].qty.value() - depleted(s, side, levels[at[k]].price).value()
                &&& shown[k].qty.value() > 0
                &&& Some(shown[k].price) == shifted(s, levels[at[k]].price, tick)
            } by {
                if k > 0 {
                    assert(at[k] == tail_at[k - 1]);
                    assert(shown[k] == tail[k - 1]);
                }
            }
            assert forall|k: int, m: int| 0 <= k < m < at.len() implies #[trigger] at[k] < #[trigger] at[m] by {
                assert(at[m] == tail_at[m - 1]);
                if k > 0 {
                    assert(at[k] == tail_at[k - 1]);
                }
            }
            assert forall|j: int|
                i <= j < levels.len() && levels[j].qty.value() > depleted(s, side, (#[trigger] levels[j]).price).value()
                    implies at.contains(j) by {
                if j > i {
                    assert(tail_at.contains(j));
                    let k = choose|k: int| 0 <= k < tail_at.len() && tail_at[k] == j;
                    assert(at[k + 1] == j);
                }
            }
        } else {
            assert(at == tail_at);
            assert(shown == tail);
        }
    }
}

/// The real levels from index `i` on with something left of them, by their index.
pub open spec fn shown_at(s: ShadowView, levels: Seq<Level>, side: Side, i: int) -> Seq<int>
    decreases levels.len() - i,
{
    if i >= levels.len() {
        Seq::empty()
    } else if levels[i].qty.value() > depleted(s, side, levels[i].price).value() {
        seq![i] + shown_at(s, levels, side, i + 1)
    } else {
        shown_at(s, levels, side, i + 1)
    }
}

/// As time passes, of what is missing from a level the share is left that the recovery says, to eight
/// places, and the price moves to where the drift says; a shadow that was never looked at only starts its
/// clock. A decimal holds the share.
pub proof fn law_depletion_shrinks_by_its_share(s: ShadowView, now: Timestamp, drift: Drift, side: Side, price: Decimal)
    requires
        product_held(depleted(s, side, price), drift.recovery),
    ensures
        decayed(s, now, drift) matches Some(after) ==> {
            let before = depleted(s, side, price);
            let left = depleted(after, side, price);
            &&& after.updated_at == Some(now)
            &&& s.updated_at is None ==> left == before && after.multiplier == s.multiplier
            &&& s.updated_at is Some ==> after.multiplier == drift.multiplier && 2 * abs_int(
                left.value() * unit() - before.value() * drift.recovery.value(),
            ) <= pow10(20) * unit()
        },
{
    lemma_dec_parts(0, 0);
    lemma_unit();
    lemma_pow10_positive(20);
    let u = unit();
    let g = pow10(20);
    let k = (side, price.value());
    if s.updated_at is Some && decayed(s, now, drift) is Some {
        assert(g * u >= 0) by (nonlinear_arith)
            requires
                g > 0,
                u == 10000000000000000000000000000,
        ;
        if s.depletion.contains_key(k) {
            let q = s.depletion[k];
            assert(recovered(q, drift.recovery) is Some);
            lemma_product_held(q, drift.recovery);
            let x = q.times(drift.recovery)->0;
            lemma_rounded(x, 8);
            let a = x.rounded(8).value();
            assert(abs_int(2 * (a * u - x.value() * u)) <= g * u) by (nonlinear_arith)
                requires
                    -g <= 2 * (a - x.value()) <= g,
                    u == 10000000000000000000000000000,
            ;
        } else {
            assert(depleted(s, side, price).value() * drift.recovery.value() == 0) by (nonlinear_arith)
                requires
                    depleted(s, side, price).value() == 0,
            ;
        }
    }
}

/// A real price is shown moved by the multiplier, at the nearest tick of where it comes to. A decimal holds
/// the moved price.
pub proof fn law_prices_are_moved_by_the_multiplier(s: ShadowView, price: Decimal, tick: TickRule)
    requires
        product_held(price, s.multiplier),
        price.times(s.multiplier) matches Some(p) ==> tick.tick_at(p).valid() && nearable(p, tick.tick_at(p)),
    ensures
        shifted(s, price, tick) matches Some(x) ==> {
            let moved = price.times(s.multiplier)->0;
            let t = tick.tick_at(moved).value();
            &&& moved.value() * unit() == price.value() * s.multiplier.value()
            &&& x.value() % t == 0
            &&& 2 * abs_int(x.value() - moved.value()) <= t
        },
{
    lemma_product_held(price, s.multiplier);
    if let Some(p) = price.times(s.multiplier) {
        law_the_nearest_tick_is_near(tick, p);
    }
}

/// What a money amount takes of a level: whole steps, as many as the level holds or the money buys,
/// whichever is fewer. Decimals hold what the money buys, in units and in steps.
pub proof fn law_money_buys_whole_steps(l: ShadowLevel, n: Decimal, step: Decimal, units: int, steps: int)
    requires
        step.valid(),
        step.value() > 0,
        l.qty.value() > 0,
        l.price.value() > 0,
        n.value() >= 0,
        n.value() * unit() == l.price.value() * units,
        units * unit() == step.value() * steps,
        representable(units),
        representable(steps),
        representable(steps / unit() * step.value()),
    ensures
        level_take(l, Size::Notional(n), step) matches Some(q) ==> {
            let k = steps / unit();
            let whole = k * step.value();
            &&& whole * l.price.value() <= n.value() * unit() < (whole + step.value()) * l.price.value()
            &&& q.value() <= l.qty.value() && q.value() <= whole
            &&& q.value() > l.qty.value() - step.value() || q.value() == whole
            &&& q.value() >= 0 && q.value() % step.value() == 0
        },
{
    lemma_unit();
    let u = unit();
    let t = step.value();
    let p = l.price.value();
    lemma_exact_quotient(n, l.price, units);
    if let Some(a) = n.over(l.price) {
        lemma_exact_quotient(a, step, steps);
        if let Some(b) = a.over(step) {
            let k = steps / u;
            vstd::arithmetic::div_mod::lemma_fundamental_div_mod(steps, u);
            assert(units >= 0) by (nonlinear_arith)
                requires
                    n.value() * u == p * units,
                    n.value() >= 0,
                    p > 0,
                    u == 10000000000000000000000000000,
            ;
            assert(steps >= 0) by (nonlinear_arith)
                requires
                    units * u == t * steps,
                    units >= 0,
                    t > 0,
                    u == 10000000000000000000000000000,
            ;
            lemma_floor(b);
            let f = b.floored();
            let whole = k * t;
            assert(f.value() == k * u);
            assert(f.value() * t == u * whole) by (nonlinear_arith)
                requires
                    f.value() == k * u,
                    whole == k * t,
            ;
            vstd::arithmetic::div_mod::lemma_fundamental_div_mod_converse(f.value() * t, u, whole, 0);
            lemma_product(f, step);
            let r = steps % u;
            assert(whole * p <= n.value() * u < (whole + t) * p && whole >= 0) by (nonlinear_arith)
                requires
                    whole == k * t,
                    steps == u * k + r,
                    0 <= r < u,
                    units * u == t * steps,
                    n.value() * u == p * units,
                    t > 0,
                    p > 0,
                    steps >= 0,
                    u == 10000000000000000000000000000,
            ;
            vstd::arithmetic::div_mod::lemma_fundamental_div_mod_converse(whole, t, k, 0);
            assert(t * k == whole) by (nonlinear_arith)
                requires
                    whole == k * t,
            ;
            if let Some(y) = f.times(step) {
                let x = l.qty.lesser(y);
                if x.value() > 0 && x.stepped(step) is Some {
                    lemma_stepped(x, step);
                }
            }
        }
    }
}

/// The floor of a number that is not negative.
proof fn lemma_floor(q: Decimal)
    requires
        q.valid(),
        q.value() >= 0,
    ensures
        q.floored().value() == q.value() / unit() * unit(),
{
    lemma_truncated_value(q, 0);
    let m = q.mantissa();
    let p = pow10(q.scale() as nat);
    lemma_pow10_positive(q.scale() as nat);
    lemma_value_sign(m, q.scale());
    if q.scale() == 0 {
        assert(p == 1);
        assert(m / 1 == m);
        lemma_dec_parts(m, 0);
    } else {
        assert(0 <= m / p <= m) by (nonlinear_arith)
            requires
                m >= 0,
                p >= 1,
        ;
        lemma_dec_parts(m / p, 0);
    }
}

} // verus!
