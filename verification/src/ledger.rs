//! Cash, positions and what is promised to open orders.
use crate::decimal::{
    abs_int, lemma_dec_parts, lemma_product_held, lemma_quotient, lemma_rounded, lemma_sums, lemma_unit, max_int, opt_minus,
    opt_over, opt_plus, opt_rounded, pow10, product_held, representable, unit, zero, Decimal,
};
use crate::domain::{Currency, InstrumentId, Side, Venue};
use crate::table::{lemma_row, lemma_row_of, Stored, Table};
use vstd::prelude::*;

verus! {

#[derive(Debug, Clone, Copy, PartialEq)]
pub struct Position {
    pub qty: Decimal,
    /// Moving average cost per unit, excluding fees.
    pub avg_cost: Decimal,
    /// Quantity promised to open sell orders.
    pub reserved: Decimal,
}

impl View for Position {
    type V = Position;

    open spec fn view(&self) -> Position {
        *self
    }
}

impl Stored for Position {
    open spec fn sound(&self) -> bool {
        true
    }
}

/// No position yet.
pub open spec fn flat() -> Position {
    Position { qty: zero(), avg_cost: zero(), reserved: zero() }
}

impl Default for Position {
    fn default() -> (r: Position)
        ensures
            r == flat(),
    {
        Position { qty: Decimal::zero(), avg_cost: Decimal::zero(), reserved: Decimal::zero() }
    }
}

/// Why an execution cannot be booked.
#[derive(Debug, Clone, Copy, PartialEq, Eq, Structural)]
pub enum LedgerError {
    /// No decimal can hold an amount.
    Overflow,
    /// A sale of something that is not held.
    NoPosition,
}

pub struct Portfolio {
    pub cash: Table<Currency, Decimal>,
    pub reserved_cash: Table<Currency, Decimal>,
    pub positions: Table<InstrumentId, Position>,
}

/// What an account holds and what of it is promised.
pub ghost struct PortfolioView {
    pub cash: Map<Currency, Decimal>,
    pub reserved_cash: Map<Currency, Decimal>,
    pub positions: Map<(Venue, Seq<char>), Position>,
}

impl View for Portfolio {
    type V = PortfolioView;

    open spec fn view(&self) -> PortfolioView {
        PortfolioView { cash: self.cash@, reserved_cash: self.reserved_cash@, positions: self.positions@ }
    }
}

impl Stored for Portfolio {
    open spec fn sound(&self) -> bool {
        self.wf()
    }
}

/// The amount under a key; zero where there is none.
pub open spec fn amount_of<K>(m: Map<K, Decimal>, k: K) -> Decimal {
    if m.contains_key(k) {
        m[k]
    } else {
        zero()
    }
}

/// The position in an instrument; flat where there is none.
pub open spec fn position_of(pf: PortfolioView, id: (Venue, Seq<char>)) -> Position {
    if pf.positions.contains_key(id) {
        pf.positions[id]
    } else {
        flat()
    }
}

/// Cash that is not promised to an open order.
pub open spec fn cash_available(pf: PortfolioView, c: Currency) -> Option<Decimal> {
    amount_of(pf.cash, c).minus(amount_of(pf.reserved_cash, c))
}

/// Quantity that is not promised to an open order.
pub open spec fn qty_available(pf: PortfolioView, id: (Venue, Seq<char>)) -> Option<Decimal> {
    if pf.positions.contains_key(id) {
        pf.positions[id].qty.minus(pf.positions[id].reserved)
    } else {
        Some(zero())
    }
}

/// The balances of a list of deposits; a later one replaces an earlier one.
pub open spec fn deposits(initial: Seq<(Currency, Decimal)>) -> Map<Currency, Decimal>
    decreases initial.len(),
{
    if initial.len() == 0 {
        Map::empty()
    } else {
        deposits(initial.drop_last()).insert(initial.last().0, initial.last().1)
    }
}

/// The portfolio after promising cash.
pub open spec fn cash_reserved(pf: PortfolioView, c: Currency, amount: Decimal) -> Option<PortfolioView> {
    match amount_of(pf.reserved_cash, c).plus(amount) {
        Some(r) => Some(PortfolioView { reserved_cash: pf.reserved_cash.insert(c, r), ..pf }),
        None => None,
    }
}

/// The portfolio after giving promised cash back; never less than nothing stays promised.
pub open spec fn cash_released(pf: PortfolioView, c: Currency, amount: Decimal) -> Option<PortfolioView> {
    match amount_of(pf.reserved_cash, c).minus(amount) {
        Some(r) => Some(PortfolioView { reserved_cash: pf.reserved_cash.insert(c, r.greater(zero())), ..pf }),
        None => None,
    }
}

/// The portfolio after promising a quantity.
pub open spec fn qty_reserved(pf: PortfolioView, id: (Venue, Seq<char>), qty: Decimal) -> Option<PortfolioView> {
    let p = position_of(pf, id);
    match p.reserved.plus(qty) {
        Some(reserved) => Some(
            PortfolioView { positions: pf.positions.insert(id, Position { reserved, ..p }), ..pf },
        ),
        None => None,
    }
}

/// The portfolio after giving a promised quantity back.
pub open spec fn qty_released(pf: PortfolioView, id: (Venue, Seq<char>), qty: Decimal) -> Option<PortfolioView> {
    if pf.positions.contains_key(id) {
        let p = pf.positions[id];
        match p.reserved.minus(qty) {
            Some(r) => Some(
                PortfolioView {
                    positions: pf.positions.insert(id, Position { reserved: r.greater(zero()), ..p }),
                    ..pf
                },
            ),
            None => None,
        }
    } else {
        Some(pf)
    }
}

/// `a * b`, then plus `c`.
pub open spec fn times_plus(a: Decimal, b: Decimal, c: Decimal) -> Option<Decimal> {
    opt_plus(a.times(b), Some(c))
}

/// The moving average cost after buying `qty` for `notional`.
pub open spec fn average_cost(p: Position, qty: Decimal, notional: Decimal) -> Option<Decimal> {
    opt_rounded(opt_over(times_plus(p.qty, p.avg_cost, notional), p.qty.plus(qty)), 8)
}

/// The portfolio after buying `qty` for `notional` plus fee and tax.
pub open spec fn bought(
    pf: PortfolioView,
    id: (Venue, Seq<char>),
    qty: Decimal,
    notional: Decimal,
    fee: Decimal,
    tax: Decimal,
) -> Option<PortfolioView> {
    let c = id.0.currency();
    let p = position_of(pf, id);
    let cash = opt_minus(Some(amount_of(pf.cash, c)), opt_plus(notional.plus(fee), Some(tax)));
    match (cash, average_cost(p, qty, notional), p.qty.plus(qty)) {
        (Some(cash), Some(avg_cost), Some(total)) => Some(
            PortfolioView {
                cash: pf.cash.insert(c, cash),
                positions: pf.positions.insert(id, Position { qty: total, avg_cost, ..p }),
                ..pf
            },
        ),
        _ => None,
    }
}

/// What a sale earned over its average cost, net of fee and tax.
pub open spec fn profit(p: Position, qty: Decimal, notional: Decimal, fee: Decimal, tax: Decimal) -> Option<Decimal> {
    opt_minus(opt_minus(opt_minus(Some(notional), p.avg_cost.times(qty)), Some(fee)), Some(tax))
}

/// The portfolio after selling `qty` for `notional` less fee and tax, and the profit. A position
/// that is flat and promised to nobody is gone.
pub open spec fn sold(
    pf: PortfolioView,
    id: (Venue, Seq<char>),
    qty: Decimal,
    notional: Decimal,
    fee: Decimal,
    tax: Decimal,
) -> Option<(PortfolioView, Decimal)> {
    let c = id.0.currency();
    let p = pf.positions[id];
    let cash = opt_plus(Some(amount_of(pf.cash, c)), opt_minus(notional.minus(fee), Some(tax)));
    match (cash, profit(p, qty, notional, fee, tax), p.qty.minus(qty)) {
        (Some(cash), Some(pnl), Some(left)) => Some(
            (
                PortfolioView {
                    cash: pf.cash.insert(c, cash),
                    positions: if left.value() == 0 && p.reserved.value() == 0 {
                        pf.positions.remove(id)
                    } else {
                        pf.positions.insert(id, Position { qty: left, ..p })
                    },
                    ..pf
                },
                pnl,
            ),
        ),
        _ => None,
    }
}

/// The portfolio after one execution, and the realised profit of a sale.
pub open spec fn filled(
    pf: PortfolioView,
    id: (Venue, Seq<char>),
    side: Side,
    qty: Decimal,
    notional: Decimal,
    fee: Decimal,
    tax: Decimal,
) -> Result<(PortfolioView, Option<Decimal>), LedgerError> {
    match side {
        Side::Buy => match bought(pf, id, qty, notional, fee, tax) {
            Some(after) => Ok((after, None)),
            None => Err(LedgerError::Overflow),
        },
        Side::Sell => if !pf.positions.contains_key(id) {
            Err(LedgerError::NoPosition)
        } else {
            match sold(pf, id, qty, notional, fee, tax) {
                Some((after, pnl)) => Ok((after, Some(pnl))),
                None => Err(LedgerError::Overflow),
            }
        },
    }
}

fn amount_in(t: &Table<Currency, Decimal>, c: Currency) -> (r: Decimal)
    requires
        t.wf(),
    ensures
        r == amount_of(t@, c),
{
    match t.get(&c) {
        Some(a) => *a,
        None => Decimal::zero(),
    }
}

fn copy_amounts(t: &Table<Currency, Decimal>) -> (r: Table<Currency, Decimal>)
    requires
        t.wf(),
    ensures
        r.wf(),
        r@ == t@,
{
    let mut r: Table<Currency, Decimal> = Table::new();
    let mut i: usize = 0;
    while i < t.len()
        invariant
            i <= t.rows().len(),
            t.wf(),
            r.wf(),
            forall|j: int| 0 <= j < i ==> r@.contains_key((#[trigger] t.rows()[j]).0),
            forall|k: Currency| #[trigger] r@.contains_key(k) ==> t@.contains_key(k) && r@[k] == t@[k],
        decreases t.rows().len() - i,
    {
        proof {
            lemma_row(t.rows(), i as int);
        }
        r.insert(*t.key_at(i), *t.value_at(i));
        i += 1;
    }
    proof {
        assert forall|k: Currency| #[trigger] t@.contains_key(k) implies r@.contains_key(k) by {
            let j = lemma_row_of(t.rows(), k);
            assert(t.rows()[j].0 == k);
        }
        assert(r@ =~= t@);
    }
    r
}

fn copy_positions(t: &Table<InstrumentId, Position>) -> (r: Table<InstrumentId, Position>)
    requires
        t.wf(),
    ensures
        r.wf(),
        r@ == t@,
{
    let mut r: Table<InstrumentId, Position> = Table::new();
    let mut i: usize = 0;
    while i < t.len()
        invariant
            i <= t.rows().len(),
            t.wf(),
            r.wf(),
            forall|j: int| 0 <= j < i ==> r@.contains_key((#[trigger] t.rows()[j]).0),
            forall|k: (Venue, Seq<char>)| #[trigger] r@.contains_key(k) ==> t@.contains_key(k) && r@[k] == t@[k],
        decreases t.rows().len() - i,
    {
        proof {
            lemma_row(t.rows(), i as int);
        }
        r.insert(t.key_at(i).clone(), *t.value_at(i));
        i += 1;
    }
    proof {
        assert forall|k: (Venue, Seq<char>)| #[trigger] t@.contains_key(k) implies r@.contains_key(k) by {
            let j = lemma_row_of(t.rows(), k);
            assert(t.rows()[j].0 == k);
        }
        assert(r@ =~= t@);
    }
    r
}

impl Portfolio {
    pub open spec fn wf(&self) -> bool {
        self.cash.wf() && self.reserved_cash.wf() && self.positions.wf()
    }

    /// An account with these deposits.
    pub fn new(initial: &[(Currency, Decimal)]) -> (r: Portfolio)
        ensures
            r.wf(),
            r@ == (PortfolioView {
                cash: deposits(initial@),
                reserved_cash: Map::empty(),
                positions: Map::empty(),
            }),
    {
        let mut cash: Table<Currency, Decimal> = Table::new();
        let mut i: usize = 0;
        while i < initial.len()
            invariant
                i <= initial@.len(),
                cash.wf(),
                cash@ == deposits(initial@.take(i as int)),
            decreases initial@.len() - i,
        {
            cash.insert(initial[i].0, initial[i].1);
            i += 1;
            assert(initial@.take(i as int).drop_last() =~= initial@.take(i - 1));
        }
        assert(initial@.take(i as int) =~= initial@);
        Portfolio { cash, reserved_cash: Table::new(), positions: Table::new() }
    }

    /// The same portfolio.
    pub fn copied(&self) -> (r: Portfolio)
        requires
            self.wf(),
        ensures
            r.wf(),
            r@ == self@,
    {
        Portfolio {
            cash: copy_amounts(&self.cash),
            reserved_cash: copy_amounts(&self.reserved_cash),
            positions: copy_positions(&self.positions),
        }
    }

    /// The balance in a currency.
    pub fn cash(&self, c: Currency) -> (r: Decimal)
        requires
            self.wf(),
        ensures
            r == amount_of(self@.cash, c),
    {
        amount_in(&self.cash, c)
    }

    /// The balance less what is promised; `None` where a decimal cannot hold it.
    pub fn available_cash(&self, c: Currency) -> (r: Option<Decimal>)
        requires
            self.wf(),
        ensures
            r == cash_available(self@, c),
    {
        self.cash(c).checked_sub(amount_in(&self.reserved_cash, c))
    }

    /// The quantity held less what is promised; `None` where a decimal cannot hold it.
    pub fn available_qty(&self, id: &InstrumentId) -> (r: Option<Decimal>)
        requires
            self.wf(),
        ensures
            r == qty_available(self@, id@),
    {
        match self.positions.get(id) {
            Some(p) => p.qty.checked_sub(p.reserved),
            None => Some(Decimal::zero()),
        }
    }

    /// Promises cash to an open order. Where a decimal cannot hold the outcome, nothing changes and
    /// the answer is false.
    pub fn reserve_cash(&mut self, c: Currency, amount: Decimal) -> (ok: bool)
        requires
            old(self).wf(),
        ensures
            final(self).wf(),
            match cash_reserved(old(self)@, c, amount) {
                Some(pf) => ok && final(self)@ == pf,
                None => !ok && final(self)@ == old(self)@,
            },
    {
        match amount_in(&self.reserved_cash, c).checked_add(amount) {
            Some(r) => {
                self.reserved_cash.insert(c, r);
                true
            },
            None => false,
        }
    }

    /// Gives promised cash back. Where a decimal cannot hold the outcome, nothing changes and the
    /// answer is false.
    pub fn release_cash(&mut self, c: Currency, amount: Decimal) -> (ok: bool)
        requires
            old(self).wf(),
        ensures
            final(self).wf(),
            match cash_released(old(self)@, c, amount) {
                Some(pf) => ok && final(self)@ == pf,
                None => !ok && final(self)@ == old(self)@,
            },
    {
        match amount_in(&self.reserved_cash, c).checked_sub(amount) {
            Some(r) => {
                self.reserved_cash.insert(c, r.max(Decimal::zero()));
                true
            },
            None => false,
        }
    }

    fn position(&self, id: &InstrumentId) -> (r: Position)
        requires
            self.wf(),
        ensures
            r == position_of(self@, id@),
    {
        match self.positions.get(id) {
            Some(p) => *p,
            None => Position::default(),
        }
    }

    /// Promises a quantity to an open order. Where a decimal cannot hold the outcome, nothing
    /// changes and the answer is false.
    pub fn reserve_qty(&mut self, id: &InstrumentId, qty: Decimal) -> (ok: bool)
        requires
            old(self).wf(),
        ensures
            final(self).wf(),
            match qty_reserved(old(self)@, id@, qty) {
                Some(pf) => ok && final(self)@ == pf,
                None => !ok && final(self)@ == old(self)@,
            },
    {
        let p = self.position(id);
        match p.reserved.checked_add(qty) {
            Some(reserved) => {
                self.positions.insert(id.clone(), Position { qty: p.qty, avg_cost: p.avg_cost, reserved });
                true
            },
            None => false,
        }
    }

    /// Gives a promised quantity back. Where a decimal cannot hold the outcome, nothing changes and
    /// the answer is false.
    pub fn release_qty(&mut self, id: &InstrumentId, qty: Decimal) -> (ok: bool)
        requires
            old(self).wf(),
        ensures
            final(self).wf(),
            match qty_released(old(self)@, id@, qty) {
                Some(pf) => ok && final(self)@ == pf,
                None => !ok && final(self)@ == old(self)@,
            },
    {
        let p = match self.positions.get(id) {
            Some(p) => *p,
            None => return true,
        };
        match p.reserved.checked_sub(qty) {
            Some(r) => {
                let reserved = r.max(Decimal::zero());
                self.positions.insert(id.clone(), Position { qty: p.qty, avg_cost: p.avg_cost, reserved });
                true
            },
            None => false,
        }
    }

    fn buy(&mut self, id: &InstrumentId, qty: Decimal, notional: Decimal, fee: Decimal, tax: Decimal) -> (ok: Option<()>)
        requires
            old(self).wf(),
        ensures
            final(self).wf(),
            match bought(old(self)@, id@, qty, notional, fee, tax) {
                Some(pf) => ok is Some && final(self)@ == pf,
                None => ok is None && final(self)@ == old(self)@,
            },
    {
        let c = id.venue.currency();
        let p = self.position(id);
        let cash = self.cash(c).checked_sub(notional.checked_add(fee)?.checked_add(tax)?)?;
        let total = p.qty.checked_add(qty)?;
        let avg_cost = p.qty.checked_mul(p.avg_cost)?.checked_add(notional)?.checked_div(total)?.round_dp(8);
        self.cash.insert(c, cash);
        self.positions.insert(id.clone(), Position { qty: total, avg_cost, reserved: p.reserved });
        Some(())
    }

    fn sell(
        &mut self,
        id: &InstrumentId,
        p: Position,
        qty: Decimal,
        notional: Decimal,
        fee: Decimal,
        tax: Decimal,
    ) -> (pnl: Option<Decimal>)
        requires
            old(self).wf(),
            old(self)@.positions.contains_key(id@),
            old(self)@.positions[id@] == p,
        ensures
            final(self).wf(),
            match sold(old(self)@, id@, qty, notional, fee, tax) {
                Some((pf, x)) => pnl == Some(x) && final(self)@ == pf,
                None => pnl is None && final(self)@ == old(self)@,
            },
    {
        let c = id.venue.currency();
        let cash = self.cash(c).checked_add(notional.checked_sub(fee)?.checked_sub(tax)?)?;
        let pnl = notional.checked_sub(p.avg_cost.checked_mul(qty)?)?.checked_sub(fee)?.checked_sub(tax)?;
        let left = p.qty.checked_sub(qty)?;
        self.cash.insert(c, cash);
        if left.is_zero() && p.reserved.is_zero() {
            let _ = self.positions.remove(id);
        } else {
            self.positions.insert(id.clone(), Position { qty: left, avg_cost: p.avg_cost, reserved: p.reserved });
        }
        Some(pnl)
    }

    /// Books one execution. Returns realised PnL (net of this sale's fee and tax) for sells. On an
    /// error nothing changes.
    pub fn apply_fill(
        &mut self,
        id: &InstrumentId,
        side: Side,
        qty: Decimal,
        notional: Decimal,
        fee: Decimal,
        tax: Decimal,
    ) -> (r: Result<Option<Decimal>, LedgerError>)
        requires
            old(self).wf(),
        ensures
            final(self).wf(),
            match filled(old(self)@, id@, side, qty, notional, fee, tax) {
                Ok((pf, pnl)) => r == Ok::<Option<Decimal>, LedgerError>(pnl) && final(self)@ == pf,
                Err(e) => r == Err::<Option<Decimal>, LedgerError>(e) && final(self)@ == old(self)@,
            },
    {
        match side {
            Side::Buy => match self.buy(id, qty, notional, fee, tax) {
                Some(_) => Ok(None),
                None => Err(LedgerError::Overflow),
            },
            Side::Sell => {
                let p = match self.positions.get(id) {
                    Some(p) => *p,
                    None => return Err(LedgerError::NoPosition),
                };
                match self.sell(id, p, qty, notional, fee, tax) {
                    Some(pnl) => Ok(Some(pnl)),
                    None => Err(LedgerError::Overflow),
                }
            },
        }
    }
}

/// However much is given back, never less than nothing stays promised, and the balance and the
/// positions do not change.
pub proof fn law_over_release_clamps_at_zero(pf: PortfolioView, c: Currency, amount: Decimal)
    requires
        cash_released(pf, c, amount) is Some,
    ensures
        amount_of((cash_released(pf, c, amount)->0).reserved_cash, c).value() >= 0,
        (cash_released(pf, c, amount)->0).cash == pf.cash,
        (cash_released(pf, c, amount)->0).positions == pf.positions,
{
    crate::decimal::lemma_dec_parts(0, 0);
    crate::decimal::lemma_value_sign(0, 0);
}

/// Promising cash and giving the same amount back leaves what was promised before, wherever the
/// two sums are exact.
pub proof fn law_release_undoes_reserve(pf: PortfolioView, c: Currency, amount: Decimal)
    requires
        amount_of(pf.reserved_cash, c).value() >= 0,
        cash_reserved(pf, c, amount) matches Some(after) && amount_of(after.reserved_cash, c).value() == amount_of(
            pf.reserved_cash,
            c,
        ).value() + amount.value(),
        ({
            let after = cash_reserved(pf, c, amount)->0;
            amount_of(after.reserved_cash, c).minus(amount) matches Some(r) && r.value() == amount_of(
                after.reserved_cash,
                c,
            ).value() - amount.value()
        }),
    ensures
        ({
            let back = cash_released(cash_reserved(pf, c, amount)->0, c, amount);
            &&& back is Some
            &&& amount_of(back->0.reserved_cash, c).value() == amount_of(pf.reserved_cash, c).value()
            &&& back->0.cash == pf.cash
            &&& back->0.positions == pf.positions
        }),
{
    crate::decimal::lemma_dec_parts(0, 0);
    crate::decimal::lemma_value_sign(0, 0);
}

/// Selling all of a position that nobody else was promised removes it, wherever the difference is
/// exact.
pub proof fn law_flat_position_is_removed(
    pf: PortfolioView,
    id: (Venue, Seq<char>),
    qty: Decimal,
    notional: Decimal,
    fee: Decimal,
    tax: Decimal,
)
    requires
        pf.positions.contains_key(id),
        pf.positions[id].reserved.value() == 0,
        pf.positions[id].qty.minus(qty) matches Some(left) && left.value() == 0,
        filled(pf, id, Side::Sell, qty, notional, fee, tax) is Ok,
    ensures
        ({
            let after = (filled(pf, id, Side::Sell, qty, notional, fee, tax)->Ok_0).0;
            &&& !after.positions.contains_key(id)
            &&& qty_available(after, id) == Some(zero())
        }),
{
}

/// An execution touches the cash of its venue's currency and the position in its instrument, and
/// nothing else.
pub proof fn law_fill_touches_one_position(
    pf: PortfolioView,
    id: (Venue, Seq<char>),
    side: Side,
    qty: Decimal,
    notional: Decimal,
    fee: Decimal,
    tax: Decimal,
    c: Currency,
    other: (Venue, Seq<char>),
)
    requires
        filled(pf, id, side, qty, notional, fee, tax) is Ok,
        c != id.0.currency(),
        other != id,
    ensures
        ({
            let after = (filled(pf, id, side, qty, notional, fee, tax)->Ok_0).0;
            &&& amount_of(after.cash, c) == amount_of(pf.cash, c)
            &&& after.reserved_cash == pf.reserved_cash
            &&& position_of(after, other) == position_of(pf, other)
        }),
{
}

/// A buy keeps what the position cost: the new quantity at the new average comes to the old quantity
/// at the old average plus what was paid, up to the eight places of the average. The quantity grows by
/// what was bought and what is promised of it stays. It holds wherever decimals hold the sums and the
/// product.
pub proof fn law_a_buy_keeps_the_cost(
    pf: PortfolioView,
    id: (Venue, Seq<char>),
    qty: Decimal,
    notional: Decimal,
    fee: Decimal,
    tax: Decimal,
)
    requires
        filled(pf, id, Side::Buy, qty, notional, fee, tax) is Ok,
        position_of(pf, id).qty.value() + qty.value() > 0,
        representable(position_of(pf, id).qty.value() + qty.value()),
        product_held(position_of(pf, id).qty, position_of(pf, id).avg_cost),
        representable(
            position_of(pf, id).qty.value() * position_of(pf, id).avg_cost.value() / unit() + notional.value(),
        ),
    ensures
        ({
            let p = position_of(pf, id);
            let (after, pnl) = filled(pf, id, Side::Buy, qty, notional, fee, tax)->Ok_0;
            let q = position_of(after, id);
            let cost = p.qty.value() * p.avg_cost.value() + notional.value() * unit();
            &&& pnl is None
            &&& q.qty.value() == p.qty.value() + qty.value()
            &&& q.reserved == p.reserved
            &&& q.avg_cost.valid()
            &&& 2 * abs_int(q.qty.value() * q.avg_cost.value() - cost) <= q.qty.value() * pow10(20) + 2 * max_int(
                abs_int(cost) / unit(),
                q.qty.value(),
            )
        }),
{
    let p = position_of(pf, id);
    let u = unit();
    lemma_unit();
    lemma_sums(p.qty, qty);
    lemma_product_held(p.qty, p.avg_cost);
    let worth = p.qty.times(p.avg_cost)->0;
    vstd::arithmetic::div_mod::lemma_fundamental_div_mod(p.qty.value() * p.avg_cost.value(), u);
    let w = p.qty.value() * p.avg_cost.value() / u;
    assert(worth.value() == w) by (nonlinear_arith)
        requires
            worth.value() * u == u * w,
            u > 0,
    ;
    lemma_sums(worth, notional);
    let sum = worth.plus(notional)->0;
    let total = p.qty.plus(qty)->0;
    lemma_quotient(sum, total);
    let each = sum.over(total)->0;
    lemma_rounded(each, 8);
    let a = each.rounded(8);
    let g = pow10(20);
    let t = total.value();
    let n = sum.value();
    let e = max_int(abs_int(n), t);
    let cost = p.qty.value() * p.avg_cost.value() + notional.value() * u;
    assert(cost == n * u) by (nonlinear_arith)
        requires
            cost == u * w + notional.value() * u,
            n == w + notional.value(),
    ;
    assert(abs_int(cost) == abs_int(n) * u) by (nonlinear_arith)
        requires
            cost == n * u,
            u > 0,
    ;
    vstd::arithmetic::div_mod::lemma_fundamental_div_mod_converse(abs_int(cost), u, abs_int(n), 0);
    assert(-(t * g) <= 2 * (a.value() * t - each.value() * t) <= t * g) by (nonlinear_arith)
        requires
            -g <= 2 * (a.value() - each.value()) <= g,
            t > 0,
    ;
    assert(t * a.value() == a.value() * t) by (nonlinear_arith);
}

/// What a buy costs, and its fee and tax, go out of the balance, and nothing else does; wherever
/// decimals hold the sums.
pub proof fn law_a_buy_is_paid(
    pf: PortfolioView,
    id: (Venue, Seq<char>),
    qty: Decimal,
    notional: Decimal,
    fee: Decimal,
    tax: Decimal,
)
    requires
        filled(pf, id, Side::Buy, qty, notional, fee, tax) is Ok,
        representable(notional.value() + fee.value()),
        representable(notional.value() + fee.value() + tax.value()),
        representable(
            amount_of(pf.cash, id.0.currency()).value() - (notional.value() + fee.value() + tax.value()),
        ),
    ensures
        ({
            let c = id.0.currency();
            let after = (filled(pf, id, Side::Buy, qty, notional, fee, tax)->Ok_0).0;
            amount_of(after.cash, c).value() + notional.value() + fee.value() + tax.value() == amount_of(
                pf.cash,
                c,
            ).value()
        }),
{
    lemma_sums(notional, fee);
    lemma_sums(notional.plus(fee)->0, tax);
    let cost = notional.plus(fee)->0.plus(tax)->0;
    lemma_sums(amount_of(pf.cash, id.0.currency()), cost);
}

/// What a sale brings in, less its fee and tax, comes into the balance; the position loses what was
/// sold and keeps its average cost and what is promised of it; wherever decimals hold the sums.
pub proof fn law_a_sale_is_paid(
    pf: PortfolioView,
    id: (Venue, Seq<char>),
    qty: Decimal,
    notional: Decimal,
    fee: Decimal,
    tax: Decimal,
)
    requires
        filled(pf, id, Side::Sell, qty, notional, fee, tax) is Ok,
        representable(notional.value() - fee.value()),
        representable(notional.value() - fee.value() - tax.value()),
        representable(
            amount_of(pf.cash, id.0.currency()).value() + (notional.value() - fee.value() - tax.value()),
        ),
        representable(position_of(pf, id).qty.value() - qty.value()),
    ensures
        ({
            let c = id.0.currency();
            let p = position_of(pf, id);
            let after = (filled(pf, id, Side::Sell, qty, notional, fee, tax)->Ok_0).0;
            let q = position_of(after, id);
            &&& pf.positions.contains_key(id)
            &&& amount_of(after.cash, c).value() + fee.value() + tax.value() == amount_of(pf.cash, c).value()
                + notional.value()
            &&& q.qty.value() + qty.value() == p.qty.value()
            &&& after.positions.contains_key(id) <==> (q.qty.value() != 0 || p.reserved.value() != 0)
            &&& after.positions.contains_key(id) ==> q.avg_cost == p.avg_cost && q.reserved == p.reserved
        }),
{
    let p = position_of(pf, id);
    lemma_sums(notional, fee);
    lemma_sums(notional.minus(fee)->0, tax);
    let income = notional.minus(fee)->0.minus(tax)->0;
    lemma_sums(amount_of(pf.cash, id.0.currency()), income);
    lemma_sums(p.qty, qty);
    lemma_dec_parts(0, 0);
}

/// The profit of a sale, with what was sold at its average cost and the fee and the tax, comes to what
/// the sale brought in; wherever decimals hold the product and the sums.
pub proof fn law_profit_is_over_the_average_cost(
    pf: PortfolioView,
    id: (Venue, Seq<char>),
    qty: Decimal,
    notional: Decimal,
    fee: Decimal,
    tax: Decimal,
)
    requires
        filled(pf, id, Side::Sell, qty, notional, fee, tax) is Ok,
        product_held(position_of(pf, id).avg_cost, qty),
        ({
            let cost = position_of(pf, id).avg_cost.value() * qty.value() / unit();
            &&& representable(notional.value() - cost)
            &&& representable(notional.value() - cost - fee.value())
            &&& representable(notional.value() - cost - fee.value() - tax.value())
        }),
    ensures
        ({
            let pnl = (filled(pf, id, Side::Sell, qty, notional, fee, tax)->Ok_0).1;
            &&& pnl is Some
            &&& (pnl->0.value() + fee.value() + tax.value()) * unit() + position_of(pf, id).avg_cost.value()
                * qty.value() == notional.value() * unit()
        }),
{
    let p = position_of(pf, id);
    let u = unit();
    lemma_unit();
    lemma_product_held(p.avg_cost, qty);
    let cost = p.avg_cost.times(qty)->0;
    vstd::arithmetic::div_mod::lemma_fundamental_div_mod(p.avg_cost.value() * qty.value(), u);
    let w = p.avg_cost.value() * qty.value() / u;
    assert(cost.value() == w) by (nonlinear_arith)
        requires
            cost.value() * u == u * w,
            u > 0,
    ;
    lemma_sums(notional, cost);
    lemma_sums(notional.minus(cost)->0, fee);
    lemma_sums(notional.minus(cost)->0.minus(fee)->0, tax);
    let pnl = (filled(pf, id, Side::Sell, qty, notional, fee, tax)->Ok_0).1->0;
    let rest = pnl.value() + fee.value() + tax.value();
    assert(rest * u + u * w == notional.value() * u) by (nonlinear_arith)
        requires
            rest + w == notional.value(),
    ;
}

/// What is available is the balance less what is promised, and promising an amount makes just so much
/// less of it available; wherever decimals hold the sums.
pub proof fn law_promises_are_kept_apart(pf: PortfolioView, c: Currency, amount: Decimal)
    requires
        representable(amount_of(pf.reserved_cash, c).value() + amount.value()),
        representable(amount_of(pf.cash, c).value() - amount_of(pf.reserved_cash, c).value()),
        representable(
            amount_of(pf.cash, c).value() - (amount_of(pf.reserved_cash, c).value() + amount.value()),
        ),
    ensures
        cash_reserved(pf, c, amount) matches Some(after) ==> {
            &&& after.cash == pf.cash
            &&& after.positions == pf.positions
            &&& (cash_available(pf, c) matches Some(x) ==> x.value() == amount_of(pf.cash, c).value() - amount_of(
                pf.reserved_cash,
                c,
            ).value())
            &&& (cash_available(after, c) matches Some(y) ==> y.value() == amount_of(pf.cash, c).value() - amount_of(
                pf.reserved_cash,
                c,
            ).value() - amount.value())
        },
{
    lemma_sums(amount_of(pf.reserved_cash, c), amount);
    lemma_sums(amount_of(pf.cash, c), amount_of(pf.reserved_cash, c));
    if let Some(after) = cash_reserved(pf, c, amount) {
        lemma_sums(amount_of(after.cash, c), amount_of(after.reserved_cash, c));
    }
}

/// The same of a quantity: what is promised is no longer available, the position and its cost stay, and
/// giving back no more than was promised undoes it.
pub proof fn law_promised_quantities_are_kept_apart(pf: PortfolioView, id: (Venue, Seq<char>), qty: Decimal)
    requires
        qty.value() >= 0,
        position_of(pf, id).reserved.value() >= 0,
        representable(position_of(pf, id).reserved.value()),
        representable(position_of(pf, id).reserved.value() + qty.value()),
        representable(position_of(pf, id).qty.value() - position_of(pf, id).reserved.value()),
        representable(
            position_of(pf, id).qty.value() - (position_of(pf, id).reserved.value() + qty.value()),
        ),
    ensures
        qty_reserved(pf, id, qty) matches Some(after) ==> {
            let p = position_of(pf, id);
            let q = position_of(after, id);
            &&& after.cash == pf.cash
            &&& after.reserved_cash == pf.reserved_cash
            &&& q.qty == p.qty
            &&& q.avg_cost == p.avg_cost
            &&& q.reserved.value() == p.reserved.value() + qty.value()
            &&& (qty_available(after, id) matches Some(y) ==> y.value() == p.qty.value() - p.reserved.value()
                - qty.value())
            &&& (qty_released(after, id, qty) matches Some(back) ==> position_of(back, id).qty == p.qty
                && position_of(back, id).avg_cost == p.avg_cost && position_of(back, id).reserved.value()
                == p.reserved.value())
        },
{
    let p = position_of(pf, id);
    lemma_dec_parts(0, 0);
    lemma_sums(p.reserved, qty);
    if let Some(after) = qty_reserved(pf, id, qty) {
        let q = position_of(after, id);
        lemma_sums(q.qty, q.reserved);
        lemma_sums(q.reserved, qty);
    }
}

} // verus!
