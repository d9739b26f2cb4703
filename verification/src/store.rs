//! What is written to the database and how an account is rebuilt from it. Ledger entries are
//! append-only; a portfolio is rebuilt by replaying deposits and fills through the same `Portfolio`
//! code the broker uses.
use crate::broker::{Conversion, Fill, FillView, Liquidity, OrderStatus, OrderType, Tif};
use crate::decimal::Decimal;
use crate::domain::{id_parsed, Currency, InstrumentId, Side};
use crate::ledger::{amount_of, deposits, filled, LedgerError, Portfolio, PortfolioView};
use crate::sim::Size;
use crate::text::same_text;
use vstd::prelude::*;

pub mod rows;

verus! {

impl OrderType {
    pub open spec fn code_text(self) -> Seq<char> {
        match self {
            OrderType::Market => "market"@,
            OrderType::Limit => "limit"@,
        }
    }

    pub fn code(self) -> (r: &'static str)
        ensures
            r@ == self.code_text(),
    {
        match self {
            OrderType::Market => "market",
            OrderType::Limit => "limit",
        }
    }

    /// What a code names.
    pub open spec fn coded(s: Seq<char>) -> Option<OrderType> {
        if s == "market"@ {
            Some(OrderType::Market)
        } else if s == "limit"@ {
            Some(OrderType::Limit)
        } else {
            None
        }
    }

    pub fn from_code(s: &str) -> (r: Option<OrderType>)
        ensures
            r == OrderType::coded(s@),
    {
        if same_text(s, "market") {
            Some(OrderType::Market)
        } else if same_text(s, "limit") {
            Some(OrderType::Limit)
        } else {
            None
        }
    }
}

impl Tif {
    pub open spec fn code_text(self) -> Seq<char> {
        match self {
            Tif::Day => "day"@,
            Tif::Gtc => "gtc"@,
            Tif::Ioc => "ioc"@,
        }
    }

    pub fn code(self) -> (r: &'static str)
        ensures
            r@ == self.code_text(),
    {
        match self {
            Tif::Day => "day",
            Tif::Gtc => "gtc",
            Tif::Ioc => "ioc",
        }
    }

    /// What a code names.
    pub open spec fn coded(s: Seq<char>) -> Option<Tif> {
        if s == "day"@ {
            Some(Tif::Day)
        } else if s == "gtc"@ {
            Some(Tif::Gtc)
        } else if s == "ioc"@ {
            Some(Tif::Ioc)
        } else {
            None
        }
    }

    pub fn from_code(s: &str) -> (r: Option<Tif>)
        ensures
            r == Tif::coded(s@),
    {
        if same_text(s, "day") {
            Some(Tif::Day)
        } else if same_text(s, "gtc") {
            Some(Tif::Gtc)
        } else if same_text(s, "ioc") {
            Some(Tif::Ioc)
        } else {
            None
        }
    }
}

impl OrderStatus {
    pub open spec fn code_text(self) -> Seq<char> {
        match self {
            OrderStatus::Open => "open"@,
            OrderStatus::Filled => "filled"@,
            OrderStatus::Cancelled => "cancelled"@,
            OrderStatus::Expired => "expired"@,
        }
    }

    pub fn code(self) -> (r: &'static str)
        ensures
            r@ == self.code_text(),
    {
        match self {
            OrderStatus::Open => "open",
            OrderStatus::Filled => "filled",
            OrderStatus::Cancelled => "cancelled",
            OrderStatus::Expired => "expired",
        }
    }

    /// What a code names.
    pub open spec fn coded(s: Seq<char>) -> Option<OrderStatus> {
        if s == "open"@ {
            Some(OrderStatus::Open)
        } else if s == "filled"@ {
            Some(OrderStatus::Filled)
        } else if s == "cancelled"@ {
            Some(OrderStatus::Cancelled)
        } else if s == "expired"@ {
            Some(OrderStatus::Expired)
        } else {
            None
        }
    }

    pub fn from_code(s: &str) -> (r: Option<OrderStatus>)
        ensures
            r == OrderStatus::coded(s@),
    {
        if same_text(s, "open") {
            Some(OrderStatus::Open)
        } else if same_text(s, "filled") {
            Some(OrderStatus::Filled)
        } else if same_text(s, "cancelled") {
            Some(OrderStatus::Cancelled)
        } else if same_text(s, "expired") {
            Some(OrderStatus::Expired)
        } else {
            None
        }
    }
}

impl Liquidity {
    pub open spec fn code_text(self) -> Seq<char> {
        match self {
            Liquidity::Taker => "taker"@,
            Liquidity::Maker => "maker"@,
        }
    }

    pub fn code(self) -> (r: &'static str)
        ensures
            r@ == self.code_text(),
    {
        match self {
            Liquidity::Taker => "taker",
            Liquidity::Maker => "maker",
        }
    }

    /// What a code names.
    pub open spec fn coded(s: Seq<char>) -> Option<Liquidity> {
        if s == "taker"@ {
            Some(Liquidity::Taker)
        } else if s == "maker"@ {
            Some(Liquidity::Maker)
        } else {
            None
        }
    }

    pub fn from_code(s: &str) -> (r: Option<Liquidity>)
        ensures
            r == Liquidity::coded(s@),
    {
        if same_text(s, "taker") {
            Some(Liquidity::Taker)
        } else if same_text(s, "maker") {
            Some(Liquidity::Maker)
        } else {
            None
        }
    }
}

/// The code of an order type, a time in force, a status or a liquidity names it.
pub proof fn law_codes_read_back(kind: OrderType, tif: Tif, status: OrderStatus, liquidity: Liquidity)
    ensures
        OrderType::coded(kind.code_text()) == Some(kind),
        Tif::coded(tif.code_text()) == Some(tif),
        OrderStatus::coded(status.code_text()) == Some(status),
        Liquidity::coded(liquidity.code_text()) == Some(liquidity),
{
    reveal_strlit("market");
    reveal_strlit("limit");
    reveal_strlit("day");
    reveal_strlit("gtc");
    reveal_strlit("ioc");
    reveal_strlit("open");
    reveal_strlit("filled");
    reveal_strlit("cancelled");
    reveal_strlit("expired");
    reveal_strlit("taker");
    reveal_strlit("maker");
    assert("market"@[0] != "limit"@[0]);
    assert("day"@[0] != "gtc"@[0] && "day"@[0] != "ioc"@[0] && "gtc"@[0] != "ioc"@[0]);
    assert("open"@[0] != "filled"@[0] && "open"@[0] != "cancelled"@[0] && "open"@[0] != "expired"@[0]);
    assert("filled"@[0] != "cancelled"@[0] && "filled"@[0] != "expired"@[0] && "cancelled"@[0] != "expired"@[0]);
    assert("taker"@[0] != "maker"@[0]);
}

/// The two size columns of an order: quantity and money amount, one of which is set.
pub fn size_columns(size: Size) -> (r: (Option<Decimal>, Option<Decimal>))
    ensures
        r == (match size {
            Size::Qty(q) => (Some(q), None),
            Size::Notional(n) => (None, Some(n)),
        }),
{
    match size {
        Size::Qty(q) => (Some(q), None),
        Size::Notional(n) => (None, Some(n)),
    }
}

/// One entry of the cash ledger.
#[derive(Debug, Clone, Copy, PartialEq)]
pub struct CashLeg {
    pub kind: LegKind,
    pub amount: Decimal,
}

/// What a ledger entry is for.
#[derive(Debug, Clone, Copy, PartialEq, Eq, Structural)]
pub enum LegKind {
    Deposit,
    Trade,
    Fee,
    Tax,
    Conversion,
}

impl LegKind {
    pub open spec fn code_text(self) -> Seq<char> {
        match self {
            LegKind::Deposit => "deposit"@,
            LegKind::Trade => "trade"@,
            LegKind::Fee => "fee"@,
            LegKind::Tax => "tax"@,
            LegKind::Conversion => "conversion"@,
        }
    }

    pub fn code(self) -> (r: &'static str)
        ensures
            r@ == self.code_text(),
    {
        match self {
            LegKind::Deposit => "deposit",
            LegKind::Trade => "trade",
            LegKind::Fee => "fee",
            LegKind::Tax => "tax",
            LegKind::Conversion => "conversion",
        }
    }
}

/// What a trade brings in cash: money out for a buy, money in for a sale.
pub open spec fn trade_amount(f: FillView) -> Decimal {
    match f.side {
        Side::Buy => f.notional.negated(),
        Side::Sell => f.notional,
    }
}

/// A leg at the end of the list, unless it is nothing.
pub open spec fn with_leg(legs: Seq<CashLeg>, kind: LegKind, amount: Decimal) -> Seq<CashLeg> {
    if amount.value() == 0 {
        legs
    } else {
        legs.push(CashLeg { kind, amount })
    }
}

/// The cash legs of a fill: trade, fee and tax, each unless it is nothing.
pub open spec fn legs_of(f: FillView) -> Seq<CashLeg> {
    with_leg(
        with_leg(
            with_leg(Seq::empty(), LegKind::Trade, trade_amount(f)),
            LegKind::Fee,
            f.fee.negated(),
        ),
        LegKind::Tax,
        f.tax.negated(),
    )
}

fn push_leg(legs: &mut Vec<CashLeg>, kind: LegKind, amount: Decimal)
    ensures
        final(legs)@ == with_leg(old(legs)@, kind, amount),
{
    if !amount.is_zero() {
        legs.push(CashLeg { kind, amount });
    }
}

/// The cash legs of a fill.
pub fn cash_legs(f: &Fill) -> (r: Vec<CashLeg>)
    ensures
        r@ == legs_of(f@),
{
    let trade = match f.side {
        Side::Buy => f.notional.neg(),
        Side::Sell => f.notional,
    };
    let mut legs: Vec<CashLeg> = Vec::new();
    push_leg(&mut legs, LegKind::Trade, trade);
    push_leg(&mut legs, LegKind::Fee, f.fee.neg());
    push_leg(&mut legs, LegKind::Tax, f.tax.neg());
    legs
}

/// The legs added up.
pub open spec fn legs_value(legs: Seq<CashLeg>) -> int
    decreases legs.len(),
{
    if legs.len() == 0 {
        0
    } else {
        legs_value(legs.drop_last()) + legs.last().amount.value()
    }
}

proof fn lemma_with_leg(legs: Seq<CashLeg>, kind: LegKind, amount: Decimal)
    ensures
        legs_value(with_leg(legs, kind, amount)) == legs_value(legs) + amount.value(),
{
    if amount.value() != 0 {
        let more = legs.push(CashLeg { kind, amount });
        assert(more.drop_last() =~= legs);
    }
}

proof fn lemma_negated(d: Decimal)
    requires
        d.valid(),
    ensures
        d.negated().value() == -d.value(),
{
    crate::decimal::lemma_dec_parts(-d.mantissa(), d.scale());
    let m = d.mantissa();
    let p = crate::decimal::pow10((28 - d.scale()) as nat);
    assert((-m) * p == -(m * p)) by (nonlinear_arith);
}

/// The cash legs of a fill come to the value of the trade, less fee and tax.
pub proof fn law_legs_add_up(f: FillView)
    requires
        f.notional.valid(),
        f.fee.valid(),
        f.tax.valid(),
    ensures
        legs_value(legs_of(f)) == (match f.side {
            Side::Buy => -f.notional.value(),
            Side::Sell => f.notional.value(),
        }) - f.fee.value() - f.tax.value(),
{
    let a = with_leg(Seq::<CashLeg>::empty(), LegKind::Trade, trade_amount(f));
    let b = with_leg(a, LegKind::Fee, f.fee.negated());
    lemma_with_leg(Seq::<CashLeg>::empty(), LegKind::Trade, trade_amount(f));
    lemma_with_leg(a, LegKind::Fee, f.fee.negated());
    lemma_with_leg(b, LegKind::Tax, f.tax.negated());
    lemma_negated(f.notional);
    lemma_negated(f.fee);
    lemma_negated(f.tax);
}

/// The two ledger entries of a conversion: what leaves one currency and what comes in another.
pub fn conversion_legs(c: &Conversion) -> (r: Vec<(Currency, Decimal)>)
    ensures
        r@ == seq![(c.from, c.debit.negated()), (c.to, c.credit)],
{
    let mut v: Vec<(Currency, Decimal)> = Vec::new();
    v.push((c.from, c.debit.neg()));
    v.push((c.to, c.credit));
    v
}

/// Whether the sums that booking a fill makes are exact.
pub open spec fn booked_exactly(cash: Decimal, f: FillView) -> bool {
    match f.side {
        Side::Buy => {
            &&& f.notional.plus(f.fee) matches Some(a) && a.value() == f.notional.value() + f.fee.value()
            &&& f.notional.plus(f.fee)->0.plus(f.tax) matches Some(b) && b.value() == f.notional.value()
                + f.fee.value() + f.tax.value()
            &&& cash.minus((f.notional.plus(f.fee)->0.plus(f.tax))->0) matches Some(c) && c.value() == cash.value() - (
            f.notional.value() + f.fee.value() + f.tax.value())
        },
        Side::Sell => {
            &&& f.notional.minus(f.fee) matches Some(a) && a.value() == f.notional.value() - f.fee.value()
            &&& f.notional.minus(f.fee)->0.minus(f.tax) matches Some(b) && b.value() == f.notional.value()
                - f.fee.value() - f.tax.value()
            &&& cash.plus((f.notional.minus(f.fee)->0.minus(f.tax))->0) matches Some(c) && c.value() == cash.value() + (
            f.notional.value() - f.fee.value() - f.tax.value())
        },
    }
}

/// The ledger and the replay agree: booking a fill changes the cash of its currency by what its
/// legs come to, wherever the sums are exact.
pub proof fn law_ledger_and_replay_agree(pf: PortfolioView, f: FillView)
    requires
        f.notional.valid(),
        f.fee.valid(),
        f.tax.valid(),
        booked_exactly(amount_of(pf.cash, f.instrument.0.currency()), f),
        filled(pf, f.instrument, f.side, f.qty, f.notional, f.fee, f.tax) is Ok,
    ensures
        ({
            let c = f.instrument.0.currency();
            let after = (filled(pf, f.instrument, f.side, f.qty, f.notional, f.fee, f.tax)->Ok_0).0;
            amount_of(after.cash, c).value() == amount_of(pf.cash, c).value() + legs_value(legs_of(f))
        }),
{
    law_legs_add_up(f);
}

/// A fill as it is stored.
#[derive(Debug)]
pub struct FillRow {
    pub instrument: String,
    pub side: String,
    pub qty: Decimal,
    pub notional: Decimal,
    pub fee: Decimal,
    pub tax: Decimal,
}

/// What a stored fill says.
pub ghost struct FillRowView {
    pub instrument: Seq<char>,
    pub side: Seq<char>,
    pub qty: Decimal,
    pub notional: Decimal,
    pub fee: Decimal,
    pub tax: Decimal,
}

impl View for FillRow {
    type V = FillRowView;

    open spec fn view(&self) -> FillRowView {
        FillRowView {
            instrument: self.instrument@,
            side: self.side@,
            qty: self.qty,
            notional: self.notional,
            fee: self.fee,
            tax: self.tax,
        }
    }
}

/// What booking a fill fails with, as a message.
pub open spec fn ledger_message(e: LedgerError) -> Seq<char> {
    match e {
        LedgerError::Overflow => "an amount is out of range"@,
        LedgerError::NoPosition => "sell of a position that is not held"@,
    }
}

/// A portfolio after one more stored fill.
pub open spec fn replayed_one(pf: PortfolioView, r: FillRowView) -> Result<PortfolioView, Seq<char>> {
    match id_parsed(r.instrument) {
        Err(m) => Err(m),
        Ok(id) => match Side::coded(r.side) {
            None => Err("unknown side "@ + r.side),
            Some(side) => match filled(pf, id, side, r.qty, r.notional, r.fee, r.tax) {
                Ok((after, _)) => Ok(after),
                Err(e) => Err(ledger_message(e)),
            },
        },
    }
}

/// A portfolio after the stored fills from index `i` on.
pub open spec fn replayed(pf: PortfolioView, rows: Seq<FillRowView>, i: int) -> Result<PortfolioView, Seq<char>>
    decreases rows.len() - i,
{
    if i >= rows.len() {
        Ok(pf)
    } else {
        match replayed_one(pf, rows[i]) {
            Ok(after) => replayed(after, rows, i + 1),
            Err(e) => Err(e),
        }
    }
}

/// Stored fills as what they say.
pub open spec fn fill_row_views(rows: Seq<FillRow>) -> Seq<FillRowView> {
    rows.map_values(|r: FillRow| r@)
}

fn replay_one(pf: &mut Portfolio, r: &FillRow) -> (out: Result<(), String>)
    requires
        old(pf).wf(),
    ensures
        final(pf).wf(),
        match replayed_one(old(pf)@, r@) {
            Ok(after) => out is Ok && final(pf)@ == after,
            Err(m) => out matches Err(e) && e@ == m,
        },
{
    let id = match InstrumentId::parse(r.instrument.as_str()) {
        Ok(id) => id,
        Err(e) => return Err(e),
    };
    let side = match Side::from_code(r.side.as_str()) {
        Some(s) => s,
        None => {
            let mut m = "unknown side ".to_owned();
            m.append(r.side.as_str());
            return Err(m);
        },
    };
    match pf.apply_fill(&id, side, r.qty, r.notional, r.fee, r.tax) {
        Ok(_) => Ok(()),
        Err(LedgerError::Overflow) => Err("an amount is out of range".to_owned()),
        Err(LedgerError::NoPosition) => Err("sell of a position that is not held".to_owned()),
    }
}

/// Rebuilds a portfolio from deposits and fills, oldest first. Reservations for open orders are not
/// restored.
pub fn replay(initial: &[(Currency, Decimal)], rows: &[FillRow]) -> (r: Result<Portfolio, String>)
    ensures
        match replayed(
            PortfolioView { cash: deposits(initial@), reserved_cash: Map::empty(), positions: Map::empty() },
            fill_row_views(rows@),
            0,
        ) {
            Ok(pf) => r matches Ok(p) && p.wf() && p@ == pf,
            Err(m) => r matches Err(e) && e@ == m,
        },
{
    let mut pf = Portfolio::new(initial);
    let ghost start = pf@;
    let mut i: usize = 0;
    while i < rows.len()
        invariant
            i <= rows@.len(),
            pf.wf(),
            start == (PortfolioView {
                cash: deposits(initial@),
                reserved_cash: Map::empty(),
                positions: Map::empty(),
            }),
            replayed(start, fill_row_views(rows@), 0) == replayed(pf@, fill_row_views(rows@), i as int),
        decreases rows@.len() - i,
    {
        assert(fill_row_views(rows@)[i as int] == rows@[i as int]@);
        match replay_one(&mut pf, &rows[i]) {
            Ok(_) => {},
            Err(e) => return Err(e),
        }
        i += 1;
    }
    Ok(pf)
}

/// Totals per currency as they are stored, or the currency that is not known.
pub open spec fn totals_read(rows: Seq<(Seq<char>, Decimal)>, i: int) -> Result<Seq<(Currency, Decimal)>, Seq<char>>
    decreases i,
{
    if i <= 0 {
        Ok(Seq::empty())
    } else {
        match totals_read(rows, i - 1) {
            Err(e) => Err(e),
            Ok(s) => match Currency::coded(rows[i - 1].0) {
                Some(c) => Ok(s.push((c, rows[i - 1].1))),
                None => Err("unknown currency "@ + rows[i - 1].0),
            },
        }
    }
}

proof fn lemma_totals_error(rows: Seq<(Seq<char>, Decimal)>, i: int, n: int)
    requires
        0 <= i <= n,
        totals_read(rows, i) is Err,
    ensures
        totals_read(rows, n) == totals_read(rows, i),
    decreases n,
{
    if i < n {
        lemma_totals_error(rows, i, n - 1);
    }
}

/// Reads the totals per currency.
pub fn read_totals(rows: &Vec<(String, Decimal)>) -> (r: Result<Vec<(Currency, Decimal)>, String>)
    ensures
        match totals_read(rows@.map_values(|e: (String, Decimal)| (e.0@, e.1)), rows@.len() as int) {
            Ok(s) => r matches Ok(v) && v@ == s,
            Err(m) => r matches Err(e) && e@ == m,
        },
{
    let ghost views = rows@.map_values(|e: (String, Decimal)| (e.0@, e.1));
    let mut out: Vec<(Currency, Decimal)> = Vec::new();
    let mut i: usize = 0;
    while i < rows.len()
        invariant
            i <= rows@.len(),
            views == rows@.map_values(|e: (String, Decimal)| (e.0@, e.1)),
            totals_read(views, i as int) == Ok::<Seq<(Currency, Decimal)>, Seq<char>>(out@),
        decreases rows@.len() - i,
    {
        assert(views[i as int] == (rows@[i as int].0@, rows@[i as int].1));
        match Currency::from_code(rows[i].0.as_str()) {
            Some(c) => out.push((c, rows[i].1)),
            None => {
                let mut m = "unknown currency ".to_owned();
                m.append(rows[i].0.as_str());
                proof {
                    lemma_totals_error(views, i + 1, rows@.len() as int);
                }
                return Err(m);
            },
        }
        i += 1;
    }
    Ok(out)
}

} // verus!
