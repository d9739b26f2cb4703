//! Looking at the broker from outside: what an instrument is, both of its books side by side, and
//! bringing back what was stored.
use crate::broker::world::{new_order, placed, prepared, promise, promised, resting_in, shadow_of, taken};
use crate::broker::{
    agrees, no_room, overflow, rest_of, Order, OrderError, OrderStatus, OrderView, PlanView, RequestView, SimBroker,
    World,
};
use crate::decimal::{lemma_dec_parts, lemma_sums, lemma_value_sign, representable, zero, Decimal};
use crate::domain::{InstrumentId, Level, Side, Venue};
use crate::ledger::{Portfolio, PortfolioView};
use crate::sim::{decayed, shadow_from, Drift, Resting, ShadowLevel, Size};
use crate::text::{contains_text, has_text, lowercase, lowered};
use crate::time::Timestamp;
use crate::tools::{mid, mid_of};
use crate::venue::{open_at, opening_after, Instrument, InstrumentView};
use vstd::prelude::*;

verus! {

/// What the books of an instrument say.
pub struct BookSides {
    pub shadow_bids: Vec<Level>,
    pub shadow_asks: Vec<Level>,
    pub real_bids: Vec<Level>,
    pub real_asks: Vec<Level>,
    pub last_trade: Option<(Decimal, Timestamp)>,
    pub received_at: Timestamp,
}

/// At most the first `n` of some levels.
pub open spec fn first_levels(levels: Seq<Level>, n: int) -> Seq<Level> {
    levels.take(if levels.len() < n {
        levels.len() as int
    } else {
        n
    })
}

/// The levels of a shadow book as plain levels.
pub open spec fn plain_levels(levels: Seq<ShadowLevel>) -> Seq<Level> {
    levels.map_values(|l: ShadowLevel| Level { price: l.price, qty: l.qty })
}

/// The bids and the asks of an instrument's shadow book at `now`; nothing without market data, or
/// where a decimal cannot hold an amount.
pub open spec fn shadow_book(w: World, id: (Venue, Seq<char>), now: Timestamp, drift: Drift) -> Option<
    (Seq<Level>, Seq<Level>),
> {
    if w.instruments.contains_key(id) && w.books.contains_key(id) {
        match decayed(shadow_of(w, id), now, drift) {
            None => None,
            Some(sh) => match (
                shadow_from(sh, w.books[id].bids, Side::Buy, w.instruments[id].tick, 0),
                shadow_from(sh, w.books[id].asks, Side::Sell, w.instruments[id].tick, 0),
            ) {
                (Some(bids), Some(asks)) => Some((plain_levels(bids), plain_levels(asks))),
                _ => None,
            },
        }
    } else {
        None
    }
}

/// The price half way between the best shadow bid and the best shadow ask.
pub open spec fn mid_now(w: World, id: (Venue, Seq<char>), now: Timestamp, drift: Drift) -> Option<Decimal> {
    match shadow_book(w, id, now, drift) {
        Some((bids, asks)) => mid_of(bids, asks),
        None => None,
    }
}

fn to_levels(v: &[ShadowLevel]) -> (r: Vec<Level>)
    ensures
        r@ == plain_levels(v@),
{
    let mut r: Vec<Level> = Vec::new();
    let mut i: usize = 0;
    while i < v.len()
        invariant
            i <= v@.len(),
            r@ == plain_levels(v@.take(i as int)),
        decreases v@.len() - i,
    {
        r.push(Level { price: v[i].price, qty: v[i].qty });
        assert(plain_levels(v@.take(i + 1)) =~= plain_levels(v@.take(i as int)).push(
            Level { price: v@[i as int].price, qty: v@[i as int].qty },
        ));
        i += 1;
    }
    assert(v@.take(i as int) =~= v@);
    r
}

fn first_of(v: &[Level], n: usize) -> (r: Vec<Level>)
    ensures
        r@ == first_levels(v@, n as int),
{
    let mut r: Vec<Level> = Vec::new();
    let mut i: usize = 0;
    while i < v.len() && i < n
        invariant
            i <= v@.len(),
            i <= n,
            r@ == v@.take(i as int),
        decreases v@.len() - i,
    {
        r.push(v[i]);
        assert(v@.take(i + 1) =~= v@.take(i as int).push(v@[i as int]));
        i += 1;
    }
    r
}

/// Whether a search finds an instrument: by a part of its symbol or of its name, in any case.
pub open spec fn found(i: InstrumentView, query: Seq<char>, venue: Option<Venue>) -> bool {
    &&& (venue is None || venue == Some(i.id.0))
    &&& (has_text(lowered(i.id.1), lowered(query)) || has_text(lowered(i.name), lowered(query)))
}

/// The instruments that a search finds among the first `n`, at most `limit` of them.
pub open spec fn hits(
    rows: Seq<((Venue, Seq<char>), InstrumentView)>,
    query: Seq<char>,
    venue: Option<Venue>,
    limit: nat,
    n: int,
) -> Seq<InstrumentView>
    decreases n,
{
    if n <= 0 {
        Seq::empty()
    } else {
        let before = hits(rows, query, venue, limit, n - 1);
        if before.len() < limit && found(rows[n - 1].1, query, venue) {
            before.push(rows[n - 1].1)
        } else {
            before
        }
    }
}

/// What is left of an order that can rest: an open limit order for a quantity.
pub open spec fn left_of(o: OrderView) -> Option<Option<Decimal>> {
    match (o.status, o.req.limit_price, o.req.size) {
        (OrderStatus::Open, Some(_), Size::Qty(q)) => Some(q.minus(o.filled_qty)),
        _ => None,
    }
}

/// Bringing back an order that rested: its reservation is made again, and it rests at the end of
/// the queue that is known.
pub open spec fn order_restored(w: World, o: OrderView) -> (World, Result<(), OrderError<Seq<char>>>) {
    if !w.accounts.contains_key(o.account) {
        (w, Err(OrderError::UnknownAccount))
    } else {
        match left_of(o) {
            None => (w, Err(OrderError::InvalidRequest("the order does not rest"@))),
            Some(None) => (w, Err(overflow())),
            Some(Some(left)) => if left.value() <= 0 {
                (w, Err(OrderError::InvalidRequest("the order does not rest"@)))
            } else {
                let price = o.req.limit_price->0;
                match promised(w.accounts[o.account], o.req, price, left) {
                    None => (w, Err(overflow())),
                    Some(pf) => (
                        World {
                            accounts: w.accounts.insert(o.account, pf),
                            orders: w.orders.insert(o.id, o),
                            resting: w.resting.insert(
                                o.req.instrument,
                                resting_in(w, o.req.instrument).push(
                                    Resting {
                                        order_id: o.id,
                                        side: o.req.side,
                                        price,
                                        remaining: left,
                                        queue_ahead: zero(),
                                    },
                                ),
                            ),
                            ..w
                        },
                        Ok(()),
                    ),
                }
            },
        }
    }
}

impl SimBroker {
    pub fn instrument(&self, id: &InstrumentId) -> (r: Option<&Instrument>)
        requires
            self.wf(),
        ensures
            match r {
                Some(i) => self@.instruments.contains_key(id@) && i@ == self@.instruments[id@],
                None => !self@.instruments.contains_key(id@),
            },
    {
        self.instruments.get(id)
    }

    /// Whether a venue is open, and when its next session opens.
    pub fn market_open(&self, venue: Venue, now: Timestamp) -> (r: (bool, Option<Timestamp>))
        ensures
            r == (open_at(self@.holidays, venue, now), opening_after(self@.holidays, venue, now)),
    {
        (self.calendar.is_open(venue, now), self.calendar.next_open(venue, now))
    }

    fn shadow_sides(&self, id: &InstrumentId, now: Timestamp, drift: Drift) -> (r: Option<(Vec<Level>, Vec<Level>)>)
        requires
            self.wf(),
        ensures
            match shadow_book(self@, id@, now, drift) {
                Some((bids, asks)) => r matches Some(s) && s.0@ == bids && s.1@ == asks,
                None => r is None,
            },
    {
        let inst = self.instruments.get(id)?;
        let book = self.books.get(id)?;
        let mut shadow = self.shadow_copy(id);
        if !shadow.decay(now, drift) {
            return None;
        }
        let bids = shadow.shadow_side(&book.bids, Side::Buy, &inst.tick);
        let asks = shadow.shadow_side(&book.asks, Side::Sell, &inst.tick);
        match (bids, asks) {
            (Some(b), Some(a)) => Some((to_levels(&b), to_levels(&a))),
            _ => None,
        }
    }

    /// The simulated and the real book of an instrument side by side, `depth` levels each; nothing
    /// without market data.
    pub fn book_view(
        &self,
        id: &InstrumentId,
        depth: usize,
        last_trade: Option<(Decimal, Timestamp)>,
        now: Timestamp,
        drift: Drift,
    ) -> (r: Option<BookSides>)
        requires
            self.wf(),
        ensures
            match shadow_book(self@, id@, now, drift) {
                Some((bids, asks)) => r matches Some(v) && v.shadow_bids@ == first_levels(bids, depth as int)
                    && v.shadow_asks@ == first_levels(asks, depth as int) && v.real_bids@ == first_levels(
                    self@.books[id@].bids,
                    depth as int,
                ) && v.real_asks@ == first_levels(self@.books[id@].asks, depth as int) && v.last_trade == last_trade
                    && v.received_at == self@.books[id@].received_at,
                None => r is None,
            },
    {
        let (bids, asks) = self.shadow_sides(id, now, drift)?;
        let book = self.books.get(id)?;
        Some(
            BookSides {
                shadow_bids: first_of(&bids, depth),
                shadow_asks: first_of(&asks, depth),
                real_bids: first_of(&book.bids, depth),
                real_asks: first_of(&book.asks, depth),
                last_trade,
                received_at: book.received_at,
            },
        )
    }

    /// The price half way between the best bid and the best ask of the simulated book.
    pub fn mid_price(&self, id: &InstrumentId, now: Timestamp, drift: Drift) -> (r: Option<Decimal>)
        requires
            self.wf(),
        ensures
            r == mid_now(self@, id@, now, drift),
    {
        let (bids, asks) = self.shadow_sides(id, now, drift)?;
        mid(&bids, &asks)
    }

    /// Instruments whose symbol or name holds a text, in any case; `venue` narrows the search.
    pub fn search(&self, query: &str, venue: Option<Venue>, limit: usize) -> (r: Vec<Instrument>)
        requires
            self.wf(),
        ensures
            r@.map_values(|i: Instrument| i@) == hits(
                self.instruments.rows(),
                query@,
                venue,
                limit as nat,
                self.instruments.rows().len() as int,
            ),
    {
        let q = lowercase(query);
        let mut out: Vec<Instrument> = Vec::new();
        let ghost rows = self.instruments.rows();
        assert(out@.map_values(|i: Instrument| i@) =~= Seq::empty());
        let mut i: usize = 0;
        while i < self.instruments.len()
            invariant
                self.wf(),
                rows == self.instruments.rows(),
                i <= rows.len(),
                q@ == lowered(query@),
                out@.map_values(|i: Instrument| i@) == hits(rows, query@, venue, limit as nat, i as int),
            decreases rows.len() - i,
        {
            let inst = self.instruments.value_at(i);
            let there = match venue {
                Some(v) => v == inst.id.venue,
                None => true,
            };
            let ghost before = out@.map_values(|i: Instrument| i@);
            assert(before.len() == out@.len());
            if out.len() < limit && there && (contains_text(lowercase(inst.id.symbol.as_str()).as_str(), q.as_str())
                || contains_text(lowercase(inst.name.as_str()).as_str(), q.as_str())) {
                out.push(inst.clone());
                assert(out@.map_values(|i: Instrument| i@) =~= before.push(inst@));
            }
            i += 1;
        }
        out
    }

    /// Opens an account with what was stored of it, in place of one of the same name.
    pub fn restore_account(&mut self, id: &str, pf: Portfolio)
        requires
            old(self).wf(),
            pf.wf(),
        ensures
            final(self).wf(),
            final(self)@ == (World { accounts: old(self)@.accounts.insert(id@, pf@), ..old(self)@ }),
    {
        self.accounts.insert(id.to_owned(), pf);
    }

    /// Brings back an order that rested when it was stored, with its reservation.
    pub fn restore_order(&mut self, order: Order) -> (r: Result<(), OrderError>)
        requires
            old(self).wf(),
        ensures
            final(self).wf(),
            final(self)@ == order_restored(old(self)@, order@).0,
            agrees(r, order_restored(old(self)@, order@).1, |a: (), b: ()| true),
    {
        let mut pf = match self.accounts.get(&order.account) {
            Some(p) => p.copied(),
            None => return Err(OrderError::UnknownAccount),
        };
        let (price, q) = match (order.status, order.req.limit_price, order.req.size) {
            (OrderStatus::Open, Some(price), Size::Qty(q)) => (price, q),
            _ => return Err(OrderError::InvalidRequest("the order does not rest".to_owned())),
        };
        let left = match q.checked_sub(order.filled_qty) {
            Some(x) => x,
            None => return Err(no_room()),
        };
        if !left.is_positive() {
            return Err(OrderError::InvalidRequest("the order does not rest".to_owned()));
        }
        if !promise(&mut pf, &order.req, price, left) {
            return Err(no_room());
        }
        let place = Resting {
            order_id: order.id,
            side: order.req.side,
            price,
            remaining: left,
            queue_ahead: Decimal::zero(),
        };
        let id = order.req.instrument.clone();
        self.accounts.insert(order.account.clone(), pf);
        self.orders.insert(order.id, order);
        self.add_resting(&id, place);
        Ok(())
    }
}

/// The account after what an order takes at once, before anything is promised for its rest.
pub open spec fn booked(w: World, account: Seq<char>, req: RequestView, p: PlanView, now: Timestamp) -> PortfolioView {
    (taken(
        w.accounts[account],
        shadow_of(w, req.instrument),
        new_order(w.next_order_id, account, req, now),
        p,
        now,
    )->Ok_0).0
}

/// A restart promises again what an order had promised: an order that was placed and rests, brought
/// back to its account without the reservation, gives the account as it was, and rests with as much
/// left. What an order filled at once is counted from zero: adding it there changes nothing.
pub proof fn law_restarts_restore_open_orders(
    w: World,
    account: Seq<char>,
    req: RequestView,
    now: Timestamp,
    drift: Drift,
    p: PlanView,
)
    requires
        prepared(w, account, req, now, drift).1 == Ok::<PlanView, OrderError<Seq<char>>>(p),
        placed(w, account, req, now, drift).1 matches Ok((o, _)) && o.status == OrderStatus::Open,
        zero().plus(p.qty) == Some(p.qty),
    ensures
        ({
            let (before, placed_now) = placed(w, account, req, now, drift);
            let order = (placed_now->Ok_0).0;
            let w1 = prepared(w, account, req, now, drift).0;
            let stored = World { accounts: w1.accounts.insert(account, booked(w1, account, req, p, now)), ..w1 };
            let (after, r) = order_restored(stored, order);
            &&& r is Ok
            &&& after.accounts[account] == before.accounts[account]
            &&& after.orders[order.id] == before.orders[order.id]
            &&& resting_in(after, req.instrument).last().remaining == resting_in(
                before,
                req.instrument,
            ).last().remaining
        }),
{
    let order = (placed(w, account, req, now, drift).1->Ok_0).0;
    lemma_dec_parts(0, 0);
    lemma_value_sign(0, 0);
    assert(rest_of(req, p.qty) == Some(p.rest_qty));
    assert(p.rest_qty.value() > 0 && req.limit_price is Some);
    assert(p.slices.len() == 0 ==> p.qty == zero());
    assert(order.filled_qty == p.qty);
    assert(order.req == req && order.account == account);
    assert(left_of(order) == Some(Some(p.rest_qty)));
}

/// A search finds instruments whose symbol or name holds what is looked for, in any case, on the venue that is
/// asked for; no more than the limit, and all of them where they are fewer.
pub proof fn law_searches_find_what_matches(
    rows: Seq<((Venue, Seq<char>), InstrumentView)>,
    query: Seq<char>,
    venue: Option<Venue>,
    limit: nat,
    n: int,
)
    requires
        0 <= n <= rows.len(),
    ensures
        hits(rows, query, venue, limit, n).len() <= limit,
        forall|i: int|
            0 <= i < hits(rows, query, venue, limit, n).len() ==> {
                let x = #[trigger] hits(rows, query, venue, limit, n)[i];
                &&& venue is Some ==> x.id.0 == venue->0
                &&& has_text(lowered(x.id.1), lowered(query)) || has_text(lowered(x.name), lowered(query))
            },
        hits(rows, query, venue, limit, n).len() < limit ==> forall|j: int|
            0 <= j < n && (venue is None || venue == Some((#[trigger] rows[j]).1.id.0)) && (has_text(
                lowered(rows[j].1.id.1),
                lowered(query),
            ) || has_text(lowered(rows[j].1.name), lowered(query))) ==> hits(rows, query, venue, limit, n).contains(
                rows[j].1,
            ),
    decreases n,
{
    if n > 0 {
        law_searches_find_what_matches(rows, query, venue, limit, n - 1);
        let before = hits(rows, query, venue, limit, n - 1);
        let all = hits(rows, query, venue, limit, n);
        if all.len() < limit {
            assert forall|j: int|
                0 <= j < n && (venue is None || venue == Some((#[trigger] rows[j]).1.id.0)) && (has_text(
                    lowered(rows[j].1.id.1),
                    lowered(query),
                ) || has_text(lowered(rows[j].1.name), lowered(query))) implies all.contains(rows[j].1) by {
                if j < n - 1 {
                    let k = choose|k: int| 0 <= k < before.len() && before[k] == rows[j].1;
                    assert(all[k] == rows[j].1);
                } else {
                    assert(all[all.len() - 1] == rows[j].1);
                }
            }
        }
    }
}

/// What is left of an open limit order is what it asks for less what was filled, where a decimal holds it; of
/// any other order nothing can rest.
pub proof fn law_the_rest_is_what_was_not_filled(o: OrderView)
    ensures
        left_of(o) matches Some(Some(rest)) ==> o.status == OrderStatus::Open && o.req.limit_price is Some
            && o.req.size is Qty && (representable(o.req.size->Qty_0.value() - o.filled_qty.value()) ==> rest.value()
            + o.filled_qty.value() == o.req.size->Qty_0.value()),
        left_of(o) is None ==> o.status != OrderStatus::Open || o.req.limit_price is None || o.req.size is Notional,
{
    if o.req.size is Qty {
        lemma_sums(o.req.size->Qty_0, o.filled_qty);
    }
}

} // verus!
