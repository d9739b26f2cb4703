//! Wires feeds to the broker: what each market event does, and which instruments are kept
//! subscribed and fresh.
use crate::broker::world::{book_arrived, id_views, trade_arrived, SimBroker, Sweep};
use crate::broker::{Fill, Order};
use crate::domain::{InstrumentId, Venue};
use crate::feed::{EventView, MarketEvent};
use crate::sim::Drift;
use crate::subs::{at_most, firsts, law_pinned_are_never_evicted, selection, without, Subscriptions};
use crate::time::Timestamp;
use vstd::prelude::*;

verus! {

/// How old, in nanoseconds, a book may be before a new one is fetched.
pub const FRESH_NANOS: i128 = 2_000_000_000;

/// Everything downstream consumers (the live stream, alerts) listen to. Orders and fills arrive
/// here only after they are persisted.
#[derive(Debug)]
pub enum BusEvent {
    Market(MarketEvent),
    Order(Order),
    Fill(Fill),
}

/// Applies a market event to the broker. The event itself is then broadcast; the fills it causes
/// travel through the broker's journal.
pub fn apply_event(broker: &mut SimBroker, ev: MarketEvent, now: Timestamp, drift: Drift) -> (r: Sweep)
    requires
        old(broker).wf(),
    ensures
        final(broker).wf(),
        ({
            let (w, fills, stopped) = match ev@ {
                EventView::Book(b) => book_arrived(old(broker)@, b, now, drift),
                EventView::Trade(t) => trade_arrived(old(broker)@, t, now, drift),
            };
            &&& final(broker)@ == w
            &&& r.fills@.map_values(|x: Fill| x@) == fills
            &&& r.stopped == stopped
        }),
{
    match ev {
        MarketEvent::Book(b) => broker.on_book(b, now, drift),
        MarketEvent::Trade(t) => broker.on_trade(t, now, drift),
    }
}

/// Whether a new book has to be fetched: there is none, or it is more than two seconds old.
pub fn needs_book(broker: &SimBroker, id: &InstrumentId, now: Timestamp) -> (r: bool)
    requires
        broker.wf(),
    ensures
        r == !(broker@.books.contains_key(id@) && now.at() - broker@.books[id@].received_at.at() <= FRESH_NANOS),
{
    match broker.book_age(id, now) {
        Some(age) => age > FRESH_NANOS,
        None => true,
    }
}

/// The instruments of a venue.
pub open spec fn on_venue(ids: Seq<(Venue, Seq<char>)>, venue: Venue) -> Seq<(Venue, Seq<char>)>
    decreases ids.len(),
{
    if ids.len() == 0 {
        ids
    } else if ids.last().0 == venue {
        on_venue(ids.drop_last(), venue).push(ids.last())
    } else {
        on_venue(ids.drop_last(), venue)
    }
}

proof fn lemma_on_venue(ids: Seq<(Venue, Seq<char>)>, venue: Venue, x: (Venue, Seq<char>))
    ensures
        on_venue(ids, venue).contains(x) == (ids.contains(x) && x.0 == venue),
    decreases ids.len(),
{
    if ids.len() > 0 {
        let head = ids.drop_last();
        lemma_on_venue(head, venue, x);
        assert(ids.contains(x) == (head.contains(x) || ids.last() == x)) by {
            if ids.contains(x) {
                let i = choose|i: int| 0 <= i < ids.len() && ids[i] == x;
                if i < head.len() {
                    assert(head[i] == x);
                }
            }
            if head.contains(x) {
                let i = choose|i: int| 0 <= i < head.len() && head[i] == x;
                assert(ids[i] == x);
            }
            assert(ids[ids.len() - 1] == ids.last());
        }
        if ids.last().0 == venue {
            let kept = on_venue(head, venue);
            let whole = kept.push(ids.last());
            assert(whole.contains(x) == (kept.contains(x) || ids.last() == x)) by {
                if whole.contains(x) {
                    let i = choose|i: int| 0 <= i < whole.len() && whole[i] == x;
                    if i < kept.len() {
                        assert(kept[i] == x);
                    }
                }
                if kept.contains(x) {
                    let i = choose|i: int| 0 <= i < kept.len() && kept[i] == x;
                    assert(whole[i] == x);
                }
                assert(whole[whole.len() - 1] == ids.last());
            }
        }
    }
}

/// An instrument with a position or a resting order is streamed by its venue's feed, whatever else
/// is queried, as long as those of the venue fit under the feed's cap.
pub proof fn law_held_instruments_stay_subscribed(
    active: Seq<(Venue, Seq<char>)>,
    recent: Seq<(Venue, Seq<char>)>,
    venue: Venue,
    cap: int,
    x: (Venue, Seq<char>),
)
    requires
        0 <= cap,
        firsts(on_venue(active, venue)).len() <= cap,
        active.contains(x),
        x.0 == venue,
    ensures
        selection(on_venue(active, venue), recent, cap).contains(x),
{
    lemma_on_venue(active, venue, x);
    law_pinned_are_never_evicted(on_venue(active, venue), recent, cap);
}

fn of_venue(ids: &[InstrumentId], venue: Venue) -> (r: Vec<InstrumentId>)
    ensures
        id_views(r@) == on_venue(id_views(ids@), venue),
{
    let mut out: Vec<InstrumentId> = Vec::new();
    let ghost views = id_views(ids@);
    assert(id_views(out@) =~= on_venue(views.take(0), venue));
    let mut i: usize = 0;
    while i < ids.len()
        invariant
            i <= ids@.len(),
            views == id_views(ids@),
            id_views(out@) == on_venue(views.take(i as int), venue),
        decreases ids@.len() - i,
    {
        assert(views.take(i + 1).drop_last() =~= views.take(i as int));
        assert(views[i as int] == ids@[i as int]@);
        if ids[i].venue == venue {
            let ghost before = id_views(out@);
            out.push(ids[i].clone());
            assert(id_views(out@) =~= before.push(ids@[i as int]@));
        }
        i += 1;
    }
    assert(views.take(i as int) =~= views);
    out
}

/// What each venue's feed is subscribed to, for the venues that have one.
pub struct Market {
    pub krx: Option<Subscriptions>,
    pub us: Option<Subscriptions>,
    pub upbit: Option<Subscriptions>,
    pub binance: Option<Subscriptions>,
}

/// What is pinned and what is streamed after the pins of one feed are set.
pub open spec fn pins_set(
    before: Option<Subscriptions>,
    after: Option<Subscriptions>,
    pins: Seq<(Venue, Seq<char>)>,
) -> bool {
    match before {
        Some(b) => after matches Some(a) && a.wf() && a.cap == b.cap && a.recent == b.recent && id_views(a.pinned@)
            == pins,
        None => after is None,
    }
}

fn set_pins(subs: &mut Option<Subscriptions>, active: &[InstrumentId], venue: Venue) -> (changed: bool)
    ensures
        pins_set(*old(subs), *final(subs), on_venue(id_views(active@), venue)),
        changed == match *old(subs) {
            Some(b) => id_views((*final(subs))->0.set@) != id_views(b.set@),
            None => false,
        },
{
    match subs.take() {
        Some(s) => {
            let mut s = s;
            let changed = s.pin(of_venue(active, venue));
            *subs = Some(s);
            changed
        },
        None => false,
    }
}

impl Market {
    /// The subscriptions of a venue's feed, if it has one.
    pub open spec fn subs(&self, venue: Venue) -> Option<Subscriptions> {
        match venue {
            Venue::Krx => self.krx,
            Venue::Us => self.us,
            Venue::Upbit => self.upbit,
            Venue::Binance => self.binance,
        }
    }

    /// Every feed streams what was selected for it.
    pub open spec fn wf(&self) -> bool {
        forall|v: Venue| (#[trigger] self.subs(v)) matches Some(s) ==> s.wf()
    }

    pub fn new() -> (r: Market)
        ensures
            r.wf(),
            forall|v: Venue| (#[trigger] r.subs(v)) is None,
    {
        Market { krx: None, us: None, upbit: None, binance: None }
    }

    /// Registers a venue's feed, in place of an earlier one.
    pub fn add_feed(&mut self, venue: Venue, cap: usize)
        requires
            old(self).wf(),
        ensures
            final(self).wf(),
            final(self).subs(venue) matches Some(s) && s.cap == cap && s.pinned@.len() == 0 && s.recent@.len() == 0,
            forall|v: Venue| v != venue ==> (#[trigger] final(self).subs(v)) == old(self).subs(v),
    {
        let s = Some(Subscriptions::new(cap));
        match venue {
            Venue::Krx => {
                self.krx = s;
            },
            Venue::Us => {
                self.us = s;
            },
            Venue::Upbit => {
                self.upbit = s;
            },
            Venue::Binance => {
                self.binance = s;
            },
        }
        assert forall|v: Venue| (#[trigger] self.subs(v)) is Some implies self.subs(v)->0.wf() by {
            if v != venue {
                assert(self.subs(v) == old(self).subs(v));
            }
        }
    }

    fn take_subs(&mut self, venue: Venue) -> (r: Option<Subscriptions>)
        ensures
            r == old(self).subs(venue),
            final(self).subs(venue) is None,
            forall|v: Venue| v != venue ==> (#[trigger] final(self).subs(v)) == old(self).subs(v),
    {
        match venue {
            Venue::Krx => self.krx.take(),
            Venue::Us => self.us.take(),
            Venue::Upbit => self.upbit.take(),
            Venue::Binance => self.binance.take(),
        }
    }

    fn put_subs(&mut self, venue: Venue, s: Subscriptions)
        ensures
            final(self).subs(venue) == Some(s),
            forall|v: Venue| v != venue ==> (#[trigger] final(self).subs(v)) == old(self).subs(v),
    {
        match venue {
            Venue::Krx => {
                self.krx = Some(s);
            },
            Venue::Us => {
                self.us = Some(s);
            },
            Venue::Upbit => {
                self.upbit = Some(s);
            },
            Venue::Binance => {
                self.binance = Some(s);
            },
        }
    }

    /// Keeps an instrument that was asked for subscribed. The answer says whether what its venue's
    /// feed streams has changed; a venue without a feed is an error.
    pub fn touch(&mut self, id: &InstrumentId) -> (r: Result<bool, String>)
        requires
            old(self).wf(),
        ensures
            final(self).wf(),
            forall|v: Venue| v != id.venue ==> (#[trigger] final(self).subs(v)) == old(self).subs(v),
            match old(self).subs(id.venue) {
                Some(b) => final(self).subs(id.venue) matches Some(a) && a.cap == b.cap && id_views(a.pinned@)
                    == id_views(b.pinned@) && id_views(a.recent@) == at_most(
                    seq![id@] + without(id_views(b.recent@), id@),
                    b.cap as int,
                ) && r == Ok::<bool, String>(id_views(a.set@) != id_views(b.set@)),
                None => final(self).subs(id.venue) is None && (r matches Err(m) && m@ == "no feed for venue "@
                    + id.venue.tag_text()),
            },
    {
        match self.take_subs(id.venue) {
            Some(s) => {
                let mut s = s;
                let changed = s.touch(id);
                self.put_subs(id.venue, s);
                assert forall|v: Venue| (#[trigger] self.subs(v)) is Some implies self.subs(v)->0.wf() by {
                    if v != id.venue {
                        assert(self.subs(v) == old(self).subs(v));
                    }
                }
                Ok(changed)
            },
            None => {
                assert forall|v: Venue| (#[trigger] self.subs(v)) is Some implies self.subs(v)->0.wf() by {
                    if v != id.venue {
                        assert(self.subs(v) == old(self).subs(v));
                    }
                }
                let mut m = "no feed for venue ".to_owned();
                m.append(id.venue.tag());
                Err(m)
            },
        }
    }

    /// Pins every instrument with a position or resting order to its venue's subscription set. The
    /// answer lists the venues whose feed has something else to stream now.
    pub fn refresh_pins(&mut self, active: &[InstrumentId]) -> (r: Vec<Venue>)
        requires
            old(self).wf(),
        ensures
            final(self).wf(),
            forall|v: Venue|
                pins_set(old(self).subs(v), #[trigger] final(self).subs(v), on_venue(id_views(active@), v)),
            forall|v: Venue| #[trigger]
                r@.contains(v) == (old(self).subs(v) is Some && id_views(final(self).subs(v)->0.set@) != id_views(
                    old(self).subs(v)->0.set@,
                )),
    {
        let krx = set_pins(&mut self.krx, active, Venue::Krx);
        let us = set_pins(&mut self.us, active, Venue::Us);
        let upbit = set_pins(&mut self.upbit, active, Venue::Upbit);
        let binance = set_pins(&mut self.binance, active, Venue::Binance);
        let mut r: Vec<Venue> = Vec::new();
        push_if(&mut r, krx, Venue::Krx);
        push_if(&mut r, us, Venue::Us);
        push_if(&mut r, upbit, Venue::Upbit);
        push_if(&mut r, binance, Venue::Binance);
        r
    }
}

fn push_if(v: &mut Vec<Venue>, on: bool, venue: Venue)
    ensures
        forall|x: Venue| #[trigger] final(v)@.contains(x) == (old(v)@.contains(x) || (on && x == venue)),
{
    if on {
        let ghost before = v@;
        v.push(venue);
        assert forall|x: Venue| #[trigger] v@.contains(x) == (before.contains(x) || x == venue) by {
            if before.contains(x) {
                let i = choose|i: int| 0 <= i < before.len() && before[i] == x;
                assert(v@[i] == x);
            }
            if v@.contains(x) {
                let i = choose|i: int| 0 <= i < v@.len() && v@[i] == x;
                if i < before.len() {
                    assert(before[i] == x);
                }
            }
            assert(v@[before.len() as int] == venue);
        }
    }
}

} // verus!
