//! Which alerts fire on what happens: a trade, a fill, or a look at the clock.
use crate::alerts::deliver::{Firing, FiringView};
use crate::alerts::{Alert, AlertState, Condition, ConditionView};
use crate::broker::{Fill, FillView};
use crate::decimal::{opt_over, opt_plus, opt_times, padded_digits, zero, Decimal};
use crate::domain::{id_text, InstrumentId, Trade, TradeView, Venue};
use crate::table::Key;
use crate::text::uint_text;
use crate::time::Timestamp;
use vstd::prelude::*;

verus! {

/// An alert that stays on is quiet for this long after it fired: five minutes.
pub const COOLDOWN_NANOS: i128 = 300_000_000_000;

/// Trades are remembered for the longest window an alert may have: 240 minutes.
pub const MEMORY_NANOS: i128 = 14_400_000_000_000;

pub const MINUTE_NANOS: i128 = 60_000_000_000;

/// Alerts as what they hold.
pub open spec fn states(v: Seq<Alert>) -> Seq<AlertState> {
    v.map_values(|a: Alert| a@)
}

/// Trades as what they tell.
pub open spec fn told(v: Seq<Trade>) -> Seq<TradeView> {
    v.map_values(|t: Trade| t@)
}

/// Firings as what they tell.
pub open spec fn firings(v: Seq<Firing>) -> Seq<FiringView> {
    v.map_values(|f: Firing| f@)
}

/// What each alert has to say, if it fires.
pub open spec fn sayings(v: Seq<Option<String>>) -> Seq<Option<Seq<char>>> {
    v.map_values(|s: Option<String>| match s {
        Some(x) => Some(x@),
        None => None::<Seq<char>>,
    })
}

/// Whether an alert is past its cooldown.
pub open spec fn cooled(a: AlertState, now: Timestamp) -> bool {
    match a.last_fired_at {
        Some(t) => now.at() - t.at() >= COOLDOWN_NANOS,
        None => true,
    }
}

fn is_cooled(a: &Alert, now: Timestamp) -> (r: bool)
    ensures
        r == cooled(a@, now),
{
    match a.last_fired_at {
        Some(t) => now.since(t) >= COOLDOWN_NANOS,
        None => true,
    }
}

/// Whether a trade is one of an instrument within the last `minutes`.
pub open spec fn in_window(t: TradeView, id: (Venue, Seq<char>), minutes: u32, now: Timestamp) -> bool {
    t.instrument == id && now.at() - t.at.at() <= minutes * MINUTE_NANOS
}

fn is_in_window(t: &Trade, id: &InstrumentId, minutes: u32, now: Timestamp) -> (r: bool)
    ensures
        r == in_window(t@, id@, minutes, now),
{
    t.instrument.same_key(id) && now.since(t.at) <= minutes as i128 * MINUTE_NANOS
}

/// The price that a window starts with: that of its first trade, from the `i`th on.
pub open spec fn first_price(v: Seq<TradeView>, id: (Venue, Seq<char>), minutes: u32, now: Timestamp, i: int) -> Option<
    Decimal,
>
    decreases v.len() - i,
{
    if i >= v.len() {
        None
    } else if in_window(v[i], id, minutes, now) {
        Some(v[i].price)
    } else {
        first_price(v, id, minutes, now, i + 1)
    }
}

fn window_start(v: &Vec<Trade>, id: &InstrumentId, minutes: u32, now: Timestamp) -> (r: Option<Decimal>)
    ensures
        r == first_price(told(v@), id@, minutes, now, 0),
{
    let mut i: usize = 0;
    while i < v.len()
        invariant
            i <= v@.len(),
            first_price(told(v@), id@, minutes, now, 0) == first_price(told(v@), id@, minutes, now, i as int),
        decreases v@.len() - i,
    {
        assert(told(v@)[i as int] == v@[i as int]@);
        if is_in_window(&v[i], id, minutes, now) {
            return Some(v[i].price);
        }
        i += 1;
    }
    None
}

/// The value that was traded in a window, by its first `n` trades; `None` where a decimal cannot
/// hold it.
pub open spec fn traded(v: Seq<TradeView>, id: (Venue, Seq<char>), minutes: u32, now: Timestamp, n: int) -> Option<
    Decimal,
>
    decreases n,
{
    if n <= 0 {
        Some(zero())
    } else if in_window(v[n - 1], id, minutes, now) {
        opt_plus(traded(v, id, minutes, now, n - 1), v[n - 1].price.times(v[n - 1].qty))
    } else {
        traded(v, id, minutes, now, n - 1)
    }
}

proof fn lemma_traded_none(v: Seq<TradeView>, id: (Venue, Seq<char>), minutes: u32, now: Timestamp, i: int, n: int)
    requires
        0 <= i <= n,
        traded(v, id, minutes, now, i) is None,
    ensures
        traded(v, id, minutes, now, n) is None,
    decreases n - i,
{
    if i < n {
        lemma_traded_none(v, id, minutes, now, i, n - 1);
    }
}

fn window_value(v: &Vec<Trade>, id: &InstrumentId, minutes: u32, now: Timestamp) -> (r: Option<Decimal>)
    ensures
        r == traded(told(v@), id@, minutes, now, v@.len() as int),
{
    let mut sum = Decimal::zero();
    let mut i: usize = 0;
    while i < v.len()
        invariant
            i <= v@.len(),
            traded(told(v@), id@, minutes, now, i as int) == Some(sum),
        decreases v@.len() - i,
    {
        assert(told(v@)[i as int] == v@[i as int]@);
        if is_in_window(&v[i], id, minutes, now) {
            let next = match v[i].price.checked_mul(v[i].qty) {
                Some(x) => sum.checked_add(x),
                None => None,
            };
            match next {
                Some(s) => {
                    sum = s;
                },
                None => {
                    proof {
                        lemma_traded_none(told(v@), id@, minutes, now, i + 1, v@.len() as int);
                    }
                    return None;
                },
            }
        }
        i += 1;
    }
    Some(sum)
}

/// By how many percent a price is away from another.
pub open spec fn percent_away(price: Decimal, from: Decimal) -> Option<Decimal> {
    opt_times(opt_over(price.minus(from), Some(from)), Some(crate::decimal::dec(100, 0)))
}

fn away(price: Decimal, from: Decimal) -> (r: Option<Decimal>)
    ensures
        r == percent_away(price, from),
{
    match price.checked_sub(from) {
        Some(d) => match d.checked_div(from) {
            Some(q) => q.checked_mul(Decimal::new(100, 0)),
            None => None,
        },
        None => None,
    }
}

/// The value that an average day trades in so many minutes, times a factor.
pub open spec fn pace(adv: Decimal, factor: Decimal, minutes: u32) -> Option<Decimal> {
    opt_times(
        opt_over(opt_times(Some(adv), Some(crate::decimal::dec(minutes as int, 0))), Some(crate::decimal::dec(1440, 0))),
        Some(factor),
    )
}

fn usual(adv: Decimal, factor: Decimal, minutes: u32) -> (r: Option<Decimal>)
    ensures
        r == pace(adv, factor, minutes),
{
    match adv.checked_mul(Decimal::new(minutes as i64, 0)) {
        Some(x) => match x.checked_div(Decimal::new(1440, 0)) {
            Some(q) => q.checked_mul(factor),
            None => None,
        },
        None => None,
    }
}

/// What a condition says of a trade: `recent` are the trades up to it, itself the last, and `adv`
/// the value that its instrument trades on an average day.
pub open spec fn trade_said(
    c: ConditionView,
    t: TradeView,
    recent: Seq<TradeView>,
    adv: Option<Decimal>,
    now: Timestamp,
) -> Option<Seq<char>> {
    match c {
        ConditionView::PriceAbove { id, price } => if id == t.instrument && price.value() <= t.price.value() {
            Some(id_text(id) + " traded at "@ + t.price.text() + ", at or above "@ + price.text())
        } else {
            None
        },
        ConditionView::PriceBelow { id, price } => if id == t.instrument && t.price.value() <= price.value() {
            Some(id_text(id) + " traded at "@ + t.price.text() + ", at or below "@ + price.text())
        } else {
            None
        },
        ConditionView::Move { id, pct, window_minutes } => if id == t.instrument {
            match first_price(recent, id, window_minutes, now, 0) {
                Some(from) => match percent_away(t.price, from) {
                    Some(p) => if pct.value() <= p.magnitude().value() {
                        Some(
                            id_text(id) + " moved "@ + p.rounded(2).text() + "% in "@ + padded_digits(
                                window_minutes as nat,
                                1,
                            ) + " minutes, to "@ + t.price.text(),
                        )
                    } else {
                        None
                    },
                    None => None,
                },
                None => None,
            }
        } else {
            None
        },
        ConditionView::VolumeSurge { id, factor, window_minutes } => if id == t.instrument {
            match (adv, traded(recent, id, window_minutes, now, recent.len() as int)) {
                (Some(day), Some(sum)) => match pace(day, factor, window_minutes) {
                    Some(least) => if least.value() > 0 && least.value() <= sum.value() {
                        Some(
                            id_text(id) + " traded "@ + sum.rounded(2).text() + " in "@ + padded_digits(
                                window_minutes as nat,
                                1,
                            ) + " minutes, at least "@ + factor.text() + " times its average pace"@,
                        )
                    } else {
                        None
                    },
                    None => None,
                },
                _ => None,
            }
        } else {
            None
        },
        _ => None,
    }
}

fn say_level(id: &InstrumentId, price: Decimal, how: &str, level: Decimal) -> (s: String)
    ensures
        s@ == id_text(id@) + " traded at "@ + price.text() + how@ + level.text(),
{
    let mut s = id.to_text();
    s.append(" traded at ");
    s.append(price.to_text().as_str());
    s.append(how);
    s.append(level.to_text().as_str());
    s
}

fn say_on_trade(c: &Condition, t: &Trade, recent: &Vec<Trade>, adv: Option<Decimal>, now: Timestamp) -> (r: Option<String>)
    ensures
        match trade_said(c@, t@, told(recent@), adv, now) {
            Some(s) => r matches Some(x) && x@ == s,
            None => r is None,
        },
{
    match c {
        Condition::PriceAbove { id, price } => {
            if id.same_key(&t.instrument) && price.le(t.price) {
                Some(say_level(id, t.price, ", at or above ", *price))
            } else {
                None
            }
        },
        Condition::PriceBelow { id, price } => {
            if id.same_key(&t.instrument) && t.price.le(*price) {
                Some(say_level(id, t.price, ", at or below ", *price))
            } else {
                None
            }
        },
        Condition::Move { id, pct, window_minutes } => {
            if !id.same_key(&t.instrument) {
                return None;
            }
            let from = match window_start(recent, id, *window_minutes, now) {
                Some(p) => p,
                None => {
                    return None;
                },
            };
            let p = match away(t.price, from) {
                Some(p) => p,
                None => {
                    return None;
                },
            };
            if !pct.le(p.abs()) {
                return None;
            }
            let mut s = id.to_text();
            s.append(" moved ");
            s.append(p.round_dp(2).to_text().as_str());
            s.append("% in ");
            s.append(uint_text(*window_minutes as u64).as_str());
            s.append(" minutes, to ");
            s.append(t.price.to_text().as_str());
            Some(s)
        },
        Condition::VolumeSurge { id, factor, window_minutes } => {
            if !id.same_key(&t.instrument) {
                return None;
            }
            match (adv, window_value(recent, id, *window_minutes, now)) {
                (Some(day), Some(sum)) => match usual(day, *factor, *window_minutes) {
                    Some(least) => {
                        if !least.is_positive() || !least.le(sum) {
                            return None;
                        }
                        let mut s = id.to_text();
                        s.append(" traded ");
                        s.append(sum.round_dp(2).to_text().as_str());
                        s.append(" in ");
                        s.append(uint_text(*window_minutes as u64).as_str());
                        s.append(" minutes, at least ");
                        s.append(factor.to_text().as_str());
                        s.append(" times its average pace");
                        Some(s)
                    },
                    None => None,
                },
                _ => None,
            }
        },
        _ => None,
    }
}

/// What a condition says of a fill of its account.
pub open spec fn fill_said(c: ConditionView, f: FillView) -> Option<Seq<char>> {
    match c {
        ConditionView::OrderFilled { id } => if id is None || id == Some(f.instrument) {
            Some(
                "order "@ + padded_digits(f.order_id as nat, 1) + " filled: "@ + f.side.code_text() + " "@ + f.qty.text()
                    + " "@ + id_text(f.instrument) + " at "@ + f.price.text(),
            )
        } else {
            None
        },
        _ => None,
    }
}

fn say_on_fill(c: &Condition, f: &Fill) -> (r: Option<String>)
    ensures
        match fill_said(c@, f@) {
            Some(s) => r matches Some(x) && x@ == s,
            None => r is None,
        },
{
    match c {
        Condition::OrderFilled { id } => {
            let about = match id {
                Some(i) => i.same_key(&f.instrument),
                None => true,
            };
            if !about {
                return None;
            }
            let mut s = "order ".to_owned();
            s.append(uint_text(f.order_id).as_str());
            s.append(" filled: ");
            s.append(f.side.code());
            s.append(" ");
            s.append(f.qty.to_text().as_str());
            s.append(" ");
            s.append(f.instrument.to_text().as_str());
            s.append(" at ");
            s.append(f.price.to_text().as_str());
            Some(s)
        },
        _ => None,
    }
}

/// Whether a venue that was seen open or shut before has just opened.
pub open spec fn opened(was: Option<bool>, open: bool) -> bool {
    was == Some(false) && open
}

/// Whether a venue that was seen open or shut before has just shut.
pub open spec fn shut(was: Option<bool>, open: bool) -> bool {
    was == Some(true) && !open
}

/// What a condition says of a venue that was looked at.
pub open spec fn session_said(c: ConditionView, venue: Venue, was: Option<bool>, open: bool) -> Option<Seq<char>> {
    match c {
        ConditionView::SessionOpen { venue: v } => if v == venue && opened(was, open) {
            Some(venue.tag_text() + " session opened"@)
        } else {
            None
        },
        ConditionView::SessionClose { venue: v } => if v == venue && shut(was, open) {
            Some(venue.tag_text() + " session closed"@)
        } else {
            None
        },
        _ => None,
    }
}

fn say_on_look(c: &Condition, venue: Venue, was: Option<bool>, open: bool) -> (r: Option<String>)
    ensures
        match session_said(c@, venue, was, open) {
            Some(s) => r matches Some(x) && x@ == s,
            None => r is None,
        },
{
    let edge = match was {
        Some(b) => b != open,
        None => false,
    };
    match c {
        Condition::SessionOpen { venue: v } => {
            if *v == venue && edge && open {
                let mut s = venue.tag().to_owned();
                s.append(" session opened");
                Some(s)
            } else {
                None
            }
        },
        Condition::SessionClose { venue: v } => {
            if *v == venue && edge && !open {
                let mut s = venue.tag().to_owned();
                s.append(" session closed");
                Some(s)
            } else {
                None
            }
        },
        _ => None,
    }
}

/// What fires of the alerts from the `i`th on.
pub open spec fn fired_from(alerts: Seq<AlertState>, said: Seq<Option<Seq<char>>>, i: int) -> Seq<FiringView>
    decreases alerts.len() - i,
{
    if i >= alerts.len() {
        Seq::empty()
    } else {
        let rest = fired_from(alerts, said, i + 1);
        match said[i] {
            Some(text) => seq![
                FiringView {
                    alert_id: alerts[i].id,
                    account: alerts[i].account,
                    text,
                    deactivate: alerts[i].once,
                    note: alerts[i].note,
                },
            ] + rest,
            None => rest,
        }
    }
}

/// What stays on of the alerts from the `i`th on: a one-shot that fires goes, another remembers when
/// it fired.
pub open spec fn kept_from(alerts: Seq<AlertState>, said: Seq<Option<Seq<char>>>, now: Timestamp, i: int) -> Seq<
    AlertState,
>
    decreases alerts.len() - i,
{
    if i >= alerts.len() {
        Seq::empty()
    } else {
        let rest = kept_from(alerts, said, now, i + 1);
        match said[i] {
            Some(_) => if alerts[i].once {
                rest
            } else {
                seq![(AlertState { last_fired_at: Some(now), ..alerts[i] })] + rest
            },
            None => seq![alerts[i]] + rest,
        }
    }
}

/// An alert that fires only once is off after it fired.
pub proof fn law_one_shots_fire_once(alerts: Seq<AlertState>, said: Seq<Option<Seq<char>>>, now: Timestamp, k: int)
    requires
        0 <= k < alerts.len(),
        said.len() == alerts.len(),
        said[k] is Some,
        alerts[k].once,
        forall|i: int, j: int| 0 <= i < j < alerts.len() ==> #[trigger] alerts[i].id != #[trigger] alerts[j].id,
    ensures
        forall|m: int|
            0 <= m < kept_from(alerts, said, now, 0).len() ==> (#[trigger] kept_from(alerts, said, now, 0)[m]).id
                != alerts[k].id,
{
    lemma_kept_others(alerts, said, now, k, 0);
}

proof fn lemma_kept_others(alerts: Seq<AlertState>, said: Seq<Option<Seq<char>>>, now: Timestamp, k: int, i: int)
    requires
        0 <= k < alerts.len(),
        0 <= i <= alerts.len(),
        said[k] is Some,
        alerts[k].once,
        forall|i: int, j: int| 0 <= i < j < alerts.len() ==> #[trigger] alerts[i].id != #[trigger] alerts[j].id,
    ensures
        forall|m: int|
            0 <= m < kept_from(alerts, said, now, i).len() ==> (#[trigger] kept_from(alerts, said, now, i)[m]).id
                != alerts[k].id,
    decreases alerts.len() - i,
{
    if i < alerts.len() {
        lemma_kept_others(alerts, said, now, k, i + 1);
        let rest = kept_from(alerts, said, now, i + 1);
        let kept = kept_from(alerts, said, now, i);
        if i != k {
            assert(alerts[i].id != alerts[k].id);
        }
        assert forall|m: int| 0 <= m < kept.len() implies (#[trigger] kept[m]).id != alerts[k].id by {
            if kept != rest && m > 0 {
                assert(kept[m] == rest[m - 1]);
            }
        }
    }
}

/// The alerts that are on, and what they have to remember.
pub struct Watcher {
    pub alerts: Vec<Alert>,
    /// Trades of the last hours that an alert with a window asks about, oldest first.
    pub recent: Vec<Trade>,
    pub krx_open: Option<bool>,
    pub us_open: Option<bool>,
}

/// Whether an alert looks at the trades of an instrument over a window.
pub open spec fn asks_about(c: ConditionView, id: (Venue, Seq<char>)) -> bool {
    match c {
        ConditionView::Move { id: i, .. } => i == id,
        ConditionView::VolumeSurge { id: i, .. } => i == id,
        _ => false,
    }
}

/// Whether some alert looks at the trades of an instrument over a window.
pub open spec fn windowed(alerts: Seq<AlertState>, id: (Venue, Seq<char>)) -> bool {
    exists|i: int| 0 <= i < alerts.len() && #[trigger] asks_about(alerts[i].condition, id)
}

/// The trades that are still remembered, from the `i`th on.
pub open spec fn remembered(v: Seq<TradeView>, now: Timestamp, i: int) -> Seq<TradeView>
    decreases v.len() - i,
{
    if i >= v.len() {
        Seq::empty()
    } else if now.at() - v[i].at.at() <= MEMORY_NANOS {
        seq![v[i]] + remembered(v, now, i + 1)
    } else {
        remembered(v, now, i + 1)
    }
}

/// The trades after one more.
pub open spec fn with_trade(recent: Seq<TradeView>, alerts: Seq<AlertState>, t: TradeView, now: Timestamp) -> Seq<
    TradeView,
> {
    let kept = remembered(recent, now, 0);
    if windowed(alerts, t.instrument) {
        kept.push(t)
    } else {
        kept
    }
}

/// What each alert says of a trade.
pub open spec fn trade_sayings(
    alerts: Seq<AlertState>,
    t: TradeView,
    recent: Seq<TradeView>,
    adv: Option<Decimal>,
    now: Timestamp,
) -> Seq<Option<Seq<char>>> {
    alerts.map_values(
        |a: AlertState|
            if cooled(a, now) {
                trade_said(a.condition, t, recent, adv, now)
            } else {
                None
            },
    )
}

/// What each alert says of a fill.
pub open spec fn fill_sayings(alerts: Seq<AlertState>, f: FillView, now: Timestamp) -> Seq<Option<Seq<char>>> {
    alerts.map_values(
        |a: AlertState|
            if a.account == f.account && cooled(a, now) {
                fill_said(a.condition, f)
            } else {
                None
            },
    )
}

/// What each alert says of a venue that was looked at.
pub open spec fn session_sayings(
    alerts: Seq<AlertState>,
    venue: Venue,
    was: Option<bool>,
    open: bool,
    now: Timestamp,
) -> Seq<Option<Seq<char>>> {
    alerts.map_values(
        |a: AlertState|
            if cooled(a, now) {
                session_said(a.condition, venue, was, open)
            } else {
                None
            },
    )
}

/// The alerts of those from the `i`th on that have another id.
pub open spec fn others_from(alerts: Seq<AlertState>, id: i64, i: int) -> Seq<AlertState>
    decreases alerts.len() - i,
{
    if i >= alerts.len() {
        Seq::empty()
    } else if alerts[i].id == id {
        others_from(alerts, id, i + 1)
    } else {
        seq![alerts[i]] + others_from(alerts, id, i + 1)
    }
}

impl Watcher {
    pub fn new() -> (w: Watcher)
        ensures
            w.alerts@.len() == 0,
            w.recent@.len() == 0,
            w.krx_open is None,
            w.us_open is None,
    {
        Watcher { alerts: Vec::new(), recent: Vec::new(), krx_open: None, us_open: None }
    }

    /// Lets what fires out, and keeps what stays on.
    fn settle(&mut self, said: Vec<Option<String>>, now: Timestamp) -> (out: Vec<Firing>)
        requires
            old(self).alerts@.len() == said@.len(),
        ensures
            firings(out@) == fired_from(states(old(self).alerts@), sayings(said@), 0),
            states(final(self).alerts@) == kept_from(states(old(self).alerts@), sayings(said@), now, 0),
            final(self).recent == old(self).recent,
            final(self).krx_open == old(self).krx_open,
            final(self).us_open == old(self).us_open,
    {
        let ghost all = states(self.alerts@);
        let ghost texts = sayings(said@);
        let mut said = said;
        let mut out: Vec<Firing> = Vec::new();
        let mut kept: Vec<Alert> = Vec::new();
        assert(firings(out@) =~= fired_from(all, texts, all.len() as int));
        assert(states(kept@) =~= kept_from(all, texts, now, all.len() as int));
        assert(states(self.alerts@) =~= all.take(all.len() as int));
        assert(sayings(said@) =~= texts.take(all.len() as int));
        while self.alerts.len() > 0
            invariant
                self.alerts@.len() == said@.len(),
                self.alerts@.len() <= all.len(),
                texts.len() == all.len(),
                states(self.alerts@) == all.take(self.alerts@.len() as int),
                sayings(said@) == texts.take(self.alerts@.len() as int),
                firings(out@) == fired_from(all, texts, self.alerts@.len() as int),
                states(kept@) == kept_from(all, texts, now, self.alerts@.len() as int),
                self.recent == old(self).recent,
                self.krx_open == old(self).krx_open,
                self.us_open == old(self).us_open,
            decreases self.alerts@.len(),
        {
            let ghost n = self.alerts@.len() as int;
            let ghost alerts_before = self.alerts@;
            let ghost said_before = said@;
            let ghost out_before = firings(out@);
            let ghost kept_before = states(kept@);
            let next = self.alerts.pop();
            let text = said.pop();
            if let (Some(a), Some(text)) = (next, text) {
                proof {
                    assert(states(alerts_before)[n - 1] == a@);
                    assert(a@ == all[n - 1]);
                    assert(sayings(said_before)[n - 1] == texts[n - 1]);
                    assert(states(self.alerts@) =~= all.take(n - 1));
                    assert(sayings(said@) =~= texts.take(n - 1));
                }
                match text {
                    Some(text) => {
                        let f = Firing {
                            alert_id: a.id,
                            account: a.account.clone(),
                            text,
                            deactivate: a.once,
                            note: a.note.clone(),
                        };
                        let ghost fv = f@;
                        out.insert(0, f);
                        assert(firings(out@) =~= seq![fv] + out_before);
                        if !a.once {
                            let mut a = a;
                            a.last_fired_at = Some(now);
                            let ghost av = a@;
                            kept.insert(0, a);
                            assert(states(kept@) =~= seq![av] + kept_before);
                        }
                    },
                    None => {
                        let ghost av = a@;
                        kept.insert(0, a);
                        assert(states(kept@) =~= seq![av] + kept_before);
                    },
                }
            }
        }
        self.alerts = kept;
        out
    }

    /// Forgets trades that are too old, and remembers one more where an alert asks about it.
    fn remember(&mut self, t: &Trade, now: Timestamp)
        ensures
            told(final(self).recent@) == with_trade(told(old(self).recent@), states(old(self).alerts@), t@, now),
            final(self).alerts == old(self).alerts,
            final(self).krx_open == old(self).krx_open,
            final(self).us_open == old(self).us_open,
    {
        let ghost all = told(self.recent@);
        let mut kept: Vec<Trade> = Vec::new();
        assert(told(kept@) =~= remembered(all, now, all.len() as int));
        assert(told(self.recent@) =~= all.take(all.len() as int));
        while self.recent.len() > 0
            invariant
                self.recent@.len() <= all.len(),
                told(self.recent@) == all.take(self.recent@.len() as int),
                told(kept@) == remembered(all, now, self.recent@.len() as int),
                self.alerts == old(self).alerts,
                self.krx_open == old(self).krx_open,
                self.us_open == old(self).us_open,
            decreases self.recent@.len(),
        {
            let ghost n = self.recent@.len() as int;
            let ghost before = self.recent@;
            let ghost kept_before = told(kept@);
            if let Some(x) = self.recent.pop() {
                let ghost xv = x@;
                assert(told(before)[n - 1] == xv && xv == all[n - 1]);
                assert(told(self.recent@) =~= all.take(n - 1));
                if now.since(x.at) <= MEMORY_NANOS {
                    kept.insert(0, x);
                    assert(told(kept@) =~= seq![xv] + kept_before);
                }
            }
        }
        let mut asked = false;
        let mut i: usize = 0;
        while i < self.alerts.len()
            invariant
                i <= self.alerts@.len(),
                asked == exists|j: int| 0 <= j < i && #[trigger] asks_about(states(self.alerts@)[j].condition, t@.instrument),
            decreases self.alerts@.len() - i,
        {
            assert(states(self.alerts@)[i as int] == self.alerts@[i as int]@);
            let hit = match &self.alerts[i].condition {
                Condition::Move { id, .. } => id.same_key(&t.instrument),
                Condition::VolumeSurge { id, .. } => id.same_key(&t.instrument),
                _ => false,
            };
            assert(hit == asks_about(states(self.alerts@)[i as int].condition, t@.instrument));
            asked = asked || hit;
            i += 1;
        }
        if asked {
            let ghost kept_before = told(kept@);
            let one = Trade { instrument: t.instrument.clone(), price: t.price, qty: t.qty, at: t.at };
            assert(one@ == t@);
            kept.push(one);
            assert(told(kept@) =~= kept_before.push(t@));
        }
        self.recent = kept;
    }

    /// What fires on a trade; `adv` is the value that its instrument trades on an average day.
    pub fn on_trade(&mut self, t: &Trade, adv: Option<Decimal>, now: Timestamp) -> (out: Vec<Firing>)
        ensures
            ({
                let alerts = states(old(self).alerts@);
                let recent = with_trade(told(old(self).recent@), alerts, t@, now);
                let said = trade_sayings(alerts, t@, recent, adv, now);
                &&& firings(out@) == fired_from(alerts, said, 0)
                &&& states(final(self).alerts@) == kept_from(alerts, said, now, 0)
                &&& told(final(self).recent@) == recent
            }),
            final(self).krx_open == old(self).krx_open,
            final(self).us_open == old(self).us_open,
    {
        self.remember(t, now);
        let ghost want = trade_sayings(states(self.alerts@), t@, told(self.recent@), adv, now);
        let mut said: Vec<Option<String>> = Vec::new();
        let mut i: usize = 0;
        while i < self.alerts.len()
            invariant
                i <= self.alerts@.len(),
                said@.len() == i,
                want == trade_sayings(states(self.alerts@), t@, told(self.recent@), adv, now),
                sayings(said@) == want.take(i as int),
            decreases self.alerts@.len() - i,
        {
            let ghost before = said@;
            assert(states(self.alerts@)[i as int] == self.alerts@[i as int]@);
            let s = if is_cooled(&self.alerts[i], now) {
                say_on_trade(&self.alerts[i].condition, t, &self.recent, adv, now)
            } else {
                None
            };
            said.push(s);
            assert(sayings(said@) =~= want.take(i + 1)) by {
                assert(sayings(before) == want.take(i as int));
                assert(forall|j: int| 0 <= j < i ==> sayings(said@)[j] == #[trigger] sayings(before)[j]);
                assert(sayings(said@)[i as int] == want[i as int]);
            }
            i += 1;
        }
        assert(want.take(i as int) =~= want);
        self.settle(said, now)
    }

    /// What fires on a fill.
    pub fn on_fill(&mut self, f: &Fill, now: Timestamp) -> (out: Vec<Firing>)
        ensures
            ({
                let alerts = states(old(self).alerts@);
                let said = fill_sayings(alerts, f@, now);
                &&& firings(out@) == fired_from(alerts, said, 0)
                &&& states(final(self).alerts@) == kept_from(alerts, said, now, 0)
            }),
            final(self).recent == old(self).recent,
            final(self).krx_open == old(self).krx_open,
            final(self).us_open == old(self).us_open,
    {
        let ghost want = fill_sayings(states(self.alerts@), f@, now);
        let mut said: Vec<Option<String>> = Vec::new();
        let mut i: usize = 0;
        while i < self.alerts.len()
            invariant
                i <= self.alerts@.len(),
                said@.len() == i,
                want == fill_sayings(states(self.alerts@), f@, now),
                sayings(said@) == want.take(i as int),
            decreases self.alerts@.len() - i,
        {
            let ghost before = said@;
            assert(states(self.alerts@)[i as int] == self.alerts@[i as int]@);
            let s = if self.alerts[i].account.same_key(&f.account) && is_cooled(&self.alerts[i], now) {
                say_on_fill(&self.alerts[i].condition, f)
            } else {
                None
            };
            said.push(s);
            assert(sayings(said@) =~= want.take(i + 1)) by {
                assert(sayings(before) == want.take(i as int));
                assert(forall|j: int| 0 <= j < i ==> sayings(said@)[j] == #[trigger] sayings(before)[j]);
                assert(sayings(said@)[i as int] == want[i as int]);
            }
            i += 1;
        }
        assert(want.take(i as int) =~= want);
        self.settle(said, now)
    }

    /// What fires once a venue was seen open or shut.
    fn look(&mut self, venue: Venue, was: Option<bool>, open: bool, now: Timestamp) -> (out: Vec<Firing>)
        ensures
            ({
                let alerts = states(old(self).alerts@);
                let said = session_sayings(alerts, venue, was, open, now);
                &&& firings(out@) == fired_from(alerts, said, 0)
                &&& states(final(self).alerts@) == kept_from(alerts, said, now, 0)
            }),
            final(self).recent == old(self).recent,
            final(self).krx_open == old(self).krx_open,
            final(self).us_open == old(self).us_open,
    {
        let ghost want = session_sayings(states(self.alerts@), venue, was, open, now);
        let mut said: Vec<Option<String>> = Vec::new();
        let mut i: usize = 0;
        while i < self.alerts.len()
            invariant
                i <= self.alerts@.len(),
                said@.len() == i,
                want == session_sayings(states(self.alerts@), venue, was, open, now),
                sayings(said@) == want.take(i as int),
            decreases self.alerts@.len() - i,
        {
            let ghost before = said@;
            assert(states(self.alerts@)[i as int] == self.alerts@[i as int]@);
            let s = if is_cooled(&self.alerts[i], now) {
                say_on_look(&self.alerts[i].condition, venue, was, open)
            } else {
                None
            };
            said.push(s);
            assert(sayings(said@) =~= want.take(i + 1)) by {
                assert(sayings(before) == want.take(i as int));
                assert(forall|j: int| 0 <= j < i ==> sayings(said@)[j] == #[trigger] sayings(before)[j]);
                assert(sayings(said@)[i as int] == want[i as int]);
            }
            i += 1;
        }
        assert(want.take(i as int) =~= want);
        self.settle(said, now)
    }

    /// What fires on a look at the clock: a session that opened or closed since the last look. The
    /// first look only learns how things stand.
    pub fn on_tick(&mut self, krx_open: bool, us_open: bool, now: Timestamp) -> (out: Vec<Firing>)
        ensures
            ({
                let alerts = states(old(self).alerts@);
                let krx = session_sayings(alerts, Venue::Krx, old(self).krx_open, krx_open, now);
                let between = kept_from(alerts, krx, now, 0);
                let us = session_sayings(between, Venue::Us, old(self).us_open, us_open, now);
                &&& firings(out@) == fired_from(alerts, krx, 0) + fired_from(between, us, 0)
                &&& states(final(self).alerts@) == kept_from(between, us, now, 0)
            }),
            final(self).krx_open == Some(krx_open),
            final(self).us_open == Some(us_open),
            final(self).recent == old(self).recent,
    {
        let (was_krx, was_us) = (self.krx_open, self.us_open);
        self.krx_open = Some(krx_open);
        self.us_open = Some(us_open);
        let mut out = self.look(Venue::Krx, was_krx, krx_open, now);
        let mut more = self.look(Venue::Us, was_us, us_open, now);
        let ghost first = out@;
        let ghost second = more@;
        out.append(&mut more);
        assert(firings(out@) =~= firings(first) + firings(second));
        out
    }

    /// Turns an alert off.
    pub fn remove(&mut self, id: i64)
        ensures
            states(final(self).alerts@) == others_from(states(old(self).alerts@), id, 0),
            final(self).recent == old(self).recent,
            final(self).krx_open == old(self).krx_open,
            final(self).us_open == old(self).us_open,
    {
        let ghost all = states(self.alerts@);
        let mut kept: Vec<Alert> = Vec::new();
        assert(states(kept@) =~= others_from(all, id, all.len() as int));
        assert(states(self.alerts@) =~= all.take(all.len() as int));
        while self.alerts.len() > 0
            invariant
                self.alerts@.len() <= all.len(),
                states(self.alerts@) == all.take(self.alerts@.len() as int),
                states(kept@) == others_from(all, id, self.alerts@.len() as int),
                self.recent == old(self).recent,
                self.krx_open == old(self).krx_open,
                self.us_open == old(self).us_open,
            decreases self.alerts@.len(),
        {
            let ghost n = self.alerts@.len() as int;
            let ghost before = self.alerts@;
            let ghost kept_before = states(kept@);
            if let Some(a) = self.alerts.pop() {
                let ghost av = a@;
                assert(states(before)[n - 1] == av && av == all[n - 1]);
                assert(states(self.alerts@) =~= all.take(n - 1));
                if a.id != id {
                    kept.insert(0, a);
                    assert(states(kept@) =~= seq![av] + kept_before);
                }
            }
        }
        self.alerts = kept;
    }

    /// Turns an alert on, in place of an earlier one with its id.
    pub fn upsert(&mut self, a: Alert)
        ensures
            states(final(self).alerts@) == others_from(states(old(self).alerts@), a.id, 0).push(a@),
            final(self).recent == old(self).recent,
            final(self).krx_open == old(self).krx_open,
            final(self).us_open == old(self).us_open,
    {
        let ghost av = a@;
        self.remove(a.id);
        let ghost before = states(self.alerts@);
        self.alerts.push(a);
        assert(states(self.alerts@) =~= before.push(av));
    }

    /// The instruments that alerts are about, to be kept subscribed; one per alert that has one.
    pub fn instruments(&self) -> (r: Vec<InstrumentId>)
        ensures
            r@.map_values(|i: InstrumentId| i@) == subjects(states(self.alerts@), self.alerts@.len() as int),
    {
        let mut out: Vec<InstrumentId> = Vec::new();
        let mut i: usize = 0;
        assert(out@.map_values(|i: InstrumentId| i@) =~= subjects(states(self.alerts@), 0));
        while i < self.alerts.len()
            invariant
                i <= self.alerts@.len(),
                out@.map_values(|i: InstrumentId| i@) == subjects(states(self.alerts@), i as int),
            decreases self.alerts@.len() - i,
        {
            assert(states(self.alerts@)[i as int] == self.alerts@[i as int]@);
            if let Some(id) = self.alerts[i].condition.instrument() {
                let ghost before = out@.map_values(|i: InstrumentId| i@);
                out.push(id.clone());
                assert(out@.map_values(|i: InstrumentId| i@) =~= before.push(id@));
            }
            i += 1;
        }
        out
    }
}

/// The instruments that the first `n` alerts are about.
pub open spec fn subjects(alerts: Seq<AlertState>, n: int) -> Seq<(Venue, Seq<char>)>
    decreases n,
{
    if n <= 0 {
        Seq::empty()
    } else {
        match alerts[n - 1].condition.about() {
            Some(id) => subjects(alerts, n - 1).push(id),
            None => subjects(alerts, n - 1),
        }
    }
}

/// An alert that has just fired stays quiet until its cooldown is over: no trade, no fill and no
/// session that opens or closes before makes it fire.
pub proof fn law_alerts_cool_down(
    alerts: Seq<AlertState>,
    k: int,
    fired: Timestamp,
    now: Timestamp,
    t: TradeView,
    recent: Seq<TradeView>,
    adv: Option<Decimal>,
    f: FillView,
    venue: Venue,
    was: Option<bool>,
    open: bool,
)
    requires
        0 <= k < alerts.len(),
        alerts[k].last_fired_at == Some(fired),
        now.at() - fired.at() < COOLDOWN_NANOS,
    ensures
        trade_sayings(alerts, t, recent, adv, now)[k] is None,
        fill_sayings(alerts, f, now)[k] is None,
        session_sayings(alerts, venue, was, open, now)[k] is None,
{
}

} // verus!
