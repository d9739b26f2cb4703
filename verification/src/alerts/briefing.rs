//! Scheduled market briefings: without them the agent only acts when someone talks to it. At each
//! KRX and US session open and close, and every few hours in between, the account's alert
//! conversation gets the account, its positions and the session's movers.
use crate::alerts::deliver::{cash_texts, list_cash};
use crate::decimal::Decimal;
use crate::domain::{Currency, Venue};
use crate::table::{Stored, Table};
use crate::text::{join_texts, joined, lex_less, same_text, text_before, texts};
use crate::time::Timestamp;
use vstd::prelude::*;

verus! {

#[derive(Debug, Clone, Copy, PartialEq, Eq, Structural)]
pub enum Cadence {
    Off,
    /// Session open and close only.
    Edges,
    /// Open, close, and every this many hours in between.
    Hours(i64),
}

impl Cadence {
    /// The cadence with a given name.
    pub open spec fn named(s: Seq<char>) -> Option<Cadence> {
        if s == "off"@ {
            Some(Cadence::Off)
        } else if s == "edges"@ {
            Some(Cadence::Edges)
        } else if s == "1h"@ {
            Some(Cadence::Hours(1))
        } else if s == "2h"@ {
            Some(Cadence::Hours(2))
        } else if s == "4h"@ {
            Some(Cadence::Hours(4))
        } else {
            None
        }
    }

    pub fn parse(s: &str) -> (r: Option<Cadence>)
        ensures
            r == Cadence::named(s@),
    {
        if same_text(s, "off") {
            Some(Cadence::Off)
        } else if same_text(s, "edges") {
            Some(Cadence::Edges)
        } else if same_text(s, "1h") {
            Some(Cadence::Hours(1))
        } else if same_text(s, "2h") {
            Some(Cadence::Hours(2))
        } else if same_text(s, "4h") {
            Some(Cadence::Hours(4))
        } else {
            None
        }
    }
}

#[derive(Debug, Clone, Copy, PartialEq, Eq, Structural)]
pub enum Moment {
    Opened(Venue),
    Closed(Venue),
    During(Venue),
}

impl Stored for Timestamp {
    open spec fn sound(&self) -> bool {
        true
    }
}

/// What is known of a venue's session: whether it was open at the last look, and when each account
/// was last briefed in it.
pub ghost struct WatchView {
    pub open: Option<bool>,
    pub last: Map<Seq<char>, Timestamp>,
}

pub struct Watch {
    pub open: Option<bool>,
    pub last: Table<String, Timestamp>,
}

impl View for Watch {
    type V = WatchView;

    open spec fn view(&self) -> WatchView {
        WatchView { open: self.open, last: self.last@ }
    }
}

/// How many nanoseconds some hours have.
pub open spec fn hours(h: i64) -> int {
    h * 3_600_000_000_000
}

/// What is due for an account at a look, and the briefing times after it.
pub open spec fn looked(
    last: Map<Seq<char>, Timestamp>,
    was: Option<bool>,
    open: bool,
    venue: Venue,
    now: Timestamp,
    account: Seq<char>,
    cadence: Cadence,
) -> (Map<Seq<char>, Timestamp>, Option<Moment>) {
    if cadence == Cadence::Off {
        (last, None)
    } else if was == Some(false) && open {
        (last.insert(account, now), Some(Moment::Opened(venue)))
    } else if was == Some(true) && !open {
        (last.remove(account), Some(Moment::Closed(venue)))
    } else if open {
        match cadence {
            Cadence::Hours(h) => {
                let since = if last.contains_key(account) {
                    last[account]
                } else {
                    now
                };
                if now.at() - since.at() >= hours(h) {
                    (last.insert(account, now), Some(Moment::During(venue)))
                } else {
                    (last.insert(account, since), None)
                }
            },
            _ => (last, None),
        }
    } else {
        (last, None)
    }
}

/// The briefing times after the first `n` accounts were looked at, and what is due, in order.
pub open spec fn looked_all(
    last: Map<Seq<char>, Timestamp>,
    was: Option<bool>,
    open: bool,
    venue: Venue,
    now: Timestamp,
    accounts: Seq<(Seq<char>, Cadence)>,
    n: int,
) -> (Map<Seq<char>, Timestamp>, Seq<(Seq<char>, Moment)>)
    decreases n,
{
    if n <= 0 {
        (last, Seq::empty())
    } else {
        let (l, due) = looked_all(last, was, open, venue, now, accounts, n - 1);
        let (l2, m) = looked(l, was, open, venue, now, accounts[n - 1].0, accounts[n - 1].1);
        match m {
            Some(m) => (l2, due.push((accounts[n - 1].0, m))),
            None => (l2, due),
        }
    }
}

/// What is due with one more: by account, the accounts in the order of their names.
pub open spec fn with_due(list: Seq<(Seq<char>, Seq<Moment>)>, account: Seq<char>, m: Moment) -> Seq<
    (Seq<char>, Seq<Moment>),
>
    decreases list.len(),
{
    if list.len() == 0 {
        seq![(account, seq![m])]
    } else if list[0].0 == account {
        seq![(account, list[0].1.push(m))] + list.skip(1)
    } else if lex_less(account, list[0].0) {
        seq![(account, seq![m])] + list
    } else {
        seq![list[0]] + with_due(list.skip(1), account, m)
    }
}

/// The first `n` moments by account.
pub open spec fn by_account(due: Seq<(Seq<char>, Moment)>, n: int) -> Seq<(Seq<char>, Seq<Moment>)>
    decreases n,
{
    if n <= 0 {
        Seq::empty()
    } else {
        with_due(by_account(due, n - 1), due[n - 1].0, due[n - 1].1)
    }
}

/// Accounts with their cadences as what they say.
pub open spec fn account_views(v: Seq<(String, Cadence)>) -> Seq<(Seq<char>, Cadence)> {
    v.map_values(|a: (String, Cadence)| (a.0@, a.1))
}

/// What is due as what it says.
pub open spec fn due_views(v: Seq<(String, Vec<Moment>)>) -> Seq<(Seq<char>, Seq<Moment>)> {
    v.map_values(|d: (String, Vec<Moment>)| (d.0@, d.1@))
}

/// What is due when. In memory: a restart neither repeats an open nor briefs the moment it starts.
pub struct Schedule {
    pub krx: Watch,
    pub us: Watch,
}

fn look(
    last: &mut Table<String, Timestamp>,
    was: Option<bool>,
    open: bool,
    venue: Venue,
    now: Timestamp,
    account: &String,
    cadence: Cadence,
) -> (r: Option<Moment>)
    requires
        old(last).wf(),
    ensures
        final(last).wf(),
        (final(last)@, r) == looked(old(last)@, was, open, venue, now, account@, cadence),
{
    let (was_open, was_closed) = match was {
        Some(b) => (b, !b),
        None => (false, false),
    };
    match cadence {
        Cadence::Off => None,
        _ => {
            if was_closed && open {
                last.insert(account.clone(), now);
                Some(Moment::Opened(venue))
            } else if was_open && !open {
                last.remove(account);
                Some(Moment::Closed(venue))
            } else if open {
                match cadence {
                    Cadence::Hours(h) => {
                        let since = match last.get(account) {
                            Some(t) => *t,
                            None => now,
                        };
                        if now.since(since) >= h as i128 * 3_600_000_000_000 {
                            last.insert(account.clone(), now);
                            Some(Moment::During(venue))
                        } else {
                            last.insert(account.clone(), since);
                            None
                        }
                    },
                    _ => None,
                }
            } else {
                None
            }
        },
    }
}

/// Moments with their accounts as what they say.
pub open spec fn moment_views(v: Seq<(String, Moment)>) -> Seq<(Seq<char>, Moment)> {
    v.map_values(|d: (String, Moment)| (d.0@, d.1))
}

fn look_all(w: &mut Watch, open: bool, venue: Venue, now: Timestamp, accounts: &[(String, Cadence)]) -> (r: Vec<
    (String, Moment),
>)
    requires
        old(w).last.wf(),
    ensures
        final(w).last.wf(),
        final(w).open == Some(open),
        (final(w).last@, moment_views(r@)) == looked_all(
            old(w).last@,
            old(w).open,
            open,
            venue,
            now,
            account_views(accounts@),
            accounts@.len() as int,
        ),
{
    let was = w.open;
    let ghost last = w.last@;
    let ghost views = account_views(accounts@);
    w.open = Some(open);
    let mut due: Vec<(String, Moment)> = Vec::new();
    let mut i: usize = 0;
    assert(moment_views(due@) =~= Seq::empty());
    while i < accounts.len()
        invariant
            i <= accounts@.len(),
            views == account_views(accounts@),
            w.last.wf(),
            w.open == Some(open),
            (w.last@, moment_views(due@)) == looked_all(last, was, open, venue, now, views, i as int),
        decreases accounts@.len() - i,
    {
        assert(views[i as int] == (accounts@[i as int].0@, accounts@[i as int].1));
        let m = look(&mut w.last, was, open, venue, now, &accounts[i].0, accounts[i].1);
        if let Some(m) = m {
            let ghost before = moment_views(due@);
            due.push((accounts[i].0.clone(), m));
            assert(moment_views(due@) =~= before.push((views[i as int].0, m)));
        }
        i += 1;
    }
    due
}

fn put_due(list: &mut Vec<(String, Vec<Moment>)>, account: String, m: Moment)
    ensures
        due_views(final(list)@) == with_due(due_views(old(list)@), account@, m),
{
    let ghost whole = due_views(list@);
    let ghost av = account@;
    let mut i: usize = 0;
    assert(whole.take(0) + with_due(whole.skip(0), av, m) =~= with_due(whole, av, m)) by {
        assert(whole.skip(0) =~= whole);
    }
    while i < list.len()
        invariant
            i <= list@.len(),
            whole == due_views(list@),
            list@ == old(list)@,
            av == account@,
            with_due(whole, av, m) == whole.take(i as int) + with_due(whole.skip(i as int), av, m),
        decreases list@.len() - i,
    {
        assert(whole[i as int] == (list@[i as int].0@, list@[i as int].1@));
        assert(whole.skip(i as int)[0] == whole[i as int]);
        assert(whole.skip(i as int).skip(1) =~= whole.skip(i + 1));
        if same_text(list[i].0.as_str(), account.as_str()) {
            let mut moments: Vec<Moment> = Vec::new();
            let mut k: usize = 0;
            while k < list[i].1.len()
                invariant
                    i < list@.len(),
                    k <= list@[i as int].1@.len(),
                    moments@ == list@[i as int].1@.take(k as int),
                decreases list@[i as int].1@.len() - k,
            {
                moments.push(list[i].1[k]);
                k += 1;
            }
            assert(list@[i as int].1@.take(k as int) =~= list@[i as int].1@);
            moments.push(m);
            let ghost mv = moments@;
            list.set(i, (account, moments));
            assert(due_views(list@) =~= whole.take(i as int) + (seq![(av, mv)] + whole.skip(i + 1)));
            return;
        }
        if text_before(account.as_str(), list[i].0.as_str()) {
            let mut moments: Vec<Moment> = Vec::new();
            moments.push(m);
            assert(moments@ =~= seq![m]);
            list.insert(i, (account, moments));
            assert(due_views(list@) =~= whole.take(i as int) + (seq![(av, seq![m])] + whole.skip(i as int)));
            return;
        }
        proof {
            let more = with_due(whole.skip(i + 1), av, m);
            assert(whole.take(i as int) + (seq![whole[i as int]] + more) =~= whole.take(i + 1) + more);
        }
        i += 1;
    }
    let mut moments: Vec<Moment> = Vec::new();
    moments.push(m);
    assert(moments@ =~= seq![m]);
    list.push((account, moments));
    assert(due_views(list@) =~= whole.take(i as int) + seq![(av, seq![m])]);
}

fn group(due: Vec<(String, Moment)>) -> (r: Vec<(String, Vec<Moment>)>)
    ensures
        due_views(r@) == by_account(moment_views(due@), due@.len() as int),
{
    let ghost views = moment_views(due@);
    let mut out: Vec<(String, Vec<Moment>)> = Vec::new();
    let mut i: usize = 0;
    assert(due_views(out@) =~= Seq::empty());
    while i < due.len()
        invariant
            i <= due@.len(),
            views == moment_views(due@),
            due_views(out@) == by_account(views, i as int),
        decreases due@.len() - i,
    {
        assert(views[i as int] == (due@[i as int].0@, due@[i as int].1));
        put_due(&mut out, due[i].0.clone(), due[i].1);
        i += 1;
    }
    out
}

impl Schedule {
    pub fn new() -> (s: Schedule)
        ensures
            s.wf(),
            s.krx@ == (WatchView { open: None, last: Map::empty() }),
            s.us@ == (WatchView { open: None, last: Map::empty() }),
    {
        Schedule {
            krx: Watch { open: None, last: Table::new() },
            us: Watch { open: None, last: Table::new() },
        }
    }

    pub open spec fn wf(&self) -> bool {
        self.krx.last.wf() && self.us.last.wf()
    }

    /// The briefings due at `now`, per account; the flags say which session is open.
    pub fn tick(&mut self, now: Timestamp, krx_open: bool, us_open: bool, accounts: &[(String, Cadence)]) -> (r: Vec<
        (String, Vec<Moment>),
    >)
        requires
            old(self).wf(),
        ensures
            final(self).wf(),
            ({
                let a = account_views(accounts@);
                let n = accounts@.len() as int;
                let (krx, first) = looked_all(old(self).krx@.last, old(self).krx@.open, krx_open, Venue::Krx, now, a, n);
                let (us, second) = looked_all(old(self).us@.last, old(self).us@.open, us_open, Venue::Us, now, a, n);
                &&& final(self).krx@ == (WatchView { open: Some(krx_open), last: krx })
                &&& final(self).us@ == (WatchView { open: Some(us_open), last: us })
                &&& due_views(r@) == by_account(first + second, (first + second).len() as int)
            }),
    {
        let mut due = look_all(&mut self.krx, krx_open, Venue::Krx, now, accounts);
        let more = look_all(&mut self.us, us_open, Venue::Us, now, accounts);
        let ghost first = moment_views(due@);
        let ghost second = moment_views(more@);
        let mut i: usize = 0;
        assert(first + second.take(0) =~= first);
        while i < more.len()
            invariant
                i <= more@.len(),
                second == moment_views(more@),
                moment_views(due@) == first + second.take(i as int),
            decreases more@.len() - i,
        {
            assert(second[i as int] == (more@[i as int].0@, more@[i as int].1));
            let ghost before = moment_views(due@);
            due.push((more[i].0.clone(), more[i].1));
            assert(moment_views(due@) =~= before.push(second[i as int]));
            assert(first + second.take(i + 1) =~= (first + second.take(i as int)).push(second[i as int]));
            i += 1;
        }
        assert(second.take(i as int) =~= second);
        assert(moment_views(due@).len() == due@.len());
        group(due)
    }
}

proof fn lemma_nothing_due(
    last: Map<Seq<char>, Timestamp>,
    was: Option<bool>,
    open: bool,
    venue: Venue,
    now: Timestamp,
    accounts: Seq<(Seq<char>, Cadence)>,
    n: int,
)
    requires
        0 <= n <= accounts.len(),
        was is None && last == Map::<Seq<char>, Timestamp>::empty() || was == Some(false),
        was == Some(false) ==> !open,
        forall|i: int| 0 <= i < n ==> ((#[trigger] accounts[i]).1 matches Cadence::Hours(h) ==> h > 0),
    ensures
        looked_all(last, was, open, venue, now, accounts, n).1 == Seq::<(Seq<char>, Moment)>::empty(),
        was is None ==> forall|a: Seq<char>|
            looked_all(last, was, open, venue, now, accounts, n).0.contains_key(a) ==> #[trigger] looked_all(
                last,
                was,
                open,
                venue,
                now,
                accounts,
                n,
            ).0[a] == now,
    decreases n,
{
    if n > 0 {
        lemma_nothing_due(last, was, open, venue, now, accounts, n - 1);
        assert(accounts[n - 1].1 matches Cadence::Hours(h) ==> h > 0);
    }
}

/// The first look briefs nobody, whether or not a session is open: it only learns the state. And
/// nothing is due while a session stays closed.
pub proof fn law_starting_briefs_nobody(
    last: Map<Seq<char>, Timestamp>,
    was: Option<bool>,
    open: bool,
    venue: Venue,
    now: Timestamp,
    accounts: Seq<(Seq<char>, Cadence)>,
)
    requires
        was is None && last == Map::<Seq<char>, Timestamp>::empty() || was == Some(false),
        was == Some(false) ==> !open,
        forall|i: int| 0 <= i < accounts.len() ==> ((#[trigger] accounts[i]).1 matches Cadence::Hours(h) ==> h > 0),
    ensures
        looked_all(last, was, open, venue, now, accounts, accounts.len() as int).1.len() == 0,
{
    lemma_nothing_due(last, was, open, venue, now, accounts, accounts.len() as int);
}

/// An open and a close are briefed to every account with a cadence, and no account that is off is
/// ever briefed.
pub proof fn law_edges_are_briefed(
    last: Map<Seq<char>, Timestamp>,
    venue: Venue,
    now: Timestamp,
    account: Seq<char>,
    cadence: Cadence,
    was: Option<bool>,
    open: bool,
)
    ensures
        cadence != Cadence::Off ==> looked(last, Some(false), true, venue, now, account, cadence).1 == Some(
            Moment::Opened(venue),
        ),
        cadence != Cadence::Off ==> looked(last, Some(true), false, venue, now, account, cadence).1 == Some(
            Moment::Closed(venue),
        ),
        cadence == Cadence::Off ==> looked(last, was, open, venue, now, account, cadence) == (last, None::<Moment>),
{
}

/// What a moment is called.
pub open spec fn moment_text(m: Moment) -> Seq<char> {
    match m {
        Moment::Opened(v) => v.tag_text() + " session opened"@,
        Moment::Closed(v) => v.tag_text() + " session closed"@,
        Moment::During(v) => v.tag_text() + " session update"@,
    }
}

fn describe(m: Moment) -> (r: String)
    ensures
        r@ == moment_text(m),
{
    let (v, what) = match m {
        Moment::Opened(v) => (v, " session opened"),
        Moment::Closed(v) => (v, " session closed"),
        Moment::During(v) => (v, " session update"),
    };
    let mut s = v.tag().to_owned();
    s.append(what);
    s
}

/// Why a briefing was sent.
pub open spec fn why_text(moments: Seq<Moment>) -> Seq<char> {
    if moments.len() == 0 {
        "requested from the dashboard"@
    } else {
        joined(moments.map_values(|m: Moment| moment_text(m)), ", "@)
    }
}

fn why(moments: &[Moment]) -> (r: String)
    ensures
        r@ == why_text(moments@),
{
    if moments.len() == 0 {
        return "requested from the dashboard".to_owned();
    }
    let mut out: Vec<String> = Vec::new();
    let mut i: usize = 0;
    while i < moments.len()
        invariant
            i <= moments@.len(),
            texts(out@) == moments@.take(i as int).map_values(|m: Moment| moment_text(m)),
        decreases moments@.len() - i,
    {
        let s = describe(moments[i]);
        let ghost sv = s@;
        let ghost before = texts(out@);
        out.push(s);
        assert(texts(out@) =~= before.push(sv));
        assert(moments@.take(i + 1).map_values(|m: Moment| moment_text(m)) =~= moments@.take(i as int).map_values(
            |m: Moment| moment_text(m),
        ).push(sv));
        i += 1;
    }
    assert(moments@.take(i as int) =~= moments@);
    join_texts(&out, ", ")
}

/// The venues from index `i` on whose movers are told: those whose session is open.
pub open spec fn venues_from(moments: Seq<Moment>, i: int) -> Seq<Venue>
    decreases moments.len() - i,
{
    if i >= moments.len() {
        Seq::empty()
    } else {
        match moments[i] {
            Moment::Closed(_) => venues_from(moments, i + 1),
            Moment::Opened(v) => seq![v] + venues_from(moments, i + 1),
            Moment::During(v) => seq![v] + venues_from(moments, i + 1),
        }
    }
}

/// The venues whose movers are told: both on request, else those whose session is open.
pub fn told_venues(moments: &[Moment]) -> (r: Vec<Venue>)
    ensures
        r@ == (if moments@.len() == 0 {
            seq![Venue::Krx, Venue::Us]
        } else {
            venues_from(moments@, 0)
        }),
{
    let mut out: Vec<Venue> = Vec::new();
    if moments.len() == 0 {
        out.push(Venue::Krx);
        out.push(Venue::Us);
        assert(out@ =~= seq![Venue::Krx, Venue::Us]);
        return out;
    }
    let mut i: usize = 0;
    assert(out@ + venues_from(moments@, 0) =~= venues_from(moments@, 0));
    while i < moments.len()
        invariant
            i <= moments@.len(),
            out@ + venues_from(moments@, i as int) == venues_from(moments@, 0),
        decreases moments@.len() - i,
    {
        let ghost before = out@;
        let ghost more = venues_from(moments@, i + 1);
        match moments[i] {
            Moment::Closed(_) => {},
            Moment::Opened(v) => {
                out.push(v);
                assert(before + (seq![v] + more) =~= before.push(v) + more);
            },
            Moment::During(v) => {
                out.push(v);
                assert(before + (seq![v] + more) =~= before.push(v) + more);
            },
        }
        i += 1;
    }
    assert(out@ + venues_from(moments@, i as int) =~= out@);
    out
}

/// A number with its sign, to two places.
pub open spec fn signed_text(d: Decimal) -> Seq<char> {
    let r = d.rounded(2);
    if r.mantissa() < 0 {
        r.text()
    } else {
        "+"@ + r.text()
    }
}

fn signed(d: Decimal) -> (r: String)
    ensures
        r@ == signed_text(d),
{
    let d = d.round_dp(2);
    if d.mantissa_part() < 0 {
        d.to_text()
    } else {
        let mut s = "+".to_owned();
        s.append(d.to_text().as_str());
        s
    }
}

/// A position, as a briefing tells of it.
#[derive(Debug)]
pub struct PositionLine {
    pub instrument: String,
    pub name: String,
    pub qty: Decimal,
    pub avg_cost: Decimal,
    pub price: Option<Decimal>,
    pub unrealized_pct: Decimal,
    pub unrealized_pnl: Decimal,
    pub currency: Currency,
}

impl PositionLine {
    /// What a briefing says of a position.
    pub open spec fn text(self) -> Seq<char> {
        "\n- "@ + self.instrument@ + " "@ + self.name@ + ": "@ + self.qty.text() + " @ avg "@ + self.avg_cost.text()
            + ", now "@ + (match self.price {
            Some(p) => p.text(),
            None => "?"@,
        }) + " ("@ + signed_text(self.unrealized_pct) + "%, "@ + self.unrealized_pnl.rounded(2).text() + " "@
            + self.currency.code_text() + ")"@
    }

    fn show(&self) -> (r: String)
        ensures
            r@ == self.text(),
    {
        let mut s = "\n- ".to_owned();
        s.append(self.instrument.as_str());
        s.append(" ");
        s.append(self.name.as_str());
        s.append(": ");
        s.append(self.qty.to_text().as_str());
        s.append(" @ avg ");
        s.append(self.avg_cost.to_text().as_str());
        s.append(", now ");
        match self.price {
            Some(p) => s.append(p.to_text().as_str()),
            None => s.append("?"),
        }
        s.append(" (");
        s.append(signed(self.unrealized_pct).as_str());
        s.append("%, ");
        s.append(self.unrealized_pnl.round_dp(2).to_text().as_str());
        s.append(" ");
        s.append(self.currency.code());
        s.append(")");
        s
    }
}

/// One instrument that moves.
#[derive(Debug)]
pub struct Mover {
    pub id: String,
    pub name: String,
    pub change_pct: Decimal,
}

impl Mover {
    /// What a briefing says of a mover.
    pub open spec fn text(self) -> Seq<char> {
        self.id@ + " "@ + self.name@ + " ("@ + signed_text(self.change_pct) + "%)"@
    }

    fn show(&self) -> (r: String)
        ensures
            r@ == self.text(),
    {
        let mut s = self.id.clone();
        s.append(" ");
        s.append(self.name.as_str());
        s.append(" (");
        s.append(signed(self.change_pct).as_str());
        s.append("%)");
        s
    }
}

/// A ranking of a venue.
#[derive(Debug)]
pub struct Movers {
    pub venue: Venue,
    pub ranking: String,
    pub rows: Vec<Mover>,
}

impl Movers {
    /// What a briefing says of a ranking: nothing of an empty one.
    pub open spec fn text(self) -> Seq<char> {
        if self.rows@.len() == 0 {
            Seq::empty()
        } else {
            "\n"@ + self.venue.tag_text() + " top "@ + self.ranking@ + ": "@ + joined(
                self.rows@.map_values(|m: Mover| m.text()),
                ", "@,
            )
        }
    }

    fn show(&self) -> (r: String)
        ensures
            r@ == self.text(),
    {
        if self.rows.len() == 0 {
            let s = String::new();
            assert(s@ =~= self.text());
            return s;
        }
        let mut out: Vec<String> = Vec::new();
        let mut i: usize = 0;
        while i < self.rows.len()
            invariant
                i <= self.rows@.len(),
                texts(out@) == self.rows@.take(i as int).map_values(|m: Mover| m.text()),
            decreases self.rows@.len() - i,
        {
            let s = self.rows[i].show();
            let ghost sv = s@;
            let ghost before = texts(out@);
            out.push(s);
            assert(texts(out@) =~= before.push(sv));
            assert(self.rows@.take(i + 1).map_values(|m: Mover| m.text()) =~= self.rows@.take(i as int).map_values(
                |m: Mover| m.text(),
            ).push(sv));
            i += 1;
        }
        assert(self.rows@.take(i as int) =~= self.rows@);
        let mut s = "\n".to_owned();
        s.append(self.venue.tag());
        s.append(" top ");
        s.append(self.ranking.as_str());
        s.append(": ");
        s.append(join_texts(&out, ", ").as_str());
        s
    }
}

/// What is known of an account for a briefing.
#[derive(Debug)]
pub struct AccountBrief {
    pub name: String,
    pub id: String,
    pub equity_krw: Decimal,
    pub cash: Vec<(Currency, Decimal)>,
}

impl AccountBrief {
    /// What a briefing says of an account.
    pub open spec fn text(self) -> Seq<char> {
        "\nAccount "@ + self.name@ + " ("@ + self.id@ + "): equity ₩"@ + self.equity_krw.rounded(0).text() + ", cash "@
            + joined(cash_texts(self.cash@), ", "@) + "."@
    }

    fn show(&self) -> (r: String)
        ensures
            r@ == self.text(),
    {
        let mut s = "\nAccount ".to_owned();
        s.append(self.name.as_str());
        s.append(" (");
        s.append(self.id.as_str());
        s.append("): equity ₩");
        s.append(self.equity_krw.round_dp(0).to_text().as_str());
        s.append(", cash ");
        s.append(join_texts(&list_cash(&self.cash), ", ").as_str());
        s.append(".");
        s
    }
}

/// The positions from index `i` on.
pub open spec fn positions_text(v: Seq<PositionLine>, i: int) -> Seq<char>
    decreases v.len() - i,
{
    if i >= v.len() {
        Seq::empty()
    } else {
        v[i].text() + positions_text(v, i + 1)
    }
}

/// The rankings from index `i` on.
pub open spec fn movers_text(v: Seq<Movers>, i: int) -> Seq<char>
    decreases v.len() - i,
{
    if i >= v.len() {
        Seq::empty()
    } else {
        v[i].text() + movers_text(v, i + 1)
    }
}

/// A briefing: why it was sent, the account, its positions, and each open session's movers. Missing
/// parts are left out.
pub open spec fn briefing(
    moments: Seq<Moment>,
    account: Option<AccountBrief>,
    positions: Option<Seq<PositionLine>>,
    movers: Seq<Movers>,
) -> Seq<char> {
    "[ATrader briefing] "@ + why_text(moments) + "."@ + (match account {
        Some(a) => a.text(),
        None => Seq::empty(),
    }) + (match positions {
        Some(p) => if p.len() == 0 {
            "\nNo positions."@
        } else {
            positions_text(p, 0)
        },
        None => Seq::empty(),
    }) + movers_text(movers, 0)
        + "\nReview the account and act if the plan calls for it; give a reason with every order."@
}

fn show_positions(v: &Vec<PositionLine>) -> (r: String)
    ensures
        r@ == positions_text(v@, 0),
{
    let mut s = String::new();
    let mut i: usize = 0;
    assert(s@ + positions_text(v@, 0) =~= positions_text(v@, 0));
    while i < v.len()
        invariant
            i <= v@.len(),
            s@ + positions_text(v@, i as int) == positions_text(v@, 0),
        decreases v@.len() - i,
    {
        let ghost before = s@;
        s.append(v[i].show().as_str());
        proof {
            let more = positions_text(v@, i + 1);
            assert(before + (v@[i as int].text() + more) =~= (before + v@[i as int].text()) + more);
        }
        i += 1;
    }
    assert(s@ + positions_text(v@, i as int) =~= s@);
    s
}

fn show_movers(v: &Vec<Movers>) -> (r: String)
    ensures
        r@ == movers_text(v@, 0),
{
    let mut s = String::new();
    let mut i: usize = 0;
    assert(s@ + movers_text(v@, 0) =~= movers_text(v@, 0));
    while i < v.len()
        invariant
            i <= v@.len(),
            s@ + movers_text(v@, i as int) == movers_text(v@, 0),
        decreases v@.len() - i,
    {
        let ghost before = s@;
        s.append(v[i].show().as_str());
        proof {
            let more = movers_text(v@, i + 1);
            assert(before + (v@[i as int].text() + more) =~= (before + v@[i as int].text()) + more);
        }
        i += 1;
    }
    assert(s@ + movers_text(v@, i as int) =~= s@);
    s
}

/// The briefing text for an account.
pub fn briefing_text(
    moments: &[Moment],
    account: &Option<AccountBrief>,
    positions: &Option<Vec<PositionLine>>,
    movers: &Vec<Movers>,
) -> (r: String)
    ensures
        r@ == briefing(
            moments@,
            *account,
            match *positions {
                Some(p) => Some(p@),
                None => None,
            },
            movers@,
        ),
{
    let mut m = "[ATrader briefing] ".to_owned();
    m.append(why(moments).as_str());
    m.append(".");
    let first = match account {
        Some(a) => a.show(),
        None => String::new(),
    };
    let second = match positions {
        Some(p) => if p.len() == 0 {
            "\nNo positions.".to_owned()
        } else {
            show_positions(p)
        },
        None => String::new(),
    };
    assert(account is None ==> first@ =~= Seq::empty());
    assert(positions is None ==> second@ =~= Seq::empty());
    m.append(first.as_str());
    m.append(second.as_str());
    m.append(show_movers(movers).as_str());
    m.append("\nReview the account and act if the plan calls for it; give a reason with every order.");
    m
}

/// While a session stays open, an account with a cadence of some hours is briefed once that many hours are
/// over since it was last briefed, and not before; the time then counts from there. The first look of a
/// session only starts the clock. Others are not briefed in between, and a briefing is of the account alone.
pub proof fn law_briefings_come_every_so_many_hours(
    last: Map<Seq<char>, Timestamp>,
    was: Option<bool>,
    venue: Venue,
    now: Timestamp,
    account: Seq<char>,
    h: i64,
    other: Seq<char>,
)
    requires
        was != Some(false),
        h > 0,
        other != account,
    ensures
        ({
            let (after, due) = looked(last, was, true, venue, now, account, Cadence::Hours(h));
            &&& last.contains_key(account) ==> {
                let since = now.at() - last[account].at();
                &&& due == if since >= h * 60 * 60 * 1_000_000_000 {
                    Some(Moment::During(venue))
                } else {
                    None
                }
                &&& after[account] == if since >= h * 60 * 60 * 1_000_000_000 {
                    now
                } else {
                    last[account]
                }
            }
            &&& !last.contains_key(account) ==> due is None && after[account] == now
            &&& after.contains_key(account)
            &&& after.contains_key(other) == last.contains_key(other) && (after.contains_key(other) ==> after[other]
                == last[other])
        }),
        looked(last, was, true, venue, now, account, Cadence::Edges) == (last, None::<Moment>),
{
}

/// A close ends the count of hours and the next open begins it anew: a briefing during a session comes no earlier
/// than its hours after the open, whatever came before.
pub proof fn law_hours_are_counted_from_the_open(
    last: Map<Seq<char>, Timestamp>,
    venue: Venue,
    opened: Timestamp,
    now: Timestamp,
    account: Seq<char>,
    h: i64,
)
    ensures
        !looked(last, Some(true), false, venue, now, account, Cadence::Hours(h)).0.contains_key(account),
        ({
            let begun = looked(last, Some(false), true, venue, opened, account, Cadence::Hours(h)).0;
            looked(begun, Some(true), true, venue, now, account, Cadence::Hours(h)).1 is Some <==> now.at() - opened.at()
                >= h * 3600 * 1_000_000_000
        }),
{
}

} // verus!
