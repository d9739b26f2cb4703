//! Delivering fired alerts to the account's Attacca agent.
use crate::decimal::{padded_digits, Decimal};
use crate::domain::Currency;
use crate::alerts::Alert;
use crate::table::{Stored, Table};
use crate::text::{
    chars_of, int_shown, int_text, join_texts, joined, same_text, stands_at, text_at, texts, uint_text,
};
use vstd::prelude::*;

verus! {

/// Something that fired.
#[derive(Debug)]
pub struct Firing {
    /// The alert, or a negative number for a digest of several.
    pub alert_id: i64,
    pub account: String,
    pub text: String,
    pub deactivate: bool,
    pub note: String,
}

/// The note of an alert, as part of its message.
pub open spec fn note_part(note: Seq<char>) -> Seq<char> {
    if note.len() == 0 {
        Seq::empty()
    } else {
        " Your note: \""@ + note + "\"."@
    }
}

/// What a message starts with.
pub open spec fn head_part(alert_id: int) -> Seq<char> {
    if alert_id < 0 {
        "ATrader alert digest"@
    } else {
        "ATrader alert #"@ + int_shown(alert_id)
    }
}

/// The message of a firing; `line` tells of the account.
pub open spec fn firing_message(
    alert_id: int,
    account: Seq<char>,
    text: Seq<char>,
    note: Seq<char>,
    line: Seq<char>,
) -> Seq<char> {
    head_part(alert_id) + " on account "@ + account + ": "@ + text + "."@ + note_part(note) + line
        + " Use the trader tools on node {node} to act; give a reason for any order."@
}

/// Composes the message of a firing.
pub fn message(f: &Firing, line: &str) -> (r: String)
    ensures
        r@ == firing_message(f.alert_id as int, f.account@, f.text@, f.note@, line@),
{
    let mut m = if f.alert_id < 0 {
        "ATrader alert digest".to_owned()
    } else {
        let mut h = "ATrader alert #".to_owned();
        h.append(int_text(f.alert_id).as_str());
        h
    };
    m.append(" on account ");
    m.append(f.account.as_str());
    m.append(": ");
    m.append(f.text.as_str());
    m.append(".");
    let mut note = String::new();
    if chars_of(f.note.as_str()).len() > 0 {
        note.append(" Your note: \"");
        note.append(f.note.as_str());
        note.append("\".");
    }
    assert(note@ =~= note_part(f.note@));
    m.append(note.as_str());
    m.append(line);
    m.append(" Use the trader tools on node {node} to act; give a reason for any order.");
    m
}

/// The cash of an account, as texts.
pub open spec fn cash_texts(cash: Seq<(Currency, Decimal)>) -> Seq<Seq<char>> {
    cash.map_values(|c: (Currency, Decimal)| c.0.code_text() + " "@ + c.1.rounded(2).text())
}

/// The account line appended to every alert message.
pub fn account_line(equity_krw: Decimal, cash: &[(Currency, Decimal)]) -> (r: String)
    ensures
        r@ == " Account: equity ₩"@ + equity_krw.rounded(0).text() + ", cash "@ + joined(cash_texts(cash@), ", "@)
            + "."@,
{
    let list = list_cash(cash);
    let mut m = " Account: equity ₩".to_owned();
    m.append(equity_krw.round_dp(0).to_text().as_str());
    m.append(", cash ");
    m.append(join_texts(&list, ", ").as_str());
    m.append(".");
    m
}

/// The cash of an account, as texts.
pub fn list_cash(cash: &[(Currency, Decimal)]) -> (r: Vec<String>)
    ensures
        texts(r@) == cash_texts(cash@),
{
    let mut out: Vec<String> = Vec::new();
    let mut i: usize = 0;
    while i < cash.len()
        invariant
            i <= cash@.len(),
            texts(out@) == cash_texts(cash@.take(i as int)),
        decreases cash@.len() - i,
    {
        let (c, b) = cash[i];
        let mut s = c.code().to_owned();
        s.append(" ");
        s.append(b.round_dp(2).to_text().as_str());
        let ghost sv = s@;
        let ghost before = texts(out@);
        out.push(s);
        assert(texts(out@) =~= before.push(sv));
        assert(cash_texts(cash@.take(i + 1)) =~= cash_texts(cash@.take(i as int)).push(sv));
        i += 1;
    }
    assert(cash@.take(i as int) =~= cash@);
    out
}

/// Queued alerts, as parts of a digest.
pub open spec fn digest_parts(queued: Seq<(i64, Seq<char>)>) -> Seq<Seq<char>> {
    queued.map_values(|q: (i64, Seq<char>)| "#"@ + int_shown(q.0 as int) + ": "@ + q.1)
}

/// The text of a digest of the alerts that fired while messages were rate-limited.
pub fn digest_text(queued: &[(i64, String)]) -> (r: String)
    ensures
        r@ == padded_digits(queued@.len(), 1) + " alerts fired while messages were rate-limited: "@ + joined(
            digest_parts(queued@.map_values(|q: (i64, String)| (q.0, q.1@))),
            " | "@,
        ),
{
    let ghost q = queued@.map_values(|q: (i64, String)| (q.0, q.1@));
    let mut out: Vec<String> = Vec::new();
    let mut i: usize = 0;
    while i < queued.len()
        invariant
            i <= queued@.len(),
            q == queued@.map_values(|q: (i64, String)| (q.0, q.1@)),
            texts(out@) == digest_parts(q.take(i as int)),
        decreases queued@.len() - i,
    {
        let mut s = "#".to_owned();
        s.append(int_text(queued[i].0).as_str());
        s.append(": ");
        s.append(queued[i].1.as_str());
        let ghost sv = s@;
        let ghost before = texts(out@);
        out.push(s);
        assert(q[i as int] == (queued@[i as int].0, queued@[i as int].1@));
        assert(texts(out@) =~= before.push(sv));
        assert(digest_parts(q.take(i + 1)) =~= digest_parts(q.take(i as int)).push(sv));
        i += 1;
    }
    assert(q.take(i as int) =~= q);
    let mut m = uint_text(queued.len() as u64);
    m.append(" alerts fired while messages were rate-limited: ");
    m.append(join_texts(&out, " | ").as_str());
    m
}

/// A text with another one in place of each mark, left to right, from index `i` on.
pub open spec fn replaced_from(s: Seq<char>, mark: Seq<char>, by: Seq<char>, i: int) -> Seq<char>
    decreases s.len() - i,
{
    if i >= s.len() {
        Seq::empty()
    } else if mark.len() > 0 && stands_at(s, mark, i) {
        by + replaced_from(s, mark, by, i + mark.len())
    } else {
        seq![s[i]] + replaced_from(s, mark, by, i + 1)
    }
}

/// The message with the path of the node in place of `{node}`.
pub fn addressed(text: &str, node: &str) -> (r: String)
    ensures
        r@ == replaced_from(text@, "{node}"@, node@, 0),
{
    let v = chars_of(text);
    let mark = chars_of("{node}");
    let mut out = String::new();
    let mut i: usize = 0;
    let ghost whole = replaced_from(v@, mark@, node@, 0);
    assert(out@ + whole =~= whole);
    while i < v.len()
        invariant
            i <= v@.len(),
            out@ + replaced_from(v@, mark@, node@, i as int) == whole,
        decreases v@.len() - i,
    {
        let ghost before = out@;
        if mark.len() > 0 && text_at(&v, &mark, i) {
            out.append(node);
            proof {
                let more = replaced_from(v@, mark@, node@, i + mark@.len());
                assert(before + (node@ + more) =~= (before + node@) + more);
            }
            i += mark.len();
        } else {
            let c = v[i];
            out.push(c);
            proof {
                let more = replaced_from(v@, mark@, node@, i + 1);
                assert(before + (seq![c] + more) =~= before.push(c) + more);
            }
            i += 1;
        }
    }
    assert(out@ + replaced_from(v@, mark@, node@, i as int) =~= out@);
    out
}

/// The title of a session.
pub fn session_title(account: &str) -> (r: String)
    ensures
        r@ == "ATrader alerts: "@ + account@,
{
    let mut s = "ATrader alerts: ".to_owned();
    s.append(account);
    s
}

/// What a session is told first.
pub fn session_preamble(account: &str, node: &str) -> (r: String)
    ensures
        r@ == "You manage the ATrader paper-trading account \""@ + account@
            + "\" through the zyris trader tools on node "@ + node@
            + ". Messages in this session are alerts you set with create_alert. Check get_quotes and get_account before acting, and always state a reason when you place an order."@,
{
    let mut s = "You manage the ATrader paper-trading account \"".to_owned();
    s.append(account);
    s.append("\" through the zyris trader tools on node ");
    s.append(node);
    s.append(
        ". Messages in this session are alerts you set with create_alert. Check get_quotes and get_account before acting, and always state a reason when you place an order.",
    );
    s
}

/// What delivery does next.
#[derive(Debug, Clone, Copy, PartialEq, Eq, Structural)]
pub enum DeliveryStep {
    /// Wait for half a minute, and send again.
    WaitAndSend,
    /// The message was delivered; `keep` says that its session is to be remembered.
    Delivered { keep: bool },
    GiveUp,
}

/// What came of sending a message: the session that was used, or a failure.
pub open spec fn delivery_next(attempt: int, session: Option<Seq<char>>, used: Option<Seq<char>>) -> DeliveryStep {
    match used {
        Some(u) => DeliveryStep::Delivered { keep: session != Some(u) },
        None => if attempt == 0 {
            DeliveryStep::WaitAndSend
        } else {
            DeliveryStep::GiveUp
        },
    }
}

/// What delivery does after an attempt: a failed first attempt is made once more.
pub fn after_attempt(attempt: u32, session: Option<&str>, used: Option<&str>) -> (r: DeliveryStep)
    ensures
        r == delivery_next(
            attempt as int,
            match session {
                Some(s) => Some(s@),
                None => None,
            },
            match used {
                Some(s) => Some(s@),
                None => None,
            },
        ),
{
    match used {
        Some(u) => match session {
            Some(s) => DeliveryStep::Delivered { keep: !crate::text::same_text(s, u) },
            None => DeliveryStep::Delivered { keep: true },
        },
        None => if attempt == 0 {
            DeliveryStep::WaitAndSend
        } else {
            DeliveryStep::GiveUp
        },
    }
}

/// How many seconds to wait before a firing is marked again after so many attempts, or nothing after
/// the fifth: it is the last. A lost deactivation would re-arm a one-shot alert after a restart.
pub fn mark_retry(attempt: u32) -> (r: Option<u64>)
    ensures
        r == (if 1 <= attempt < 5 {
            Some(attempt as u64)
        } else {
            None
        }),
{
    if attempt >= 1 && attempt < 5 {
        Some(attempt as u64)
    } else {
        None
    }
}

/// What fired.
pub ghost struct FiringView {
    pub alert_id: i64,
    pub account: Seq<char>,
    pub text: Seq<char>,
    pub deactivate: bool,
    pub note: Seq<char>,
}

impl View for Firing {
    type V = FiringView;

    open spec fn view(&self) -> FiringView {
        FiringView {
            alert_id: self.alert_id,
            account: self.account@,
            text: self.text@,
            deactivate: self.deactivate,
            note: self.note@,
        }
    }
}

/// The alerts of one account that wait for a digest.
pub struct Queue {
    pub waiting: Vec<(i64, String)>,
}

impl View for Queue {
    type V = Seq<(i64, Seq<char>)>;

    open spec fn view(&self) -> Seq<(i64, Seq<char>)> {
        self.waiting@.map_values(|q: (i64, String)| (q.0, q.1@))
    }
}

impl Stored for Queue {
    open spec fn sound(&self) -> bool {
        true
    }
}

/// The alerts of an account that wait for a digest.
pub open spec fn waiting_for(m: Map<Seq<char>, Seq<(i64, Seq<char>)>>, account: Seq<char>) -> Seq<(i64, Seq<char>)> {
    if m.contains_key(account) {
        m[account]
    } else {
        Seq::empty()
    }
}

/// Whether a firing goes out at once: a digest always does, an alert if there is room for a message.
pub open spec fn goes_out(f: FiringView, room: bool) -> bool {
    f.alert_id < 0 || room
}

/// The digest of the alerts that wait.
pub open spec fn digest_of(account: Seq<char>, waiting: Seq<(i64, Seq<char>)>) -> FiringView {
    FiringView {
        alert_id: (-1) as i64,
        account,
        text: padded_digits(waiting.len(), 1) + " alerts fired while messages were rate-limited: "@ + joined(
            digest_parts(waiting),
            " | "@,
        ),
        deactivate: false,
        note: Seq::empty(),
    }
}

/// The alerts that fired while messages were rate-limited, by account.
pub struct Digests {
    pub queues: Table<String, Queue>,
}

impl Digests {
    pub open spec fn wf(&self) -> bool {
        self.queues.wf()
    }

    pub fn new() -> (r: Digests)
        ensures
            r.wf(),
            r.queues@ == Map::<Seq<char>, Seq<(i64, Seq<char>)>>::empty(),
    {
        Digests { queues: Table::new() }
    }

    /// Whether an account has alerts that wait.
    pub fn has_waiting(&self, account: &str) -> (r: bool)
        requires
            self.wf(),
        ensures
            r == (waiting_for(self.queues@, account@).len() > 0),
    {
        let k = account.to_owned();
        match self.queues.get(&k) {
            Some(q) => {
                assert(q@.len() == q.waiting@.len());
                q.waiting.len() > 0
            },
            None => false,
        }
    }

    /// Lets a firing out or, where there is no room for a message, keeps it for a digest.
    pub fn route(&mut self, f: Firing, room: bool) -> (r: Option<Firing>)
        requires
            old(self).wf(),
        ensures
            final(self).wf(),
            if goes_out(f@, room) {
                r == Some(f) && final(self).queues@ == old(self).queues@
            } else {
                r is None && final(self).queues@ == old(self).queues@.insert(
                    f.account@,
                    waiting_for(old(self).queues@, f.account@).push((f.alert_id, f.text@)),
                )
            },
    {
        if f.alert_id < 0 || room {
            return Some(f);
        }
        let ghost m = self.queues@;
        let mut waiting = match self.queues.remove(&f.account) {
            Some(q) => q.waiting,
            None => Vec::new(),
        };
        let ghost before = waiting@.map_values(|q: (i64, String)| (q.0, q.1@));
        assert(before =~= waiting_for(m, f.account@));
        let ghost added = (f.alert_id, f.text@);
        let ghost account = f.account@;
        waiting.push((f.alert_id, f.text));
        let q = Queue { waiting };
        assert(q@ =~= before.push(added));
        self.queues.insert(f.account, q);
        assert(self.queues@ =~= m.insert(account, before.push(added)));
        None
    }

    /// The digest of an account's alerts that wait, once there is room for a message.
    pub fn flush(&mut self, account: &str, room: bool) -> (r: Option<Firing>)
        requires
            old(self).wf(),
        ensures
            final(self).wf(),
            if waiting_for(old(self).queues@, account@).len() > 0 && room {
                (r matches Some(f) && f@ == digest_of(account@, waiting_for(old(self).queues@, account@))) && waiting_for(
                    final(self).queues@,
                    account@,
                ).len() == 0
            } else {
                r is None && waiting_for(final(self).queues@, account@) == waiting_for(old(self).queues@, account@)
            },
            forall|other: Seq<char>|
                other != account@ ==> #[trigger] waiting_for(final(self).queues@, other) == waiting_for(
                    old(self).queues@,
                    other,
                ),
    {
        if !room || !self.has_waiting(account) {
            return None;
        }
        let k = account.to_owned();
        match self.queues.remove(&k) {
            Some(q) => {
                let text = digest_text(&q.waiting);
                assert(q.waiting@.map_values(|q: (i64, String)| (q.0, q.1@)) =~= q@);
                assert(q.waiting@.len() == q@.len());
                let note = String::new();
                Some(Firing { alert_id: -1, account: k, text, deactivate: false, note })
            },
            None => None,
        }
    }
}

/// No alert is lost to the rate limit: one that does not go out at once is told in the account's
/// next digest.
pub proof fn law_held_alerts_are_told_later(m: Map<Seq<char>, Seq<(i64, Seq<char>)>>, f: FiringView)
    requires
        !goes_out(f, false),
    ensures
        ({
            let after = m.insert(f.account, waiting_for(m, f.account).push((f.alert_id, f.text)));
            &&& waiting_for(after, f.account).last() == (f.alert_id, f.text)
            &&& forall|k: int|
                0 <= k < waiting_for(m, f.account).len() ==> #[trigger] waiting_for(after, f.account)[k] == waiting_for(
                    m,
                    f.account,
                )[k]
            &&& digest_parts(waiting_for(after, f.account)).last() == "#"@ + int_shown(f.alert_id as int) + ": "@
                + f.text
        }),
{
}

/// The alerts of an account among the first `n`.
pub open spec fn alerts_of(alerts: Seq<(i64, Seq<char>)>, account: Seq<char>, n: int) -> Seq<i64>
    decreases n,
{
    if n <= 0 {
        Seq::empty()
    } else if alerts[n - 1].1 == account {
        alerts_of(alerts, account, n - 1).push(alerts[n - 1].0)
    } else {
        alerts_of(alerts, account, n - 1)
    }
}

/// The alerts to turn off when an account is reset: they belong to the closed generation.
pub fn dropped_with(alerts: &[Alert], account: &str) -> (r: Vec<i64>)
    ensures
        r@ == alerts_of(
            alerts@.map_values(|a: Alert| (a.id, a.account@)),
            account@,
            alerts@.len() as int,
        ),
{
    let ghost all = alerts@.map_values(|a: Alert| (a.id, a.account@));
    let mut out: Vec<i64> = Vec::new();
    let mut i: usize = 0;
    while i < alerts.len()
        invariant
            i <= alerts@.len(),
            all == alerts@.map_values(|a: Alert| (a.id, a.account@)),
            out@ == alerts_of(all, account@, i as int),
        decreases alerts@.len() - i,
    {
        assert(all[i as int] == (alerts@[i as int].id, alerts@[i as int].account@));
        if same_text(alerts[i].account.as_str(), account) {
            out.push(alerts[i].id);
        }
        i += 1;
    }
    out
}

/// A message is sent at most twice: after a failure it is sent once more, after two it is given up. One that got
/// through is done, and its session is kept where it is a new one.
pub proof fn law_messages_are_sent_at_most_twice(attempt: int, session: Option<Seq<char>>, used: Option<Seq<char>>)
    requires
        attempt >= 0,
    ensures
        match delivery_next(attempt, session, used) {
            DeliveryStep::Delivered { keep } => used is Some && keep == (session != used),
            DeliveryStep::WaitAndSend => used is None && attempt < 1,
            DeliveryStep::GiveUp => used is None && attempt >= 1,
        },
{
}

/// A digest is never held back, whatever room there is; an alert is just where there is none.
pub proof fn law_digests_are_not_held_back(f: FiringView, account: Seq<char>, waiting: Seq<(i64, Seq<char>)>, room: bool)
    ensures
        goes_out(digest_of(account, waiting), room),
        f.alert_id >= 0 ==> goes_out(f, room) == room,
{
}

} // verus!
