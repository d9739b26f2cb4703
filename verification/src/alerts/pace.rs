//! How many alert messages an account is sent.
use crate::table::{Stored, Table};
use crate::time::Timestamp;
use vstd::prelude::*;

verus! {

/// An account is sent this many messages within an hour at most. Each message wakes the account's
/// agent up, which takes time and money: one every five minutes on average is as often as an agent
/// can act on, and what fires beyond that is told in a digest.
pub const MESSAGES_AN_HOUR: usize = 12;

pub const HOUR_NANOS: i128 = 3_600_000_000_000;

/// When the latest messages of one account went out.
pub struct Sent {
    pub at: Vec<Timestamp>,
}

impl View for Sent {
    type V = Seq<Timestamp>;

    open spec fn view(&self) -> Seq<Timestamp> {
        self.at@
    }
}

impl Stored for Sent {
    open spec fn sound(&self) -> bool {
        true
    }
}

/// Whether a message went out within the last hour.
pub open spec fn is_young(at: Timestamp, now: Timestamp) -> bool {
    now.at() - at.at() < HOUR_NANOS
}

/// The messages of the last hour among the first `n`.
pub open spec fn young(sent: Seq<Timestamp>, now: Timestamp, n: int) -> Seq<Timestamp>
    decreases n,
{
    if n <= 0 {
        Seq::empty()
    } else if is_young(sent[n - 1], now) {
        young(sent, now, n - 1).push(sent[n - 1])
    } else {
        young(sent, now, n - 1)
    }
}

/// The messages that count for an account.
pub open spec fn sent_to(m: Map<Seq<char>, Seq<Timestamp>>, account: Seq<char>) -> Seq<Timestamp> {
    if m.contains_key(account) {
        m[account]
    } else {
        Seq::empty()
    }
}

/// Whether there is room for one more message.
pub open spec fn has_room(sent: Seq<Timestamp>, now: Timestamp) -> bool {
    young(sent, now, sent.len() as int).len() < MESSAGES_AN_HOUR
}

/// The messages that count after one more was asked for: it counts if there was room for it.
pub open spec fn paced(sent: Seq<Timestamp>, now: Timestamp) -> Seq<Timestamp> {
    let kept = young(sent, now, sent.len() as int);
    if has_room(sent, now) {
        kept.push(now)
    } else {
        kept
    }
}

/// The messages of the last hour, by account.
pub struct Limiter {
    pub sent: Table<String, Sent>,
}

impl Limiter {
    pub open spec fn wf(&self) -> bool {
        self.sent.wf()
    }

    pub fn new() -> (r: Limiter)
        ensures
            r.wf(),
            r.sent@ == Map::<Seq<char>, Seq<Timestamp>>::empty(),
    {
        Limiter { sent: Table::new() }
    }

    /// Whether an account may be sent one more message, which is then counted.
    pub fn room(&mut self, account: &str, now: Timestamp) -> (r: bool)
        requires
            old(self).wf(),
        ensures
            final(self).wf(),
            r == has_room(sent_to(old(self).sent@, account@), now),
            final(self).sent@ == old(self).sent@.insert(account@, paced(sent_to(old(self).sent@, account@), now)),
    {
        let ghost m = self.sent@;
        let k = account.to_owned();
        let at = match self.sent.remove(&k) {
            Some(s) => s.at,
            None => Vec::new(),
        };
        let ghost all = sent_to(m, account@);
        assert(at@ =~= all);
        let mut kept: Vec<Timestamp> = Vec::new();
        let mut i: usize = 0;
        while i < at.len()
            invariant
                i <= at@.len(),
                kept@ == young(at@, now, i as int),
            decreases at@.len() - i,
        {
            if now.since(at[i]) < HOUR_NANOS {
                kept.push(at[i]);
            }
            i += 1;
        }
        let r = kept.len() < MESSAGES_AN_HOUR;
        if r {
            kept.push(now);
        }
        let s = Sent { at: kept };
        self.sent.insert(k, s);
        assert(self.sent@ =~= m.insert(account@, paced(all, now)));
        r
    }
}

proof fn lemma_young_fewer(sent: Seq<Timestamp>, now: Timestamp, n: int)
    requires
        0 <= n <= sent.len(),
    ensures
        young(sent, now, n).len() <= n,
    decreases n,
{
    if n > 0 {
        lemma_young_fewer(sent, now, n - 1);
    }
}

proof fn lemma_young_stays(sent: Seq<Timestamp>, now: Timestamp, n: int, i: int)
    requires
        0 <= i < n <= sent.len(),
        is_young(sent[i], now),
    ensures
        young(sent, now, n).contains(sent[i]),
    decreases n,
{
    if i < n - 1 {
        lemma_young_stays(sent, now, n - 1, i);
        let before = young(sent, now, n - 1);
        let k = choose|k: int| 0 <= k < before.len() && before[k] == sent[i];
        assert(young(sent, now, n)[k] == sent[i]);
    } else {
        assert(young(sent, now, n).last() == sent[i]);
    }
}

/// No account is sent more messages within an hour than it may be: at most that many count after
/// each that was asked for, and one that went out counts until it is an hour old.
pub proof fn law_messages_are_limited(sent: Seq<Timestamp>, now: Timestamp)
    requires
        sent.len() <= MESSAGES_AN_HOUR,
    ensures
        paced(sent, now).len() <= MESSAGES_AN_HOUR,
        forall|i: int|
            0 <= i < sent.len() && is_young(#[trigger] sent[i], now) ==> paced(sent, now).contains(sent[i]),
        has_room(sent, now) ==> paced(sent, now).last() == now,
{
    let n = sent.len() as int;
    lemma_young_fewer(sent, now, n);
    assert forall|i: int| 0 <= i < sent.len() && is_young(#[trigger] sent[i], now) implies paced(sent, now).contains(
        sent[i],
    ) by {
        lemma_young_stays(sent, now, n, i);
        let kept = young(sent, now, n);
        let k = choose|k: int| 0 <= k < kept.len() && kept[k] == sent[i];
        assert(paced(sent, now)[k] == sent[i]);
    }
}

/// There is room for a message exactly while fewer than twelve went out within the last hour.
pub proof fn law_there_is_room_for_twelve_an_hour(sent: Seq<Timestamp>, now: Timestamp)
    ensures
        has_room(sent, now) <==> sent.filter(|t: Timestamp| now.at() - t.at() < 60 * 60 * 1_000_000_000).len() < 12,
{
    lemma_young_is_filter(sent, now, sent.len() as int);
    assert(sent.take(sent.len() as int) =~= sent);
}

proof fn lemma_young_is_filter(sent: Seq<Timestamp>, now: Timestamp, n: int)
    requires
        0 <= n <= sent.len(),
    ensures
        young(sent, now, n) == sent.take(n).filter(|t: Timestamp| now.at() - t.at() < 60 * 60 * 1_000_000_000),
    decreases n,
{
    reveal(Seq::filter);
    if n > 0 {
        lemma_young_is_filter(sent, now, n - 1);
        assert(sent.take(n).drop_last() =~= sent.take(n - 1));
        assert(sent.take(n).last() == sent[n - 1]);
    }
}

} // verus!
