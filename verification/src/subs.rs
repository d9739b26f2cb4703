//! Which instruments each feed streams: pinned ones (open exposure) always, then the most
//! recently queried, up to the feed's cap.
use crate::broker::world::id_views;
use crate::domain::{InstrumentId, Venue};
use crate::table::Key;
use std::collections::VecDeque;
use vstd::prelude::*;

verus! {

/// The first occurrence of each element, in order.
pub open spec fn firsts<A>(s: Seq<A>) -> Seq<A>
    decreases s.len(),
{
    if s.len() == 0 {
        s
    } else if firsts(s.drop_last()).contains(s.last()) {
        firsts(s.drop_last())
    } else {
        firsts(s.drop_last()).push(s.last())
    }
}

/// The beginning of a sequence, at most `n` long.
pub open spec fn at_most<A>(s: Seq<A>, n: int) -> Seq<A> {
    if s.len() <= n {
        s
    } else {
        s.take(n)
    }
}

/// What a feed streams: the pinned instruments, then the recent ones, none twice, up to the cap.
pub open spec fn selection(
    pinned: Seq<(Venue, Seq<char>)>,
    recent: Seq<(Venue, Seq<char>)>,
    cap: int,
) -> Seq<(Venue, Seq<char>)> {
    at_most(firsts(pinned + recent), cap)
}

pub proof fn lemma_firsts<A>(s: Seq<A>)
    ensures
        firsts(s).no_duplicates(),
        forall|x: A| #[trigger] firsts(s).contains(x) <==> s.contains(x),
        firsts(s).len() <= s.len(),
    decreases s.len(),
{
    if s.len() > 0 {
        let head = s.drop_last();
        lemma_firsts(head);
        assert forall|x: A| #[trigger] firsts(s).contains(x) <==> s.contains(x) by {
            if s.contains(x) {
                let i = choose|i: int| 0 <= i < s.len() && s[i] == x;
                if i < s.len() - 1 {
                    assert(head[i] == x);
                    assert(firsts(head).contains(x));
                    let k = choose|k: int| 0 <= k < firsts(head).len() && firsts(head)[k] == x;
                    assert(firsts(s)[k] == x);
                } else if !firsts(head).contains(x) {
                    assert(firsts(s)[firsts(head).len() as int] == x);
                }
            }
            if firsts(s).contains(x) {
                let k = choose|k: int| 0 <= k < firsts(s).len() && firsts(s)[k] == x;
                if k < firsts(head).len() {
                    assert(firsts(head)[k] == x);
                    assert(firsts(head).contains(x));
                    let i = choose|i: int| 0 <= i < head.len() && head[i] == x;
                    assert(s[i] == x);
                } else {
                    assert(s[s.len() - 1] == x);
                }
            }
        }
    }
}

/// The first occurrences in the beginning of a sequence begin those of the whole.
pub proof fn lemma_firsts_prefix<A>(s: Seq<A>, i: int)
    requires
        0 <= i <= s.len(),
    ensures
        firsts(s.take(i)).len() <= firsts(s).len(),
        firsts(s).take(firsts(s.take(i)).len() as int) == firsts(s.take(i)),
    decreases s.len() - i,
{
    if i == s.len() {
        assert(s.take(i) =~= s);
        assert(firsts(s).take(firsts(s).len() as int) =~= firsts(s));
    } else {
        lemma_firsts_prefix(s, i + 1);
        assert(s.take(i + 1).drop_last() =~= s.take(i));
        let a = firsts(s.take(i));
        let b = firsts(s.take(i + 1));
        assert(b.take(a.len() as int) =~= a);
        assert(firsts(s).take(a.len() as int) =~= firsts(s).take(b.len() as int).take(a.len() as int));
    }
}

/// A selection has nothing twice and keeps to the cap; and as long as the pinned instruments fit
/// under the cap they are all in it, whatever else was queried.
pub proof fn law_pinned_are_never_evicted(
    pinned: Seq<(Venue, Seq<char>)>,
    recent: Seq<(Venue, Seq<char>)>,
    cap: int,
)
    requires
        0 <= cap,
    ensures
        selection(pinned, recent, cap).no_duplicates(),
        selection(pinned, recent, cap).len() <= cap,
        firsts(pinned).len() <= cap ==> forall|x: (Venue, Seq<char>)|
            #[trigger] pinned.contains(x) ==> selection(pinned, recent, cap).contains(x),
        forall|x: (Venue, Seq<char>)| #[trigger]
            selection(pinned, recent, cap).contains(x) ==> pinned.contains(x) || recent.contains(x),
{
    let all = pinned + recent;
    let picked = selection(pinned, recent, cap);
    lemma_firsts(all);
    lemma_firsts(pinned);
    lemma_firsts_prefix(all, pinned.len() as int);
    assert(all.take(pinned.len() as int) =~= pinned);
    if firsts(pinned).len() <= cap {
        assert forall|x: (Venue, Seq<char>)| #[trigger] pinned.contains(x) implies picked.contains(x) by {
            assert(firsts(pinned).contains(x));
            let k = choose|k: int| 0 <= k < firsts(pinned).len() && firsts(pinned)[k] == x;
            assert(firsts(all).take(firsts(pinned).len() as int)[k] == x);
            assert(picked[k] == x);
        }
    }
    assert forall|x: (Venue, Seq<char>)| #[trigger] picked.contains(x) implies pinned.contains(x) || recent.contains(
        x,
    ) by {
        let k = choose|k: int| 0 <= k < picked.len() && picked[k] == x;
        assert(firsts(all)[k] == x);
        assert(firsts(all).contains(x));
        let i = choose|i: int| 0 <= i < all.len() && all[i] == x;
        if i < pinned.len() {
            assert(pinned[i] == x);
        } else {
            assert(recent[i - pinned.len()] == x);
        }
    }
}

fn has_id(ids: &Vec<InstrumentId>, id: &InstrumentId) -> (r: bool)
    ensures
        r == id_views(ids@).contains(id@),
{
    let mut i: usize = 0;
    while i < ids.len()
        invariant
            i <= ids@.len(),
            forall|j: int| 0 <= j < i ==> id_views(ids@)[j] != id@,
        decreases ids@.len() - i,
    {
        if ids[i].same_key(id) {
            assert(id_views(ids@)[i as int] == id@);
            return true;
        }
        i += 1;
    }
    false
}

fn same_ids(a: &Vec<InstrumentId>, b: &Vec<InstrumentId>) -> (r: bool)
    ensures
        r == (id_views(a@) == id_views(b@)),
{
    if a.len() != b.len() {
        assert(id_views(a@).len() != id_views(b@).len());
        return false;
    }
    let mut i: usize = 0;
    while i < a.len()
        invariant
            i <= a@.len(),
            a@.len() == b@.len(),
            forall|j: int| 0 <= j < i ==> id_views(a@)[j] == id_views(b@)[j],
        decreases a@.len() - i,
    {
        if !a[i].same_key(&b[i]) {
            assert(id_views(a@)[i as int] != id_views(b@)[i as int]);
            return false;
        }
        i += 1;
    }
    assert(id_views(a@) =~= id_views(b@));
    true
}

/// The pinned instruments, then the recent ones, none twice, up to the cap.
pub fn select(pinned: &[InstrumentId], recent: &VecDeque<InstrumentId>, cap: usize) -> (out: Vec<InstrumentId>)
    ensures
        id_views(out@) == selection(id_views(pinned@), id_views(recent@), cap as int),
{
    let ghost all = id_views(pinned@) + id_views(recent@);
    let mut out: Vec<InstrumentId> = Vec::new();
    assert(id_views(out@) =~= Seq::<(Venue, Seq<char>)>::empty());
    assert(all.take(0) =~= Seq::<(Venue, Seq<char>)>::empty());
    let mut i: usize = 0;
    while i < pinned.len() && out.len() < cap
        invariant
            i <= pinned@.len(),
            all == id_views(pinned@) + id_views(recent@),
            id_views(out@) == firsts(all.take(i as int)),
            out@.len() <= cap,
        decreases pinned@.len() - i,
    {
        assert(all.take(i + 1).drop_last() =~= all.take(i as int));
        assert(all[i as int] == pinned@[i as int]@);
        let ghost before = id_views(out@);
        if !has_id(&out, &pinned[i]) {
            out.push(pinned[i].clone());
            assert(id_views(out@) =~= before.push(pinned@[i as int]@));
        }
        i += 1;
    }
    if i < pinned.len() {
        proof {
            lemma_firsts_prefix(all, i as int);
            assert(id_views(out@).len() == out@.len());
            if firsts(all).len() == cap {
                assert(firsts(all).take(cap as int) =~= firsts(all));
            }
        }
        return out;
    }
    let mut j: usize = 0;
    while j < recent.len() && out.len() < cap
        invariant
            j <= recent@.len(),
            all == id_views(pinned@) + id_views(recent@),
            id_views(out@) == firsts(all.take(pinned@.len() + j)),
            out@.len() <= cap,
        decreases recent@.len() - j,
    {
        let ghost k = pinned@.len() + j;
        assert(all.take(k + 1).drop_last() =~= all.take(k));
        assert(all[k] == recent@[j as int]@);
        let ghost before = id_views(out@);
        if !has_id(&out, &recent[j]) {
            out.push(recent[j].clone());
            assert(id_views(out@) =~= before.push(recent@[j as int]@));
        }
        j += 1;
    }
    proof {
        lemma_firsts_prefix(all, pinned@.len() + j);
        assert(id_views(out@).len() == out@.len());
        if j == recent@.len() {
            assert(all.take(pinned@.len() + j) =~= all);
        }
        if firsts(all).len() == out@.len() {
            assert(firsts(all).take(out@.len() as int) =~= firsts(all));
        }
    }
    out
}

/// Everything but `id`.
pub open spec fn without(s: Seq<(Venue, Seq<char>)>, id: (Venue, Seq<char>)) -> Seq<(Venue, Seq<char>)>
    decreases s.len(),
{
    if s.len() == 0 {
        s
    } else if s.last() == id {
        without(s.drop_last(), id)
    } else {
        without(s.drop_last(), id).push(s.last())
    }
}

/// What one feed is subscribed to.
pub struct Subscriptions {
    pub cap: usize,
    pub pinned: Vec<InstrumentId>,
    pub recent: VecDeque<InstrumentId>,
    pub set: Vec<InstrumentId>,
}

impl Subscriptions {
    /// The set that is streamed is always the selection from what is pinned and what is recent.
    pub open spec fn wf(&self) -> bool {
        id_views(self.set@) == selection(id_views(self.pinned@), id_views(self.recent@), self.cap as int)
    }

    pub fn new(cap: usize) -> (r: Subscriptions)
        ensures
            r.wf(),
            r.cap == cap,
            r.pinned@.len() == 0,
            r.recent@.len() == 0,
    {
        let r = Subscriptions { cap, pinned: Vec::new(), recent: VecDeque::new(), set: Vec::new() };
        assert(id_views(r.pinned@) + id_views(r.recent@) =~= Seq::<(Venue, Seq<char>)>::empty());
        assert(id_views(r.set@) =~= Seq::<(Venue, Seq<char>)>::empty());
        r
    }

    fn publish(&mut self) -> (changed: bool)
        ensures
            final(self).wf(),
            final(self).cap == old(self).cap,
            final(self).pinned == old(self).pinned,
            final(self).recent == old(self).recent,
            changed == (id_views(final(self).set@) != id_views(old(self).set@)),
    {
        let set = select(&self.pinned, &self.recent, self.cap);
        if same_ids(&self.set, &set) {
            return false;
        }
        self.set = set;
        true
    }

    /// Marks `id` as just queried. The answer says whether what is streamed has changed.
    pub fn touch(&mut self, id: &InstrumentId) -> (changed: bool)
        ensures
            final(self).wf(),
            final(self).cap == old(self).cap,
            id_views(final(self).pinned@) == id_views(old(self).pinned@),
            id_views(final(self).recent@) == at_most(
                seq![id@] + without(id_views(old(self).recent@), id@),
                old(self).cap as int,
            ),
            changed == (id_views(final(self).set@) != id_views(old(self).set@)),
    {
        let mut recent: VecDeque<InstrumentId> = VecDeque::new();
        recent.push_back(id.clone());
        assert(id_views(recent@) =~= seq![id@] + without(id_views(self.recent@).take(0), id@));
        let mut i: usize = 0;
        while i < self.recent.len()
            invariant
                i <= self.recent@.len(),
                *self == *old(self),
                id_views(recent@) == seq![id@] + without(id_views(self.recent@).take(i as int), id@),
            decreases self.recent@.len() - i,
        {
            let ghost views = id_views(self.recent@);
            let ghost before = id_views(recent@);
            assert(views.take(i + 1).drop_last() =~= views.take(i as int));
            if !self.recent[i].same_key(id) {
                recent.push_back(self.recent[i].clone());
                assert(id_views(recent@) =~= before.push(views[i as int]));
                assert(id_views(recent@) =~= seq![id@] + without(views.take(i + 1), id@));
            }
            i += 1;
        }
        assert(id_views(self.recent@).take(i as int) =~= id_views(self.recent@));
        let ghost full = id_views(recent@);
        recent.truncate(self.cap);
        assert(id_views(recent@) =~= at_most(full, self.cap as int));
        self.recent = recent;
        self.publish()
    }

    /// Replaces the set of instruments that must stay subscribed. The answer says whether what is
    /// streamed has changed.
    pub fn pin(&mut self, ids: Vec<InstrumentId>) -> (changed: bool)
        ensures
            final(self).wf(),
            final(self).cap == old(self).cap,
            final(self).pinned == ids,
            final(self).recent == old(self).recent,
            changed == (id_views(final(self).set@) != id_views(old(self).set@)),
    {
        self.pinned = ids;
        self.publish()
    }

    /// What is streamed.
    pub fn current(&self) -> (r: &Vec<InstrumentId>)
        ensures
            id_views(r@) == id_views(self.set@),
    {
        &self.set
    }
}

/// A selection is as long as it can be: it has every instrument that is pinned or recent, or as many as the
/// cap allows; and what was queried last is in it as soon as the pinned ones leave room.
pub proof fn law_selections_fill_the_cap(
    pinned: Seq<(Venue, Seq<char>)>,
    recent: Seq<(Venue, Seq<char>)>,
    cap: int,
    x: (Venue, Seq<char>),
)
    requires
        0 <= cap,
    ensures
        selection(pinned, recent, cap).len() < cap && (pinned.contains(x) || recent.contains(x)) ==> selection(
            pinned,
            recent,
            cap,
        ).contains(x),
        recent.len() > 0 && firsts(pinned).len() < cap ==> selection(pinned, recent, cap).contains(recent[0]),
{
    let all = pinned + recent;
    lemma_firsts(all);
    if pinned.contains(x) || recent.contains(x) {
        assert(all.contains(x)) by {
            if pinned.contains(x) {
                let i = choose|i: int| 0 <= i < pinned.len() && pinned[i] == x;
                assert(all[i] == x);
            } else {
                let i = choose|i: int| 0 <= i < recent.len() && recent[i] == x;
                assert(all[pinned.len() + i] == x);
            }
        }
        assert(firsts(all).contains(x));
    }
    if recent.len() > 0 && firsts(pinned).len() < cap {
        let n = pinned.len() as int;
        let begin = all.take(n + 1);
        assert(begin.drop_last() =~= pinned);
        assert(begin.last() == recent[0]);
        lemma_firsts(begin);
        lemma_firsts_prefix(all, n + 1);
        assert(begin[n] == recent[0]);
        assert(begin.contains(recent[0]));
        assert(firsts(begin).contains(recent[0]));
        let k = choose|k: int| 0 <= k < firsts(begin).len() && firsts(begin)[k] == recent[0];
        assert(firsts(all).take(firsts(begin).len() as int)[k] == recent[0]);
        assert(selection(pinned, recent, cap)[k] == recent[0]);
    }
}

} // verus!
