//! The accounts of the node and who may use them.
use crate::broker::world::won_per;
use crate::decimal::Decimal;
use crate::domain::Currency;
use crate::screen::text_view;
use crate::text::{lemma_lex_irreflexive, lemma_lex_transitive, lex_less, same_text, text_before};
use vstd::prelude::*;

verus! {

#[derive(Debug)]
pub struct AccountRow {
    pub id: String,
    pub name: String,
    /// The agent that trades the account, if it was given to one.
    pub agent_id: Option<String>,
    pub generation: i32,
}

/// What is known of an account.
pub ghost struct AccountRowView {
    pub id: Seq<char>,
    pub name: Seq<char>,
    pub agent_id: Option<Seq<char>>,
    pub generation: i32,
}

impl View for AccountRow {
    type V = AccountRowView;

    open spec fn view(&self) -> AccountRowView {
        AccountRowView {
            id: self.id@,
            name: self.name@,
            agent_id: text_view(self.agent_id),
            generation: self.generation,
        }
    }
}

impl Clone for AccountRow {
    fn clone(&self) -> (r: AccountRow)
        ensures
            r@ == self@,
    {
        AccountRow {
            id: self.id.clone(),
            name: self.name.clone(),
            agent_id: match &self.agent_id {
                Some(a) => Some(a.clone()),
                None => None,
            },
            generation: self.generation,
        }
    }
}

/// Rows as what they say.
pub open spec fn account_views(rows: Seq<AccountRow>) -> Seq<AccountRowView> {
    rows.map_values(|r: AccountRow| r@)
}

/// A row put into its place among rows in dictionary order of their ids.
pub open spec fn account_in(rows: Seq<AccountRowView>, r: AccountRowView) -> Seq<AccountRowView>
    decreases rows.len(),
{
    if rows.len() > 0 && lex_less(r.id, rows.last().id) {
        account_in(rows.drop_last(), r).push(rows.last())
    } else {
        rows.push(r)
    }
}

/// The accounts that an agent may use, in dictionary order of their ids.
pub open spec fn for_agents(rows: Seq<AccountRowView>) -> Seq<AccountRowView>
    decreases rows.len(),
{
    if rows.len() == 0 {
        rows
    } else if rows.last().agent_id is Some {
        account_in(for_agents(rows.drop_last()), rows.last())
    } else {
        for_agents(rows.drop_last())
    }
}

fn put_account(rows: &mut Vec<AccountRow>, r: AccountRow)
    ensures
        account_views(final(rows)@) == account_in(account_views(old(rows)@), r@),
{
    let ghost whole = account_views(rows@);
    let ghost rv = r@;
    let mut i: usize = rows.len();
    assert(whole.take(whole.len() as int) =~= whole);
    assert(account_in(whole, rv) + whole.skip(whole.len() as int) =~= account_in(whole, rv));
    while i > 0 && text_before(r.id.as_str(), rows[i - 1].id.as_str())
        invariant
            i <= rows@.len(),
            account_views(rows@) == whole,
            rv == r@,
            account_in(whole, rv) == account_in(whole.take(i as int), rv) + whole.skip(i as int),
        decreases i,
    {
        proof {
            let head = whole.take(i as int);
            assert(head.last() == rows@[i - 1]@);
            assert(head.drop_last() =~= whole.take(i - 1));
            assert(account_in(head.drop_last(), rv).push(head.last()) + whole.skip(i as int) =~= account_in(
                head.drop_last(),
                rv,
            ) + whole.skip(i - 1));
        }
        i -= 1;
    }
    proof {
        if i > 0 {
            assert(whole.take(i as int).last() == rows@[i - 1]@);
        }
        assert(whole.take(i as int).push(rv) + whole.skip(i as int) =~= whole.insert(i as int, rv));
    }
    rows.insert(i, r);
    assert(account_views(rows@) =~= whole.insert(i as int, rv));
}

/// Accounts an agent may use: the ones with an agent id, sorted by id.
pub fn agent_accounts(rows: &[AccountRow]) -> (r: Vec<AccountRow>)
    ensures
        account_views(r@) == for_agents(account_views(rows@)),
{
    let mut out: Vec<AccountRow> = Vec::new();
    assert(account_views(out@) =~= Seq::<AccountRowView>::empty());
    let mut i: usize = 0;
    while i < rows.len()
        invariant
            i <= rows@.len(),
            account_views(out@) == for_agents(account_views(rows@).take(i as int)),
        decreases rows@.len() - i,
    {
        assert(account_views(rows@).take(i + 1).drop_last() =~= account_views(rows@).take(i as int));
        assert(account_views(rows@)[i as int] == rows@[i as int]@);
        if rows[i].agent_id.is_some() {
            put_account(&mut out, rows[i].clone());
        }
        i += 1;
    }
    assert(account_views(rows@).take(i as int) =~= account_views(rows@));
    out
}

/// The account an agent asked for, from index `i` on: only one that was given to an agent.
pub open spec fn account_for(rows: Seq<AccountRowView>, id: Seq<char>, i: int) -> Option<AccountRowView>
    decreases rows.len() - i,
{
    if i >= rows.len() {
        None
    } else if rows[i].id == id && rows[i].agent_id is Some {
        Some(rows[i])
    } else {
        account_for(rows, id, i + 1)
    }
}

/// The account with an id, if an agent may use it.
pub fn agent_account(rows: &[AccountRow], id: &str) -> (r: Option<AccountRow>)
    ensures
        match account_for(account_views(rows@), id@, 0) {
            Some(a) => r matches Some(x) && x@ == a,
            None => r is None,
        },
{
    let mut i: usize = 0;
    while i < rows.len()
        invariant
            i <= rows@.len(),
            account_for(account_views(rows@), id@, 0) == account_for(account_views(rows@), id@, i as int),
        decreases rows@.len() - i,
    {
        assert(account_views(rows@)[i as int] == rows@[i as int]@);
        if same_text(rows[i].id.as_str(), id) && rows[i].agent_id.is_some() {
            return Some(rows[i].clone());
        }
        i += 1;
    }
    None
}

/// KRW per unit of `c`; USDT counts as USD.
pub fn krw_per(c: Currency, usd_krw: Decimal) -> (r: Decimal)
    ensures
        r == won_per(c, usd_krw),
{
    if c == Currency::Krw {
        Decimal::one()
    } else {
        usd_krw
    }
}

/// Whether the rows are in dictionary order of their ids.
pub open spec fn ids_in_order(rows: Seq<AccountRowView>) -> bool {
    forall|i: int, j: int| 0 <= i < j < rows.len() ==> !lex_less((#[trigger] rows[j]).id, (#[trigger] rows[i]).id)
}

proof fn lemma_account_in(rows: Seq<AccountRowView>, r: AccountRowView)
    requires
        ids_in_order(rows),
        forall|i: int| 0 <= i < rows.len() ==> (#[trigger] rows[i]).agent_id is Some,
        r.agent_id is Some,
    ensures
        ids_in_order(account_in(rows, r)),
        forall|i: int|
            0 <= i < account_in(rows, r).len() ==> (#[trigger] account_in(rows, r)[i] == r || rows.contains(
                account_in(rows, r)[i],
            )),
        forall|i: int| 0 <= i < account_in(rows, r).len() ==> (#[trigger] account_in(rows, r)[i]).agent_id is Some,
    decreases rows.len(),
{
    if rows.len() > 0 && lex_less(r.id, rows.last().id) {
        let head = rows.drop_last();
        let last = rows.last();
        assert(forall|i: int| 0 <= i < head.len() ==> #[trigger] head[i] == rows[i]);
        lemma_account_in(head, r);
        let placed = account_in(head, r);
        let whole = placed.push(last);
        assert forall|i: int| 0 <= i < placed.len() implies !lex_less(last.id, (#[trigger] placed[i]).id) by {
            if placed[i] != r {
                let k = choose|k: int| 0 <= k < head.len() && head[k] == placed[i];
                assert(!lex_less(rows[rows.len() - 1].id, rows[k].id));
            } else if lex_less(last.id, r.id) {
                lemma_lex_transitive(last.id, r.id, last.id, 0);
                lemma_lex_irreflexive(last.id, 0);
            }
        }
        assert forall|i: int| 0 <= i < whole.len() implies (#[trigger] whole[i] == r || rows.contains(whole[i])) by {
            if i < placed.len() {
                if placed[i] != r {
                    let k = choose|k: int| 0 <= k < head.len() && head[k] == placed[i];
                    assert(rows[k] == placed[i]);
                }
            } else {
                assert(rows[rows.len() - 1] == last);
            }
        }
    } else {
        let whole = rows.push(r);
        assert forall|i: int| 0 <= i < rows.len() implies !lex_less(r.id, (#[trigger] rows[i]).id) by {
            if lex_less(r.id, rows[i].id) && i < rows.len() - 1 {
                assert(r.id.take(0) =~= rows.last().id.take(0));
                crate::text::lemma_lex_total(r.id, rows.last().id, 0);
                assert(!lex_less(rows[rows.len() - 1].id, rows[i].id));
                if rows.last().id != r.id {
                    lemma_lex_transitive(rows.last().id, r.id, rows[i].id, 0);
                }
            }
        }
        assert forall|i: int| 0 <= i < whole.len() implies (#[trigger] whole[i] == r || rows.contains(whole[i])) by {
            if i < rows.len() {
                assert(rows[i] == whole[i]);
            }
        }
    }
}

/// What agents get to see is in order, and all of it was given to an agent.
pub proof fn law_agents_see_their_accounts_in_order(rows: Seq<AccountRowView>)
    ensures
        ids_in_order(for_agents(rows)),
        forall|i: int| 0 <= i < for_agents(rows).len() ==> (#[trigger] for_agents(rows)[i]).agent_id is Some,
    decreases rows.len(),
{
    if rows.len() > 0 {
        law_agents_see_their_accounts_in_order(rows.drop_last());
        if rows.last().agent_id is Some {
            lemma_account_in(for_agents(rows.drop_last()), rows.last());
        }
    }
}

} // verus!
