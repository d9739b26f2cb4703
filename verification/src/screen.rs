//! Venue rankings for discovering what to look at.
use crate::decimal::Decimal;
use crate::domain::{InstrumentId, Venue};
use crate::subs::at_most;
use crate::text::{same_text, trim, trimmed};
use vstd::prelude::*;

verus! {

#[derive(Debug, Clone, Copy, PartialEq, Eq, Structural)]
pub enum Ranking {
    Gainers,
    Losers,
    Volume,
    Value,
}

impl Ranking {
    /// The ranking with a given name.
    pub open spec fn named(s: Seq<char>) -> Option<Ranking> {
        if s == "gainers"@ {
            Some(Ranking::Gainers)
        } else if s == "losers"@ {
            Some(Ranking::Losers)
        } else if s == "volume"@ {
            Some(Ranking::Volume)
        } else if s == "value"@ {
            Some(Ranking::Value)
        } else {
            None
        }
    }

    /// Reads a name, white space around it aside.
    pub fn parse(s: &str) -> (r: Option<Ranking>)
        ensures
            r == Ranking::named(trimmed(s@)),
    {
        let t = trim(s);
        let t = t.as_str();
        if same_text(t, "gainers") {
            Some(Ranking::Gainers)
        } else if same_text(t, "losers") {
            Some(Ranking::Losers)
        } else if same_text(t, "volume") {
            Some(Ranking::Volume)
        } else if same_text(t, "value") {
            Some(Ranking::Value)
        } else {
            None
        }
    }
}

#[derive(Debug)]
pub struct ScreenRow {
    pub id: InstrumentId,
    pub name: Option<String>,
    pub price: Decimal,
    /// Change versus the previous close (24 h for crypto), percent.
    pub change_pct: Decimal,
    pub volume: Decimal,
    /// Traded value in the quote currency.
    pub value: Decimal,
}

/// What one row of a screen says.
pub ghost struct ScreenRowView {
    pub id: (Venue, Seq<char>),
    pub name: Option<Seq<char>>,
    pub price: Decimal,
    pub change_pct: Decimal,
    pub volume: Decimal,
    pub value: Decimal,
}

/// An optional text, as what it says.
pub open spec fn text_view(s: Option<String>) -> Option<Seq<char>> {
    match s {
        Some(t) => Some(t@),
        None => None,
    }
}

impl View for ScreenRow {
    type V = ScreenRowView;

    open spec fn view(&self) -> ScreenRowView {
        ScreenRowView {
            id: self.id@,
            name: text_view(self.name),
            price: self.price,
            change_pct: self.change_pct,
            volume: self.volume,
            value: self.value,
        }
    }
}

impl Clone for ScreenRow {
    fn clone(&self) -> (r: ScreenRow)
        ensures
            r@ == self@,
    {
        ScreenRow {
            id: self.id.clone(),
            name: match &self.name {
                Some(n) => Some(n.clone()),
                None => None,
            },
            price: self.price,
            change_pct: self.change_pct,
            volume: self.volume,
            value: self.value,
        }
    }
}

/// Whether a row ranks strictly better than another.
pub open spec fn better(a: ScreenRowView, b: ScreenRowView, ranking: Ranking) -> bool {
    match ranking {
        Ranking::Gainers => a.change_pct.value() > b.change_pct.value(),
        Ranking::Losers => a.change_pct.value() < b.change_pct.value(),
        Ranking::Volume => a.volume.value() > b.volume.value(),
        Ranking::Value => a.value.value() > b.value.value(),
    }
}

/// A row put into its place among ranked ones: behind every one that it is not better than.
pub open spec fn ranked_in(rows: Seq<ScreenRowView>, r: ScreenRowView, ranking: Ranking) -> Seq<ScreenRowView>
    decreases rows.len(),
{
    if rows.len() > 0 && better(r, rows.last(), ranking) {
        ranked_in(rows.drop_last(), r, ranking).push(rows.last())
    } else {
        rows.push(r)
    }
}

/// The rows, best first; equals stay as they came.
pub open spec fn ranked(rows: Seq<ScreenRowView>, ranking: Ranking) -> Seq<ScreenRowView>
    decreases rows.len(),
{
    if rows.len() == 0 {
        rows
    } else {
        ranked_in(ranked(rows.drop_last(), ranking), rows.last(), ranking)
    }
}

/// Rows as what they say.
pub open spec fn row_views(rows: Seq<ScreenRow>) -> Seq<ScreenRowView> {
    rows.map_values(|r: ScreenRow| r@)
}

fn is_better(a: &ScreenRow, b: &ScreenRow, ranking: Ranking) -> (r: bool)
    ensures
        r == better(a@, b@, ranking),
{
    match ranking {
        Ranking::Gainers => b.change_pct.lt(a.change_pct),
        Ranking::Losers => a.change_pct.lt(b.change_pct),
        Ranking::Volume => b.volume.lt(a.volume),
        Ranking::Value => b.value.lt(a.value),
    }
}

fn rank_in(rows: &mut Vec<ScreenRow>, r: ScreenRow, ranking: Ranking)
    ensures
        row_views(final(rows)@) == ranked_in(row_views(old(rows)@), r@, ranking),
{
    let ghost whole = row_views(rows@);
    let ghost rv = r@;
    let mut i: usize = rows.len();
    assert(whole.take(whole.len() as int) =~= whole);
    assert(ranked_in(whole, rv, ranking) + whole.skip(whole.len() as int) =~= ranked_in(whole, rv, ranking));
    while i > 0 && is_better(&r, &rows[i - 1], ranking)
        invariant
            i <= rows@.len(),
            row_views(rows@) == whole,
            rv == r@,
            ranked_in(whole, rv, ranking) == ranked_in(whole.take(i as int), rv, ranking) + whole.skip(i as int),
        decreases i,
    {
        proof {
            let head = whole.take(i as int);
            assert(head.last() == rows@[i - 1]@);
            assert(head.drop_last() =~= whole.take(i - 1));
            assert(ranked_in(head.drop_last(), rv, ranking).push(head.last()) + whole.skip(i as int) =~= ranked_in(
                head.drop_last(),
                rv,
                ranking,
            ) + whole.skip(i - 1));
        }
        i -= 1;
    }
    proof {
        if i > 0 {
            assert(whole.take(i as int).last() == rows@[i - 1]@);
        }
        assert(whole.take(i as int).push(rv) + whole.skip(i as int) =~= whole.insert(i as int, rv));
    }
    rows.insert(i, r);
    assert(row_views(rows@) =~= whole.insert(i as int, rv));
}

/// Sorts `rows` by `ranking` (best first) and keeps `limit`.
pub fn rank(rows: Vec<ScreenRow>, ranking: Ranking, limit: usize) -> (r: Vec<ScreenRow>)
    ensures
        row_views(r@) == at_most(ranked(row_views(rows@), ranking), limit as int),
{
    let mut out: Vec<ScreenRow> = Vec::new();
    assert(row_views(out@) =~= Seq::<ScreenRowView>::empty());
    let mut i: usize = 0;
    while i < rows.len()
        invariant
            i <= rows@.len(),
            row_views(out@) == ranked(row_views(rows@).take(i as int), ranking),
        decreases rows@.len() - i,
    {
        assert(row_views(rows@).take(i + 1).drop_last() =~= row_views(rows@).take(i as int));
        rank_in(&mut out, rows[i].clone(), ranking);
        i += 1;
    }
    assert(row_views(rows@).take(i as int) =~= row_views(rows@));
    let ghost full = row_views(out@);
    out.truncate(limit);
    assert(row_views(out@) =~= at_most(full, limit as int));
    out
}

/// Whether no row is better than one before it.
pub open spec fn best_first(rows: Seq<ScreenRowView>, ranking: Ranking) -> bool {
    forall|i: int, j: int| 0 <= i < j < rows.len() ==> !better(#[trigger] rows[j], #[trigger] rows[i], ranking)
}

proof fn lemma_ranked_in(rows: Seq<ScreenRowView>, r: ScreenRowView, ranking: Ranking)
    requires
        best_first(rows, ranking),
    ensures
        best_first(ranked_in(rows, r, ranking), ranking),
        ranked_in(rows, r, ranking).to_multiset() == rows.to_multiset().insert(r),
        forall|i: int|
            0 <= i < ranked_in(rows, r, ranking).len() ==> (#[trigger] ranked_in(rows, r, ranking)[i] == r
                || rows.contains(ranked_in(rows, r, ranking)[i])),
    decreases rows.len(),
{
    broadcast use vstd::seq_lib::group_to_multiset_ensures;

    if rows.len() > 0 && better(r, rows.last(), ranking) {
        let head = rows.drop_last();
        let last = rows.last();
        lemma_ranked_in(head, r, ranking);
        let placed = ranked_in(head, r, ranking);
        let whole = placed.push(last);
        assert(rows =~= head.push(last));
        assert forall|i: int| 0 <= i < placed.len() implies !better(last, #[trigger] placed[i], ranking) by {
            if placed[i] != r {
                let k = choose|k: int| 0 <= k < head.len() && head[k] == placed[i];
                assert(rows[k] == head[k]);
                assert(!better(rows[rows.len() - 1], rows[k], ranking));
            }
        }
        assert forall|i: int| 0 <= i < whole.len() implies (#[trigger] whole[i] == r || rows.contains(whole[i])) by {
            if i < placed.len() {
                assert(placed[i] == r || head.contains(placed[i]));
                if head.contains(placed[i]) {
                    let k = choose|k: int| 0 <= k < head.len() && head[k] == placed[i];
                    assert(rows[k] == placed[i]);
                }
            } else {
                assert(rows[rows.len() - 1] == last);
            }
        }
        assert(whole.to_multiset() =~= rows.to_multiset().insert(r));
    } else {
        let whole = rows.push(r);
        assert forall|i: int| 0 <= i < rows.len() implies !better(r, #[trigger] rows[i], ranking) by {
            if i < rows.len() - 1 {
                assert(!better(rows[rows.len() - 1], rows[i], ranking));
            }
        }
        assert forall|i: int| 0 <= i < whole.len() implies (#[trigger] whole[i] == r || rows.contains(whole[i])) by {
            if i < rows.len() {
                assert(rows[i] == whole[i]);
            }
        }
    }
}

/// The rows that are neither better nor worse than `r`, in order.
pub open spec fn tied_with(rows: Seq<ScreenRowView>, r: ScreenRowView, ranking: Ranking) -> Seq<ScreenRowView>
    decreases rows.len(),
{
    if rows.len() == 0 {
        rows
    } else {
        let before = tied_with(rows.drop_last(), r, ranking);
        if !better(rows.last(), r, ranking) && !better(r, rows.last(), ranking) {
            before.push(rows.last())
        } else {
            before
        }
    }
}

proof fn lemma_ties_in(rows: Seq<ScreenRowView>, r: ScreenRowView, ranking: Ranking, t: ScreenRowView)
    ensures
        tied_with(ranked_in(rows, r, ranking), t, ranking) == tied_with(rows.push(r), t, ranking),
    decreases rows.len(),
{
    assert(rows.push(r).drop_last() =~= rows);
    if rows.len() > 0 && better(r, rows.last(), ranking) {
        let head = rows.drop_last();
        let placed = ranked_in(head, r, ranking);
        lemma_ties_in(head, r, ranking, t);
        let whole = placed.push(rows.last());
        assert(ranked_in(rows, r, ranking) == whole);
        assert(whole.drop_last() =~= placed);
        assert(whole.last() == rows.last());
        assert(head.push(r).drop_last() =~= head);
        assert(head.push(r).last() == r && rows.push(r).last() == r);
        let tie = |x: ScreenRowView| !better(x, t, ranking) && !better(t, x, ranking);
        assert(!(tie(r) && tie(rows.last())));
        assert(tied_with(rows.push(r), t, ranking) == if tie(r) {
            tied_with(rows, t, ranking).push(r)
        } else {
            tied_with(rows, t, ranking)
        });
        assert(tied_with(head.push(r), t, ranking) == if tie(r) {
            tied_with(head, t, ranking).push(r)
        } else {
            tied_with(head, t, ranking)
        });
    }
}

/// Ranking keeps every row and puts the best first; rows that tie stay in the order in which they
/// came.
pub proof fn law_ranking_sorts(rows: Seq<ScreenRowView>, ranking: Ranking)
    ensures
        best_first(ranked(rows, ranking), ranking),
        ranked(rows, ranking).to_multiset() == rows.to_multiset(),
        forall|t: ScreenRowView| #[trigger] tied_with(ranked(rows, ranking), t, ranking) == tied_with(rows, t, ranking),
    decreases rows.len(),
{
    broadcast use vstd::seq_lib::group_to_multiset_ensures;

    if rows.len() > 0 {
        let head = ranked(rows.drop_last(), ranking);
        law_ranking_sorts(rows.drop_last(), ranking);
        lemma_ranked_in(head, rows.last(), ranking);
        assert(rows =~= rows.drop_last().push(rows.last()));
        assert forall|t: ScreenRowView| #[trigger] tied_with(ranked(rows, ranking), t, ranking) == tied_with(
            rows,
            t,
            ranking,
        ) by {
            lemma_ties_in(head, rows.last(), ranking, t);
            assert(head.push(rows.last()).drop_last() =~= head);
            assert(tied_with(head, t, ranking) == tied_with(rows.drop_last(), t, ranking));
        }
    }
}

/// What a ranking puts first: gainers the largest change, losers the smallest, and the others the largest
/// volume or value. No more rows are given than were asked for, and they are the first.
pub proof fn law_rankings_go_by_what_they_name(rows: Seq<ScreenRowView>, ranking: Ranking, i: int, j: int)
    requires
        0 <= i < j < ranked(rows, ranking).len(),
    ensures
        ({
            let a = ranked(rows, ranking)[i];
            let b = ranked(rows, ranking)[j];
            match ranking {
                Ranking::Gainers => a.change_pct.value() >= b.change_pct.value(),
                Ranking::Losers => a.change_pct.value() <= b.change_pct.value(),
                Ranking::Volume => a.volume.value() >= b.volume.value(),
                Ranking::Value => a.value.value() >= b.value.value(),
            }
        }),
{
    law_ranking_sorts(rows, ranking);
}

} // verus!
