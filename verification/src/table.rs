//! A small table of rows with distinct keys.
use vstd::prelude::*;

verus! {

/// A value that can be looked up by: equality of two keys is equality of their views.
pub trait Key: View + Sized {
    fn same_key(&self, o: &Self) -> (r: bool)
        ensures
            r == (self@ == o@),
    ;
}

impl Key for String {
    fn same_key(&self, o: &String) -> (r: bool) {
        *self == *o
    }
}

impl Key for u64 {
    fn same_key(&self, o: &u64) -> (r: bool) {
        *self == *o
    }
}

/// A value that a table can hold. Every value in a table is sound.
pub trait Stored: View + Sized {
    spec fn sound(&self) -> bool;
}

impl Stored for String {
    open spec fn sound(&self) -> bool {
        true
    }
}

impl Stored for u64 {
    open spec fn sound(&self) -> bool {
        true
    }
}

/// The row that holds key `k`.
pub open spec fn has_row<A, B>(rows: Seq<(A, B)>, k: A, i: int) -> bool {
    0 <= i < rows.len() && rows[i].0 == k
}

/// The rows as a map from key to value.
pub open spec fn rows_map<A, B>(rows: Seq<(A, B)>) -> Map<A, B> {
    Map::new(|k: A| exists|i: int| has_row(rows, k, i), |k: A| rows[choose|i: int| has_row(rows, k, i)].1)
}

/// No key stands in two rows.
pub open spec fn distinct_keys<A, B>(rows: Seq<(A, B)>) -> bool {
    forall|i: int, j: int|
        0 <= i < rows.len() && 0 <= j < rows.len() && (#[trigger] rows[i]).0 == (#[trigger] rows[j]).0 ==> i == j
}

pub struct Table<K: Key, V: Stored> {
    entries: Vec<(K, V)>,
}

impl<K: Key, V: Stored> View for Table<K, V> {
    type V = Map<K::V, V::V>;

    open spec fn view(&self) -> Map<K::V, V::V> {
        rows_map(self.rows())
    }
}

impl<K: Key, V: Stored> Stored for Table<K, V> {
    open spec fn sound(&self) -> bool {
        self.wf()
    }
}

impl<K: Key, V: Stored> Table<K, V> {
    /// The rows in the order in which their keys came.
    pub closed spec fn rows(&self) -> Seq<(K::V, V::V)> {
        self.entries@.map_values(|e: (K, V)| (e.0@, e.1@))
    }

    /// Every value is sound.
    pub closed spec fn all_sound(&self) -> bool {
        forall|i: int| 0 <= i < self.entries@.len() ==> (#[trigger] self.entries@[i]).1.sound()
    }

    /// No key occurs twice and every value is sound.
    pub open spec fn wf(&self) -> bool {
        distinct_keys(self.rows()) && self.all_sound()
    }

    pub fn new() -> (t: Table<K, V>)
        ensures
            t.wf(),
            t.rows() == Seq::<(K::V, V::V)>::empty(),
            t@ == Map::<K::V, V::V>::empty(),
    {
        let t = Table { entries: Vec::new() };
        assert(t.rows() =~= Seq::<(K::V, V::V)>::empty());
        assert(t@ =~= Map::<K::V, V::V>::empty());
        t
    }

    pub fn len(&self) -> (n: usize)
        ensures
            n == self.rows().len(),
    {
        self.entries.len()
    }

    /// The key of a row.
    pub fn key_at(&self, i: usize) -> (k: &K)
        requires
            i < self.rows().len(),
        ensures
            k@ == self.rows()[i as int].0,
    {
        &self.entries[i].0
    }

    /// The value of a row.
    pub fn value_at(&self, i: usize) -> (v: &V)
        requires
            self.wf(),
            i < self.rows().len(),
        ensures
            v@ == self.rows()[i as int].1,
            v.sound(),
    {
        &self.entries[i].1
    }

    fn position(&self, k: &K) -> (r: Option<usize>)
        requires
            self.wf(),
        ensures
            match r {
                Some(i) => has_row(self.rows(), k@, i as int),
                None => forall|i: int| !has_row(self.rows(), k@, i),
            },
    {
        let mut i: usize = 0;
        while i < self.entries.len()
            invariant
                i <= self.entries@.len(),
                forall|j: int| 0 <= j < i ==> !has_row(self.rows(), k@, j),
            decreases self.entries@.len() - i,
        {
            if self.entries[i].0.same_key(k) {
                return Some(i);
            }
            i += 1;
        }
        None
    }

    pub fn get(&self, k: &K) -> (r: Option<&V>)
        requires
            self.wf(),
        ensures
            match r {
                Some(v) => self@.contains_key(k@) && v@ == self@[k@] && v.sound(),
                None => !self@.contains_key(k@),
            },
    {
        match self.position(k) {
            Some(i) => {
                proof {
                    lemma_row(self.rows(), i as int);
                }
                Some(&self.entries[i].1)
            },
            None => None,
        }
    }

    pub fn contains(&self, k: &K) -> (r: bool)
        requires
            self.wf(),
        ensures
            r == self@.contains_key(k@),
    {
        match self.position(k) {
            Some(i) => true,
            None => false,
        }
    }

    /// Puts `v` under `k`, in place of what was there.
    pub fn insert(&mut self, k: K, v: V)
        requires
            old(self).wf(),
            v.sound(),
        ensures
            final(self).wf(),
            final(self)@ == old(self)@.insert(k@, v@),
    {
        let ghost before = self.rows();
        match self.position(&k) {
            Some(i) => {
                let ghost kv = k@;
                let ghost vv = v@;
                self.entries.set(i, (k, v));
                proof {
                    assert(self.rows() =~= before.update(i as int, (kv, vv)));
                    lemma_update(before, i as int, vv);
                }
            },
            None => {
                let ghost kv = k@;
                let ghost vv = v@;
                self.entries.push((k, v));
                proof {
                    assert(self.rows() =~= before.push((kv, vv)));
                    lemma_push(before, kv, vv);
                }
            },
        }
    }

    /// Takes out what is under `k`.
    pub fn remove(&mut self, k: &K) -> (r: Option<V>)
        requires
            old(self).wf(),
        ensures
            final(self).wf(),
            final(self)@ == old(self)@.remove(k@),
            match r {
                Some(v) => old(self)@.contains_key(k@) && v@ == old(self)@[k@] && v.sound(),
                None => !old(self)@.contains_key(k@),
            },
    {
        let ghost before = self.rows();
        match self.position(k) {
            Some(i) => {
                let (_, v) = self.entries.remove(i);
                proof {
                    assert(self.rows() =~= before.remove(i as int));
                    lemma_row(before, i as int);
                    lemma_remove(before, i as int);
                }
                Some(v)
            },
            None => {
                assert(self@ =~= self@.remove(k@));
                None
            },
        }
    }
}

/// A row's value is what the map has under its key.
pub proof fn lemma_row<A, B>(rows: Seq<(A, B)>, i: int)
    requires
        distinct_keys(rows),
        0 <= i < rows.len(),
    ensures
        rows_map(rows).contains_key(rows[i].0),
        rows_map(rows)[rows[i].0] == rows[i].1,
{
    let k = rows[i].0;
    assert(has_row(rows, k, i));
    let j = choose|j: int| has_row(rows, k, j);
    assert(has_row(rows, k, j));
    assert(rows[i].0 == rows[j].0);
}

/// Every key of the map stands in a row.
pub proof fn lemma_row_of<A, B>(rows: Seq<(A, B)>, k: A) -> (i: int)
    requires
        distinct_keys(rows),
        rows_map(rows).contains_key(k),
    ensures
        has_row(rows, k, i),
        rows[i].1 == rows_map(rows)[k],
{
    let i = choose|i: int| has_row(rows, k, i);
    i
}

proof fn lemma_update<A, B>(rows: Seq<(A, B)>, i: int, v: B)
    requires
        distinct_keys(rows),
        0 <= i < rows.len(),
    ensures
        distinct_keys(rows.update(i, (rows[i].0, v))),
        rows_map(rows.update(i, (rows[i].0, v))) == rows_map(rows).insert(rows[i].0, v),
{
    let k = rows[i].0;
    let after = rows.update(i, (k, v));
    assert(distinct_keys(after)) by {
        assert forall|a: int, b: int|
            0 <= a < after.len() && 0 <= b < after.len() && (#[trigger] after[a]).0 == (#[trigger] after[b]).0 implies a
            == b by {
            assert(after[a].0 == rows[a].0 && after[b].0 == rows[b].0);
        }
    }
    assert forall|x: A| rows_map(after).contains_key(x) == #[trigger] rows_map(rows).insert(k, v).contains_key(x) by {
        if exists|j: int| has_row(rows, x, j) {
            let j = choose|j: int| has_row(rows, x, j);
            assert(has_row(after, x, j));
        }
        if exists|j: int| has_row(after, x, j) {
            let j = choose|j: int| has_row(after, x, j);
            assert(has_row(rows, x, j));
        }
        assert(has_row(after, k, i));
    }
    assert forall|x: A| #[trigger] rows_map(after).contains_key(x) implies rows_map(after)[x] == rows_map(rows).insert(
        k,
        v,
    )[x] by {
        let j = lemma_row_of(after, x);
        lemma_row(after, j);
        lemma_row(rows, j);
        lemma_row(after, i);
        if x == k {
            assert(after[i].0 == after[j].0);
        }
    }
    assert(rows_map(after) =~= rows_map(rows).insert(k, v));
}

proof fn lemma_push<A, B>(rows: Seq<(A, B)>, k: A, v: B)
    requires
        distinct_keys(rows),
        forall|i: int| !has_row(rows, k, i),
    ensures
        distinct_keys(rows.push((k, v))),
        rows_map(rows.push((k, v))) == rows_map(rows).insert(k, v),
{
    let after = rows.push((k, v));
    let n = rows.len() as int;
    assert(distinct_keys(after)) by {
        assert forall|a: int, b: int|
            0 <= a < after.len() && 0 <= b < after.len() && (#[trigger] after[a]).0 == (#[trigger] after[b]).0 implies a
            == b by {
            if a < n && b < n {
                assert(rows[a].0 == rows[b].0);
            } else if a < n {
                assert(has_row(rows, k, a));
            } else if b < n {
                assert(has_row(rows, k, b));
            }
        }
    }
    assert forall|x: A| rows_map(after).contains_key(x) == #[trigger] rows_map(rows).insert(k, v).contains_key(x) by {
        if exists|j: int| has_row(rows, x, j) {
            let j = choose|j: int| has_row(rows, x, j);
            assert(has_row(after, x, j));
        }
        if exists|j: int| has_row(after, x, j) {
            let j = choose|j: int| has_row(after, x, j);
            if j < n {
                assert(has_row(rows, x, j));
            }
        }
        assert(has_row(after, k, n));
    }
    assert forall|x: A| #[trigger] rows_map(after).contains_key(x) implies rows_map(after)[x] == rows_map(rows).insert(
        k,
        v,
    )[x] by {
        let j = lemma_row_of(after, x);
        lemma_row(after, j);
        lemma_row(after, n);
        if j < n {
            lemma_row(rows, j);
            if x == k {
                assert(has_row(rows, k, j));
            }
        }
    }
    assert(rows_map(after) =~= rows_map(rows).insert(k, v));
}

proof fn lemma_remove<A, B>(rows: Seq<(A, B)>, i: int)
    requires
        distinct_keys(rows),
        0 <= i < rows.len(),
    ensures
        distinct_keys(rows.remove(i)),
        rows_map(rows.remove(i)) == rows_map(rows).remove(rows[i].0),
{
    let k = rows[i].0;
    let after = rows.remove(i);
    assert(distinct_keys(after)) by {
        assert forall|a: int, b: int|
            0 <= a < after.len() && 0 <= b < after.len() && (#[trigger] after[a]).0 == (#[trigger] after[b]).0 implies a
            == b by {
            let oa = if a < i { a } else { a + 1 };
            let ob = if b < i { b } else { b + 1 };
            assert(rows[oa].0 == rows[ob].0);
        }
    }
    assert forall|x: A| rows_map(after).contains_key(x) == #[trigger] rows_map(rows).remove(k).contains_key(x) by {
        if exists|j: int| has_row(rows, x, j) && x != k {
            let j = choose|j: int| has_row(rows, x, j);
            assert(j != i);
            assert(has_row(after, x, if j < i { j } else { j - 1 }));
        }
        if exists|j: int| has_row(after, x, j) {
            let j = choose|j: int| has_row(after, x, j);
            let o = if j < i { j } else { j + 1 };
            assert(has_row(rows, x, o));
            if x == k {
                assert(rows[o].0 == rows[i].0);
            }
        }
    }
    assert forall|x: A| #[trigger] rows_map(after).contains_key(x) implies rows_map(after)[x] == rows_map(rows).remove(
        k,
    )[x] by {
        let j = lemma_row_of(after, x);
        let o = if j < i { j } else { j + 1 };
        assert(after[j] == rows[o]);
        lemma_row(rows, o);
        if x == k {
            assert(rows[o].0 == rows[i].0);
        }
    }
    assert(rows_map(after) =~= rows_map(rows).remove(k));
}

/// A table has as many keys as rows.
pub proof fn lemma_rows_len<A, B>(rows: Seq<(A, B)>)
    requires
        distinct_keys(rows),
    ensures
        rows_map(rows).dom().finite(),
        rows_map(rows).dom().len() == rows.len(),
    decreases rows.len(),
{
    if rows.len() == 0 {
        assert(rows_map(rows).dom() =~= Set::<A>::empty());
    } else {
        let head = rows.drop_last();
        let (k, v) = rows.last();
        assert(forall|i: int| 0 <= i < head.len() ==> #[trigger] head[i] == rows[i]);
        assert(distinct_keys(head));
        assert forall|i: int| !has_row(head, k, i) by {
            if has_row(head, k, i) {
                assert(rows[i].0 == rows[rows.len() - 1].0);
            }
        }
        lemma_rows_len(head);
        lemma_push(head, k, v);
        assert(head.push((k, v)) =~= rows);
        assert(!rows_map(head).dom().contains(k)) by {
            if rows_map(head).dom().contains(k) {
                let i = choose|i: int| has_row(head, k, i);
                assert(!has_row(head, k, i));
            }
        }
        assert(rows_map(rows).dom() =~= rows_map(head).dom().insert(k));
    }
}

/// One more element is all that a push adds.
pub proof fn lemma_push_contains<A>(s: Seq<A>, a: A, x: A)
    ensures
        s.push(a).contains(x) <==> s.contains(x) || x == a,
{
    if s.contains(x) {
        let i = choose|i: int| 0 <= i < s.len() && s[i] == x;
        assert(s.push(a)[i] == x);
    }
    assert(s.push(a)[s.len() as int] == a);
    if s.push(a).contains(x) {
        let i = choose|i: int| 0 <= i < s.push(a).len() && s.push(a)[i] == x;
        if i < s.len() {
            assert(s[i] == x);
        }
    }
}

} // verus!
