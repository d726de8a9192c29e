//! Ordered dictionary keyed by a 64-bit id: a pair of parallel vectors kept
//! sorted by id, so that iteration by index runs over ascending ids.
use vstd::prelude::*;

verus! {

/// No id occurs twice and ids grow with the index.
pub open spec fn strictly_increasing(s: Seq<u64>) -> bool {
    forall|i: int, j: int| 0 <= i < j < s.len() ==> s[i] < s[j]
}

/// In a strictly increasing sequence every id has one index.
pub proof fn lemma_index_of_sorted(s: Seq<u64>, i: int)
    requires
        strictly_increasing(s),
        0 <= i < s.len(),
    ensures
        s.index_of(s[i]) == i,
        s.contains(s[i]),
{
    let j = s.index_of(s[i]);
    assert(0 <= j < s.len() && s[j] == s[i]);
    if j < i {
        assert(s[j] < s[i]);
    }
    if i < j {
        assert(s[i] < s[j]);
    }
}

/// Ascending sequences with the same ids are the same sequence.
pub proof fn lemma_sorted_unique(a: Seq<u64>, b: Seq<u64>)
    requires
        strictly_increasing(a),
        strictly_increasing(b),
        a.to_set() == b.to_set(),
    ensures
        a == b,
    decreases a.len(),
{
    if a.len() == 0 {
        if b.len() > 0 {
            assert(b.to_set().contains(b[0]));
            assert(a.contains(b[0]));
        }
        assert(a =~= b);
    } else {
        assert(a.to_set().contains(a.last()));
        assert(b.contains(a.last()));
        let j = b.index_of(a.last());
        assert(b.to_set().contains(b.last()));
        assert(a.contains(b.last()));
        let i = a.index_of(b.last());
        assert(a[i] <= a.last());
        assert(b[j] <= b.last());
        assert(a.last() == b.last());
        let af = a.drop_last();
        let bf = b.drop_last();
        assert forall|k: u64| af.to_set().contains(k) <==> bf.to_set().contains(k) by {
            if af.contains(k) {
                let m = af.index_of(k);
                assert(a[m] == k && a[m] < a.last());
                assert(a.to_set().contains(k));
                assert(b.contains(k));
                let m2 = b.index_of(k);
                assert(bf[m2] == k);
            }
            if bf.contains(k) {
                let m = bf.index_of(k);
                assert(b[m] == k && b[m] < b.last());
                assert(b.to_set().contains(k));
                assert(a.contains(k));
                let m2 = a.index_of(k);
                assert(af[m2] == k);
            }
        }
        assert(af.to_set() =~= bf.to_set());
        lemma_sorted_unique(af, bf);
        assert(a =~= af.push(a.last()));
        assert(b =~= bf.push(b.last()));
    }
}

/// The keys of a map, ascending.
pub open spec fn sorted_keys<T>(m: Map<u64, T>) -> Seq<u64> {
    choose|s: Seq<u64>| strictly_increasing(s) && s.to_set() == m.dom()
}

/// The ids of `ids` that `others` holds too, in the order of `ids`.
pub open spec fn join_spec(ids: Seq<u64>, others: Set<u64>) -> Seq<u64>
    decreases ids.len(),
{
    if ids.len() == 0 {
        Seq::empty()
    } else if others.contains(ids.last()) {
        join_spec(ids.drop_last(), others).push(ids.last())
    } else {
        join_spec(ids.drop_last(), others)
    }
}

/// The join of ascending ids is ascending and holds exactly the ids that
/// are on both sides.
pub proof fn lemma_join(ids: Seq<u64>, others: Set<u64>)
    requires
        strictly_increasing(ids),
    ensures
        strictly_increasing(join_spec(ids, others)),
        forall|k: u64| #[trigger]
            join_spec(ids, others).contains(k) ==> ids.contains(k) && others.contains(k),
        forall|k: u64| #[trigger]
            ids.contains(k) && others.contains(k) ==> join_spec(ids, others).contains(k),
        join_spec(ids, others).len() <= ids.len(),
    decreases ids.len(),
{
    let j = join_spec(ids, others);
    if ids.len() > 0 {
        let front = ids.drop_last();
        lemma_join(front, others);
        let jf = join_spec(front, others);
        assert forall|k: u64| #[trigger] j.contains(k) implies ids.contains(k) && others.contains(
            k,
        ) by {
            if j.contains(k) {
                let i = j.index_of(k);
                if i < jf.len() {
                    assert(jf[i] == k);
                    assert(jf.contains(k));
                    let m = front.index_of(k);
                    assert(ids[m] == k);
                } else {
                    assert(ids[ids.len() - 1] == k);
                }
            }
        }
        assert forall|k: u64| #[trigger] ids.contains(k) && others.contains(k) implies j.contains(
            k,
        ) by {
            if ids.contains(k) && others.contains(k) {
                let m = ids.index_of(k);
                if m < front.len() {
                    assert(front[m] == k);
                    assert(front.contains(k));
                    let i = jf.index_of(k);
                    assert(j[i] == k);
                } else {
                    assert(j[j.len() - 1] == k);
                }
            }
        }
        assert forall|a: int, b: int| 0 <= a < b < j.len() implies j[a] < j[b] by {
            if b < jf.len() {
                assert(j[a] == jf[a] && j[b] == jf[b]);
            } else {
                assert(j[a] == jf[a]);
                assert(jf.contains(jf[a]));
                let m = front.index_of(jf[a]);
                assert(ids[m] < ids[ids.len() - 1]);
            }
        }
    }
}

pub struct BTreeTable<T> {
    keys: Vec<u64>,
    values: Vec<T>,
}

impl<T> BTreeTable<T> {
    /// The ids held, in iteration order.
    pub closed spec fn ids(&self) -> Seq<u64> {
        self.keys@
    }

    /// The rows held; `rows()[i]` belongs to `ids()[i]`.
    pub closed spec fn rows(&self) -> Seq<T> {
        self.values@
    }

    /// Ids and rows run in parallel and ids are strictly ascending.
    pub open spec fn wf(&self) -> bool {
        &&& self.ids().len() == self.rows().len()
        &&& strictly_increasing(self.ids())
    }

    /// The table as a map from id to row.
    pub open spec fn view(&self) -> Map<u64, T> {
        Map::new(
            |k: u64| self.ids().contains(k),
            |k: u64| self.rows()[self.ids().index_of(k)],
        )
    }

    /// The row at index `i` is the one the map holds for the id at index `i`.
    pub proof fn lemma_row_at(&self, i: int)
        requires
            self.wf(),
            0 <= i < self.ids().len(),
        ensures
            self@.contains_key(self.ids()[i]),
            self@[self.ids()[i]] == self.rows()[i],
    {
        lemma_index_of_sorted(self.ids(), i);
    }

    /// The ids of the table are the keys of its map, ascending.
    pub proof fn lemma_sorted_keys(&self)
        requires
            self.wf(),
        ensures
            self.ids() == sorted_keys(self@),
    {
        self.lemma_dom();
        let s = sorted_keys(self@);
        assert(strictly_increasing(self.ids()) && self.ids().to_set() == self@.dom());
        lemma_sorted_unique(self.ids(), s);
    }

    /// The map is finite and has as many entries as the table has rows.
    pub proof fn lemma_dom(&self)
        requires
            self.wf(),
        ensures
            self@.dom() =~= self.ids().to_set(),
            self@.dom().finite(),
    {
        assert forall|k: u64| self@.dom().contains(k) <==> self.ids().to_set().contains(k) by {
        }
        assert(self@.dom() =~= self.ids().to_set());
        vstd::seq_lib::seq_to_set_is_finite(self.ids());
    }

    pub fn new() -> (t: Self)
        ensures
            t.wf(),
            t.ids() == Seq::<u64>::empty(),
            t@ == Map::<u64, T>::empty(),
    {
        let t = BTreeTable { keys: Vec::new(), values: Vec::new() };
        assert(t@ =~= Map::<u64, T>::empty());
        t
    }

    pub fn len(&self) -> (n: usize)
        requires
            self.wf(),
        ensures
            n == self.ids().len(),
    {
        self.keys.len()
    }

    pub fn is_empty(&self) -> (b: bool)
        requires
            self.wf(),
        ensures
            b == (self.ids().len() == 0),
    {
        self.keys.len() == 0
    }

    /// The id at index `i` of the ascending iteration.
    pub fn key_at(&self, i: usize) -> (id: u64)
        requires
            self.wf(),
            i < self.ids().len(),
        ensures
            id == self.ids()[i as int],
    {
        self.keys[i]
    }

    /// The row at index `i` of the ascending iteration.
    pub fn value_at(&self, i: usize) -> (row: &T)
        requires
            self.wf(),
            i < self.ids().len(),
        ensures
            *row == self.rows()[i as int],
            *row == self@[self.ids()[i as int]],
    {
        proof {
            self.lemma_row_at(i as int);
        }
        &self.values[i]
    }

    /// Binary search: the index of `id` if it is held, else the index at
    /// which it would have to be inserted.
    fn search(&self, id: u64) -> (r: (bool, usize))
        requires
            self.wf(),
        ensures
            r.1 <= self.ids().len(),
            r.0 ==> r.1 < self.ids().len() && self.ids()[r.1 as int] == id,
            !r.0 ==> !self.ids().contains(id),
            forall|i: int| 0 <= i < r.1 ==> self.ids()[i] < id,
            forall|i: int| r.1 <= i < self.ids().len() ==> id <= self.ids()[i],
    {
        let mut lo: usize = 0;
        let mut hi: usize = self.keys.len();
        while lo < hi
            invariant
                self.wf(),
                lo <= hi <= self.keys.len(),
                forall|i: int| 0 <= i < lo ==> self.keys@[i] < id,
                forall|i: int| hi <= i < self.keys.len() ==> id <= self.keys@[i],
            decreases hi - lo,
        {
            let mid: usize = lo + (hi - lo) / 2;
            if self.keys[mid] < id {
                lo = mid + 1;
            } else {
                hi = mid;
            }
        }
        if lo < self.keys.len() && self.keys[lo] == id {
            (true, lo)
        } else {
            (false, lo)
        }
    }

    pub fn contains_key(&self, id: u64) -> (b: bool)
        requires
            self.wf(),
        ensures
            b == self@.contains_key(id),
    {
        let (found, _) = self.search(id);
        found
    }

    pub fn get_by_id(&self, id: u64) -> (row: Option<&T>)
        requires
            self.wf(),
        ensures
            row is Some <==> self@.contains_key(id),
            row is Some ==> *row->0 == self@[id],
    {
        let (found, idx) = self.search(id);
        if found {
            proof {
                self.lemma_row_at(idx as int);
            }
            Some(&self.values[idx])
        } else {
            None
        }
    }

    /// Store `row` under `id`, replacing and returning the row held before.
    pub fn insert(&mut self, id: u64, row: T) -> (prev: Option<T>)
        requires
            old(self).wf(),
        ensures
            final(self).wf(),
            final(self)@ == old(self)@.insert(id, row),
            prev is Some <==> old(self)@.contains_key(id),
            prev is Some ==> prev->0 == old(self)@[id] && final(self).ids() == old(self).ids(),
            prev is None ==> final(self).ids().len() == old(self).ids().len() + 1,
    {
        let (found, idx) = self.search(id);
        let ghost before = *self;
        if found {
            proof {
                self.lemma_row_at(idx as int);
            }
            self.values.push(row);
            let prev = self.values.swap_remove(idx);
            assert(self.values@ =~= before.values@.update(idx as int, row));
            proof {
                assert forall|k: u64| self@.dom().contains(k) <==> before@.insert(
                    id,
                    row,
                ).dom().contains(k) by {}
                assert forall|k: u64| self@.dom().contains(k) implies self@[k] == before@.insert(
                    id,
                    row,
                )[k] by {
                    let i = self.ids().index_of(k);
                    lemma_index_of_sorted(self.ids(), i);
                    lemma_index_of_sorted(self.ids(), idx as int);
                }
                assert(self@ =~= before@.insert(id, row));
            }
            Some(prev)
        } else {
            self.keys.insert(idx, id);
            self.values.insert(idx, row);
            proof {
                let nk = self.keys@;
                let ok = before.keys@;
                assert forall|i: int, j: int| 0 <= i < j < nk.len() implies nk[i] < nk[j] by {
                    if j < idx {
                        assert(nk[i] == ok[i] && nk[j] == ok[j]);
                    } else if j == idx {
                        assert(nk[i] == ok[i]);
                    } else if i < idx {
                        assert(nk[i] == ok[i] && nk[j] == ok[j - 1]);
                    } else if i == idx {
                        assert(nk[j] == ok[j - 1]);
                        assert(ok[j - 1] != id);
                    } else {
                        assert(nk[i] == ok[i - 1] && nk[j] == ok[j - 1]);
                    }
                }
                assert forall|k: u64| self@.dom().contains(k) <==> before@.insert(
                    id,
                    row,
                ).dom().contains(k) by {
                    if nk.contains(k) {
                        let i = nk.index_of(k);
                        if i < idx {
                            assert(ok[i] == k);
                        } else if i > idx {
                            assert(ok[i - 1] == k);
                        }
                    }
                    if ok.contains(k) {
                        let i = ok.index_of(k);
                        if i < idx {
                            assert(nk[i] == k);
                        } else {
                            assert(nk[i + 1] == k);
                        }
                    }
                    if k == id {
                        assert(nk[idx as int] == k);
                    }
                }
                assert forall|k: u64| self@.dom().contains(k) implies self@[k] == before@.insert(
                    id,
                    row,
                )[k] by {
                    let i = nk.index_of(k);
                    lemma_index_of_sorted(nk, i);
                    if i < idx {
                        lemma_index_of_sorted(ok, i);
                    } else if i > idx {
                        lemma_index_of_sorted(ok, i - 1);
                    }
                }
                assert(self@ =~= before@.insert(id, row));
            }
            None
        }
    }

    /// Drop the row held under `id`, if any, and return it.
    pub fn remove(&mut self, id: u64) -> (prev: Option<T>)
        requires
            old(self).wf(),
        ensures
            final(self).wf(),
            final(self)@ == old(self)@.remove(id),
            prev is Some <==> old(self)@.contains_key(id),
            prev is Some ==> prev->0 == old(self)@[id],
            prev is None ==> final(self).ids() == old(self).ids(),
    {
        let (found, idx) = self.search(id);
        let ghost before = *self;
        if found {
            proof {
                self.lemma_row_at(idx as int);
            }
            self.keys.remove(idx);
            let prev = self.values.remove(idx);
            proof {
                let nk = self.keys@;
                let ok = before.keys@;
                assert forall|i: int, j: int| 0 <= i < j < nk.len() implies nk[i] < nk[j] by {
                    let oi = if i < idx { i } else { i + 1 };
                    let oj = if j < idx { j } else { j + 1 };
                    assert(nk[i] == ok[oi] && nk[j] == ok[oj]);
                }
                assert forall|k: u64| self@.dom().contains(k) <==> before@.remove(
                    id,
                ).dom().contains(k) by {
                    if nk.contains(k) {
                        let i = nk.index_of(k);
                        let oi = if i < idx { i } else { i + 1 };
                        assert(ok[oi] == k);
                        lemma_index_of_sorted(ok, oi);
                        lemma_index_of_sorted(ok, idx as int);
                    }
                    if ok.contains(k) && k != id {
                        let i = ok.index_of(k);
                        if i < idx {
                            assert(nk[i] == k);
                        } else {
                            assert(nk[i - 1] == k);
                        }
                    }
                }
                assert forall|k: u64| self@.dom().contains(k) implies self@[k] == before@.remove(
                    id,
                )[k] by {
                    let i = nk.index_of(k);
                    lemma_index_of_sorted(nk, i);
                    let oi = if i < idx { i } else { i + 1 };
                    lemma_index_of_sorted(ok, oi);
                }
                assert(self@ =~= before@.remove(id));
            }
            Some(prev)
        } else {
            assert(self@ =~= before@.remove(id));
            None
        }
    }

    /// The ids that this table and `other` both hold, ascending.
    pub fn join_ids<U>(&self, other: &BTreeTable<U>) -> (ids: Vec<u64>)
        requires
            self.wf(),
            other.wf(),
        ensures
            ids@ == join_spec(self.ids(), other@.dom()),
    {
        let mut ids: Vec<u64> = Vec::new();
        let n: usize = self.keys.len();
        let mut i: usize = 0;
        while i < n
            invariant
                self.wf(),
                other.wf(),
                n == self.ids().len(),
                i <= n,
                ids@ == join_spec(self.ids().take(i as int), other@.dom()),
            decreases n - i,
        {
            let id: u64 = self.keys[i];
            proof {
                assert(self.ids().take(i as int + 1).drop_last() =~= self.ids().take(i as int));
                assert(self.ids().take(i as int + 1).last() == id);
            }
            if other.contains_key(id) {
                ids.push(id);
            }
            i += 1;
        }
        proof {
            assert(self.ids().take(n as int) =~= self.ids());
        }
        ids
    }

    pub fn clear(&mut self)
        ensures
            final(self).wf(),
            final(self).ids() == Seq::<u64>::empty(),
            final(self)@ == Map::<u64, T>::empty(),
    {
        self.keys.clear();
        self.values.clear();
        assert(self@ =~= Map::<u64, T>::empty());
    }
}

} // verus!
