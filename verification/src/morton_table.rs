//! Spatial table: a map from cells to rows, stored in Morton order.
use crate::geometry::Point;
use crate::morton_key::{interleave, lemma_interleave_injective, MortonKey};
use crate::tables::BTreeTable;
use vstd::prelude::*;

verus! {

/// Both coordinates fit in 16 bits, so the cell has a Morton key.
pub open spec fn in_bounds(p: Point) -> bool {
    &&& 0 <= p.x <= 0xffff
    &&& 0 <= p.y <= 0xffff
}

/// The Morton key of a cell of the table's range, as a table id.
pub open spec fn code(p: Point) -> u64 {
    interleave(p.x as u16, p.y as u16) as u64
}

/// Cells of the table's range with the same key are the same cell.
pub proof fn lemma_code_injective(p: Point, q: Point)
    requires
        in_bounds(p),
        in_bounds(q),
        code(p) == code(q),
    ensures
        p == q,
{
    lemma_interleave_injective(p.x as u16, p.y as u16, q.x as u16, q.y as u16);
}

/// What `insert` does to the map: a cell outside the range or already held
/// is refused and the map stays as it is.
pub open spec fn insert_spec<T>(m: Map<Point, T>, p: Point, row: T) -> (bool, Map<Point, T>) {
    if in_bounds(p) && !m.contains_key(p) {
        (true, m.insert(p, row))
    } else {
        (false, m)
    }
}

/// What a lookup yields on the map.
pub open spec fn get_spec<T>(m: Map<Point, T>, p: Point) -> Option<T> {
    if m.contains_key(p) {
        Some(m[p])
    } else {
        None
    }
}

/// The map after inserting `items` one by one, first to last.
pub open spec fn extend_spec<T>(m: Map<Point, T>, items: Seq<(Point, T)>) -> Map<Point, T>
    decreases items.len(),
{
    if items.len() == 0 {
        m
    } else {
        insert_spec(extend_spec(m, items.drop_last()), items.last().0, items.last().1).1
    }
}

/// The rows of `entries` that lie within `radius` steps of `center`, in order.
pub open spec fn within<T>(entries: Seq<(Point, T)>, center: Point, radius: u32) -> Seq<
    (Point, T),
>
    decreases entries.len(),
{
    if entries.len() == 0 {
        Seq::empty()
    } else if center.distance(entries.last().0) <= radius {
        within(entries.drop_last(), center, radius).push(entries.last())
    } else {
        within(entries.drop_last(), center, radius)
    }
}

/// Looking a cell up after inserting it yields the inserted row, unless the
/// cell lies outside the range or a row was held for it before; then the
/// lookup yields what it yielded before.
pub proof fn lemma_insert_then_get<T>(m: Map<Point, T>, p: Point, row: T)
    ensures
        insert_spec(m, p, row).0 ==> get_spec(insert_spec(m, p, row).1, p) == Some(row),
        !insert_spec(m, p, row).0 ==> get_spec(insert_spec(m, p, row).1, p) == get_spec(m, p),
        forall|q: Point| q != p ==> get_spec(insert_spec(m, p, row).1, q) == get_spec(m, q),
{
}

/// A bulk build holds every cell of the input that lies in the range, with
/// the row of its first occurrence.
pub proof fn lemma_bulk_build_get<T>(items: Seq<(Point, T)>, i: int)
    requires
        0 <= i < items.len(),
        in_bounds(items[i].0),
        forall|j: int| 0 <= j < i ==> items[j].0 != items[i].0,
    ensures
        get_spec(extend_spec(Map::<Point, T>::empty(), items), items[i].0) == Some(items[i].1),
    decreases items.len(),
{
    let m = Map::<Point, T>::empty();
    let front = items.drop_last();
    if i == items.len() - 1 {
        lemma_extend_absent(m, front, items[i].0);
    } else {
        lemma_bulk_build_get(front, i);
    }
}

/// A cell that is in neither the map nor the items is not in the extension.
pub proof fn lemma_extend_absent<T>(m: Map<Point, T>, items: Seq<(Point, T)>, p: Point)
    requires
        !m.contains_key(p),
        forall|j: int| 0 <= j < items.len() ==> items[j].0 != p,
    ensures
        !extend_spec(m, items).contains_key(p),
    decreases items.len(),
{
    if items.len() > 0 {
        lemma_extend_absent(m, items.drop_last(), p);
    }
}

pub struct MortonTable<T> {
    table: BTreeTable<(Point, T)>,
}

impl<T> MortonTable<T> {
    /// The cells and rows held, in Morton order.
    pub closed spec fn entries(&self) -> Seq<(Point, T)> {
        self.table.rows()
    }

    /// The Morton keys held, ascending; `keys()[i]` belongs to `entries()[i]`.
    pub closed spec fn keys(&self) -> Seq<u64> {
        self.table.ids()
    }

    /// Keys are strictly ascending and every entry lies in the range and
    /// stands under the key of its cell.
    pub open spec fn wf(&self) -> bool {
        &&& self.keys().len() == self.entries().len()
        &&& crate::tables::strictly_increasing(self.keys())
        &&& forall|i: int|
            0 <= i < self.entries().len() ==> in_bounds(#[trigger] self.entries()[i].0)
                && self.keys()[i] == code(self.entries()[i].0)
    }

    /// The table as a map from cell to row.
    pub open spec fn view(&self) -> Map<Point, T> {
        Map::new(
            |p: Point| in_bounds(p) && self.keys().contains(code(p)),
            |p: Point| self.entries()[self.keys().index_of(code(p))].1,
        )
    }

    /// The entry at index `i` is what the map holds for its cell.
    pub proof fn lemma_entry_at(&self, i: int)
        requires
            self.wf(),
            0 <= i < self.entries().len(),
        ensures
            self@.contains_key(self.entries()[i].0),
            self@[self.entries()[i].0] == self.entries()[i].1,
    {
        crate::tables::lemma_index_of_sorted(self.keys(), i);
    }

    proof fn lemma_view(&self)
        requires
            self.wf(),
        ensures
            self.table.wf(),
            forall|p: Point|
                self@.contains_key(p) <==> in_bounds(p) && self.table@.contains_key(code(p)),
            forall|p: Point| self@.contains_key(p) ==> self@[p] == self.table@[code(p)].1,
    {
    }

    pub fn new() -> (t: Self)
        ensures
            t.wf(),
            t@ == Map::<Point, T>::empty(),
            t.entries() == Seq::<(Point, T)>::empty(),
    {
        let t = MortonTable { table: BTreeTable::new() };
        assert(t@ =~= Map::<Point, T>::empty());
        t
    }

    pub fn len(&self) -> (n: usize)
        requires
            self.wf(),
        ensures
            n == self.entries().len(),
    {
        self.table.len()
    }

    /// The cell at index `i` of the iteration in Morton order.
    pub fn point_at(&self, i: usize) -> (p: Point)
        requires
            self.wf(),
            i < self.entries().len(),
        ensures
            p == self.entries()[i as int].0,
            self@.contains_key(p),
    {
        proof {
            self.lemma_entry_at(i as int);
        }
        self.table.value_at(i).0
    }

    /// The row at index `i` of the iteration in Morton order.
    pub fn value_at(&self, i: usize) -> (row: &T)
        requires
            self.wf(),
            i < self.entries().len(),
        ensures
            *row == self.entries()[i as int].1,
            *row == self@[self.entries()[i as int].0],
    {
        proof {
            self.lemma_entry_at(i as int);
        }
        &self.table.value_at(i).1
    }

    fn key_of(p: &Point) -> (k: Option<u64>)
        ensures
            k is Some <==> in_bounds(*p),
            k is Some ==> k->0 == code(*p),
    {
        if p.x < 0 || p.x > 0xffff || p.y < 0 || p.y > 0xffff {
            None
        } else {
            Some(MortonKey::new(p.x as u16, p.y as u16).0 as u64)
        }
    }

    /// Insert `row` at `p`. Refused, with the table left as it is, when `p`
    /// lies outside the 16-bit range or already has a row.
    pub fn insert(&mut self, p: Point, row: T) -> (ok: bool)
        requires
            old(self).wf(),
        ensures
            final(self).wf(),
            ok == insert_spec(old(self)@, p, row).0,
            final(self)@ == insert_spec(old(self)@, p, row).1,
            !ok ==> final(self).entries() == old(self).entries(),
    {
        proof {
            self.lemma_view();
        }
        match Self::key_of(&p) {
            None => false,
            Some(k) => {
                if self.table.contains_key(k) {
                    proof {
                        let i = self.keys().index_of(k);
                        lemma_code_injective(p, self.entries()[i].0);
                    }
                    false
                } else {
                    let ghost before = *self;
                    self.table.insert(k, (p, row));
                    proof {
                        assert forall|i: int| 0 <= i < self.entries().len() implies in_bounds(
                            #[trigger] self.entries()[i].0,
                        ) && self.keys()[i] == code(self.entries()[i].0) by {
                            self.table.lemma_row_at(i);
                            let ki = self.keys()[i];
                            if ki != k {
                                assert(before.table@.contains_key(ki));
                                let oi = before.keys().index_of(ki);
                                before.table.lemma_row_at(oi);
                            }
                        }
                        self.lemma_view();
                        assert forall|q: Point|
                            self@.contains_key(q) <==> before@.insert(p, row).contains_key(
                                q,
                            ) by {
                            if in_bounds(q) && code(q) == k {
                                lemma_code_injective(p, q);
                            }
                        }
                        assert(self@ =~= before@.insert(p, row));
                    }
                    true
                }
            },
        }
    }

    pub fn get_by_id(&self, p: &Point) -> (row: Option<&T>)
        requires
            self.wf(),
        ensures
            row is Some <==> self@.contains_key(*p),
            row is Some ==> Some(*row->0) == get_spec(self@, *p),
    {
        proof {
            self.lemma_view();
        }
        match Self::key_of(p) {
            None => None,
            Some(k) => {
                match self.table.get_by_id(k) {
                    None => None,
                    Some(entry) => Some(&entry.1),
                }
            },
        }
    }

    pub fn contains_key(&self, p: &Point) -> (b: bool)
        requires
            self.wf(),
        ensures
            b == self@.contains_key(*p),
    {
        proof {
            self.lemma_view();
        }
        match Self::key_of(p) {
            None => false,
            Some(k) => self.table.contains_key(k),
        }
    }

    /// Whether the table holds anything at `p`; for cells, the same as
    /// [`MortonTable::contains_key`].
    pub fn intersects(&self, p: &Point) -> (b: bool)
        requires
            self.wf(),
        ensures
            b == self@.contains_key(*p),
    {
        self.contains_key(p)
    }

    /// Append to `out`, in Morton order, every entry whose cell is at most
    /// `radius` steps from `center`.
    pub fn find_by_range<'a>(&'a self, center: &Point, radius: u32, out: &mut Vec<(Point, &'a T)>)
        requires
            self.wf(),
        ensures
            final(out)@.len() == old(out)@.len() + within(self.entries(), *center, radius).len(),
            forall|j: int| 0 <= j < old(out)@.len() ==> final(out)@[j] == old(out)@[j],
            forall|j: int|
                0 <= j < within(self.entries(), *center, radius).len() ==> {
                    &&& (#[trigger] final(out)@[old(out)@.len() + j]).0 == within(
                        self.entries(),
                        *center,
                        radius,
                    )[j].0
                    &&& *final(out)@[old(out)@.len() + j].1 == within(
                        self.entries(),
                        *center,
                        radius,
                    )[j].1
                },
    {
        let n: usize = self.table.len();
        let ghost base = out@.len();
        let mut i: usize = 0;
        while i < n
            invariant
                self.wf(),
                n == self.entries().len(),
                i <= n,
                base == old(out)@.len(),
                out@.len() == base + within(self.entries().take(i as int), *center, radius).len(),
                forall|j: int| 0 <= j < base ==> out@[j] == old(out)@[j],
                forall|j: int|
                    0 <= j < within(self.entries().take(i as int), *center, radius).len() ==> {
                        &&& (#[trigger] out@[base + j]).0 == within(
                            self.entries().take(i as int),
                            *center,
                            radius,
                        )[j].0
                        &&& *out@[base + j].1 == within(
                            self.entries().take(i as int),
                            *center,
                            radius,
                        )[j].1
                    },
            decreases n - i,
        {
            let entry = self.table.value_at(i);
            proof {
                assert(self.entries().take(i as int + 1).drop_last() =~= self.entries().take(
                    i as int,
                ));
            }
            if center.hex_distance(entry.0) <= radius as u64 {
                out.push((entry.0, &entry.1));
            }
            i += 1;
        }
        proof {
            assert(self.entries().take(n as int) =~= self.entries());
        }
    }

    pub fn clear(&mut self)
        ensures
            final(self).wf(),
            final(self)@ == Map::<Point, T>::empty(),
            final(self).entries() == Seq::<(Point, T)>::empty(),
    {
        self.table.clear();
        assert(self@ =~= Map::<Point, T>::empty());
    }

    /// Insert `items` one by one, first to last.
    pub fn extend(&mut self, items: Vec<(Point, T)>)
        requires
            old(self).wf(),
        ensures
            final(self).wf(),
            final(self)@ == extend_spec(old(self)@, items@),
    {
        let mut items = items;
        let ghost all = items@;
        let ghost mut rest: Seq<(Point, T)> = Seq::empty();
        // Taken from the back, so the insertions are replayed in reverse below.
        let mut stack: Vec<(Point, T)> = Vec::new();
        while items.len() > 0
            invariant
                stack@.len() + items@.len() == all.len(),
                forall|j: int| 0 <= j < items@.len() ==> items@[j] == all[j],
                forall|j: int|
                    0 <= j < stack@.len() ==> stack@[j] == all[all.len() - 1 - j],
            decreases items@.len(),
        {
            let e = items.pop().unwrap();
            stack.push(e);
        }
        let ghost start = self@;
        let ghost mut done: int = 0;
        while stack.len() > 0
            invariant
                self.wf(),
                done + stack@.len() == all.len(),
                forall|j: int|
                    0 <= j < stack@.len() ==> stack@[j] == all[all.len() - 1 - j],
                0 <= done,
                self@ == extend_spec(start, all.take(done)),
            decreases stack@.len(),
        {
            let e = stack.pop().unwrap();
            proof {
                assert(e == all[done]);
                assert(all.take(done + 1).drop_last() =~= all.take(done));
            }
            self.insert(e.0, e.1);
            proof {
                done = done + 1;
            }
        }
        proof {
            assert(all.take(done) =~= all);
        }
    }

    /// A table holding `items`, inserted first to last.
    pub fn from_iterator(items: Vec<(Point, T)>) -> (t: Self)
        ensures
            t.wf(),
            t@ == extend_spec(Map::<Point, T>::empty(), items@),
    {
        let mut t = Self::new();
        t.extend(items);
        t
    }
}

} // verus!
