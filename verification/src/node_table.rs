//! Ordered dictionary keyed by a node id.
use crate::tables::{strictly_increasing, BTreeTable};
use vstd::prelude::*;

verus! {

/// Id of a node of a compilation unit.
pub type NodeId = i32;

/// Where a node id stands among the 64-bit ids; the order is kept.
pub open spec fn node_key(id: NodeId) -> u64 {
    (id + 0x8000_0000) as u64
}

/// The node id that stands at `key`.
pub open spec fn key_node(key: u64) -> NodeId {
    (key - 0x8000_0000) as i32
}

pub struct NodeTable<T> {
    table: BTreeTable<T>,
}

impl<T> NodeTable<T> {
    /// The keys held, ascending.
    pub closed spec fn keys(&self) -> Seq<u64> {
        self.table.ids()
    }

    /// The rows held; `rows()[i]` belongs to `keys()[i]`.
    pub closed spec fn rows(&self) -> Seq<T> {
        self.table.rows()
    }

    pub open spec fn wf(&self) -> bool {
        &&& self.keys().len() == self.rows().len()
        &&& strictly_increasing(self.keys())
        &&& forall|i: int| 0 <= i < self.keys().len() ==> #[trigger] self.keys()[i] <= 0xffff_ffff
    }

    /// The node ids held, ascending.
    pub open spec fn ids(&self) -> Seq<NodeId> {
        Seq::new(self.keys().len(), |i: int| key_node(self.keys()[i]))
    }

    /// The table as a map from node id to row.
    pub open spec fn view(&self) -> Map<NodeId, T> {
        Map::new(
            |id: NodeId| self.keys().contains(node_key(id)),
            |id: NodeId| self.rows()[self.keys().index_of(node_key(id))],
        )
    }

    /// The ids are strictly ascending, and the row at index `i` is the one
    /// the map holds for the id at index `i`.
    pub proof fn lemma_ids(&self)
        requires
            self.wf(),
        ensures
            forall|i: int, j: int|
                0 <= i < j < self.ids().len() ==> #[trigger] self.ids()[i] < #[trigger] self.ids()[j],
            forall|i: int|
                0 <= i < self.ids().len() ==> self@.contains_key(#[trigger] self.ids()[i])
                    && self@[self.ids()[i]] == self.rows()[i],
            forall|id: NodeId| self@.contains_key(id) <==> self.ids().contains(id),
    {
        assert forall|i: int| 0 <= i < self.ids().len() implies self@.contains_key(
            #[trigger] self.ids()[i],
        ) && self@[self.ids()[i]] == self.rows()[i] by {
            crate::tables::lemma_index_of_sorted(self.keys(), i);
            assert(node_key(self.ids()[i]) == self.keys()[i]);
        }
        assert forall|id: NodeId| self@.contains_key(id) <==> self.ids().contains(id) by {
            if self@.contains_key(id) {
                let i = self.keys().index_of(node_key(id));
                assert(self.ids()[i] == id);
            }
            if self.ids().contains(id) {
                let i = self.ids().index_of(id);
                assert(self.keys()[i] == node_key(id));
            }
        }
    }

    pub fn new() -> (t: Self)
        ensures
            t.wf(),
            t@ == Map::<NodeId, T>::empty(),
            t.ids() == Seq::<NodeId>::empty(),
    {
        let t = NodeTable { table: BTreeTable::new() };
        assert(t@ =~= Map::<NodeId, T>::empty());
        assert(t.ids() =~= Seq::<NodeId>::empty());
        t
    }

    fn key_of(id: NodeId) -> (k: u64)
        ensures
            k == node_key(id),
            k <= 0xffff_ffff,
    {
        (id as i64 + 0x8000_0000) as u64
    }

    pub fn len(&self) -> (n: usize)
        requires
            self.wf(),
        ensures
            n == self.ids().len(),
    {
        self.table.len()
    }

    /// The id at index `i` of the ascending iteration.
    pub fn id_at(&self, i: usize) -> (id: NodeId)
        requires
            self.wf(),
            i < self.ids().len(),
        ensures
            id == self.ids()[i as int],
            self@.contains_key(id),
    {
        proof {
            self.lemma_ids();
        }
        let k: u64 = self.table.key_at(i);
        (k as i64 - 0x8000_0000) as i32
    }

    /// The row at index `i` of the ascending iteration.
    pub fn value_at(&self, i: usize) -> (row: &T)
        requires
            self.wf(),
            i < self.ids().len(),
        ensures
            *row == self.rows()[i as int],
            *row == self@[self.ids()[i as int]],
    {
        proof {
            self.lemma_ids();
        }
        self.table.value_at(i)
    }

    pub fn contains_key(&self, id: NodeId) -> (b: bool)
        requires
            self.wf(),
        ensures
            b == self@.contains_key(id),
    {
        self.table.contains_key(Self::key_of(id))
    }

    pub fn get(&self, id: NodeId) -> (row: Option<&T>)
        requires
            self.wf(),
        ensures
            row is Some <==> self@.contains_key(id),
            row is Some ==> *row->0 == self@[id],
    {
        self.table.get_by_id(Self::key_of(id))
    }

    /// Store `row` under `id`, replacing and returning the row held before.
    pub fn insert(&mut self, id: NodeId, row: T) -> (prev: Option<T>)
        requires
            old(self).wf(),
        ensures
            final(self).wf(),
            final(self)@ == old(self)@.insert(id, row),
            prev is Some <==> old(self)@.contains_key(id),
            prev is Some ==> prev->0 == old(self)@[id],
    {
        let k: u64 = Self::key_of(id);
        let ghost before = *self;
        let prev = self.table.insert(k, row);
        proof {
            assert forall|i: int| 0 <= i < self.keys().len() implies #[trigger] self.keys()[i]
                <= 0xffff_ffff by {
                self.table.lemma_row_at(i);
                let ki = self.keys()[i];
                if ki != k {
                    assert(before.table@.contains_key(ki));
                    let oi = before.keys().index_of(ki);
                    assert(before.keys()[oi] == ki);
                }
            }
            assert forall|q: NodeId| self@.contains_key(q) <==> before@.insert(
                id,
                row,
            ).contains_key(q) by {
                assert(self.table@.contains_key(node_key(q)) <==> self@.contains_key(q));
                assert(before.table@.contains_key(node_key(q)) <==> before@.contains_key(q));
            }
            assert forall|q: NodeId| self@.contains_key(q) implies self@[q] == before@.insert(
                id,
                row,
            )[q] by {
                assert(self@[q] == self.table@[node_key(q)]);
                if q != id {
                    assert(before@[q] == before.table@[node_key(q)]);
                }
            }
            assert(self@ =~= before@.insert(id, row));
        }
        prev
    }
}

} // verus!
