//! The column families of the state Merkle database that the node store
//! uses (the nodes, and the two indices of stale nodes), and the batches of
//! writes that are committed to them at once.

use vstd::prelude::*;
use crate::node_store::{lemma_store_put, lookup, sorted, store_put, Entry, NodeStore};
use crate::node_type::{Comparison, Node, NodeKey, StaleNodeIndex};

verus! {

/// One write of a schema batch.
#[derive(Clone, Copy, Debug)]
pub enum SchemaOp {
    /// Writes a node into the node column family.
    PutNode(NodeKey, Node),
    /// Records a stale node for the state Merkle pruner.
    PutStaleNodeIndex(StaleNodeIndex),
    /// Records a stale node for the epoch snapshot pruner.
    PutStaleNodeIndexCrossEpoch(StaleNodeIndex),
}

/// Writes to be committed together, in order.
pub struct SchemaBatch {
    pub ops: Vec<SchemaOp>,
}

impl SchemaBatch {
    /// An empty batch.
    pub fn new() -> (batch: SchemaBatch)
        ensures
            batch.ops@ == Seq::<SchemaOp>::empty(),
    {
        SchemaBatch { ops: Vec::new() }
    }

    /// Adds a write of `node` under `key` to the node column family.
    pub fn put_node(&mut self, key: NodeKey, node: Node)
        ensures
            final(self).ops@ == old(self).ops@.push(SchemaOp::PutNode(key, node)),
    {
        self.ops.push(SchemaOp::PutNode(key, node));
    }

    /// Adds a stale node index for the state Merkle pruner.
    pub fn put_stale_node_index(&mut self, index: StaleNodeIndex)
        ensures
            final(self).ops@ == old(self).ops@.push(SchemaOp::PutStaleNodeIndex(index)),
    {
        self.ops.push(SchemaOp::PutStaleNodeIndex(index));
    }

    /// Adds a stale node index for the epoch snapshot pruner.
    pub fn put_stale_node_index_cross_epoch(&mut self, index: StaleNodeIndex)
        ensures
            final(self).ops@ == old(self).ops@.push(SchemaOp::PutStaleNodeIndexCrossEpoch(index)),
    {
        self.ops.push(SchemaOp::PutStaleNodeIndexCrossEpoch(index));
    }
}

/// The contents of the database: the nodes in key order, and the two sets of
/// stale node indices, each in the order in which its members first came.
pub type DbView = (Seq<Entry>, Seq<StaleNodeIndex>, Seq<StaleNodeIndex>);

/// A set of stale node indices after `x` is written into it.
pub open spec fn index_put(s: Seq<StaleNodeIndex>, x: StaleNodeIndex) -> Seq<StaleNodeIndex> {
    if s.contains(x) {
        s
    } else {
        s.push(x)
    }
}

/// The database after one write.
pub open spec fn apply_op(d: DbView, op: SchemaOp) -> DbView {
    match op {
        SchemaOp::PutNode(k, n) => (store_put(d.0, k, n), d.1, d.2),
        SchemaOp::PutStaleNodeIndex(x) => (d.0, index_put(d.1, x), d.2),
        SchemaOp::PutStaleNodeIndexCrossEpoch(x) => (d.0, d.1, index_put(d.2, x)),
    }
}

/// The database after the writes, in order.
pub open spec fn apply_ops(d: DbView, ops: Seq<SchemaOp>) -> DbView
    decreases ops.len(),
{
    if ops.len() == 0 {
        d
    } else {
        apply_op(apply_ops(d, ops.drop_last()), ops.last())
    }
}

/// The writes of the nodes of `s` into the node column family, in order.
pub open spec fn node_ops(s: Seq<Entry>) -> Seq<SchemaOp> {
    Seq::new(s.len(), |i: int| SchemaOp::PutNode(s[i].0, s[i].1))
}

/// Writing keeps the nodes in key order.
pub proof fn lemma_apply_ops_sorted(d: DbView, ops: Seq<SchemaOp>)
    requires
        sorted(d.0),
    ensures
        sorted(apply_ops(d, ops).0),
    decreases ops.len(),
{
    if ops.len() > 0 {
        lemma_apply_ops_sorted(d, ops.drop_last());
        let e = apply_ops(d, ops.drop_last());
        match ops.last() {
            SchemaOp::PutNode(k, n) => {
                lemma_store_put(e.0, k, n);
            },
            _ => {},
        }
    }
}

/// After the nodes of `s` are written, a key holds the last node that `s`
/// wrote under it, or what it held when `s` wrote nothing under it; the
/// stale node indices are untouched.
pub proof fn lemma_apply_node_ops(d: DbView, s: Seq<Entry>)
    requires
        sorted(d.0),
    ensures
        sorted(apply_ops(d, node_ops(s)).0),
        apply_ops(d, node_ops(s)).1 == d.1,
        apply_ops(d, node_ops(s)).2 == d.2,
        forall|k: NodeKey| #[trigger]
            lookup(apply_ops(d, node_ops(s)).0, k) == match lookup(s, k) {
                Some(n) => Some(n),
                None => lookup(d.0, k),
            },
    decreases s.len(),
{
    lemma_apply_ops_sorted(d, node_ops(s));
    if s.len() > 0 {
        let r = s.drop_last();
        assert(node_ops(s).drop_last() =~= node_ops(r));
        lemma_apply_node_ops(d, r);
        let e = apply_ops(d, node_ops(r));
        assert(node_ops(s).last() == SchemaOp::PutNode(s.last().0, s.last().1));
        lemma_store_put(e.0, s.last().0, s.last().1);
        assert forall|k: NodeKey| #[trigger]
            lookup(apply_ops(d, node_ops(s)).0, k) == match lookup(s, k) {
                Some(n) => Some(n),
                None => lookup(d.0, k),
            } by {
            assert(lookup(s, k) == if s.last().0 == k {
                Some(s.last().1)
            } else {
                lookup(r, k)
            });
        }
    } else {
        assert forall|k: NodeKey| #[trigger]
            lookup(apply_ops(d, node_ops(s)).0, k) == match lookup(s, k) {
                Some(n) => Some(n),
                None => lookup(d.0, k),
            } by {}
    }
}

/// A set of stale node indices, each index held once.
struct IndexSet {
    items: Vec<StaleNodeIndex>,
}

impl IndexSet {
    fn new() -> (s: IndexSet)
        ensures
            s.items@ == Seq::<StaleNodeIndex>::empty(),
    {
        IndexSet { items: Vec::new() }
    }

    fn contains(&self, x: &StaleNodeIndex) -> (b: bool)
        ensures
            b == self.items@.contains(*x),
    {
        let mut i: usize = 0;
        while i < self.items.len()
            invariant
                i <= self.items@.len(),
                forall|j: int| 0 <= j < i ==> self.items@[j] != *x,
            decreases self.items@.len() - i,
        {
            let y = self.items[i];
            if y.stale_since_version == x.stale_since_version && y.node_key.compare(&x.node_key)
                == Comparison::Equal {
                assert(self.items@[i as int] == *x);
                return true;
            }
            i = i + 1;
        }
        false
    }

    fn put(&mut self, x: StaleNodeIndex)
        ensures
            final(self).items@ == index_put(old(self).items@, x),
    {
        if !self.contains(&x) {
            self.items.push(x);
        }
    }
}

/// The state Merkle database: the node column family and the two stale node
/// index column families.
pub struct SchemaDb {
    nodes: NodeStore,
    stale_node_indices: IndexSet,
    stale_node_indices_cross_epoch: IndexSet,
}

impl View for SchemaDb {
    type V = DbView;

    closed spec fn view(&self) -> DbView {
        (self.nodes@, self.stale_node_indices.items@, self.stale_node_indices_cross_epoch.items@)
    }
}

impl SchemaDb {
    /// The nodes are in key order.
    pub open spec fn wf(&self) -> bool {
        sorted(self@.0)
    }

    /// An empty database.
    pub fn new() -> (db: SchemaDb)
        ensures
            db@ == (
                Seq::<Entry>::empty(),
                Seq::<StaleNodeIndex>::empty(),
                Seq::<StaleNodeIndex>::empty(),
            ),
            db.wf(),
    {
        SchemaDb {
            nodes: NodeStore::new(),
            stale_node_indices: IndexSet::new(),
            stale_node_indices_cross_epoch: IndexSet::new(),
        }
    }

    /// The node column family.
    pub fn nodes(&self) -> (nodes: &NodeStore)
        ensures
            nodes@ == self@.0,
            self.wf() ==> nodes.wf(),
    {
        &self.nodes
    }

    /// The node stored under `key`, if any.
    pub fn get_node(&self, key: &NodeKey) -> (r: Option<Node>)
        requires
            self.wf(),
        ensures
            r == lookup(self@.0, *key),
    {
        self.nodes.get(key)
    }

    /// Whether the state Merkle pruner's index holds `index`.
    pub fn has_stale_node_index(&self, index: &StaleNodeIndex) -> (b: bool)
        ensures
            b == self@.1.contains(*index),
    {
        self.stale_node_indices.contains(index)
    }

    /// Whether the epoch snapshot pruner's index holds `index`.
    pub fn has_stale_node_index_cross_epoch(&self, index: &StaleNodeIndex) -> (b: bool)
        ensures
            b == self@.2.contains(*index),
    {
        self.stale_node_indices_cross_epoch.contains(index)
    }

    /// Commits the writes of `batch`, in order.
    pub fn write_schemas(&mut self, batch: SchemaBatch)
        requires
            old(self).wf(),
        ensures
            final(self).wf(),
            final(self)@ == apply_ops(old(self)@, batch.ops@),
    {
        let ghost d0 = self@;
        let mut i: usize = 0;
        while i < batch.ops.len()
            invariant
                i <= batch.ops@.len(),
                sorted(self@.0),
                self@ == apply_ops(d0, batch.ops@.take(i as int)),
            decreases batch.ops@.len() - i,
        {
            let ghost before = self@;
            match batch.ops[i] {
                SchemaOp::PutNode(k, n) => {
                    self.nodes.put(k, n);
                },
                SchemaOp::PutStaleNodeIndex(x) => {
                    self.stale_node_indices.put(x);
                },
                SchemaOp::PutStaleNodeIndexCrossEpoch(x) => {
                    self.stale_node_indices_cross_epoch.put(x);
                },
            }
            assert(batch.ops@.take(i + 1).drop_last() =~= batch.ops@.take(i as int));
            assert(batch.ops@.take(i + 1).last() == batch.ops@[i as int]);
            assert(self@ == apply_op(before, batch.ops@[i as int]));
            i = i + 1;
        }
        assert(batch.ops@.take(i as int) =~= batch.ops@);
    }
}

} // verus!
