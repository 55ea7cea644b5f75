//! The state Merkle database: the node store of the Jellyfish Merkle tree
//! with its two caches, the reads and writes that the tree makes through it,
//! and the turning of a tree update into a schema batch.

use vstd::prelude::*;
use crate::node_cache::{
    lemma_lru_touch, lru_touch, version_lookup, LruNodeCache, VersionedNodeCache,
};
use crate::node_store::{
    count_before, lemma_sorted_count_before, lemma_lookup_some, lemma_store_put, lookup, seek_for_prev_spec, seek_spec, sorted, store_put, Entry, NodeStore,
    SeekTarget,
};
use crate::node_type::{
    hash_lt, key_lt, leaf_count_of, root_key, Comparison, HashValue, LeafNode, Node, NodeKey, NodeType,
    StaleNodeIndex, Version, ROOT_NIBBLE_HEIGHT,
};
use crate::tree_laws::{
    is_max_leaf, lemma_naive_is_max, lemma_rightmost_is_max, lemma_snapshot_version,
    roots_present, tree_of_version, version_at,
};
use crate::schema_db::{
    apply_ops, lemma_apply_node_ops, node_ops, SchemaBatch, SchemaDb, SchemaOp,
};

verus! {

/// Nodes to be written, each with its key.
pub type NodeBatch = Vec<Entry>;

/// What an update of the tree produced: the new nodes, and the indices of
/// the nodes that it made stale, each in shards.
pub struct TreeUpdateBatch {
    pub node_batch: Vec<Vec<Entry>>,
    pub stale_node_index_batch: Vec<Vec<StaleNodeIndex>>,
}

/// The shards of nodes, one after the other.
pub open spec fn flat_nodes(b: Seq<Vec<Entry>>) -> Seq<Entry>
    decreases b.len(),
{
    if b.len() == 0 {
        Seq::empty()
    } else {
        flat_nodes(b.drop_last()) + b.last()@
    }
}

/// The shards of stale node indices, one after the other.
pub open spec fn flat_indices(b: Seq<Vec<StaleNodeIndex>>) -> Seq<StaleNodeIndex>
    decreases b.len(),
{
    if b.len() == 0 {
        Seq::empty()
    } else {
        flat_indices(b.drop_last()) + b.last()@
    }
}

/// The node store that holds the nodes of `s`, later ones replacing earlier
/// ones with the same key.
pub open spec fn build_store(s: Seq<Entry>) -> Seq<Entry>
    decreases s.len(),
{
    if s.len() == 0 {
        Seq::empty()
    } else {
        store_put(build_store(s.drop_last()), s.last().0, s.last().1)
    }
}

/// The key lies at or before `target` in key order.
pub open spec fn at_or_before(k: NodeKey, target: NodeKey) -> bool {
    key_lt(k, target) || k == target
}

/// Where a stale node index goes: the index of the epoch snapshot pruner
/// when the node was written at or before the end of the previous epoch,
/// the index of the state Merkle pruner otherwise.
pub open spec fn stale_op(x: StaleNodeIndex, previous_epoch_ending_version: Option<Version>) -> SchemaOp {
    if previous_epoch_ending_version is Some && x.node_key.version
        <= previous_epoch_ending_version->0 {
        SchemaOp::PutStaleNodeIndexCrossEpoch(x)
    } else {
        SchemaOp::PutStaleNodeIndex(x)
    }
}

/// The writes that record the stale node indices of `s`, in order.
pub open spec fn stale_ops(s: Seq<StaleNodeIndex>, previous_epoch_ending_version: Option<Version>) -> Seq<SchemaOp> {
    Seq::new(s.len(), |i: int| stale_op(s[i], previous_epoch_ending_version))
}

/// The leaf with the larger account key of the one kept so far and a new
/// one; the one kept so far wins a tie.
pub open spec fn better_leaf(
    acc: Option<(NodeKey, LeafNode)>,
    k: NodeKey,
    l: LeafNode,
) -> Option<(NodeKey, LeafNode)> {
    match acc {
        None => Some((k, l)),
        Some(other) => if hash_lt(other.1.account_key, l.account_key) {
            Some((k, l))
        } else {
            acc
        },
    }
}

/// The leaves of `s` that a scan in key order keeps: it skips internal and
/// null nodes and stops at the first leaf written by another version.
pub open spec fn naive_scan(
    s: Seq<Entry>,
    version: Version,
    acc: Option<(NodeKey, LeafNode)>,
) -> Option<(NodeKey, LeafNode)>
    decreases s.len(),
{
    if s.len() == 0 {
        acc
    } else {
        match s[0].1 {
            Node::Leaf(l) => if s[0].0.version != version {
                acc
            } else {
                naive_scan(s.drop_first(), version, better_leaf(acc, s[0].0, l))
            },
            _ => naive_scan(s.drop_first(), version, acc),
        }
    }
}

/// The rightmost leaf that a scan of the nodes written at or after `version`
/// finds.
pub open spec fn rightmost_leaf_naive_spec(s: Seq<Entry>, version: Version) -> Option<(NodeKey, LeafNode)> {
    let t = SeekTarget::BeforeRange(version, 0);
    naive_scan(crate::node_store::skip_before(s, t), version, None)
}

/// The best leaf among the last nodes of the ranges of `version` whose
/// paths have fewer than 1, 2, ..., `n` nibbles.
pub open spec fn range_end_leaves(s: Seq<Entry>, version: Version, n: nat) -> Option<(NodeKey, LeafNode)>
    decreases n,
{
    if n == 0 {
        None
    } else {
        let acc = range_end_leaves(s, version, (n - 1) as nat);
        match seek_for_prev_spec(s, SeekTarget::BeforeRange(version, n as usize)) {
            Some(e) => if e.0.version != version {
                acc
            } else {
                match e.1 {
                    Node::Leaf(l) => better_leaf(acc, e.0, l),
                    _ => acc,
                }
            },
            None => acc,
        }
    }
}

/// The rightmost leaf found from the ends of the ranges of nibble counts,
/// after checking that the first node at or after `version` is a non-null
/// node written by `version`.
pub open spec fn rightmost_leaf_spec(s: Seq<Entry>, version: Version) -> Option<(NodeKey, LeafNode)> {
    match seek_spec(s, SeekTarget::BeforeRange(version, 0)) {
        None => None,
        Some(e) => if e.1 is Null || e.0.version != version {
            None
        } else {
            range_end_leaves(s, version, (ROOT_NIBBLE_HEIGHT + 1) as nat)
        },
    }
}

/// The version of the last node at or before the root key of
/// `next_version - 1`; none before the first version.
pub open spec fn snapshot_version_before_spec(s: Seq<Entry>, next_version: Version) -> Option<Version> {
    if next_version == 0 {
        None
    } else {
        match seek_for_prev_spec(s, SeekTarget::AtMost(root_key((next_version - 1) as Version))) {
            Some(e) => Some(e.0.version),
            None => None,
        }
    }
}

/// What can go wrong when reading the tree.
#[derive(Clone, Copy, Debug, PartialEq, Eq, Structural)]
pub enum StateMerkleDbError {
    /// The version has no root node.
    RootNotFound(Version),
}

/// The database of the tree's nodes, with a cache of the nodes written by
/// recent versions and a bounded cache of nodes read from the store.
pub struct StateMerkleDb {
    db: SchemaDb,
    enable_cache: bool,
    version_cache: VersionedNodeCache,
    lru_cache: LruNodeCache,
}

impl StateMerkleDb {
    /// The database.
    pub closed spec fn schema_db(&self) -> SchemaDb {
        self.db
    }

    /// Whether reads go through the caches.
    pub closed spec fn caching(&self) -> bool {
        self.enable_cache
    }

    /// The cache of the nodes written by recent versions.
    pub closed spec fn vcache(&self) -> VersionedNodeCache {
        self.version_cache
    }

    /// The cache of nodes read from the store.
    pub closed spec fn lru(&self) -> LruNodeCache {
        self.lru_cache
    }

    /// The nodes in the store, in key order.
    pub open spec fn stored_nodes(&self) -> Seq<Entry> {
        self.schema_db()@.0
    }

    /// The parts are well formed; caching on means the bounded cache may
    /// hold nodes, and caching off means no version is cached.
    pub open spec fn wf(&self) -> bool {
        &&& self.schema_db().wf()
        &&& self.vcache().wf()
        &&& self.lru().wf()
        &&& self.caching() ==> self.lru().capacity() > 0
        &&& !self.caching() ==> self.vcache()@.len() == 0
    }

    /// What a read of `k` answers: the store when caching is off; else the
    /// cached nodes of the key's version when that version is cached; else
    /// the bounded cache when it holds the key; else the store.
    pub open spec fn read_spec(&self, k: NodeKey) -> Option<Node> {
        if !self.caching() {
            lookup(self.stored_nodes(), k)
        } else if version_lookup(self.vcache()@, k.version) is Some {
            lookup(version_lookup(self.vcache()@, k.version)->0@, k)
        } else if lookup(self.lru()@, k) is Some {
            lookup(self.lru()@, k)
        } else {
            lookup(self.stored_nodes(), k)
        }
    }

    /// The bounded cache after a read of `k`: a hit there, or a node that
    /// the read took from the store, becomes its most recent entry.
    pub open spec fn lru_after_read(&self, k: NodeKey) -> Seq<Entry> {
        if self.caching() && version_lookup(self.vcache()@, k.version) is None {
            match lookup(self.lru()@, k) {
                Some(n) => lru_touch(self.lru()@, k, n, self.lru().capacity()),
                None => match lookup(self.stored_nodes(), k) {
                    Some(n) => if self.lru().capacity() == 0 {
                        self.lru()@
                    } else {
                        lru_touch(self.lru()@, k, n, self.lru().capacity())
                    },
                    None => self.lru()@,
                },
            }
        } else {
            self.lru()@
        }
    }

    /// The caches agree with the store: both are empty when caching is off,
    /// every node that the bounded cache holds is the one stored under its
    /// key, and the nodes cached for a version are exactly the stored nodes
    /// of that version.
    pub open spec fn caches_coherent(&self) -> bool {
        &&& !self.caching() ==> self.vcache()@.len() == 0 && self.lru()@.len() == 0
        &&& forall|k: NodeKey| (#[trigger] lookup(self.lru()@, k)) is Some ==> lookup(self.lru()@, k) == lookup(self.stored_nodes(), k)
        &&& forall|k: NodeKey|
            (#[trigger] version_lookup(self.vcache()@, k.version)) is Some ==> lookup(
                version_lookup(self.vcache()@, k.version)->0@,
                k,
            ) == lookup(self.stored_nodes(), k)
    }

    /// A database over `db`; caching is on when the bounded cache may hold
    /// any node, and both caches start empty.
    pub fn new(db: SchemaDb, max_nodes_per_lru_cache_shard: usize) -> (r: StateMerkleDb)
        requires
            db.wf(),
        ensures
            r.wf(),
            r.schema_db() == db,
            r.caching() == (max_nodes_per_lru_cache_shard > 0),
            r.vcache()@ == Seq::<(Version, NodeStore)>::empty(),
            r.lru()@ == Seq::<Entry>::empty(),
            r.lru().capacity() == max_nodes_per_lru_cache_shard,
            r.caches_coherent(),
    {
        StateMerkleDb {
            db,
            // When the bounded cache is to hold nothing, both caches are off.
            enable_cache: max_nodes_per_lru_cache_shard > 0,
            version_cache: VersionedNodeCache::new(),
            lru_cache: LruNodeCache::new(max_nodes_per_lru_cache_shard),
        }
    }

    /// Whether reads go through the caches.
    pub fn cache_enabled(&self) -> (b: bool)
        ensures
            b == self.caching(),
    {
        self.enable_cache
    }

    /// The cache of the nodes written by recent versions.
    pub fn version_cache(&self) -> (c: &VersionedNodeCache)
        ensures
            *c == self.vcache(),
    {
        &self.version_cache
    }

    /// The cache of nodes read from the store.
    pub fn lru_cache(&self) -> (c: &LruNodeCache)
        ensures
            *c == self.lru(),
    {
        &self.lru_cache
    }

    /// Commits the writes of `batch` to the database.
    pub fn write_schemas(&mut self, batch: SchemaBatch)
        requires
            old(self).wf(),
        ensures
            final(self).wf(),
            final(self).schema_db()@ == apply_ops(old(self).schema_db()@, batch.ops@),
            final(self).caching() == old(self).caching(),
            final(self).vcache() == old(self).vcache(),
            final(self).lru() == old(self).lru(),
    {
        self.db.write_schemas(batch);
    }

    /// The newest version before `next_version` with a snapshot: the version
    /// of the last node at or before the root key of `next_version - 1`.
    pub fn get_state_snapshot_version_before(&self, next_version: Version) -> (r: Option<Version>)
        requires
            self.wf(),
        ensures
            r == snapshot_version_before_spec(self.stored_nodes(), next_version),
            // the version of the last stored node at or before the root key of
            // next_version - 1, and none when there is no such node
            r is Some <==> next_version > 0 && exists|i: int|
                0 <= i < self.stored_nodes().len() && at_or_before(
                    #[trigger] self.stored_nodes()[i].0,
                    root_key((next_version - 1) as Version),
                ),
            r matches Some(v) ==> exists|i: int|
                0 <= i < self.stored_nodes().len() && self.stored_nodes()[i].0.version == v
                    && at_or_before(self.stored_nodes()[i].0, root_key((next_version - 1) as Version))
                    && forall|j: int|
                    0 <= j < self.stored_nodes().len() && at_or_before(
                        #[trigger] self.stored_nodes()[j].0,
                        root_key((next_version - 1) as Version),
                    ) ==> j <= i,
            roots_present(self.stored_nodes()) ==> {
                &&& r is None <==> forall|i: int|
                    0 <= i < self.stored_nodes().len() ==> version_at(self.stored_nodes(), i)
                        >= next_version
                &&& r matches Some(v) ==> {
                    &&& v < next_version
                    &&& exists|i: int|
                        0 <= i < self.stored_nodes().len() && version_at(self.stored_nodes(), i) == v
                    &&& forall|i: int|
                        0 <= i < self.stored_nodes().len() && version_at(self.stored_nodes(), i)
                            < next_version ==> version_at(self.stored_nodes(), i) <= v
                }
            },
    {
        proof {
            if roots_present(self.stored_nodes()) {
                lemma_snapshot_version(self.stored_nodes(), next_version);
            }
            law_snapshot_version_is_last_key_at_or_before_root(self.stored_nodes(), next_version);
        }
        if next_version > 0 {
            let max_possible_version = next_version - 1;
            let t = SeekTarget::AtMost(NodeKey::new_empty_path(max_possible_version));
            if let Some((key, _node)) = self.db.nodes().seek_for_prev(&t) {
                return Some(key.version());
            }
        }
        // No version before genesis.
        None
    }

    /// Turns the output of a tree update for `version` into a schema batch:
    /// a write of every new node, then a record of every stale node index,
    /// for the epoch snapshot pruner when the node was written at or before
    /// `previous_epoch_ending_version`, for the state Merkle pruner otherwise.
    /// With caching on, the new nodes are also cached as those of `version`.
    /// Returns the batch and the new root hash.
    pub fn merklize_value_set(
        &mut self,
        tree_update_batch: TreeUpdateBatch,
        new_root_hash: HashValue,
        version: Version,
        previous_epoch_ending_version: Option<Version>,
    ) -> (r: (SchemaBatch, HashValue))
        requires
            old(self).wf(),
        ensures
            final(self).wf(),
            r.1 == new_root_hash,
            r.0.ops@ == node_ops(flat_nodes(tree_update_batch.node_batch@)) + stale_ops(
                flat_indices(tree_update_batch.stale_node_index_batch@),
                previous_epoch_ending_version,
            ),
            // every stale node index is recorded once, after the nodes, for
            // the epoch snapshot pruner exactly when the node was written at
            // or before the end of the previous epoch
            r.0.ops@.len() == flat_nodes(tree_update_batch.node_batch@).len() + flat_indices(
                tree_update_batch.stale_node_index_batch@,
            ).len(),
            forall|i: int|
                0 <= i < flat_indices(tree_update_batch.stale_node_index_batch@).len() ==> {
                    let x = #[trigger] flat_indices(tree_update_batch.stale_node_index_batch@)[i];
                    let op = r.0.ops@[flat_nodes(tree_update_batch.node_batch@).len() + i];
                    &&& op == SchemaOp::PutStaleNodeIndexCrossEpoch(x) || op
                        == SchemaOp::PutStaleNodeIndex(x)
                    &&& (op is PutStaleNodeIndexCrossEpoch <==> (previous_epoch_ending_version is Some
                        && x.node_key.version <= previous_epoch_ending_version->0))
                },
            final(self).schema_db() == old(self).schema_db(),
            final(self).caching() == old(self).caching(),
            final(self).lru() == old(self).lru(),
            old(self).caching() ==> final(self).vcache()@.len() == old(self).vcache()@.len() + 1
                && final(self).vcache()@.drop_last() == old(self).vcache()@
                && final(self).vcache()@.last().0 == version
                && final(self).vcache()@.last().1@ == build_store(
                flat_nodes(tree_update_batch.node_batch@),
            ),
            !old(self).caching() ==> final(self).vcache() == old(self).vcache(),
    {
        let caching = self.enable_cache;
        let mut batch = SchemaBatch::new();
        let mut cached = NodeStore::new();
        let ghost nb = tree_update_batch.node_batch@;
        let mut i: usize = 0;
        while i < tree_update_batch.node_batch.len()
            invariant
                i <= nb.len(),
                nb == tree_update_batch.node_batch@,
                batch.ops@ == node_ops(flat_nodes(nb.take(i as int))),
                cached.wf(),
                caching ==> cached@ == build_store(flat_nodes(nb.take(i as int))),
            decreases nb.len() - i,
        {
            let shard = &tree_update_batch.node_batch[i];
            let ghost seen = flat_nodes(nb.take(i as int));
            let mut j: usize = 0;
            while j < shard.len()
                invariant
                    j <= shard@.len(),
                    *shard == nb[i as int],
                    batch.ops@ == node_ops(seen + shard@.take(j as int)),
                    cached.wf(),
                    caching ==> cached@ == build_store(seen + shard@.take(j as int)),
                decreases shard@.len() - j,
            {
                let (node_key, node) = shard[j];
                let ghost cur = seen + shard@.take(j as int);
                let ghost next = seen + shard@.take(j + 1);
                assert(next =~= cur.push((node_key, node)));
                assert(next.drop_last() =~= cur);
                proof {
                    lemma_store_put(cached@, node_key, node);
                }
                batch.put_node(node_key, node);
                if caching {
                    cached.put(node_key, node);
                }
                assert(batch.ops@ =~= node_ops(next));
                j = j + 1;
            }
            assert(nb.take(i + 1).drop_last() =~= nb.take(i as int));
            assert(shard@.take(j as int) =~= shard@);
            i = i + 1;
        }
        assert(nb.take(i as int) =~= nb);
        if caching {
            self.version_cache.add_version(version, cached);
        }
        let ghost node_part = batch.ops@;
        let ghost sb = tree_update_batch.stale_node_index_batch@;
        let mut i: usize = 0;
        while i < tree_update_batch.stale_node_index_batch.len()
            invariant
                i <= sb.len(),
                sb == tree_update_batch.stale_node_index_batch@,
                batch.ops@ == node_part + stale_ops(
                    flat_indices(sb.take(i as int)),
                    previous_epoch_ending_version,
                ),
            decreases sb.len() - i,
        {
            let shard = &tree_update_batch.stale_node_index_batch[i];
            let ghost seen = flat_indices(sb.take(i as int));
            let mut j: usize = 0;
            while j < shard.len()
                invariant
                    j <= shard@.len(),
                    *shard == sb[i as int],
                    batch.ops@ == node_part + stale_ops(
                        seen + shard@.take(j as int),
                        previous_epoch_ending_version,
                    ),
                decreases shard@.len() - j,
            {
                let row = shard[j];
                let ghost cur = seen + shard@.take(j as int);
                let ghost next = seen + shard@.take(j + 1);
                assert(next =~= cur.push(row));
                let cross_epoch = match previous_epoch_ending_version {
                    Some(v) => row.node_key.version() <= v,
                    None => false,
                };
                if cross_epoch {
                    // Processed by the epoch snapshot pruner.
                    batch.put_stale_node_index_cross_epoch(row);
                } else {
                    // Processed by the state Merkle pruner.
                    batch.put_stale_node_index(row);
                }
                assert(batch.ops@ =~= node_part + stale_ops(next, previous_epoch_ending_version));
                j = j + 1;
            }
            assert(sb.take(i + 1).drop_last() =~= sb.take(i as int));
            assert(shard@.take(j as int) =~= shard@);
            i = i + 1;
        }
        assert(sb.take(i as int) =~= sb);
        (batch, new_root_hash)
    }

    /// The rightmost leaf written by `version`, found by scanning every node
    /// from the first one at or after `version`.
    pub fn get_rightmost_leaf_naive(&self, version: Version) -> (r: Option<(NodeKey, LeafNode)>)
        requires
            self.wf(),
        ensures
            r == rightmost_leaf_naive_spec(self.stored_nodes(), version),
            is_max_leaf(self.stored_nodes(), version, r),
    {
        proof {
            lemma_naive_is_max(self.stored_nodes(), version);
        }
        let nodes = self.db.nodes();
        let t = SeekTarget::BeforeRange(version, 0);
        let start = nodes.lower_bound(&t);
        let ghost s = nodes@;
        let ghost rest = s.skip(start as int);
        let mut ret: Option<(NodeKey, LeafNode)> = None;
        let mut i = start;
        while i < nodes.len()
            invariant
                start <= i <= s.len(),
                s == nodes@,
                rest == s.skip(start as int),
                naive_scan(rest, version, None) == naive_scan(s.skip(i as int), version, ret),
            ensures
                naive_scan(rest, version, None) == ret,
            decreases s.len() - i,
        {
            let (node_key, node) = nodes.entry(i);
            assert(s.skip(i as int)[0] == s[i as int]);
            assert(s.skip(i as int).drop_first() =~= s.skip(i + 1));
            if let Node::Leaf(leaf_node) = node {
                if node_key.version() != version {
                    break;
                }
                assert(node_key.version == version);
                ret = Self::choose_leaf(ret, node_key, leaf_node);
            }
            i = i + 1;
        }
        ret
    }

    /// Keeps the leaf with the larger account key; the one kept so far wins a
    /// tie.
    fn choose_leaf(
        ret: Option<(NodeKey, LeafNode)>,
        node_key: NodeKey,
        leaf_node: LeafNode,
    ) -> (r: Option<(NodeKey, LeafNode)>)
        ensures
            r == better_leaf(ret, node_key, leaf_node),
    {
        match ret {
            None => Some((node_key, leaf_node)),
            Some(other) => {
                if leaf_node.account_key.compare(&other.1.account_key) == Comparison::Greater {
                    Some((node_key, leaf_node))
                } else {
                    ret
                }
            },
        }
    }

    /// The node stored under `node_key`, read through the caches when caching
    /// is on; a node taken from the store is then put in the bounded cache.
    pub fn get_node_option(&mut self, node_key: &NodeKey) -> (r: Option<Node>)
        requires
            old(self).wf(),
        ensures
            final(self).wf(),
            r == old(self).read_spec(*node_key),
            old(self).caches_coherent() ==> r == lookup(old(self).stored_nodes(), *node_key),
            // with caching on, a key of a cached version is answered by the
            // nodes cached for that version, whatever its path
            old(self).caching() ==> (version_lookup(old(self).vcache()@, node_key.version) matches Some(
                st,
            ) ==> r == lookup(st@, *node_key)),
            !old(self).caching() ==> r == lookup(old(self).stored_nodes(), *node_key),
            // with caching on, a node found outside the version cache is
            // afterwards the bounded cache's most recent entry
            old(self).caching() && version_lookup(old(self).vcache()@, node_key.version) is None
                && r is Some ==> lookup(final(self).lru()@, *node_key) == r
                && final(self).lru()@.last() == (*node_key, r->0),
            final(self).schema_db() == old(self).schema_db(),
            final(self).caching() == old(self).caching(),
            final(self).vcache() == old(self).vcache(),
            final(self).lru()@ == old(self).lru_after_read(*node_key),
            final(self).lru().capacity() == old(self).lru().capacity(),
            old(self).caches_coherent() ==> final(self).caches_coherent(),
    {
        if !self.enable_cache {
            return self.db.get_node(node_key);
        }
        let ghost old_self = *self;
        if let Some(node_cache) = self.version_cache.get_version(node_key.version()) {
            return node_cache.get(node_key);
        }
        if let Some(node) = self.lru_cache.get(node_key) {
            proof {
                self.lemma_touch_keeps_coherent(old_self, *node_key, node);
            }
            return Some(node);
        }
        let node_opt = self.db.get_node(node_key);
        if let Some(node) = node_opt {
            self.lru_cache.put(*node_key, node);
            proof {
                if self.lru().capacity() > 0 {
                    self.lemma_touch_keeps_coherent(old_self, *node_key, node);
                }
            }
        }
        node_opt
    }

    proof fn lemma_touch_keeps_coherent(&self, old_self: StateMerkleDb, k: NodeKey, n: Node)
        requires
            old_self.wf(),
            old_self.caching(),
            self.caching() == old_self.caching(),
            self.schema_db() == old_self.schema_db(),
            self.vcache() == old_self.vcache(),
            self.lru().capacity() == old_self.lru().capacity(),
            self.lru()@ == lru_touch(old_self.lru()@, k, n, old_self.lru().capacity()),
            old_self.caches_coherent() ==> lookup(old_self.stored_nodes(), k) == Some(n),
        ensures
            old_self.caches_coherent() ==> self.caches_coherent(),
    {
        lemma_lru_touch(old_self.lru()@, k, n, old_self.lru().capacity());
        if old_self.caches_coherent() {
            assert forall|k2: NodeKey| (#[trigger] lookup(self.lru()@, k2)) is Some implies lookup(
                self.lru()@,
                k2,
            ) == lookup(self.stored_nodes(), k2) by {
                if k2 != k {
                    assert(lookup(old_self.lru()@, k2) is Some);
                }
            }
        }
    }

    /// The number of leaves of the tree of `version`, read from its root node
    /// through the caches; an error when the version has no root.
    pub fn get_leaf_count(&mut self, version: Version) -> (r: Result<usize, StateMerkleDbError>)
        requires
            old(self).wf(),
        ensures
            final(self).wf(),
            r == match old(self).read_spec(root_key(version)) {
                Some(n) => Ok(leaf_count_of(n)),
                None => Err(StateMerkleDbError::RootNotFound(version)),
            },
            match old(self).read_spec(root_key(version)) {
                Some(Node::Internal(i)) => r == Ok::<usize, StateMerkleDbError>(i.leaf_count),
                Some(Node::Leaf(_)) => r == Ok::<usize, StateMerkleDbError>(1),
                Some(Node::Null) => r == Ok::<usize, StateMerkleDbError>(0),
                None => r == Err::<usize, StateMerkleDbError>(StateMerkleDbError::RootNotFound(version)),
            },
            final(self).schema_db() == old(self).schema_db(),
            final(self).caching() == old(self).caching(),
            final(self).vcache() == old(self).vcache(),
            final(self).lru()@ == old(self).lru_after_read(root_key(version)),
            final(self).lru().capacity() == old(self).lru().capacity(),
            old(self).caches_coherent() ==> final(self).caches_coherent(),
    {
        let root_node_key = NodeKey::new_empty_path(version);
        match self.get_node_option(&root_node_key) {
            Some(node) => Ok(node.leaf_count()),
            None => Err(StateMerkleDbError::RootNotFound(version)),
        }
    }

    /// The rightmost leaf written by `version`. A seek finds the first node
    /// at or after `version`; unless it is a non-null node of `version`
    /// there is none. Otherwise, for each number of nibbles, the last node of
    /// `version` whose path is that long is found by a backward seek, and the
    /// leaf with the largest account key among those nodes is returned.
    pub fn get_rightmost_leaf(&self, version: Version) -> (r: Option<(NodeKey, LeafNode)>)
        requires
            self.wf(),
        ensures
            r == rightmost_leaf_spec(self.stored_nodes(), version),
            tree_of_version(self.stored_nodes(), version) ==> is_max_leaf(
                self.stored_nodes(),
                version,
                r,
            ),
    {
        proof {
            if tree_of_version(self.stored_nodes(), version) {
                lemma_rightmost_is_max(self.stored_nodes(), version);
            }
        }
        let nodes = self.db.nodes();
        let first = nodes.seek(&SeekTarget::BeforeRange(version, 0));
        match first {
            Some((node_key, node)) => {
                if node.node_type() == NodeType::Null || node_key.version() != version {
                    return None;
                }
            },
            None => return None,
        }
        // A node's key starts with its version, then its number of nibbles,
        // then its path. A backward seek to (version, n) lands on the last
        // node of version whose path has fewer than n nibbles: the end of the
        // range of paths with n - 1 nibbles when that range is not empty.
        let mut ret: Option<(NodeKey, LeafNode)> = None;
        let mut num_nibbles: usize = 1;
        while num_nibbles <= ROOT_NIBBLE_HEIGHT + 1
            invariant
                1 <= num_nibbles <= ROOT_NIBBLE_HEIGHT + 2,
                nodes.wf(),
                ret == range_end_leaves(nodes@, version, (num_nibbles - 1) as nat),
            decreases ROOT_NIBBLE_HEIGHT + 2 - num_nibbles,
        {
            let seek_key = SeekTarget::BeforeRange(version, num_nibbles);
            if let Some((node_key, node)) = nodes.seek_for_prev(&seek_key) {
                if node_key.version() == version {
                    if let Node::Leaf(leaf_node) = node {
                        ret = Self::choose_leaf(ret, node_key, leaf_node);
                    }
                }
            }
            num_nibbles = num_nibbles + 1;
        }
        ret
    }

    /// Writes the nodes of `node_batch` into the store in one batch.
    pub fn write_node_batch(&mut self, node_batch: &NodeBatch)
        requires
            old(self).wf(),
        ensures
            final(self).wf(),
            final(self).schema_db()@ == apply_ops(old(self).schema_db()@, node_ops(node_batch@)),
            forall|k: NodeKey| #[trigger]
                lookup(final(self).stored_nodes(), k) == match lookup(node_batch@, k) {
                    Some(n) => Some(n),
                    None => lookup(old(self).stored_nodes(), k),
                },
            final(self).caching() == old(self).caching(),
            final(self).vcache() == old(self).vcache(),
            final(self).lru() == old(self).lru(),
            // writing new nodes of versions that are not cached keeps the
            // caches coherent
            old(self).caches_coherent() && (forall|i: int|
                0 <= i < node_batch@.len() ==> lookup(old(self).stored_nodes(), (#[trigger] node_batch@[i]).0)
                    is None && version_lookup(old(self).vcache()@, node_batch@[i].0.version) is None)
                ==> final(self).caches_coherent(),
    {
        let mut batch = SchemaBatch::new();
        let mut i: usize = 0;
        while i < node_batch.len()
            invariant
                i <= node_batch@.len(),
                batch.ops@ == node_ops(node_batch@.take(i as int)),
            decreases node_batch@.len() - i,
        {
            let (node_key, node) = node_batch[i];
            batch.put_node(node_key, node);
            assert(batch.ops@ =~= node_ops(node_batch@.take(i + 1)));
            i = i + 1;
        }
        assert(node_batch@.take(i as int) =~= node_batch@);
        proof {
            lemma_apply_node_ops(self.schema_db()@, node_batch@);
        }
        let ghost old_self = *self;
        self.db.write_schemas(batch);
        proof {
            let b = node_batch@;
            if old_self.caches_coherent() && (forall|i: int|
                0 <= i < b.len() ==> lookup(old_self.stored_nodes(), (#[trigger] b[i]).0) is None
                    && version_lookup(old_self.vcache()@, b[i].0.version) is None) {
                assert forall|k: NodeKey| (#[trigger] lookup(self.lru()@, k)) is Some implies lookup(
                    self.lru()@,
                    k,
                ) == lookup(self.stored_nodes(), k) by {
                    if lookup(b, k) is Some {
                        lemma_lookup_some(b, k);
                        let i = choose|i: int| 0 <= i < b.len() && (#[trigger] b[i]) == (k, lookup(b, k)->0);
                        assert(lookup(old_self.stored_nodes(), b[i].0) is None);
                    }
                }
                assert forall|k: NodeKey|
                    (#[trigger] version_lookup(self.vcache()@, k.version)) is Some implies lookup(
                    version_lookup(self.vcache()@, k.version)->0@,
                    k,
                ) == lookup(self.stored_nodes(), k) by {
                    if lookup(b, k) is Some {
                        lemma_lookup_some(b, k);
                        let i = choose|i: int| 0 <= i < b.len() && (#[trigger] b[i]) == (k, lookup(b, k)->0);
                        assert(version_lookup(old_self.vcache()@, b[i].0.version) is None);
                    }
                }
            }
        }
    }
}

/// The store built from a batch of nodes is sorted and holds, under each
/// key, the last node that the batch gives for it.
pub proof fn lemma_build_store(s: Seq<Entry>)
    ensures
        sorted(build_store(s)),
        forall|k: NodeKey| #[trigger] lookup(build_store(s), k) == lookup(s, k),
    decreases s.len(),
{
    if s.len() > 0 {
        let r = s.drop_last();
        lemma_build_store(r);
        lemma_store_put(build_store(r), s.last().0, s.last().1);
        assert forall|k: NodeKey| #[trigger] lookup(build_store(s), k) == lookup(s, k) by {
            assert(lookup(s, k) == if s.last().0 == k {
                Some(s.last().1)
            } else {
                lookup(r, k)
            });
        }
    }
}

/// Writing `a` and then `b` is writing `a + b`.
pub proof fn lemma_apply_ops_append(d: crate::schema_db::DbView, a: Seq<SchemaOp>, b: Seq<SchemaOp>)
    ensures
        apply_ops(d, a + b) == apply_ops(apply_ops(d, a), b),
    decreases b.len(),
{
    if b.len() == 0 {
        assert(a + b =~= a);
    } else {
        lemma_apply_ops_append(d, a, b.drop_last());
        assert((a + b).drop_last() =~= a + b.drop_last());
        assert((a + b).last() == b.last());
    }
}

/// Recording stale node indices leaves the nodes as they are.
pub proof fn lemma_stale_ops_keep_nodes(
    d: crate::schema_db::DbView,
    xs: Seq<StaleNodeIndex>,
    previous_epoch_ending_version: Option<Version>,
)
    ensures
        apply_ops(d, stale_ops(xs, previous_epoch_ending_version)).0 == d.0,
    decreases xs.len(),
{
    if xs.len() > 0 {
        let r = xs.drop_last();
        assert(stale_ops(xs, previous_epoch_ending_version).drop_last() =~= stale_ops(
            r,
            previous_epoch_ending_version,
        ));
        lemma_stale_ops_keep_nodes(d, r, previous_epoch_ending_version);
    }
}

/// With coherent caches, a read through the caches answers exactly what
/// the store holds.
pub proof fn law_coherent_read_answers_store(d: StateMerkleDb, k: NodeKey)
    requires
        d.wf(),
        d.caches_coherent(),
    ensures
        d.read_spec(k) == lookup(d.stored_nodes(), k),
{
}

/// Committing the batch that `merklize_value_set` made for a new version
/// keeps the caches coherent with the store, when the update only writes
/// nodes of that version and the store holds none of them yet. Here `m` is
/// the database after `merklize_value_set` returned the writes `ops`, and
/// `c` the database after those writes were committed.
pub proof fn law_committed_update_keeps_caches_coherent(
    d: StateMerkleDb,
    m: StateMerkleDb,
    c: StateMerkleDb,
    tree_update_batch: TreeUpdateBatch,
    version: Version,
    previous_epoch_ending_version: Option<Version>,
    ops: Seq<SchemaOp>,
)
    requires
        d.wf(),
        d.caches_coherent(),
        forall|i: int|
            0 <= i < flat_nodes(tree_update_batch.node_batch@).len() ==> (#[trigger] flat_nodes(
                tree_update_batch.node_batch@,
            )[i]).0.version == version,
        forall|k: NodeKey| k.version == version ==> #[trigger] lookup(d.stored_nodes(), k) is None,
        ops == node_ops(flat_nodes(tree_update_batch.node_batch@)) + stale_ops(
            flat_indices(tree_update_batch.stale_node_index_batch@),
            previous_epoch_ending_version,
        ),
        m.schema_db() == d.schema_db(),
        m.caching() == d.caching(),
        m.lru() == d.lru(),
        d.caching() ==> m.vcache()@.len() == d.vcache()@.len() + 1 && m.vcache()@.drop_last()
            == d.vcache()@ && m.vcache()@.last().0 == version && m.vcache()@.last().1@
            == build_store(flat_nodes(tree_update_batch.node_batch@)),
        !d.caching() ==> m.vcache() == d.vcache(),
        c.schema_db()@ == apply_ops(m.schema_db()@, ops),
        c.caching() == m.caching(),
        c.vcache() == m.vcache(),
        c.lru() == m.lru(),
    ensures
        c.caches_coherent(),
{
    let flat = flat_nodes(tree_update_batch.node_batch@);
    let stale = stale_ops(
        flat_indices(tree_update_batch.stale_node_index_batch@),
        previous_epoch_ending_version,
    );
    let d0 = d.schema_db()@;
    lemma_apply_ops_append(d0, node_ops(flat), stale);
    lemma_apply_node_ops(d0, flat);
    lemma_stale_ops_keep_nodes(
        apply_ops(d0, node_ops(flat)),
        flat_indices(tree_update_batch.stale_node_index_batch@),
        previous_epoch_ending_version,
    );
    assert(c.stored_nodes() == apply_ops(d0, node_ops(flat)).0);
    lemma_build_store(flat);
    // keys of other versions are not written
    assert forall|k: NodeKey| k.version != version implies #[trigger] lookup(c.stored_nodes(), k)
        == lookup(d.stored_nodes(), k) by {
        if lookup(flat, k) is Some {
            lemma_lookup_some(flat, k);
            let i = choose|i: int| 0 <= i < flat.len() && (#[trigger] flat[i]) == (k, lookup(flat, k)->0);
            assert(flat[i].0.version == version);
        }
    }
    assert forall|k: NodeKey| (#[trigger] lookup(c.lru()@, k)) is Some implies lookup(c.lru()@, k)
        == lookup(c.stored_nodes(), k) by {
        assert(lookup(d.stored_nodes(), k) is Some);
        assert(lookup(c.stored_nodes(), k) == lookup(d.stored_nodes(), k));
    }
    if d.caching() {
        let st = m.vcache()@.last();
        assert(m.vcache()@ =~= d.vcache()@.push(st));
        assert forall|k: NodeKey| (#[trigger] version_lookup(c.vcache()@, k.version)) is Some implies lookup(
            version_lookup(c.vcache()@, k.version)->0@,
            k,
        ) == lookup(c.stored_nodes(), k) by {
            assert(version_lookup(c.vcache()@, k.version) == if st.0 == k.version {
                Some(st.1)
            } else {
                version_lookup(d.vcache()@, k.version)
            });
            if k.version == version {
                assert(lookup(st.1@, k) == lookup(flat, k));
            } else {
                assert(lookup(c.stored_nodes(), k) == lookup(d.stored_nodes(), k));
            }
        }
    }
}

/// A stale node index is recorded for the epoch snapshot pruner exactly when
/// the end of the previous epoch is known and the node was written at or
/// before it, and for the state Merkle pruner otherwise; the record carries
/// the index itself, in the order of the update.
pub proof fn law_stale_index_routing(
    xs: Seq<StaleNodeIndex>,
    previous_epoch_ending_version: Option<Version>,
)
    ensures
        stale_ops(xs, previous_epoch_ending_version).len() == xs.len(),
        forall|i: int|
            0 <= i < xs.len() ==> {
                let op = #[trigger] stale_ops(xs, previous_epoch_ending_version)[i];
                &&& op == SchemaOp::PutStaleNodeIndexCrossEpoch(xs[i]) || op
                    == SchemaOp::PutStaleNodeIndex(xs[i])
                &&& (op is PutStaleNodeIndexCrossEpoch <==> (previous_epoch_ending_version is Some
                    && xs[i].node_key.version <= previous_epoch_ending_version->0))
            },
{
}

/// With caching on, a read of a key whose version is cached answers from the
/// nodes cached for that version, whatever the key's path.
pub proof fn law_cached_version_answers_reads(d: StateMerkleDb, k: NodeKey)
    requires
        d.wf(),
        d.caching(),
        version_lookup(d.vcache()@, k.version) is Some,
    ensures
        d.read_spec(k) == lookup(version_lookup(d.vcache()@, k.version)->0@, k),
{
}

/// After `merklize_value_set` for `version` with caching on (`m` the database
/// afterwards), every key of that version reads the last node that the
/// update wrote under it, before the batch is committed.
pub proof fn law_update_readable_before_commit(
    d: StateMerkleDb,
    m: StateMerkleDb,
    tree_update_batch: TreeUpdateBatch,
    version: Version,
    k: NodeKey,
)
    requires
        d.wf(),
        m.wf(),
        d.caching(),
        m.caching(),
        k.version == version,
        m.vcache()@.len() == d.vcache()@.len() + 1,
        m.vcache()@.drop_last() == d.vcache()@,
        m.vcache()@.last().0 == version,
        m.vcache()@.last().1@ == build_store(flat_nodes(tree_update_batch.node_batch@)),
    ensures
        m.read_spec(k) == lookup(flat_nodes(tree_update_batch.node_batch@), k),
{
    let st = m.vcache()@.last();
    assert(m.vcache()@ =~= d.vcache()@.push(st));
    assert(version_lookup(m.vcache()@, k.version) == Some(st.1));
    lemma_build_store(flat_nodes(tree_update_batch.node_batch@));
}

/// The snapshot version before `next_version` is the version of the last
/// stored node whose key is at or before the root key of `next_version - 1`,
/// and there is none before the first version or when no such node exists.
pub proof fn law_snapshot_version_is_last_key_at_or_before_root(s: Seq<Entry>, next_version: Version)
    requires
        sorted(s),
    ensures
        snapshot_version_before_spec(s, next_version) is Some <==> next_version > 0 && exists|i: int|
            0 <= i < s.len() && at_or_before(#[trigger] s[i].0, root_key((next_version - 1) as Version)),
        snapshot_version_before_spec(s, next_version) matches Some(v) ==> exists|i: int|
            0 <= i < s.len() && s[i].0.version == v && at_or_before(
                s[i].0,
                root_key((next_version - 1) as Version),
            ) && forall|j: int|
                0 <= j < s.len() && at_or_before(#[trigger] s[j].0, root_key((next_version - 1) as Version))
                    ==> j <= i,
{
    if next_version > 0 {
        let root = root_key((next_version - 1) as Version);
        let t = SeekTarget::AtMost(root);
        lemma_sorted_count_before(s, t);
        let c = count_before(s, t);
        if c > 0 {
            assert(at_or_before(s[c - 1].0, root));
        } else {
            assert forall|i: int| 0 <= i < s.len() implies !at_or_before(#[trigger] s[i].0, root) by {
                assert(!crate::node_store::before(t, s[i].0));
            }
        }
        assert forall|j: int| 0 <= j < s.len() && at_or_before(#[trigger] s[j].0, root) implies j < c by {
            assert(crate::node_store::before(t, s[j].0));
        }
    }
}

impl core::ops::Deref for StateMerkleDb {
    type Target = SchemaDb;

    fn deref(&self) -> (db: &SchemaDb)
        ensures
            *db == self.schema_db(),
    {
        &self.db
    }
}

} // verus!
