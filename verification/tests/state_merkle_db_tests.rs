use aptosdb::node_cache::{LruNodeCache, VersionedNodeCache};
use aptosdb::node_store::{NodeStore, SeekTarget};
use aptosdb::node_type::{
    Comparison, HashValue, InternalNode, LeafNode, NibblePath, Node, NodeKey, NodeType,
    StaleNodeIndex,
};
use aptosdb::schema_db::{SchemaBatch, SchemaDb, SchemaOp};
use aptosdb::state_merkle_db::{StateMerkleDb, StateMerkleDbError, TreeUpdateBatch};

fn path(nibbles: &[u8]) -> NibblePath {
    let mut bytes = [0u8; 32];
    for (i, n) in nibbles.iter().enumerate() {
        if i % 2 == 0 {
            bytes[i / 2] |= n << 4;
        } else {
            bytes[i / 2] |= n;
        }
    }
    NibblePath { num_nibbles: nibbles.len(), bytes }
}

fn key(version: u64, nibbles: &[u8]) -> NodeKey {
    NodeKey { version, nibble_path: path(nibbles) }
}

fn hash(first: u8, second: u8) -> HashValue {
    let mut bytes = [0u8; 32];
    bytes[0] = first;
    bytes[1] = second;
    HashValue { bytes }
}

fn leaf(account_key: HashValue, version: u64) -> Node {
    Node::Leaf(LeafNode { account_key, value_hash: hash(0xaa, 0), value_version: version })
}

fn internal(leaf_count: usize) -> Node {
    Node::Internal(InternalNode { children: [None; 16], leaf_count })
}

fn same_key(a: &NodeKey, b: &NodeKey) -> bool {
    a.compare(b) == Comparison::Equal
}

fn leaf_key(n: &Node) -> HashValue {
    match n {
        Node::Leaf(l) => l.account_key,
        _ => panic!("not a leaf"),
    }
}

/// Version 1: a root with children 1 and 8; child 1 holds the leaves 0x12..
/// and 0x15.., child 8 is the leaf 0x80...
fn first_tree() -> Vec<(NodeKey, Node)> {
    vec![
        (key(1, &[]), internal(3)),
        (key(1, &[1]), internal(2)),
        (key(1, &[8]), leaf(hash(0x80, 0x01), 1)),
        (key(1, &[1, 2]), leaf(hash(0x12, 0x34), 1)),
        (key(1, &[1, 5]), leaf(hash(0x15, 0x00), 1)),
    ]
}

/// Version 2: the leaf 0x1f.. under nibble 1, and under nibble f the leaves
/// 0xf0.. and 0xf3...
fn second_tree() -> Vec<(NodeKey, Node)> {
    vec![
        (key(2, &[]), internal(3)),
        (key(2, &[1]), leaf(hash(0x1f, 0x00), 2)),
        (key(2, &[0xf]), internal(2)),
        (key(2, &[0xf, 0]), leaf(hash(0xf0, 0x10), 2)),
        (key(2, &[0xf, 3]), leaf(hash(0xf3, 0x22), 2)),
    ]
}

fn db_with(nodes: &[(NodeKey, Node)], max_nodes: usize) -> StateMerkleDb {
    let mut db = StateMerkleDb::new(SchemaDb::new(), max_nodes);
    db.write_node_batch(&nodes.to_vec());
    db
}

#[test]
fn node_keys_order_by_version_then_length_then_path() {
    assert_eq!(key(1, &[8]).compare(&key(2, &[])), Comparison::Less);
    assert_eq!(key(1, &[8]).compare(&key(1, &[1, 2])), Comparison::Less);
    assert_eq!(key(1, &[1, 5]).compare(&key(1, &[1, 2])), Comparison::Greater);
    assert_eq!(key(1, &[1, 5]).compare(&key(1, &[1, 5])), Comparison::Equal);
    assert_eq!(hash(0x12, 0).compare(&hash(0x12, 1)), Comparison::Less);
    assert!(same_key(&NodeKey::new_empty_path(7), &key(7, &[])));
}

#[test]
fn node_store_put_get_and_overwrite() {
    let mut store = NodeStore::new();
    store.put(key(3, &[2]), leaf(hash(0x20, 0), 3));
    store.put(key(1, &[]), internal(1));
    store.put(key(3, &[]), internal(5));
    assert_eq!(store.len(), 3);
    assert!(same_key(&store.entry(0).0, &key(1, &[])));
    assert!(same_key(&store.entry(1).0, &key(3, &[])));
    assert!(same_key(&store.entry(2).0, &key(3, &[2])));
    assert!(store.get(&key(2, &[])).is_none());
    assert_eq!(store.get(&key(3, &[])).unwrap().node_type(), NodeType::Internal { leaf_count: 5 });
    store.put(key(3, &[]), internal(6));
    assert_eq!(store.len(), 3);
    assert_eq!(store.get(&key(3, &[])).unwrap().leaf_count(), 6);
}

#[test]
fn node_store_seeks() {
    let mut store = NodeStore::new();
    for (k, n) in first_tree() {
        store.put(k, n);
    }
    // forward seek to (1, 0) lands on the root of version 1
    let first = store.seek(&SeekTarget::BeforeRange(1, 0)).unwrap();
    assert!(same_key(&first.0, &key(1, &[])));
    // backward seek to (1, 2) lands on the end of the range of one nibble
    let end = store.seek_for_prev(&SeekTarget::BeforeRange(1, 2)).unwrap();
    assert!(same_key(&end.0, &key(1, &[8])));
    // nothing lies before the first version
    assert!(store.seek_for_prev(&SeekTarget::BeforeRange(1, 0)).is_none());
    // nothing lies at or after version 2
    assert!(store.seek(&SeekTarget::BeforeRange(2, 0)).is_none());
    let at_most = store.seek_for_prev(&SeekTarget::AtMost(key(1, &[1, 2]))).unwrap();
    assert!(same_key(&at_most.0, &key(1, &[1, 2])));
    let below = store.seek_for_prev(&SeekTarget::Below(key(1, &[1, 2]))).unwrap();
    assert!(same_key(&below.0, &key(1, &[8])));
    assert_eq!(store.lower_bound(&SeekTarget::Below(key(1, &[1, 2]))), 3);
}

#[test]
fn new_turns_caching_on_only_with_a_cache_size() {
    assert!(StateMerkleDb::new(SchemaDb::new(), 8).cache_enabled());
    assert!(!StateMerkleDb::new(SchemaDb::new(), 0).cache_enabled());
}

#[test]
fn written_nodes_are_read_back() {
    let mut db = db_with(&first_tree(), 0);
    let node = db.get_node_option(&key(1, &[8])).unwrap();
    assert_eq!(leaf_key(&node).bytes[0], 0x80);
    assert!(db.get_node_option(&key(1, &[9])).is_none());
    // the last write of a key in a batch wins
    db.write_node_batch(&vec![(key(1, &[9]), internal(1)), (key(1, &[9]), internal(2))]);
    assert_eq!(db.get_node_option(&key(1, &[9])).unwrap().leaf_count(), 2);
    assert_eq!(db.nodes().len(), 6);
}

#[test]
fn cached_reads_answer_what_the_store_holds() {
    let mut db = db_with(&first_tree(), 4);
    for _ in 0..2 {
        for (k, n) in first_tree() {
            let got = db.get_node_option(&k).unwrap();
            assert_eq!(got.node_type(), n.node_type());
        }
    }
    assert!(db.get_node_option(&key(1, &[3])).is_none());
    assert!(db.get_node_option(&key(9, &[])).is_none());
}

#[test]
fn snapshot_version_before() {
    let mut nodes = first_tree();
    nodes.extend(vec![
        (key(3, &[]), internal(1)),
        (key(3, &[4]), leaf(hash(0x40, 0), 3)),
    ]);
    let db = db_with(&nodes, 0);
    assert_eq!(db.get_state_snapshot_version_before(0), None);
    assert_eq!(db.get_state_snapshot_version_before(1), None);
    assert_eq!(db.get_state_snapshot_version_before(2), Some(1));
    assert_eq!(db.get_state_snapshot_version_before(3), Some(1));
    assert_eq!(db.get_state_snapshot_version_before(4), Some(3));
    assert_eq!(db.get_state_snapshot_version_before(100), Some(3));
}

#[test]
fn rightmost_leaf_at_the_first_level() {
    let db = db_with(&first_tree(), 0);
    let (k, l) = db.get_rightmost_leaf(1).unwrap();
    assert!(same_key(&k, &key(1, &[8])));
    assert_eq!(l.account_key.bytes[0], 0x80);
    let (nk, nl) = db.get_rightmost_leaf_naive(1).unwrap();
    assert!(same_key(&nk, &k));
    assert_eq!(nl.account_key.compare(&l.account_key), Comparison::Equal);
}

#[test]
fn rightmost_leaf_below_an_internal_node() {
    let mut nodes = first_tree();
    nodes.extend(second_tree());
    let db = db_with(&nodes, 0);
    let (k, l) = db.get_rightmost_leaf(2).unwrap();
    assert!(same_key(&k, &key(2, &[0xf, 3])));
    assert_eq!(l.account_key.bytes[..2], [0xf3, 0x22]);
    let (nk, _) = db.get_rightmost_leaf_naive(2).unwrap();
    assert!(same_key(&nk, &k));
    // version 1 is unaffected by the later version
    let (k1, _) = db.get_rightmost_leaf(1).unwrap();
    assert!(same_key(&k1, &key(1, &[8])));
}

#[test]
fn rightmost_leaf_of_a_missing_or_empty_version() {
    let mut nodes = first_tree();
    nodes.push((key(5, &[]), Node::Null));
    let db = db_with(&nodes, 0);
    assert!(db.get_rightmost_leaf(5).is_none());
    assert!(db.get_rightmost_leaf_naive(5).is_none());
    assert!(db.get_rightmost_leaf(9).is_none());
    assert!(db.get_rightmost_leaf_naive(9).is_none());
    // version 0 wrote nothing; the first node after it belongs to version 1
    assert!(db.get_rightmost_leaf(0).is_none());
    assert!(db.get_rightmost_leaf_naive(0).is_none());
}

#[test]
fn leaf_count_from_the_root() {
    let mut nodes = first_tree();
    nodes.push((key(4, &[]), leaf(hash(0x77, 0), 4)));
    nodes.push((key(5, &[]), Node::Null));
    let mut db = db_with(&nodes, 2);
    assert_eq!(db.get_leaf_count(1), Ok(3));
    assert_eq!(db.get_leaf_count(4), Ok(1));
    assert_eq!(db.get_leaf_count(5), Ok(0));
    assert_eq!(db.get_leaf_count(6), Err(StateMerkleDbError::RootNotFound(6)));
}

fn stale(since: u64, node_key: NodeKey) -> StaleNodeIndex {
    StaleNodeIndex { stale_since_version: since, node_key }
}

fn update_for_version_6() -> TreeUpdateBatch {
    TreeUpdateBatch {
        node_batch: vec![
            vec![(key(6, &[]), internal(2)), (key(6, &[2]), leaf(hash(0x20, 0), 6))],
            vec![(key(6, &[9]), leaf(hash(0x90, 0), 6))],
        ],
        stale_node_index_batch: vec![
            vec![stale(6, key(4, &[])), stale(6, key(5, &[]))],
            vec![stale(6, key(6, &[2, 1]))],
        ],
    }
}

#[test]
fn merklize_writes_nodes_then_routes_stale_indices() {
    let mut db = StateMerkleDb::new(SchemaDb::new(), 0);
    let (batch, root) = db.merklize_value_set(update_for_version_6(), hash(0xab, 0xcd), 6, Some(4));
    assert_eq!(root.bytes[..2], [0xab, 0xcd]);
    assert_eq!(batch.ops.len(), 6);
    assert!(matches!(batch.ops[0], SchemaOp::PutNode(k, _) if same_key(&k, &key(6, &[]))));
    assert!(matches!(batch.ops[1], SchemaOp::PutNode(k, _) if same_key(&k, &key(6, &[2]))));
    assert!(matches!(batch.ops[2], SchemaOp::PutNode(k, _) if same_key(&k, &key(6, &[9]))));
    // written at or before the end of the previous epoch
    assert!(matches!(batch.ops[3], SchemaOp::PutStaleNodeIndexCrossEpoch(x) if x.node_key.version == 4));
    // written after it
    assert!(matches!(batch.ops[4], SchemaOp::PutStaleNodeIndex(x) if x.node_key.version == 5));
    assert!(matches!(batch.ops[5], SchemaOp::PutStaleNodeIndex(x) if x.node_key.version == 6));
    // the store is untouched until the batch is committed
    assert!(db.get_node_option(&key(6, &[])).is_none());
    db.write_schemas(batch);
    assert_eq!(db.get_node_option(&key(6, &[])).unwrap().leaf_count(), 2);
    assert!(db.has_stale_node_index_cross_epoch(&stale(6, key(4, &[]))));
    assert!(!db.has_stale_node_index(&stale(6, key(4, &[]))));
    assert!(db.has_stale_node_index(&stale(6, key(5, &[]))));
}

#[test]
fn merklize_without_an_epoch_end_uses_the_state_merkle_pruner() {
    let mut db = StateMerkleDb::new(SchemaDb::new(), 0);
    let (batch, _) = db.merklize_value_set(update_for_version_6(), hash(1, 1), 6, None);
    for op in &batch.ops[3..] {
        assert!(matches!(op, SchemaOp::PutStaleNodeIndex(_)));
    }
    assert!(db.version_cache().get_version(6).is_none());
}

#[test]
fn merklize_caches_the_new_version_when_caching() {
    let mut db = StateMerkleDb::new(SchemaDb::new(), 4);
    let (batch, _) = db.merklize_value_set(update_for_version_6(), hash(1, 1), 6, None);
    let cached = db.version_cache().get_version(6).unwrap();
    assert_eq!(cached.len(), 3);
    // reads of version 6 are answered from the cache before the commit
    assert_eq!(db.get_node_option(&key(6, &[])).unwrap().leaf_count(), 2);
    db.write_schemas(batch);
    assert_eq!(db.get_node_option(&key(6, &[9])).unwrap().leaf_count(), 1);
    assert!(db.get_node_option(&key(6, &[3])).is_none());
}

#[test]
fn versioned_cache_finds_the_latest_entry_of_a_version() {
    let mut cache = VersionedNodeCache::new();
    let mut a = NodeStore::new();
    a.put(key(1, &[]), internal(1));
    let mut b = NodeStore::new();
    b.put(key(1, &[]), internal(2));
    cache.add_version(1, a);
    cache.add_version(1, b);
    assert!(cache.get_version(2).is_none());
    let got = cache.get_version(1).unwrap();
    assert_eq!(got.get(&key(1, &[])).unwrap().leaf_count(), 2);
}

#[test]
fn lru_cache_forgets_the_least_recently_used_node() {
    let mut cache = LruNodeCache::new(2);
    cache.put(key(1, &[1]), internal(1));
    cache.put(key(1, &[2]), internal(2));
    // using [1] makes [2] the least recent
    assert_eq!(cache.get(&key(1, &[1])).unwrap().leaf_count(), 1);
    cache.put(key(1, &[3]), internal(3));
    assert!(cache.get(&key(1, &[2])).is_none());
    assert_eq!(cache.get(&key(1, &[1])).unwrap().leaf_count(), 1);
    assert_eq!(cache.get(&key(1, &[3])).unwrap().leaf_count(), 3);
    // writing a cached key replaces its node
    cache.put(key(1, &[3]), internal(4));
    assert_eq!(cache.get(&key(1, &[3])).unwrap().leaf_count(), 4);
    let mut off = LruNodeCache::new(0);
    off.put(key(1, &[1]), internal(1));
    assert!(off.get(&key(1, &[1])).is_none());
}

#[test]
fn schema_batch_commits_in_order() {
    let mut db = SchemaDb::new();
    let mut batch = SchemaBatch::new();
    batch.put_node(key(1, &[]), internal(1));
    batch.put_stale_node_index(stale(2, key(1, &[])));
    batch.put_stale_node_index(stale(2, key(1, &[])));
    batch.put_node(key(1, &[]), internal(7));
    db.write_schemas(batch);
    assert_eq!(db.get_node(&key(1, &[])).unwrap().leaf_count(), 7);
    assert_eq!(db.nodes().len(), 1);
    assert!(db.has_stale_node_index(&stale(2, key(1, &[]))));
    assert!(!db.has_stale_node_index_cross_epoch(&stale(2, key(1, &[]))));
}
