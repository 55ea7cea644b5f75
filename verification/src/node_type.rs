//! The values that the Jellyfish Merkle node store holds: hashes, nibble
//! paths, node keys, nodes and stale node indices, with the order in which
//! the node schema's key encoding sorts node keys.

use vstd::prelude::*;

verus! {

/// The number of nibbles in a full path from the root down to a leaf.
pub const ROOT_NIBBLE_HEIGHT: usize = 64;

/// A transaction version.
pub type Version = u64;

/// The outcome of comparing two values in a total order.
#[derive(Clone, Copy, Debug, PartialEq, Eq, Structural)]
pub enum Comparison {
    Less,
    Equal,
    Greater,
}

/// A 32-byte hash value; hash values are ordered as their bytes are,
/// lexicographically.
#[derive(Clone, Copy, Debug)]
pub struct HashValue {
    pub bytes: [u8; 32],
}

/// A path of nibbles from the root of the tree. `bytes` packs two nibbles per
/// byte, the first in the high half; the nibbles past `num_nibbles` are zero.
#[derive(Clone, Copy, Debug)]
pub struct NibblePath {
    pub num_nibbles: usize,
    pub bytes: [u8; 32],
}

/// The key of a node: the version that wrote it and its path from the root.
#[derive(Clone, Copy, Debug)]
pub struct NodeKey {
    pub version: Version,
    pub nibble_path: NibblePath,
}

/// The kind of a node, with the leaf count of an internal node.
#[derive(Clone, Copy, Debug, PartialEq, Eq, Structural)]
pub enum NodeType {
    Leaf,
    Internal { leaf_count: usize },
    Null,
}

/// A child of an internal node: its hash, the version that wrote it and its
/// kind.
#[derive(Clone, Copy, Debug)]
pub struct Child {
    pub hash: HashValue,
    pub version: Version,
    pub node_type: NodeType,
}

/// An internal node: up to sixteen children, indexed by the next nibble.
#[derive(Clone, Copy, Debug)]
pub struct InternalNode {
    pub children: [Option<Child>; 16],
    pub leaf_count: usize,
}

/// A leaf: the hashed key of the state item, the hash of its value and the
/// version at which the value was written.
#[derive(Clone, Copy, Debug)]
pub struct LeafNode {
    pub account_key: HashValue,
    pub value_hash: HashValue,
    pub value_version: Version,
}

/// A node of the Jellyfish Merkle tree.
#[derive(Clone, Copy, Debug)]
pub enum Node {
    Internal(InternalNode),
    Leaf(LeafNode),
    Null,
}

/// The index of a node that became stale at `stale_since_version`.
#[derive(Clone, Copy, Debug)]
pub struct StaleNodeIndex {
    pub stale_since_version: Version,
    pub node_key: NodeKey,
}

/// Lexicographic order on byte strings of one length: `a` is below `b` when
/// they agree up to a position where `a` holds the smaller byte.
pub open spec fn bytes_lt(a: Seq<u8>, b: Seq<u8>) -> bool {
    exists|i: int|
        #![trigger a[i], b[i]]
        0 <= i < a.len() && i < b.len() && a[i] < b[i] && (forall|j: int|
            0 <= j < i ==> a[j] == b[j])
}

/// The order of hash values.
pub open spec fn hash_lt(a: HashValue, b: HashValue) -> bool {
    bytes_lt(a.bytes@, b.bytes@)
}

/// The order of node keys in the node schema: by version, then by the number
/// of nibbles, then by the packed path bytes.
pub open spec fn key_lt(a: NodeKey, b: NodeKey) -> bool {
    ||| a.version < b.version
    ||| a.version == b.version && a.nibble_path.num_nibbles < b.nibble_path.num_nibbles
    ||| a.version == b.version && a.nibble_path.num_nibbles == b.nibble_path.num_nibbles
        && bytes_lt(a.nibble_path.bytes@, b.nibble_path.bytes@)
}

/// The node key lies before every key written by `version` whose path has
/// `num_nibbles` nibbles: this is where a seek to the pair
/// `(version, num_nibbles)` points in the node schema.
pub open spec fn key_before_range(k: NodeKey, version: int, num_nibbles: int) -> bool {
    ||| k.version < version
    ||| k.version == version && k.nibble_path.num_nibbles < num_nibbles
}

/// The key of the root node written at `version`: the empty path.
pub open spec fn root_key(version: Version) -> NodeKey {
    NodeKey {
        version,
        nibble_path: NibblePath {
            num_nibbles: 0,
            bytes: vstd::array::spec_array_fill_for_copy_type::<u8, 32>(0u8),
        },
    }
}

pub proof fn lemma_bytes_lt_irreflexive(a: Seq<u8>)
    ensures
        !bytes_lt(a, a),
{
}

pub proof fn lemma_bytes_lt_asymmetric(a: Seq<u8>, b: Seq<u8>)
    requires
        bytes_lt(a, b),
    ensures
        !bytes_lt(b, a),
{
    let i = choose|i: int|
        #![trigger a[i], b[i]]
        0 <= i < a.len() && i < b.len() && a[i] < b[i] && (forall|j: int|
            0 <= j < i ==> a[j] == b[j]);
    if bytes_lt(b, a) {
        let k = choose|k: int|
            #![trigger b[k], a[k]]
            0 <= k < b.len() && k < a.len() && b[k] < a[k] && (forall|j: int|
                0 <= j < k ==> b[j] == a[j]);
        if i < k {
            assert(b[i] == a[i]);
        } else if k < i {
            assert(a[k] == b[k]);
        }
    }
}

pub proof fn lemma_bytes_lt_transitive(a: Seq<u8>, b: Seq<u8>, c: Seq<u8>)
    requires
        bytes_lt(a, b),
        bytes_lt(b, c),
    ensures
        bytes_lt(a, c),
{
    let i = choose|i: int|
        #![trigger a[i], b[i]]
        0 <= i < a.len() && i < b.len() && a[i] < b[i] && (forall|j: int|
            0 <= j < i ==> a[j] == b[j]);
    let k = choose|k: int|
        #![trigger b[k], c[k]]
        0 <= k < b.len() && k < c.len() && b[k] < c[k] && (forall|j: int|
            0 <= j < k ==> b[j] == c[j]);
    if i <= k {
        if i < k {
            assert(b[i] == c[i]);
        }
        assert(a[i] < c[i]);
        assert forall|j: int| 0 <= j < i implies a[j] == c[j] by {
            assert(a[j] == b[j]);
            assert(b[j] == c[j]);
        }
    } else {
        assert(a[k] == b[k]);
        assert(a[k] < c[k]);
        assert forall|j: int| 0 <= j < k implies a[j] == c[j] by {
            assert(a[j] == b[j]);
            assert(b[j] == c[j]);
        }
    }
}

/// Two different byte strings of one length are ordered one way or the other.
pub proof fn lemma_bytes_lt_total(a: Seq<u8>, b: Seq<u8>)
    requires
        a.len() == b.len(),
        a != b,
    ensures
        bytes_lt(a, b) || bytes_lt(b, a),
{
    assert(!(a =~= b));
    let d = choose|d: int| 0 <= d < a.len() && a[d] != b[d];
    lemma_first_difference(a, b, d);
}

proof fn lemma_first_difference(a: Seq<u8>, b: Seq<u8>, d: int)
    requires
        a.len() == b.len(),
        0 <= d < a.len(),
        a[d] != b[d],
    ensures
        bytes_lt(a, b) || bytes_lt(b, a),
    decreases d,
{
    if forall|j: int| 0 <= j < d ==> a[j] == b[j] {
        if a[d] < b[d] {
            assert(bytes_lt(a, b));
        } else {
            assert(bytes_lt(b, a));
        }
    } else {
        let e = choose|e: int| 0 <= e < d && a[e] != b[e];
        lemma_first_difference(a, b, e);
    }
}

pub proof fn lemma_key_lt_irreflexive(a: NodeKey)
    ensures
        !key_lt(a, a),
{
}

pub proof fn lemma_key_lt_transitive(a: NodeKey, b: NodeKey, c: NodeKey)
    requires
        key_lt(a, b),
        key_lt(b, c),
    ensures
        key_lt(a, c),
{
    if a.version == b.version && b.version == c.version && a.nibble_path.num_nibbles
        == b.nibble_path.num_nibbles && b.nibble_path.num_nibbles == c.nibble_path.num_nibbles {
        lemma_bytes_lt_transitive(a.nibble_path.bytes@, b.nibble_path.bytes@, c.nibble_path.bytes@);
    }
}

/// Two different node keys are ordered one way or the other.
pub proof fn lemma_key_lt_total(a: NodeKey, b: NodeKey)
    requires
        a != b,
    ensures
        key_lt(a, b) || key_lt(b, a),
{
    if a.version == b.version && a.nibble_path.num_nibbles == b.nibble_path.num_nibbles {
        if a.nibble_path.bytes@ == b.nibble_path.bytes@ {
            assert(a.nibble_path.bytes =~= b.nibble_path.bytes);
            assert(a.nibble_path == b.nibble_path);
        } else {
            lemma_bytes_lt_total(a.nibble_path.bytes@, b.nibble_path.bytes@);
        }
    }
}

/// Compares two 32-byte strings lexicographically.
pub fn compare_bytes(a: &[u8; 32], b: &[u8; 32]) -> (c: Comparison)
    ensures
        c == Comparison::Less <==> bytes_lt(a@, b@),
        c == Comparison::Greater <==> bytes_lt(b@, a@),
        c == Comparison::Equal <==> a@ == b@,
{
    let mut i: usize = 0;
    while i < 32
        invariant
            0 <= i <= 32,
            a@.len() == 32,
            b@.len() == 32,
            forall|j: int| 0 <= j < i ==> a@[j] == b@[j],
        decreases 32 - i,
    {
        if a[i] < b[i] {
            assert(a@[i as int] < b@[i as int]);
            assert(bytes_lt(a@, b@));
            proof {
                lemma_bytes_lt_asymmetric(a@, b@);
            }
            assert(a@[i as int] != b@[i as int]);
            return Comparison::Less;
        }
        if a[i] > b[i] {
            assert(b@[i as int] < a@[i as int]);
            assert(bytes_lt(b@, a@));
            proof {
                lemma_bytes_lt_asymmetric(b@, a@);
            }
            assert(a@[i as int] != b@[i as int]);
            return Comparison::Greater;
        }
        i = i + 1;
    }
    assert(a@ =~= b@);
    proof {
        lemma_bytes_lt_irreflexive(a@);
    }
    Comparison::Equal
}

impl HashValue {
    /// Compares two hash values in their order.
    pub fn compare(&self, other: &HashValue) -> (c: Comparison)
        ensures
            c == Comparison::Less <==> hash_lt(*self, *other),
            c == Comparison::Greater <==> hash_lt(*other, *self),
            c == Comparison::Equal <==> *self == *other,
    {
        let c = compare_bytes(&self.bytes, &other.bytes);
        proof {
            if self.bytes@ == other.bytes@ {
                assert(self.bytes =~= other.bytes);
            }
        }
        c
    }
}

impl NodeKey {
    /// The key of the root node written at `version`.
    pub fn new_empty_path(version: Version) -> (k: NodeKey)
        ensures
            k == root_key(version),
    {
        let k = NodeKey { version, nibble_path: NibblePath { num_nibbles: 0, bytes: [0u8; 32] } };
        proof {
            let z = vstd::array::spec_array_fill_for_copy_type::<u8, 32>(0u8);
            assert(k.nibble_path.bytes =~= z);
        }
        k
    }

    /// The version that wrote the node.
    pub fn version(&self) -> (v: Version)
        ensures
            v == self.version,
    {
        self.version
    }

    /// Compares two node keys in the order of the node schema.
    pub fn compare(&self, other: &NodeKey) -> (c: Comparison)
        ensures
            c == Comparison::Less <==> key_lt(*self, *other),
            c == Comparison::Greater <==> key_lt(*other, *self),
            c == Comparison::Equal <==> *self == *other,
    {
        if self.version < other.version {
            return Comparison::Less;
        }
        if self.version > other.version {
            return Comparison::Greater;
        }
        if self.nibble_path.num_nibbles < other.nibble_path.num_nibbles {
            return Comparison::Less;
        }
        if self.nibble_path.num_nibbles > other.nibble_path.num_nibbles {
            return Comparison::Greater;
        }
        let c = compare_bytes(&self.nibble_path.bytes, &other.nibble_path.bytes);
        proof {
            if self.nibble_path.bytes@ == other.nibble_path.bytes@ {
                assert(self.nibble_path.bytes =~= other.nibble_path.bytes);
            }
        }
        c
    }
}

/// The number of leaves in the subtree of a node.
pub open spec fn leaf_count_of(n: Node) -> usize {
    match n {
        Node::Internal(i) => i.leaf_count,
        Node::Leaf(_) => 1,
        Node::Null => 0,
    }
}

/// An internal node counts the leaves its own field records, a leaf counts
/// itself, and a null node counts none.
pub proof fn law_leaf_count(n: Node)
    ensures
        n matches Node::Internal(i) ==> leaf_count_of(n) == i.leaf_count,
        n is Leaf ==> leaf_count_of(n) == 1,
        n is Null ==> leaf_count_of(n) == 0,
{
}

impl Node {
    /// The number of leaves in the subtree of the node.
    pub fn leaf_count(&self) -> (c: usize)
        ensures
            c == leaf_count_of(*self),
            match *self {
                Node::Internal(i) => c == i.leaf_count,
                Node::Leaf(_) => c == 1,
                Node::Null => c == 0,
            },
    {
        match self {
            Node::Internal(n) => n.leaf_count,
            Node::Leaf(_) => 1,
            Node::Null => 0,
        }
    }

    /// The kind of the node.
    pub fn node_type(&self) -> (t: NodeType)
        ensures
            t == match *self {
                Node::Internal(n) => NodeType::Internal { leaf_count: n.leaf_count },
                Node::Leaf(_) => NodeType::Leaf,
                Node::Null => NodeType::Null,
            },
    {
        match self {
            Node::Internal(n) => NodeType::Internal { leaf_count: n.leaf_count },
            Node::Leaf(_) => NodeType::Leaf,
            Node::Null => NodeType::Null,
        }
    }
}

} // verus!
