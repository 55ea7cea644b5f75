//! What the reads of the node store promise of a well-formed tree: the
//! snapshot found before a version is the newest one, and the rightmost leaf
//! found from the ends of the ranges of nibble counts is the one a full scan
//! finds.

use vstd::prelude::*;
use crate::node_store::{
    before, count_before, lemma_sorted_count_before, seek_for_prev_spec,
    seek_spec, sorted, Entry, SeekTarget,
};
use crate::node_type::{
    bytes_lt, hash_lt, key_lt, lemma_bytes_lt_asymmetric, lemma_bytes_lt_irreflexive,
    lemma_bytes_lt_total, lemma_bytes_lt_transitive, root_key,
    LeafNode, NibblePath, Node, NodeKey, Version, ROOT_NIBBLE_HEIGHT,
};
use crate::state_merkle_db::{
    better_leaf, naive_scan, range_end_leaves, rightmost_leaf_naive_spec, rightmost_leaf_spec,
    snapshot_version_before_spec, StateMerkleDb,
};

verus! {

/// The version that wrote the node at position `i`.
pub open spec fn version_at(s: Seq<Entry>, i: int) -> Version {
    s[i].0.version
}

/// Every version that wrote a node also wrote its root.
pub open spec fn roots_present(s: Seq<Entry>) -> bool {
    forall|i: int|
        0 <= i < s.len() ==> exists|j: int|
            0 <= j < s.len() && s[j].0 == root_key(#[trigger] version_at(s, i))
}

/// The `i`-th nibble of a packed nibble string.
pub open spec fn nibble(b: Seq<u8>, i: int) -> int {
    if i % 2 == 0 {
        b[i / 2] as int / 16
    } else {
        b[i / 2] as int % 16
    }
}

/// The first `n` nibbles of `path` and of `key` agree.
pub open spec fn nibble_prefix(path: Seq<u8>, key: Seq<u8>, n: int) -> bool {
    forall|i: int| 0 <= i < n ==> #[trigger] nibble(path, i) == nibble(key, i)
}

/// The path has at most `ROOT_NIBBLE_HEIGHT` nibbles and zeros after them.
pub open spec fn padded(p: NibblePath) -> bool {
    &&& p.num_nibbles <= ROOT_NIBBLE_HEIGHT
    &&& forall|i: int| p.num_nibbles <= i < ROOT_NIBBLE_HEIGHT ==> #[trigger] nibble(p.bytes@, i) == 0
}

/// The entry is a leaf written by `version`.
pub open spec fn leaf_at(e: Entry, version: Version) -> bool {
    e.0.version == version && e.1 is Leaf
}

/// The nodes written by `version` form a tree: their paths are padded; a
/// leaf's path is a prefix of its account key; below every internal node
/// lies a leaf of the version; a null node stands only for an empty tree;
/// and no two leaves of the version share an account key.
pub open spec fn tree_of_version(s: Seq<Entry>, version: Version) -> bool {
    &&& forall|i: int|
        0 <= i < s.len() && (#[trigger] s[i]).0.version == version ==> padded(s[i].0.nibble_path)
    &&& forall|i: int|
        0 <= i < s.len() && leaf_at(#[trigger] s[i], version) ==> nibble_prefix(
            s[i].0.nibble_path.bytes@,
            s[i].1->Leaf_0.account_key.bytes@,
            s[i].0.nibble_path.num_nibbles as int,
        )
    &&& forall|i: int|
        0 <= i < s.len() && (#[trigger] s[i]).0.version == version && s[i].1 is Internal
            ==> exists|j: int|
            0 <= j < s.len() && leaf_at(#[trigger] s[j], version) && nibble_prefix(
                s[i].0.nibble_path.bytes@,
                s[j].1->Leaf_0.account_key.bytes@,
                s[i].0.nibble_path.num_nibbles as int,
            )
    &&& forall|i: int, j: int|
        0 <= i < s.len() && 0 <= j < s.len() && (#[trigger] s[i]).0.version == version
            && s[i].1 is Null ==> !leaf_at(#[trigger] s[j], version)
    &&& forall|i: int, j: int|
        0 <= i < s.len() && 0 <= j < s.len() && i != j && leaf_at(#[trigger] s[i], version)
            && leaf_at(#[trigger] s[j], version) ==> s[i].1->Leaf_0.account_key
            != s[j].1->Leaf_0.account_key
}

/// `r` is the leaf of `version` with the largest account key, or nothing
/// when `version` wrote no leaf.
pub open spec fn is_max_leaf(s: Seq<Entry>, version: Version, r: Option<(NodeKey, LeafNode)>) -> bool {
    match r {
        None => forall|i: int| 0 <= i < s.len() ==> !leaf_at(#[trigger] s[i], version),
        Some(best) => {
            &&& best.0.version == version
            &&& exists|i: int| 0 <= i < s.len() && #[trigger] s[i] == (best.0, Node::Leaf(best.1))
            &&& forall|j: int|
                0 <= j < s.len() && leaf_at(#[trigger] s[j], version) ==> !hash_lt(
                    best.1.account_key,
                    s[j].1->Leaf_0.account_key,
                )
        },
    }
}

/// Hash values are totally ordered: not below is at or above.
proof fn lemma_hash_not_lt_transitive(a: LeafNode, b: LeafNode, c: LeafNode)
    requires
        !hash_lt(a.account_key, b.account_key),
        !hash_lt(b.account_key, c.account_key),
    ensures
        !hash_lt(a.account_key, c.account_key),
{
    let x = a.account_key.bytes@;
    let y = b.account_key.bytes@;
    let z = c.account_key.bytes@;
    if bytes_lt(x, z) {
        if x == y {
        } else {
            lemma_bytes_lt_total(x, y);
            lemma_bytes_lt_transitive(y, x, z);
        }
    }
}

/// The leaf that `better_leaf` keeps is at least the one kept before and at
/// least the new one.
proof fn lemma_better_leaf(acc: Option<(NodeKey, LeafNode)>, k: NodeKey, l: LeafNode)
    ensures
        better_leaf(acc, k, l) is Some,
        better_leaf(acc, k, l) == acc || better_leaf(acc, k, l) == Some((k, l)),
        !hash_lt(better_leaf(acc, k, l).unwrap().1.account_key, l.account_key),
        acc matches Some(a) ==> !hash_lt(better_leaf(acc, k, l).unwrap().1.account_key, a.1.account_key),
{
    lemma_bytes_lt_irreflexive(l.account_key.bytes@);
    match acc {
        None => {},
        Some(a) => {
            lemma_bytes_lt_irreflexive(a.1.account_key.bytes@);
            if hash_lt(a.1.account_key, l.account_key) {
                lemma_bytes_lt_asymmetric(a.1.account_key.bytes@, l.account_key.bytes@);
            }
        },
    }
}

/// Two leaves that are each the largest are the same leaf.
proof fn lemma_max_leaf_unique(
    s: Seq<Entry>,
    version: Version,
    r1: Option<(NodeKey, LeafNode)>,
    r2: Option<(NodeKey, LeafNode)>,
)
    requires
        tree_of_version(s, version),
        is_max_leaf(s, version, r1),
        is_max_leaf(s, version, r2),
    ensures
        r1 == r2,
{
    match r1 {
        None => {
            if r2 is Some {
                let i = choose|i: int| 0 <= i < s.len() && #[trigger] s[i] == (r2.unwrap().0, Node::Leaf(r2.unwrap().1));
                assert(leaf_at(s[i], version));
            }
        },
        Some(b1) => {
            let i = choose|i: int| 0 <= i < s.len() && #[trigger] s[i] == (b1.0, Node::Leaf(b1.1));
            assert(leaf_at(s[i], version));
            match r2 {
                None => {},
                Some(b2) => {
                    let j = choose|j: int| 0 <= j < s.len() && #[trigger] s[j] == (b2.0, Node::Leaf(b2.1));
                    assert(leaf_at(s[j], version));
                    assert(!hash_lt(b1.1.account_key, b2.1.account_key));
                    assert(!hash_lt(b2.1.account_key, b1.1.account_key));
                    if b1.1.account_key.bytes@ != b2.1.account_key.bytes@ {
                        lemma_bytes_lt_total(b1.1.account_key.bytes@, b2.1.account_key.bytes@);
                    }
                    assert(b1.1.account_key.bytes =~= b2.1.account_key.bytes);
                    if i != j {
                        assert(s[i].1->Leaf_0.account_key != s[j].1->Leaf_0.account_key);
                    }
                },
            }
        },
    }
}

/// A scan of a sorted run of nodes of versions at or after `version`,
/// started with `acc`, keeps the largest of `acc` and the leaves of
/// `version` in the run.
proof fn lemma_naive_scan(t: Seq<Entry>, version: Version, acc: Option<(NodeKey, LeafNode)>)
    requires
        sorted(t),
        forall|i: int| 0 <= i < t.len() ==> (#[trigger] t[i]).0.version >= version,
    ensures
        ({
            let r = naive_scan(t, version, acc);
            &&& r is None <==> (acc is None && forall|i: int|
                0 <= i < t.len() ==> !leaf_at(#[trigger] t[i], version))
            &&& r == acc || (r.unwrap().0.version == version && exists|i: int|
                0 <= i < t.len() && #[trigger] t[i] == (r.unwrap().0, Node::Leaf(r.unwrap().1)))
            &&& acc matches Some(a) ==> !hash_lt(r.unwrap().1.account_key, a.1.account_key)
            &&& forall|i: int|
                0 <= i < t.len() && leaf_at(#[trigger] t[i], version) ==> !hash_lt(
                    r.unwrap().1.account_key,
                    t[i].1->Leaf_0.account_key,
                )
        }),
    decreases t.len(),
{
    let r = naive_scan(t, version, acc);
    if t.len() == 0 {
        if acc is Some {
            lemma_bytes_lt_irreflexive(acc.unwrap().1.account_key.bytes@);
        }
    } else {
        let rest = t.drop_first();
        assert(sorted(rest)) by {
            assert forall|i: int, j: int| 0 <= i < j < rest.len() implies key_lt(
                #[trigger] rest[i].0,
                #[trigger] rest[j].0,
            ) by {
                assert(rest[i] == t[i + 1] && rest[j] == t[j + 1]);
            }
        }
        assert forall|i: int| 0 <= i < rest.len() implies (#[trigger] rest[i]).0.version >= version by {
            assert(rest[i] == t[i + 1]);
        }
        match t[0].1 {
            Node::Leaf(l) => {
                if t[0].0.version != version {
                    // every later node is of a later version
                    assert forall|i: int| 0 <= i < t.len() implies !leaf_at(#[trigger] t[i], version) by {
                        if i > 0 {
                            assert(key_lt(t[0].0, t[i].0));
                        }
                    }
                    if acc is Some {
                        lemma_bytes_lt_irreflexive(acc.unwrap().1.account_key.bytes@);
                    }
                } else {
                    let acc2 = better_leaf(acc, t[0].0, l);
                    lemma_better_leaf(acc, t[0].0, l);
                    lemma_naive_scan(rest, version, acc2);
                    assert(r == naive_scan(rest, version, acc2));
                    if r != acc {
                        if r == acc2 {
                            if acc2 == Some((t[0].0, l)) {
                                assert(t[0] == (t[0].0, Node::Leaf(l)));
                            }
                        } else {
                            let i = choose|i: int|
                                0 <= i < rest.len() && #[trigger] rest[i] == (r.unwrap().0, Node::Leaf(
                                    r.unwrap().1,
                                ));
                            assert(t[i + 1] == rest[i]);
                        }
                    }
                    if let Some(a) = acc {
                        lemma_hash_not_lt_transitive(r.unwrap().1, acc2.unwrap().1, a.1);
                    }
                    assert forall|i: int|
                        0 <= i < t.len() && leaf_at(#[trigger] t[i], version) implies !hash_lt(
                        r.unwrap().1.account_key,
                        t[i].1->Leaf_0.account_key,
                    ) by {
                        if i == 0 {
                            lemma_hash_not_lt_transitive(r.unwrap().1, acc2.unwrap().1, l);
                        } else {
                            assert(t[i] == rest[i - 1]);
                        }
                    }
                }
            },
            _ => {
                lemma_naive_scan(rest, version, acc);
                if r != acc {
                    let i = choose|i: int|
                        0 <= i < rest.len() && #[trigger] rest[i] == (r.unwrap().0, Node::Leaf(r.unwrap().1));
                    assert(t[i + 1] == rest[i]);
                }
                assert forall|i: int|
                    0 <= i < t.len() && leaf_at(#[trigger] t[i], version) implies !hash_lt(
                    r.unwrap().1.account_key,
                    t[i].1->Leaf_0.account_key,
                ) by {
                    assert(t[i] == rest[i - 1]);
                }
                if r is None {
                    assert forall|i: int| 0 <= i < t.len() implies !leaf_at(#[trigger] t[i], version) by {
                        if i > 0 {
                            assert(t[i] == rest[i - 1]);
                        }
                    }
                }
            },
        }
    }
}

/// The full scan finds the leaf of `version` with the largest account key.
pub proof fn lemma_naive_is_max(s: Seq<Entry>, version: Version)
    requires
        sorted(s),
    ensures
        is_max_leaf(s, version, rightmost_leaf_naive_spec(s, version)),
{
    let t = SeekTarget::BeforeRange(version, 0);
    lemma_sorted_count_before(s, t);
    let c = count_before(s, t);
    let rest = s.skip(c);
    assert(sorted(rest)) by {
        assert forall|i: int, j: int| 0 <= i < j < rest.len() implies key_lt(
            #[trigger] rest[i].0,
            #[trigger] rest[j].0,
        ) by {
            assert(rest[i] == s[i + c] && rest[j] == s[j + c]);
        }
    }
    assert forall|i: int| 0 <= i < rest.len() implies (#[trigger] rest[i]).0.version >= version by {
        assert(rest[i] == s[i + c]);
        assert(!before(t, s[i + c].0));
    }
    lemma_naive_scan(rest, version, None);
    let r = naive_scan(rest, version, None);
    assert(rightmost_leaf_naive_spec(s, version) == r);
    // the leaves of the version all lie in the scanned run
    assert forall|j: int| 0 <= j < s.len() && leaf_at(#[trigger] s[j], version) implies j >= c
        && rest[j - c] == s[j] by {
        if j < c {
            assert(before(t, s[j].0));
        }
    }
    match r {
        None => {
            assert forall|j: int| 0 <= j < s.len() implies !leaf_at(#[trigger] s[j], version) by {
                if leaf_at(s[j], version) {
                    assert(!leaf_at(rest[j - c], version));
                }
            }
        },
        Some(best) => {
            let i = choose|i: int| 0 <= i < rest.len() && #[trigger] rest[i] == (best.0, Node::Leaf(best.1));
            assert(s[i + c] == rest[i]);
            assert forall|j: int|
                0 <= j < s.len() && leaf_at(#[trigger] s[j], version) implies !hash_lt(
                best.1.account_key,
                s[j].1->Leaf_0.account_key,
            ) by {
                assert(leaf_at(rest[j - c], version));
            }
        },
    }
}

/// Of two paths of `n` nibbles, padded with zeros, the smaller one is a
/// prefix only of smaller keys than the larger one is.
proof fn lemma_prefix_order(p: Seq<u8>, q: Seq<u8>, a: Seq<u8>, b: Seq<u8>, n: int)
    requires
        p.len() == 32,
        q.len() == 32,
        a.len() == 32,
        b.len() == 32,
        0 <= n <= 64,
        forall|i: int| n <= i < 64 ==> #[trigger] nibble(p, i) == 0,
        forall|i: int| n <= i < 64 ==> #[trigger] nibble(q, i) == 0,
        nibble_prefix(p, a, n),
        nibble_prefix(q, b, n),
        bytes_lt(p, q),
    ensures
        bytes_lt(a, b),
{
    let j = choose|j: int|
        #![trigger p[j], q[j]]
        0 <= j < p.len() && j < q.len() && p[j] < q[j] && (forall|i: int|
            0 <= i < j ==> p[i] == q[i]);
    assert(nibble(p, 2 * j) == p[j] as int / 16);
    assert(nibble(q, 2 * j) == q[j] as int / 16);
    assert(nibble(p, 2 * j + 1) == p[j] as int % 16);
    assert(nibble(q, 2 * j + 1) == q[j] as int % 16);
    assert forall|i: int| 0 <= i < j implies a[i] == b[i] by {
        assert(p[i] == q[i]);
        assert(nibble(p, 2 * i) == p[i] as int / 16);
        assert(nibble(p, 2 * i + 1) == p[i] as int % 16);
        assert(nibble(q, 2 * i) == q[i] as int / 16);
        assert(nibble(q, 2 * i + 1) == q[i] as int % 16);
        assert(nibble(a, 2 * i) == a[i] as int / 16);
        assert(nibble(a, 2 * i + 1) == a[i] as int % 16);
        assert(nibble(b, 2 * i) == b[i] as int / 16);
        assert(nibble(b, 2 * i + 1) == b[i] as int % 16);
        if 2 * i + 1 >= n {
            // the path nibbles from here on are zero in both paths, so the
            // first difference at byte j would lie past the paths
            assert(nibble(p, 2 * j + 1) == 0 && nibble(q, 2 * j + 1) == 0);
            assert(nibble(p, 2 * j) == 0 && nibble(q, 2 * j) == 0);
        }
        assert(nibble(a, 2 * i) == nibble(p, 2 * i));
        assert(nibble(b, 2 * i) == nibble(q, 2 * i));
        assert(nibble(a, 2 * i + 1) == nibble(p, 2 * i + 1));
        assert(nibble(b, 2 * i + 1) == nibble(q, 2 * i + 1));
    }
    assert(nibble(a, 2 * j) == a[j] as int / 16);
    assert(nibble(a, 2 * j + 1) == a[j] as int % 16);
    assert(nibble(b, 2 * j) == b[j] as int / 16);
    assert(nibble(b, 2 * j + 1) == b[j] as int % 16);
    if p[j] as int / 16 < q[j] as int / 16 {
        if 2 * j >= n {
            assert(nibble(p, 2 * j) == 0 && nibble(q, 2 * j) == 0);
        }
        assert(nibble(a, 2 * j) == nibble(p, 2 * j));
        assert(nibble(b, 2 * j) == nibble(q, 2 * j));
        assert(a[j] < b[j]);
    } else {
        assert(p[j] as int % 16 < q[j] as int % 16);
        if 2 * j + 1 >= n {
            assert(nibble(p, 2 * j + 1) == 0 && nibble(q, 2 * j + 1) == 0);
        }
        assert(nibble(a, 2 * j) == nibble(p, 2 * j));
        assert(nibble(b, 2 * j) == nibble(q, 2 * j));
        assert(nibble(a, 2 * j + 1) == nibble(p, 2 * j + 1));
        assert(nibble(b, 2 * j + 1) == nibble(q, 2 * j + 1));
        assert(a[j] < b[j]);
    }
    assert(bytes_lt(a, b));
}

/// A backward seek in a sorted sequence lands on an entry of it.
proof fn lemma_seek_for_prev_in(s: Seq<Entry>, t: SeekTarget)
    requires
        sorted(s),
    ensures
        seek_for_prev_spec(s, t) matches Some(e) ==> 0 < count_before(s, t) <= s.len() && e == s[count_before(s, t) - 1],
{
    lemma_sorted_count_before(s, t);
}

/// The leaf kept from the ends of the ranges is a leaf of the version.
proof fn lemma_range_end_leaves_in(s: Seq<Entry>, version: Version, n: nat)
    requires
        sorted(s),
    ensures
        range_end_leaves(s, version, n) matches Some(best) ==> best.0.version == version && exists|i: int|
            0 <= i < s.len() && #[trigger] s[i] == (best.0, Node::Leaf(best.1)),
    decreases n,
{
    if n > 0 {
        lemma_range_end_leaves_in(s, version, (n - 1) as nat);
        let t = SeekTarget::BeforeRange(version, n as usize);
        lemma_seek_for_prev_in(s, t);
        let acc = range_end_leaves(s, version, (n - 1) as nat);
        match seek_for_prev_spec(s, t) {
            Some(e) => {
                if e.0.version == version {
                    if let Node::Leaf(l) = e.1 {
                        lemma_better_leaf(acc, e.0, l);
                        if range_end_leaves(s, version, n) != acc {
                            assert(s[count_before(s, t) - 1] == (e.0, Node::Leaf(l)));
                        }
                    }
                }
            },
            None => {},
        }
    }
}

/// The leaf kept from the ends of the first `n` ranges is at least every
/// leaf of the version that ends one of them.
proof fn lemma_range_end_leaves_ge(s: Seq<Entry>, version: Version, n: nat, m: nat, e: Entry)
    requires
        1 <= m <= n,
        seek_for_prev_spec(s, SeekTarget::BeforeRange(version, m as usize)) == Some(e),
        leaf_at(e, version),
    ensures
        range_end_leaves(s, version, n) is Some,
        !hash_lt(range_end_leaves(s, version, n).unwrap().1.account_key, e.1->Leaf_0.account_key),
    decreases n,
{
    let acc = range_end_leaves(s, version, (n - 1) as nat);
    if n == m {
        lemma_better_leaf(acc, e.0, e.1->Leaf_0);
    } else {
        lemma_range_end_leaves_ge(s, version, (n - 1) as nat, m, e);
        let r = range_end_leaves(s, version, n);
        match seek_for_prev_spec(s, SeekTarget::BeforeRange(version, n as usize)) {
            Some(f) => {
                if f.0.version == version {
                    if let Node::Leaf(l) = f.1 {
                        lemma_better_leaf(acc, f.0, l);
                        lemma_hash_not_lt_transitive(r.unwrap().1, acc.unwrap().1, e.1->Leaf_0);
                    }
                }
            },
            None => {},
        }
    }
}

/// In a tree of the version, the ends of the ranges of nibble counts hold
/// the leaf of the version with the largest account key.
pub proof fn lemma_rightmost_is_max(s: Seq<Entry>, version: Version)
    requires
        sorted(s),
        tree_of_version(s, version),
    ensures
        is_max_leaf(s, version, rightmost_leaf_spec(s, version)),
{
    lemma_naive_is_max(s, version);
    let best = rightmost_leaf_naive_spec(s, version);
    let full = (ROOT_NIBBLE_HEIGHT + 1) as nat;
    lemma_range_end_leaves_in(s, version, full);
    let t0 = SeekTarget::BeforeRange(version, 0);
    lemma_sorted_count_before(s, t0);
    let c0 = count_before(s, t0);
    match best {
        None => {
            if range_end_leaves(s, version, full) is Some {
                let r = range_end_leaves(s, version, full).unwrap();
                let i = choose|i: int| 0 <= i < s.len() && #[trigger] s[i] == (r.0, Node::Leaf(r.1));
                assert(leaf_at(s[i], version));
            }
        },
        Some(rb) => {
            let ir = choose|i: int| 0 <= i < s.len() && #[trigger] s[i] == (rb.0, Node::Leaf(rb.1));
            assert(leaf_at(s[ir], version));
            let kr = rb.0;
            let m = kr.nibble_path.num_nibbles;
            assert(padded(s[ir].0.nibble_path));
            // the first node at or after the version is a non-null node of it
            assert(!before(t0, kr));
            assert(ir >= c0);
            assert(s.skip(c0)[0] == s[c0]);
            assert(seek_spec(s, t0) == Some(s[c0]));
            if c0 < ir {
                assert(key_lt(s[c0].0, s[ir].0));
            }
            assert(s[c0].0.version == version);
            if s[c0].1 is Null {
                assert(!leaf_at(s[ir], version));
            }
            assert(rightmost_leaf_spec(s, version) == range_end_leaves(s, version, full));
            // the range of paths with m nibbles ends with that leaf
            let t = SeekTarget::BeforeRange(version, (m + 1) as usize);
            lemma_sorted_count_before(s, t);
            let c = count_before(s, t);
            assert(before(t, kr));
            assert(ir < c);
            let e = s[c - 1];
            if ir < c - 1 {
                assert(key_lt(kr, e.0));
                assert(before(t, e.0));
                assert(e.0.version == version);
                assert(e.0.nibble_path.num_nibbles == m);
                assert(bytes_lt(kr.nibble_path.bytes@, e.0.nibble_path.bytes@));
                assert(padded(s[c - 1].0.nibble_path));
                match e.1 {
                    Node::Leaf(le) => {
                        assert(leaf_at(s[c - 1], version));
                        lemma_prefix_order(
                            kr.nibble_path.bytes@,
                            e.0.nibble_path.bytes@,
                            rb.1.account_key.bytes@,
                            le.account_key.bytes@,
                            m as int,
                        );
                        assert(!hash_lt(rb.1.account_key, s[c - 1].1->Leaf_0.account_key));
                    },
                    Node::Internal(_) => {
                        let j = choose|j: int|
                            0 <= j < s.len() && leaf_at(#[trigger] s[j], version) && nibble_prefix(
                                s[c - 1].0.nibble_path.bytes@,
                                s[j].1->Leaf_0.account_key.bytes@,
                                s[c - 1].0.nibble_path.num_nibbles as int,
                            );
                        lemma_prefix_order(
                            kr.nibble_path.bytes@,
                            e.0.nibble_path.bytes@,
                            rb.1.account_key.bytes@,
                            s[j].1->Leaf_0.account_key.bytes@,
                            m as int,
                        );
                        assert(!hash_lt(rb.1.account_key, s[j].1->Leaf_0.account_key));
                    },
                    Node::Null => {
                        assert(!leaf_at(s[ir], version));
                    },
                }
            }
            assert(seek_for_prev_spec(s, t) == Some(s[ir]));
            lemma_range_end_leaves_ge(s, version, full, (m + 1) as nat, s[ir]);
            let r = range_end_leaves(s, version, full).unwrap();
            assert forall|j: int|
                0 <= j < s.len() && leaf_at(#[trigger] s[j], version) implies !hash_lt(
                r.1.account_key,
                s[j].1->Leaf_0.account_key,
            ) by {
                lemma_hash_not_lt_transitive(r.1, rb.1, s[j].1->Leaf_0);
            }
        },
    }
}

/// In a tree of the version, the rightmost leaf found from the ends of the
/// ranges of nibble counts is the rightmost leaf that a scan of every node
/// of the version finds.
pub proof fn law_rightmost_leaf_agrees_with_scan(d: StateMerkleDb, version: Version)
    requires
        d.wf(),
        tree_of_version(d.stored_nodes(), version),
    ensures
        rightmost_leaf_spec(d.stored_nodes(), version) == rightmost_leaf_naive_spec(d.stored_nodes(), version),
{
    let s = d.stored_nodes();
    lemma_rightmost_is_max(s, version);
    lemma_naive_is_max(s, version);
    lemma_max_leaf_unique(
        s,
        version,
        rightmost_leaf_spec(s, version),
        rightmost_leaf_naive_spec(s, version),
    );
}

/// When every version that wrote a node also wrote its root, the snapshot
/// version found before `next_version` is the newest version below it that
/// wrote any node, and there is none when no such version wrote a node.
pub proof fn law_snapshot_version_is_newest_before(d: StateMerkleDb, next_version: Version)
    requires
        d.wf(),
        roots_present(d.stored_nodes()),
    ensures
        snapshot_version_before_spec(d.stored_nodes(), next_version) is None <==> forall|i: int|
            0 <= i < d.stored_nodes().len() ==> version_at(d.stored_nodes(), i) >= next_version,
        snapshot_version_before_spec(d.stored_nodes(), next_version) matches Some(v) ==> {
            &&& v < next_version
            &&& exists|i: int| 0 <= i < d.stored_nodes().len() && version_at(d.stored_nodes(), i) == v
            &&& forall|i: int|
                0 <= i < d.stored_nodes().len() && version_at(d.stored_nodes(), i) < next_version
                    ==> version_at(d.stored_nodes(), i) <= v
        },
{
    lemma_snapshot_version(d.stored_nodes(), next_version);
}

pub proof fn lemma_snapshot_version(s: Seq<Entry>, next_version: Version)
    requires
        sorted(s),
        roots_present(s),
    ensures
        snapshot_version_before_spec(s, next_version) is None <==> forall|i: int|
            0 <= i < s.len() ==> version_at(s, i) >= next_version,
        snapshot_version_before_spec(s, next_version) matches Some(v) ==> {
            &&& v < next_version
            &&& exists|i: int| 0 <= i < s.len() && version_at(s, i) == v
            &&& forall|i: int| 0 <= i < s.len() && version_at(s, i) < next_version ==> version_at(s, i) <= v
        },
{
    if next_version > 0 {
        let root = root_key((next_version - 1) as Version);
        let t = SeekTarget::AtMost(root);
        lemma_sorted_count_before(s, t);
        let c = count_before(s, t);
        assert forall|i: int| 0 <= i < s.len() && #[trigger] version_at(s, i) < next_version implies 0 < c
            && version_at(s, i) <= version_at(s, c - 1) by {
            let u = version_at(s, i);
            let j = choose|j: int| 0 <= j < s.len() && s[j].0 == root_key(u);
            if u < next_version - 1 {
                assert(key_lt(s[j].0, root));
            } else {
                assert(s[j].0 == root);
            }
            assert(before(t, s[j].0));
            assert(j < c);
            if j < c - 1 {
                assert(key_lt(s[j].0, s[c - 1].0));
            }
        }
        if c > 0 {
            assert(before(t, s[c - 1].0));
            assert(version_at(s, c - 1) < next_version);
        }
    }
}

} // verus!
