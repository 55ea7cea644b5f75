//! An ordered store of Jellyfish Merkle nodes keyed by node key: the node
//! column family of the state Merkle database, with the point reads, writes
//! and seeks that the tree makes on it.

use vstd::prelude::*;
use crate::node_type::{
    key_before_range, key_lt, lemma_key_lt_irreflexive, lemma_key_lt_total, lemma_key_lt_transitive,
    Comparison, Node, NodeKey, Version,
};

verus! {

/// A node together with its key.
pub type Entry = (NodeKey, Node);

/// Where a seek points in the order of node keys.
#[derive(Clone, Copy, Debug)]
pub enum SeekTarget {
    /// Just before the given key.
    Below(NodeKey),
    /// Just after the given key.
    AtMost(NodeKey),
    /// Just before every key written by the version whose path has the
    /// given number of nibbles: the seek key `(version, num_nibbles)`.
    BeforeRange(Version, usize),
}

/// A key lies before the point that the target names.
pub open spec fn before(t: SeekTarget, k: NodeKey) -> bool {
    match t {
        SeekTarget::Below(x) => key_lt(k, x),
        SeekTarget::AtMost(x) => key_lt(k, x) || k == x,
        SeekTarget::BeforeRange(v, n) => key_before_range(k, v as int, n as int),
    }
}

/// The entries are in strictly increasing key order.
pub open spec fn sorted(s: Seq<Entry>) -> bool {
    forall|i: int, j: int| 0 <= i < j < s.len() ==> key_lt(#[trigger] s[i].0, #[trigger] s[j].0)
}

/// The node that `s` holds under `k`: that of its last entry with key `k`.
pub open spec fn lookup(s: Seq<Entry>, k: NodeKey) -> Option<Node>
    decreases s.len(),
{
    if s.len() == 0 {
        None
    } else if s.last().0 == k {
        Some(s.last().1)
    } else {
        lookup(s.drop_last(), k)
    }
}

/// What is left of `s` once the entries before the target are skipped.
pub open spec fn skip_before(s: Seq<Entry>, t: SeekTarget) -> Seq<Entry>
    decreases s.len(),
{
    if s.len() > 0 && before(t, s[0].0) {
        skip_before(s.drop_first(), t)
    } else {
        s
    }
}

/// The number of entries of `s` before the target.
pub open spec fn count_before(s: Seq<Entry>, t: SeekTarget) -> int {
    s.len() - skip_before(s, t).len()
}

/// Where a forward seek lands: the first entry at or past the target.
pub open spec fn seek_spec(s: Seq<Entry>, t: SeekTarget) -> Option<Entry> {
    let rest = skip_before(s, t);
    if rest.len() > 0 {
        Some(rest[0])
    } else {
        None
    }
}

/// Where a backward seek lands: the last entry before the target.
pub open spec fn seek_for_prev_spec(s: Seq<Entry>, t: SeekTarget) -> Option<Entry> {
    let n = count_before(s, t);
    if n > 0 {
        Some(s[n - 1])
    } else {
        None
    }
}

/// The entries after `(k, n)` is written: it replaces the entry with key `k`,
/// or is inserted where the order puts it.
pub open spec fn store_put(s: Seq<Entry>, k: NodeKey, n: Node) -> Seq<Entry> {
    let i = count_before(s, SeekTarget::Below(k));
    if i < s.len() && s[i].0 == k {
        s.update(i, (k, n))
    } else {
        s.insert(i, (k, n))
    }
}

pub proof fn lemma_before_monotone(t: SeekTarget, a: NodeKey, b: NodeKey)
    requires
        key_lt(a, b),
        before(t, b),
    ensures
        before(t, a),
{
    match t {
        SeekTarget::Below(x) => {
            lemma_key_lt_transitive(a, b, x);
        },
        SeekTarget::AtMost(x) => {
            if key_lt(b, x) {
                lemma_key_lt_transitive(a, b, x);
            }
        },
        SeekTarget::BeforeRange(v, n) => {},
    }
}

/// Skipping the entries before the target skips exactly the first `i`
/// entries when the target lies between entry `i - 1` and entry `i`.
pub proof fn lemma_skip_before(s: Seq<Entry>, t: SeekTarget, i: int)
    requires
        0 <= i <= s.len(),
        forall|j: int| 0 <= j < i ==> before(t, #[trigger] s[j].0),
        i == s.len() || !before(t, s[i].0),
    ensures
        skip_before(s, t) == s.skip(i),
        count_before(s, t) == i,
    decreases i,
{
    if i == 0 {
        assert(s.skip(0) =~= s);
    } else {
        assert(before(t, s[0].0));
        let r = s.drop_first();
        assert forall|j: int| 0 <= j < i - 1 implies before(t, #[trigger] r[j].0) by {
            assert(r[j] == s[j + 1]);
        }
        lemma_skip_before(r, t, i - 1);
        assert(r.skip(i - 1) =~= s.skip(i));
    }
}

/// In a sorted sequence, the entries before a target form a prefix.
pub proof fn lemma_sorted_count_before(s: Seq<Entry>, t: SeekTarget)
    requires
        sorted(s),
    ensures
        0 <= count_before(s, t) <= s.len(),
        forall|j: int| 0 <= j < count_before(s, t) ==> before(t, #[trigger] s[j].0),
        forall|j: int| count_before(s, t) <= j < s.len() ==> !before(t, #[trigger] s[j].0),
        skip_before(s, t) == s.skip(count_before(s, t)),
    decreases s.len(),
{
    if s.len() == 0 {
        assert(s.skip(0) =~= s);
    } else if !before(t, s[0].0) {
        assert(s.skip(0) =~= s);
        assert forall|j: int| 0 <= j < s.len() implies !before(t, #[trigger] s[j].0) by {
            if j > 0 && before(t, s[j].0) {
                lemma_before_monotone(t, s[0].0, s[j].0);
            }
        }
    } else {
        let r = s.drop_first();
        assert(sorted(r)) by {
            assert forall|i: int, j: int| 0 <= i < j < r.len() implies key_lt(
                #[trigger] r[i].0,
                #[trigger] r[j].0,
            ) by {
                assert(r[i] == s[i + 1]);
                assert(r[j] == s[j + 1]);
            }
        }
        lemma_sorted_count_before(r, t);
        let c = count_before(r, t);
        assert(count_before(s, t) == c + 1);
        assert forall|j: int| 0 <= j < c + 1 implies before(t, #[trigger] s[j].0) by {
            if j > 0 {
                assert(s[j] == r[j - 1]);
            }
        }
        assert forall|j: int| c + 1 <= j < s.len() implies !before(t, #[trigger] s[j].0) by {
            assert(s[j] == r[j - 1]);
        }
        assert(r.skip(c) =~= s.skip(c + 1));
    }
}

/// Where the last entry with key `k` stands, `lookup` finds its node.
pub proof fn lemma_lookup_index(s: Seq<Entry>, k: NodeKey, i: int)
    requires
        0 <= i < s.len(),
        s[i].0 == k,
        forall|j: int| i < j < s.len() ==> (#[trigger] s[j]).0 != k,
    ensures
        lookup(s, k) == Some(s[i].1),
    decreases s.len(),
{
    if i < s.len() - 1 {
        assert(s.last() == s[s.len() - 1]);
        let r = s.drop_last();
        assert forall|j: int| i < j < r.len() implies (#[trigger] r[j]).0 != k by {
            assert(r[j] == s[j]);
        }
        lemma_lookup_index(r, k, i);
    }
}

/// Where no entry has key `k`, `lookup` finds nothing.
pub proof fn lemma_lookup_none(s: Seq<Entry>, k: NodeKey)
    requires
        forall|j: int| 0 <= j < s.len() ==> (#[trigger] s[j]).0 != k,
    ensures
        lookup(s, k) is None,
    decreases s.len(),
{
    if s.len() > 0 {
        assert(s.last() == s[s.len() - 1]);
        let r = s.drop_last();
        assert forall|j: int| 0 <= j < r.len() implies (#[trigger] r[j]).0 != k by {
            assert(r[j] == s[j]);
        }
        lemma_lookup_none(r, k);
    }
}

/// What `lookup` finds was stored under its key.
pub proof fn lemma_lookup_some(s: Seq<Entry>, k: NodeKey)
    requires
        lookup(s, k) is Some,
    ensures
        exists|i: int| 0 <= i < s.len() && (#[trigger] s[i]) == (k, lookup(s, k)->0),
    decreases s.len(),
{
    if s.last().0 == k {
        assert(s[s.len() - 1] == (k, lookup(s, k)->0));
    } else {
        let r = s.drop_last();
        lemma_lookup_some(r, k);
        let i = choose|i: int| 0 <= i < r.len() && (#[trigger] r[i]) == (k, lookup(r, k)->0);
        assert(s[i] == r[i]);
    }
}

/// In a sorted sequence, `lookup` finds the node of the one entry with the
/// key, if there is one.
pub proof fn lemma_lookup_sorted(s: Seq<Entry>, k: NodeKey)
    requires
        sorted(s),
    ensures
        forall|i: int| 0 <= i < s.len() && (#[trigger] s[i]).0 == k ==> lookup(s, k) == Some(s[i].1),
        (forall|i: int| 0 <= i < s.len() ==> (#[trigger] s[i]).0 != k) ==> lookup(s, k) is None,
{
    assert forall|i: int| 0 <= i < s.len() && (#[trigger] s[i]).0 == k implies lookup(s, k) == Some(
        s[i].1,
    ) by {
        assert forall|j: int| i < j < s.len() implies (#[trigger] s[j]).0 != k by {
            assert(key_lt(s[i].0, s[j].0));
            lemma_key_lt_irreflexive(k);
        }
        lemma_lookup_index(s, k, i);
    }
    if forall|i: int| 0 <= i < s.len() ==> (#[trigger] s[i]).0 != k {
        lemma_lookup_none(s, k);
    }
}

/// Writing into a sorted sequence keeps it sorted, and afterwards the key
/// written holds the node written while every other key holds what it held.
pub proof fn lemma_store_put(s: Seq<Entry>, k: NodeKey, n: Node)
    requires
        sorted(s),
    ensures
        sorted(store_put(s, k, n)),
        forall|k2: NodeKey| #[trigger]
            lookup(store_put(s, k, n), k2) == if k2 == k {
                Some(n)
            } else {
                lookup(s, k2)
            },
{
    let t = SeekTarget::Below(k);
    lemma_sorted_count_before(s, t);
    let i = count_before(s, t);
    let r = store_put(s, k, n);
    if i < s.len() && s[i].0 == k {
        assert(r == s.update(i, (k, n)));
        assert(sorted(r)) by {
            assert forall|a: int, b: int| 0 <= a < b < r.len() implies key_lt(
                #[trigger] r[a].0,
                #[trigger] r[b].0,
            ) by {
                assert(key_lt(s[a].0, s[b].0));
            }
        }
        assert forall|k2: NodeKey| #[trigger]
            lookup(r, k2) == if k2 == k {
                Some(n)
            } else {
                lookup(s, k2)
            } by {
            lemma_lookup_sorted(s, k2);
            lemma_lookup_sorted(r, k2);
            if k2 != k {
                if exists|j: int| 0 <= j < s.len() && (#[trigger] s[j]).0 == k2 {
                    let j = choose|j: int| 0 <= j < s.len() && (#[trigger] s[j]).0 == k2;
                    assert(r[j] == s[j]);
                } else {
                    assert forall|j: int| 0 <= j < r.len() implies (#[trigger] r[j]).0 != k2 by {
                        if j != i {
                            assert(r[j] == s[j]);
                        }
                    }
                }
            } else {
                assert(r[i].0 == k);
            }
        }
    } else {
        assert(r == s.insert(i, (k, n)));
        // every entry from position i on lies after k
        assert forall|j: int| i <= j < s.len() implies key_lt(k, #[trigger] s[j].0) by {
            assert(!key_lt(s[j].0, k));
            if s[j].0 == k {
                assert(j != i);
                assert(key_lt(s[i].0, s[j].0));
            }
            lemma_key_lt_total(s[j].0, k);
        }
        assert(sorted(r)) by {
            assert forall|a: int, b: int| 0 <= a < b < r.len() implies key_lt(
                #[trigger] r[a].0,
                #[trigger] r[b].0,
            ) by {
                if b < i {
                    assert(r[a] == s[a] && r[b] == s[b]);
                } else if b == i {
                    assert(r[a] == s[a]);
                } else if a < i {
                    assert(r[a] == s[a] && r[b] == s[b - 1]);
                    assert(key_lt(s[a].0, k));
                    lemma_key_lt_transitive(s[a].0, k, s[b - 1].0);
                } else if a == i {
                    assert(r[b] == s[b - 1]);
                } else {
                    assert(r[a] == s[a - 1] && r[b] == s[b - 1]);
                }
            }
        }
        assert forall|k2: NodeKey| #[trigger]
            lookup(r, k2) == if k2 == k {
                Some(n)
            } else {
                lookup(s, k2)
            } by {
            lemma_lookup_sorted(s, k2);
            lemma_lookup_sorted(r, k2);
            if k2 != k {
                if exists|j: int| 0 <= j < s.len() && (#[trigger] s[j]).0 == k2 {
                    let j = choose|j: int| 0 <= j < s.len() && (#[trigger] s[j]).0 == k2;
                    if j < i {
                        assert(r[j] == s[j]);
                    } else {
                        assert(r[j + 1] == s[j]);
                    }
                } else {
                    assert forall|j: int| 0 <= j < r.len() implies (#[trigger] r[j]).0 != k2 by {
                        if j < i {
                            assert(r[j] == s[j]);
                        } else if j > i {
                            assert(r[j] == s[j - 1]);
                        }
                    }
                }
            } else {
                assert(r[i].0 == k);
            }
        }
    }
}

/// The node column family: nodes in the order of their keys.
pub struct NodeStore {
    entries: Vec<Entry>,
}

impl View for NodeStore {
    type V = Seq<Entry>;

    closed spec fn view(&self) -> Seq<Entry> {
        self.entries@
    }
}

impl NodeStore {
    /// The store is well formed: its keys are strictly increasing.
    pub open spec fn wf(&self) -> bool {
        sorted(self@)
    }

    /// An empty store.
    pub fn new() -> (store: NodeStore)
        ensures
            store@ == Seq::<Entry>::empty(),
            store.wf(),
    {
        NodeStore { entries: Vec::new() }
    }

    /// The number of nodes stored.
    pub fn len(&self) -> (n: usize)
        ensures
            n == self@.len(),
    {
        self.entries.len()
    }

    /// The entry at position `i` in key order.
    pub fn entry(&self, i: usize) -> (e: Entry)
        requires
            i < self@.len(),
        ensures
            e == self@[i as int],
    {
        self.entries[i]
    }

    fn is_before(t: &SeekTarget, k: &NodeKey) -> (b: bool)
        ensures
            b == before(*t, *k),
    {
        match t {
            SeekTarget::Below(x) => k.compare(x) == Comparison::Less,
            SeekTarget::AtMost(x) => k.compare(x) != Comparison::Greater,
            SeekTarget::BeforeRange(v, n) => k.version < *v || (k.version == *v
                && k.nibble_path.num_nibbles < *n),
        }
    }

    /// The number of entries before the target, found by binary search.
    pub fn lower_bound(&self, t: &SeekTarget) -> (idx: usize)
        requires
            self.wf(),
        ensures
            idx == count_before(self@, *t),
            skip_before(self@, *t) == self@.skip(idx as int),
            idx <= self@.len(),
            forall|j: int| 0 <= j < idx ==> before(*t, #[trigger] self@[j].0),
            forall|j: int| idx <= j < self@.len() ==> !before(*t, #[trigger] self@[j].0),
    {
        let mut lo: usize = 0;
        let mut hi: usize = self.entries.len();
        while lo < hi
            invariant
                lo <= hi <= self@.len(),
                self@ == self.entries@,
                sorted(self@),
                forall|j: int| 0 <= j < lo ==> before(*t, #[trigger] self@[j].0),
                forall|j: int| hi <= j < self@.len() ==> !before(*t, #[trigger] self@[j].0),
            decreases hi - lo,
        {
            let mid = lo + (hi - lo) / 2;
            let k = self.entries[mid].0;
            if Self::is_before(t, &k) {
                assert forall|j: int| 0 <= j < mid + 1 implies before(*t, #[trigger] self@[j].0) by {
                    if j < mid {
                        lemma_before_monotone(*t, self@[j].0, self@[mid as int].0);
                    }
                }
                lo = mid + 1;
            } else {
                assert forall|j: int| mid <= j < self@.len() implies !before(
                    *t,
                    #[trigger] self@[j].0,
                ) by {
                    if j > mid && before(*t, self@[j].0) {
                        lemma_before_monotone(*t, self@[mid as int].0, self@[j].0);
                    }
                }
                hi = mid;
            }
        }
        proof {
            lemma_skip_before(self@, *t, lo as int);
        }
        lo
    }

    /// The node stored under `key`, if any.
    pub fn get(&self, key: &NodeKey) -> (r: Option<Node>)
        requires
            self.wf(),
        ensures
            r == lookup(self@, *key),
    {
        let t = SeekTarget::Below(*key);
        let i = self.lower_bound(&t);
        proof {
            lemma_lookup_sorted(self@, *key);
        }
        if i < self.entries.len() {
            let e = self.entries[i];
            if e.0.compare(key) == Comparison::Equal {
                return Some(e.1);
            }
            assert forall|j: int| 0 <= j < self@.len() implies (#[trigger] self@[j]).0 != *key by {
                if j > i {
                    assert(key_lt(self@[i as int].0, self@[j].0));
                    lemma_key_lt_total(self@[i as int].0, *key);
                    lemma_key_lt_transitive(*key, self@[i as int].0, self@[j].0);
                    lemma_key_lt_irreflexive(*key);
                } else if j < i {
                    lemma_key_lt_irreflexive(*key);
                }
            }
        } else {
            assert forall|j: int| 0 <= j < self@.len() implies (#[trigger] self@[j]).0 != *key by {
                lemma_key_lt_irreflexive(*key);
            }
        }
        None
    }

    /// Writes `node` under `key`, replacing what was stored there.
    pub fn put(&mut self, key: NodeKey, node: Node)
        requires
            old(self).wf(),
        ensures
            final(self).wf(),
            final(self)@ == store_put(old(self)@, key, node),
            forall|k: NodeKey| #[trigger]
                lookup(final(self)@, k) == if k == key {
                    Some(node)
                } else {
                    lookup(old(self)@, k)
                },
    {
        proof {
            lemma_store_put(self@, key, node);
        }
        let t = SeekTarget::Below(key);
        let i = self.lower_bound(&t);
        if i < self.entries.len() && self.entries[i].0.compare(&key) == Comparison::Equal {
            self.entries.set(i, (key, node));
        } else {
            self.entries.insert(i, (key, node));
        }
    }

    /// A forward seek: the first entry at or past the target.
    pub fn seek(&self, t: &SeekTarget) -> (r: Option<Entry>)
        requires
            self.wf(),
        ensures
            r == seek_spec(self@, *t),
    {
        let i = self.lower_bound(t);
        proof {
            lemma_skip_before(self@, *t, i as int);
        }
        if i < self.entries.len() {
            Some(self.entries[i])
        } else {
            None
        }
    }

    /// A backward seek: the last entry before the target.
    pub fn seek_for_prev(&self, t: &SeekTarget) -> (r: Option<Entry>)
        requires
            self.wf(),
        ensures
            r == seek_for_prev_spec(self@, *t),
    {
        let i = self.lower_bound(t);
        if i > 0 {
            Some(self.entries[i - 1])
        } else {
            None
        }
    }
}

} // verus!
