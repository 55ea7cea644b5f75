//! The two node caches in front of the node store: the cache of the nodes
//! written by recent versions, and a bounded cache of nodes read from the
//! store that forgets the least recently used node first.

use vstd::prelude::*;
use crate::node_store::{lemma_lookup_index, lemma_lookup_none, lookup, Entry, NodeStore};
use crate::node_type::{Comparison, Node, NodeKey, Version};

verus! {

/// The node store that the last entry for `version` holds, if any.
pub open spec fn version_lookup(s: Seq<(Version, NodeStore)>, version: Version) -> Option<NodeStore>
    decreases s.len(),
{
    if s.len() == 0 {
        None
    } else if s.last().0 == version {
        Some(s.last().1)
    } else {
        version_lookup(s.drop_last(), version)
    }
}

/// The nodes written by recent versions, one node store per version, oldest
/// first.
pub struct VersionedNodeCache {
    versions: Vec<(Version, NodeStore)>,
}

impl View for VersionedNodeCache {
    type V = Seq<(Version, NodeStore)>;

    closed spec fn view(&self) -> Seq<(Version, NodeStore)> {
        self.versions@
    }
}

impl VersionedNodeCache {
    /// Every cached node store is well formed.
    pub open spec fn wf(&self) -> bool {
        forall|i: int| 0 <= i < self@.len() ==> (#[trigger] self@[i]).1.wf()
    }

    /// An empty cache.
    pub fn new() -> (cache: VersionedNodeCache)
        ensures
            cache@ == Seq::<(Version, NodeStore)>::empty(),
            cache.wf(),
    {
        VersionedNodeCache { versions: Vec::new() }
    }

    /// Caches the nodes written by `version`.
    pub fn add_version(&mut self, version: Version, nodes: NodeStore)
        requires
            old(self).wf(),
            nodes.wf(),
        ensures
            final(self).wf(),
            final(self)@ == old(self)@.push((version, nodes)),
    {
        self.versions.push((version, nodes));
    }

    /// The nodes cached for `version`, if that version is cached.
    pub fn get_version(&self, version: Version) -> (r: Option<&NodeStore>)
        requires
            self.wf(),
        ensures
            r is Some <==> version_lookup(self@, version) is Some,
            r matches Some(store) ==> *store == version_lookup(self@, version)->0 && store.wf(),
    {
        let mut i = self.versions.len();
        assert(self@.take(i as int) =~= self@);
        while i > 0
            invariant
                i <= self@.len(),
                self@ == self.versions@,
                self.wf(),
                version_lookup(self@, version) == version_lookup(self@.take(i as int), version),
            decreases i,
        {
            let ghost t = self@.take(i as int);
            assert(t.drop_last() =~= self@.take(i - 1));
            if self.versions[i - 1].0 == version {
                assert(t.last() == self@[i - 1]);
                return Some(&self.versions[i - 1].1);
            }
            i = i - 1;
        }
        None
    }
}

/// The keys of the entries are pairwise different.
pub open spec fn distinct_keys(s: Seq<Entry>) -> bool {
    forall|i: int, j: int| 0 <= i < j < s.len() ==> (#[trigger] s[i]).0 != (#[trigger] s[j]).0
}

/// The entries of `s` whose key is not `k`, in their order.
pub open spec fn without_key(s: Seq<Entry>, k: NodeKey) -> Seq<Entry>
    decreases s.len(),
{
    if s.len() == 0 {
        s
    } else if s.last().0 == k {
        without_key(s.drop_last(), k)
    } else {
        without_key(s.drop_last(), k).push(s.last())
    }
}

/// The entries of a least-recently-used cache after `(k, n)` is used: any
/// entry for `k` leaves, `(k, n)` becomes the most recent, and, past the
/// capacity, the least recent entry is dropped.
pub open spec fn lru_touch(s: Seq<Entry>, k: NodeKey, n: Node, capacity: nat) -> Seq<Entry> {
    let t = without_key(s, k).push((k, n));
    if t.len() > capacity {
        t.drop_first()
    } else {
        t
    }
}

pub proof fn lemma_without_key(s: Seq<Entry>, k: NodeKey)
    ensures
        forall|k2: NodeKey| #[trigger]
            lookup(without_key(s, k), k2) == if k2 == k {
                None
            } else {
                lookup(s, k2)
            },
        without_key(s, k).len() <= s.len(),
        forall|i: int|
            0 <= i < without_key(s, k).len() ==> (#[trigger] without_key(s, k)[i]).0 != k
                && s.contains(without_key(s, k)[i]),
        distinct_keys(s) ==> distinct_keys(without_key(s, k)),
        (forall|i: int| 0 <= i < s.len() ==> (#[trigger] s[i]).0 != k) ==> without_key(s, k) == s,
    decreases s.len(),
{
    if s.len() > 0 {
        let r = s.drop_last();
        lemma_without_key(r, k);
        let w = without_key(r, k);
        assert forall|i: int| 0 <= i < w.len() implies s.contains(#[trigger] w[i]) by {
            let j = choose|j: int| 0 <= j < r.len() && r[j] == w[i];
            assert(s[j] == r[j]);
        }
        if distinct_keys(s) {
            assert(distinct_keys(r)) by {
                assert forall|i: int, j: int| 0 <= i < j < r.len() implies (#[trigger] r[i]).0 != (
                #[trigger] r[j]).0 by {
                    assert(r[i] == s[i] && r[j] == s[j]);
                }
            }
        }
        if s.last().0 != k {
            let wp = w.push(s.last());
            assert(wp.drop_last() =~= w);
            assert(without_key(s, k) == wp);
            assert forall|k2: NodeKey| #[trigger]
                lookup(without_key(s, k), k2) == if k2 == k {
                    None
                } else {
                    lookup(s, k2)
                } by {
                assert(lookup(wp, k2) == if wp.last().0 == k2 {
                    Some(wp.last().1)
                } else {
                    lookup(wp.drop_last(), k2)
                });
                assert(lookup(w, k2) == if k2 == k {
                    None
                } else {
                    lookup(r, k2)
                });
            }
            assert forall|i: int| 0 <= i < wp.len() implies s.contains(#[trigger] wp[i]) by {
                if i < w.len() {
                    assert(wp[i] == w[i]);
                } else {
                    assert(s[s.len() - 1] == s.last());
                }
            }
            if distinct_keys(s) {
                assert forall|i: int, j: int| 0 <= i < j < wp.len() implies (#[trigger] wp[i]).0 != (
                #[trigger] wp[j]).0 by {
                    if j == w.len() {
                        assert(wp[i] == w[i]);
                        let a = choose|a: int| 0 <= a < r.len() && r[a] == w[i];
                        assert(s[a] == r[a]);
                        assert(s[s.len() - 1] == s.last());
                    } else {
                        assert(wp[i] == w[i] && wp[j] == w[j]);
                    }
                }
            }
            if forall|i: int| 0 <= i < s.len() ==> (#[trigger] s[i]).0 != k {
                assert forall|i: int| 0 <= i < r.len() implies (#[trigger] r[i]).0 != k by {
                    assert(r[i] == s[i]);
                }
                assert(s =~= r.push(s.last()));
            }
        } else {
            assert(s[s.len() - 1].0 == k);
            assert forall|k2: NodeKey| #[trigger]
                lookup(without_key(s, k), k2) == if k2 == k {
                    None
                } else {
                    lookup(s, k2)
                } by {
                assert(lookup(w, k2) == if k2 == k {
                    None
                } else {
                    lookup(r, k2)
                });
            }
        }
    }
}

/// Dropping the first entry of a sequence with distinct keys forgets exactly
/// the key of that entry.
pub proof fn lemma_lookup_drop_first(s: Seq<Entry>)
    requires
        s.len() > 0,
        distinct_keys(s),
    ensures
        forall|k: NodeKey| #[trigger]
            lookup(s.drop_first(), k) == if k == s[0].0 {
                None
            } else {
                lookup(s, k)
            },
        distinct_keys(s.drop_first()),
    decreases s.len(),
{
    let r = s.drop_first();
    assert forall|i: int, j: int| 0 <= i < j < r.len() implies (#[trigger] r[i]).0 != (
    #[trigger] r[j]).0 by {
        assert(r[i] == s[i + 1] && r[j] == s[j + 1]);
    }
    if s.len() == 1 {
        assert forall|k: NodeKey| #[trigger]
            lookup(r, k) == if k == s[0].0 {
                None
            } else {
                lookup(s, k)
            } by {
            assert(s.drop_last().len() == 0);
            assert(r.len() == 0);
            assert(lookup(r, k) is None);
            assert(s.last() == s[0]);
            assert(lookup(s.drop_last(), k) is None);
            assert(lookup(s, k) == if s.last().0 == k {
                Some(s.last().1)
            } else {
                lookup(s.drop_last(), k)
            });
        }
    } else {
        let d = s.drop_last();
        assert(distinct_keys(d)) by {
            assert forall|i: int, j: int| 0 <= i < j < d.len() implies (#[trigger] d[i]).0 != (
            #[trigger] d[j]).0 by {
                assert(d[i] == s[i] && d[j] == s[j]);
            }
        }
        lemma_lookup_drop_first(d);
        assert(r.drop_last() =~= d.drop_first());
        assert(r.last() == s.last());
        assert(d[0] == s[0]);
        assert forall|k: NodeKey| #[trigger]
            lookup(r, k) == if k == s[0].0 {
                None
            } else {
                lookup(s, k)
            } by {
            assert(lookup(d.drop_first(), k) == if k == s[0].0 {
                None
            } else {
                lookup(d, k)
            });
            assert(lookup(r, k) == if r.last().0 == k {
                Some(r.last().1)
            } else {
                lookup(r.drop_last(), k)
            });
            assert(lookup(s, k) == if s.last().0 == k {
                Some(s.last().1)
            } else {
                lookup(s.drop_last(), k)
            });
            if k == s[0].0 {
                assert(s[s.len() - 1] == s.last());
                assert(s[0].0 != s[s.len() - 1].0);
                assert(s.last().0 != k);
            }
        }
    }
}

/// After `lru_touch`, the key touched holds its node (when the capacity
/// allows any entry), the other keys hold what they held or nothing, the
/// keys stay distinct and the length stays within the capacity.
pub proof fn lemma_lru_touch(s: Seq<Entry>, k: NodeKey, n: Node, capacity: nat)
    requires
        distinct_keys(s),
        s.len() <= capacity,
    ensures
        distinct_keys(lru_touch(s, k, n, capacity)),
        lru_touch(s, k, n, capacity).len() <= capacity,
        capacity > 0 ==> lookup(lru_touch(s, k, n, capacity), k) == Some(n),
        forall|k2: NodeKey|
            k2 != k && (#[trigger] lookup(lru_touch(s, k, n, capacity), k2)) is Some ==> lookup(
                lru_touch(s, k, n, capacity),
                k2,
            ) == lookup(s, k2),
{
    lemma_without_key(s, k);
    let w = without_key(s, k);
    let t = w.push((k, n));
    assert(t.drop_last() =~= w);
    assert(distinct_keys(t)) by {
        assert forall|i: int, j: int| 0 <= i < j < t.len() implies (#[trigger] t[i]).0 != (
        #[trigger] t[j]).0 by {
            if j == w.len() {
                assert(t[i] == w[i]);
            } else {
                assert(t[i] == w[i] && t[j] == w[j]);
            }
        }
    }
    assert forall|k2: NodeKey| #[trigger] lookup(t, k2) == if k2 == k {
        Some(n)
    } else {
        lookup(s, k2)
    } by {
        assert(lookup(t, k2) == if t.last().0 == k2 {
            Some(t.last().1)
        } else {
            lookup(t.drop_last(), k2)
        });
    }
    if t.len() > capacity {
        lemma_lookup_drop_first(t);
        if capacity > 0 {
            assert(t[0] == w[0]);
        }
        assert forall|k2: NodeKey|
            k2 != k && (#[trigger] lookup(lru_touch(s, k, n, capacity), k2)) is Some implies lookup(
                lru_touch(s, k, n, capacity),
                k2,
            ) == lookup(s, k2) by {
            assert(lookup(t.drop_first(), k2) == if k2 == t[0].0 {
                None
            } else {
                lookup(t, k2)
            });
        }
    }
}

/// A bounded cache of nodes read from the store, least recently used first.
pub struct LruNodeCache {
    capacity: usize,
    entries: Vec<Entry>,
}

impl View for LruNodeCache {
    type V = Seq<Entry>;

    closed spec fn view(&self) -> Seq<Entry> {
        self.entries@
    }
}

impl LruNodeCache {
    /// The largest number of nodes that the cache holds.
    pub closed spec fn capacity(&self) -> nat {
        self.capacity as nat
    }

    /// The cache is well formed: distinct keys, within the capacity.
    pub open spec fn wf(&self) -> bool {
        &&& distinct_keys(self@)
        &&& self@.len() <= self.capacity()
    }

    /// An empty cache that holds at most `capacity` nodes.
    pub fn new(capacity: usize) -> (cache: LruNodeCache)
        ensures
            cache@ == Seq::<Entry>::empty(),
            cache.capacity() == capacity,
            cache.wf(),
    {
        LruNodeCache { capacity, entries: Vec::new() }
    }

    fn find(&self, key: &NodeKey) -> (r: Option<usize>)
        ensures
            r matches Some(i) ==> i < self@.len() && self@[i as int].0 == *key,
            r is None ==> forall|i: int| 0 <= i < self@.len() ==> (#[trigger] self@[i]).0 != *key,
    {
        let mut i: usize = 0;
        while i < self.entries.len()
            invariant
                i <= self@.len(),
                self@ == self.entries@,
                forall|j: int| 0 <= j < i ==> (#[trigger] self@[j]).0 != *key,
            decreases self@.len() - i,
        {
            if self.entries[i].0.compare(key) == Comparison::Equal {
                return Some(i);
            }
            i = i + 1;
        }
        None
    }

    /// The node cached under `key`, if any; a hit makes it the most recently
    /// used entry.
    pub fn get(&mut self, key: &NodeKey) -> (r: Option<Node>)
        requires
            old(self).wf(),
        ensures
            final(self).wf(),
            final(self).capacity() == old(self).capacity(),
            r == lookup(old(self)@, *key),
            final(self)@ == match r {
                Some(n) => lru_touch(old(self)@, *key, n, old(self).capacity()),
                None => old(self)@,
            },
            forall|k: NodeKey| #[trigger] lookup(final(self)@, k) == lookup(old(self)@, k),
    {
        let ghost s = self@;
        match self.find(key) {
            Some(i) => {
                proof {
                    lemma_without_key(s, *key);
                    lemma_lookup_index(s, *key, i as int);
                    assert forall|j: int| 0 <= j < s.len() && j != i implies (#[trigger] s[j]).0
                        != *key by {
                        if j < i {
                            assert(s[j].0 != s[i as int].0);
                        } else {
                            assert(s[i as int].0 != s[j].0);
                        }
                    }
                    lemma_without_key_remove(s, *key, i as int);
                }
                let e = self.entries.remove(i);
                self.entries.push(e);
                proof {
                    let t = without_key(s, *key).push((*key, e.1));
                    assert(self@ == t);
                    assert(t.len() <= self.capacity());
                    lemma_lru_touch(s, *key, e.1, self.capacity());
                    assert forall|k: NodeKey| #[trigger] lookup(self@, k) == lookup(s, k) by {
                        assert(t.drop_last() =~= without_key(s, *key));
                        assert(lookup(t, k) == if t.last().0 == k {
                            Some(t.last().1)
                        } else {
                            lookup(t.drop_last(), k)
                        });
                        assert(lookup(without_key(s, *key), k) == if k == *key {
                            None
                        } else {
                            lookup(s, k)
                        });
                    }
                }
                Some(e.1)
            },
            None => {
                proof {
                    lemma_lookup_none(s, *key);
                }
                None
            },
        }
    }

    /// Caches `node` under `key` as the most recently used entry, dropping
    /// the least recently used one when the cache is full.
    pub fn put(&mut self, key: NodeKey, node: Node)
        requires
            old(self).wf(),
        ensures
            final(self).wf(),
            final(self).capacity() == old(self).capacity(),
            final(self)@ == if old(self).capacity() == 0 {
                old(self)@
            } else {
                lru_touch(old(self)@, key, node, old(self).capacity())
            },
    {
        if self.capacity == 0 {
            return;
        }
        let ghost s = self@;
        proof {
            lemma_without_key(s, key);
        }
        match self.find(&key) {
            Some(i) => {
                proof {
                    assert forall|j: int| 0 <= j < s.len() && j != i implies (#[trigger] s[j]).0
                        != key by {
                        if j < i {
                            assert(s[j].0 != s[i as int].0);
                        } else {
                            assert(s[i as int].0 != s[j].0);
                        }
                    }
                    lemma_without_key_remove(s, key, i as int);
                }
                self.entries.remove(i);
            },
            None => {},
        }
        assert(self@ == without_key(s, key));
        self.entries.push((key, node));
        if self.entries.len() > self.capacity {
            self.entries.remove(0);
            assert(self@ =~= without_key(s, key).push((key, node)).drop_first());
        }
        proof {
            lemma_lru_touch(s, key, node, self.capacity());
        }
    }
}

/// In a sequence where only entry `i` has key `k`, dropping the entries with
/// key `k` removes entry `i`.
pub proof fn lemma_without_key_remove(s: Seq<Entry>, k: NodeKey, i: int)
    requires
        0 <= i < s.len(),
        s[i].0 == k,
        forall|j: int| 0 <= j < s.len() && j != i ==> (#[trigger] s[j]).0 != k,
    ensures
        without_key(s, k) == s.remove(i),
    decreases s.len(),
{
    let r = s.drop_last();
    if i == s.len() - 1 {
        assert forall|j: int| 0 <= j < r.len() implies (#[trigger] r[j]).0 != k by {
            assert(r[j] == s[j]);
        }
        lemma_without_key(r, k);
        assert(s.last() == s[i]);
        assert(s.remove(i) =~= r);
    } else {
        assert forall|j: int| 0 <= j < r.len() && j != i implies (#[trigger] r[j]).0 != k by {
            assert(r[j] == s[j]);
        }
        assert(r[i] == s[i]);
        lemma_without_key_remove(r, k, i);
        assert(s.last() == s[s.len() - 1]);
        assert(s.remove(i) =~= r.remove(i).push(s.last()));
    }
}

} // verus!
