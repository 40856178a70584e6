//! A map whose entries are kept in ascending key order, as `BTreeMap` keeps
//! them: lookups by key, insertion that replaces, and walks in key order.
use crate::keys::{sorted_strict, KeyOrder, OrderedKey};
use vstd::prelude::*;

verus! {

/// A map from keys to values, with the entries stored in ascending key order.
pub struct OrdMap<K, V> {
    entries: Vec<(K, V)>,
}

impl<K: OrderedKey, V> OrdMap<K, V> {
    /// The keys, in ascending order.
    pub closed spec fn key_seq(&self) -> Seq<K::V> {
        self.entries@.map_values(|e: (K, V)| e.0@)
    }

    /// The values, in the order of their keys.
    pub closed spec fn value_seq(&self) -> Seq<V> {
        self.entries@.map_values(|e: (K, V)| e.1)
    }

    /// The keys ascend strictly, and each key has one value.
    pub open spec fn wf(&self) -> bool {
        &&& sorted_strict::<K>(self.key_seq())
        &&& self.key_seq().len() == self.value_seq().len()
    }

    pub open spec fn spec_len(&self) -> nat {
        self.key_seq().len()
    }

    /// Each key with the value stored beside it.
    pub open spec fn as_map(&self) -> Map<K::V, V> {
        Map::new(
            |k: K::V| self.key_seq().contains(k),
            |k: K::V| self.value_seq()[self.key_seq().index_of(k)],
        )
    }

    /// The key at position `i` maps to the value at position `i`.
    pub proof fn lemma_entry(&self, i: int)
        requires
            self.wf(),
            0 <= i < self.spec_len(),
        ensures
            self.as_map().contains_key(self.key_seq()[i]),
            self.as_map()[self.key_seq()[i]] == self.value_seq()[i],
    {
        let ks = self.key_seq();
        assert(ks.contains(ks[i]));
        let j = ks.index_of(ks[i]);
        if j != i {
            K::lemma_key_lt_irreflexive(ks[i]);
        }
    }

    /// The keys of the map are exactly the stored keys.
    pub proof fn lemma_dom(&self)
        requires
            self.wf(),
        ensures
            self.as_map().dom() == self.key_seq().to_set(),
    {
        assert(self.as_map().dom() =~= self.key_seq().to_set());
    }

    pub fn new() -> (m: Self)
        ensures
            m.wf(),
            m.spec_len() == 0,
            m.as_map() == Map::<K::V, V>::empty(),
    {
        let m = OrdMap { entries: Vec::new() };
        assert(m.as_map() =~= Map::<K::V, V>::empty());
        m
    }

    pub fn len(&self) -> (n: usize)
        ensures
            n == self.spec_len(),
    {
        self.entries.len()
    }

    pub fn key_at(&self, i: usize) -> (k: &K)
        requires
            i < self.spec_len(),
        ensures
            k@ == self.key_seq()[i as int],
    {
        &self.entries[i].0
    }

    pub fn value_at(&self, i: usize) -> (v: &V)
        requires
            self.wf(),
            i < self.spec_len(),
        ensures
            *v == self.value_seq()[i as int],
    {
        &self.entries[i].1
    }

    /// The position of `k`, or the position where it would be inserted.
    fn find(&self, k: &K) -> (r: (bool, usize))
        requires
            self.wf(),
        ensures
            r.1 <= self.spec_len(),
            forall|i: int| 0 <= i < r.1 ==> K::key_lt(#[trigger] self.key_seq()[i], k@),
            r.0 ==> r.1 < self.spec_len() && self.key_seq()[r.1 as int] == k@,
            !r.0 ==> forall|i: int|
                r.1 <= i < self.spec_len() ==> K::key_lt(k@, #[trigger] self.key_seq()[i]),
    {
        let n = self.entries.len();
        let mut i: usize = 0;
        while i < n
            invariant
                n == self.spec_len(),
                self.wf(),
                i <= n,
                forall|j: int| 0 <= j < i ==> K::key_lt(#[trigger] self.key_seq()[j], k@),
            decreases n - i,
        {
            match self.entries[i].0.compare_keys(k) {
                KeyOrder::Less => {},
                KeyOrder::Equal => {
                    return (true, i);
                },
                KeyOrder::Greater => {
                    proof {
                        assert forall|j: int| i <= j < self.spec_len() implies K::key_lt(
                            k@,
                            #[trigger] self.key_seq()[j],
                        ) by {
                            if j > i {
                                K::lemma_key_lt_transitive(
                                    k@,
                                    self.key_seq()[i as int],
                                    self.key_seq()[j],
                                );
                            }
                        }
                    }
                    return (false, i);
                },
            }
            i = i + 1;
        }
        (false, i)
    }

    pub fn contains_key(&self, k: &K) -> (b: bool)
        requires
            self.wf(),
        ensures
            b == self.as_map().contains_key(k@),
    {
        let (found, i) = self.find(k);
        proof {
            if !found && self.key_seq().contains(k@) {
                let j = choose|j: int| 0 <= j < self.spec_len() && self.key_seq()[j] == k@;
                K::lemma_key_lt_irreflexive(k@);
            }
        }
        found
    }

    pub fn get(&self, k: &K) -> (r: Option<&V>)
        requires
            self.wf(),
        ensures
            r is Some == self.as_map().contains_key(k@),
            r matches Some(v) ==> *v == self.as_map()[k@],
    {
        let (found, i) = self.find(k);
        if found {
            proof {
                self.lemma_entry(i as int);
            }
            Some(&self.entries[i].1)
        } else {
            proof {
                if self.key_seq().contains(k@) {
                    let j = choose|j: int| 0 <= j < self.spec_len() && self.key_seq()[j] == k@;
                    K::lemma_key_lt_irreflexive(k@);
                }
            }
            None
        }
    }

    /// Appends an entry whose key is above every key of the map.
    pub fn push_last(&mut self, k: K, v: V)
        requires
            old(self).wf(),
            forall|i: int|
                0 <= i < old(self).spec_len() ==> K::key_lt(#[trigger] old(self).key_seq()[i], k@),
        ensures
            final(self).wf(),
            final(self).key_seq() == old(self).key_seq().push(k@),
            final(self).value_seq() == old(self).value_seq().push(v),
    {
        let ghost kv = k@;
        let ghost vv = v;
        let ghost old_keys = self.key_seq();
        let ghost old_vals = self.value_seq();
        self.entries.push((k, v));
        proof {
            assert(self.key_seq() =~= old_keys.push(kv));
            assert(self.value_seq() =~= old_vals.push(vv));
        }
    }

    /// Inserts `v` under `k`, replacing the value that `k` had.
    pub fn insert(&mut self, k: K, v: V)
        requires
            old(self).wf(),
        ensures
            final(self).wf(),
            final(self).as_map() == old(self).as_map().insert(k@, v),
            old(self).as_map().contains_key(k@) ==> final(self).key_seq() == old(self).key_seq(),
    {
        let (found, i) = self.find(&k);
        let ghost kv = k@;
        let ghost old_keys = self.key_seq();
        let ghost old_vals = self.value_seq();
        let ghost old_map = self.as_map();
        if found {
            self.entries.set(i, (k, v));
            proof {
                assert(self.key_seq() =~= old_keys);
                assert(self.value_seq() =~= old_vals.update(i as int, v));
                assert forall|x: K::V| #[trigger] self.as_map().contains_key(x)
                    == old_map.insert(kv, v).contains_key(x) by {}
                assert forall|x: K::V| self.as_map().contains_key(x) implies #[trigger] self.as_map()[x]
                    == old_map.insert(kv, v)[x] by {
                    let j = self.key_seq().index_of(x);
                    self.lemma_entry(j);
                    if j != i {
                        K::lemma_key_lt_irreflexive(x);
                        assert(x != kv);
                        old(self).lemma_entry(j);
                        assert(old_vals[j] == self.value_seq()[j]);
                    }
                }
                assert(self.as_map() =~= old_map.insert(kv, v));
            }
        } else {
            proof {
                if old_keys.contains(kv) {
                    let j = choose|j: int| 0 <= j < old_keys.len() && old_keys[j] == kv;
                    K::lemma_key_lt_irreflexive(kv);
                }
            }
            self.entries.insert(i, (k, v));
            proof {
                assert(self.key_seq() =~= old_keys.insert(i as int, kv));
                assert(self.value_seq() =~= old_vals.insert(i as int, v));
                let ks = self.key_seq();
                assert forall|a: int, b: int| 0 <= a < b < ks.len() implies K::key_lt(
                    ks[a],
                    ks[b],
                ) by {
                    if a < i && b > i {
                        K::lemma_key_lt_transitive(ks[a], kv, ks[b]);
                    }
                }
                assert forall|x: K::V| #[trigger] self.as_map().contains_key(x)
                    == old_map.insert(kv, v).contains_key(x) by {
                    if old_keys.contains(x) {
                        let j = choose|j: int| 0 <= j < old_keys.len() && old_keys[j] == x;
                        if j < i {
                            assert(ks[j] == x);
                        } else {
                            assert(ks[j + 1] == x);
                        }
                    }
                    if x == kv {
                        assert(ks[i as int] == x);
                    }
                }
                assert forall|x: K::V| self.as_map().contains_key(x) implies #[trigger] self.as_map()[x]
                    == old_map.insert(kv, v)[x] by {
                    let j = ks.index_of(x);
                    self.lemma_entry(j);
                    if j < i {
                        old(self).lemma_entry(j);
                        K::lemma_key_lt_irreflexive(x);
                    } else if j > i {
                        old(self).lemma_entry(j - 1);
                        K::lemma_key_lt_irreflexive(x);
                    }
                }
                assert(self.as_map() =~= old_map.insert(kv, v));
            }
        }
    }
}

/// The views of a sequence of keys.
pub open spec fn key_views<K: View>(v: Seq<K>) -> Seq<K::V> {
    v.map_values(|k: K| k@)
}

/// Adds `k` to a strictly ascending vector of keys, where it is not there yet,
/// as inserting into a `BTreeSet` does.
pub fn insert_sorted<K: OrderedKey>(v: &mut Vec<K>, k: K)
    requires
        sorted_strict::<K>(key_views(old(v)@)),
    ensures
        sorted_strict::<K>(key_views(final(v)@)),
        key_views(final(v)@).to_set() == key_views(old(v)@).to_set().insert(k@),
{
    let ghost kv = k@;
    let ghost old_keys = key_views(v@);
    let n = v.len();
    let mut i: usize = 0;
    while i < n
        invariant
            n == v@.len(),
            key_views(v@) == old_keys,
            sorted_strict::<K>(old_keys),
            kv == k@,
            i <= n,
            forall|j: int| 0 <= j < i ==> K::key_lt(#[trigger] old_keys[j], kv),
        ensures
            key_views(v@) == old_keys,
            i <= n,
            forall|j: int| 0 <= j < i ==> K::key_lt(#[trigger] old_keys[j], kv),
            i < n ==> K::key_lt(kv, old_keys[i as int]),
        decreases n - i,
    {
        match v[i].compare_keys(&k) {
            KeyOrder::Less => {},
            KeyOrder::Equal => {
                proof {
                    assert(old_keys[i as int] == kv);
                    assert(old_keys.to_set().insert(kv) =~= old_keys.to_set());
                }
                return;
            },
            KeyOrder::Greater => {
                break;
            },
        }
        i = i + 1;
    }
    proof {
        assert forall|j: int| i <= j < n implies K::key_lt(kv, #[trigger] old_keys[j]) by {
            if j > i {
                K::lemma_key_lt_transitive(kv, old_keys[i as int], old_keys[j]);
            }
        }
    }
    v.insert(i, k);
    proof {
        let ks = key_views(v@);
        assert(ks =~= old_keys.insert(i as int, kv));
        assert forall|a: int, b: int| 0 <= a < b < ks.len() implies K::key_lt(ks[a], ks[b]) by {
            if a < i && b > i {
                K::lemma_key_lt_transitive(ks[a], kv, ks[b]);
            }
        }
        assert forall|x: K::V| #[trigger] ks.to_set().contains(x) == old_keys.to_set().insert(
            kv,
        ).contains(x) by {
            if old_keys.contains(x) {
                let j = choose|j: int| 0 <= j < old_keys.len() && old_keys[j] == x;
                if j < i {
                    assert(ks[j] == x);
                } else {
                    assert(ks[j + 1] == x);
                }
            }
            if x == kv {
                assert(ks[i as int] == x);
            }
        }
        assert(ks.to_set() =~= old_keys.to_set().insert(kv));
    }
}

} // verus!
