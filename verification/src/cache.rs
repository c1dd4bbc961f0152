//! The bounded cache itself: a lookup table for retrieval by key and
//! an insertion-order queue that picks eviction victims.

use std::collections::HashMap;
use std::collections::VecDeque;
use std::hash::Hash;
use vstd::pervasive::cloned;
use vstd::prelude::*;
use vstd::seq_lib::*;
use vstd::std_specs::cmp::PartialEqSpec;
use vstd::std_specs::hash::obeys_key_model;

verus! {

/// What the cache asks of a key type: the standard hash-table key
/// model holds for it (hashing and `==` behave consistently, so a
/// `HashMap` keyed by it follows its abstract `Map` view), `==` agrees
/// with logical equality, and `clone` hands back the same logical key.
pub open spec fn key_support<K: Clone + PartialEq>() -> bool {
    &&& obeys_key_model::<K>()
    &&& K::obeys_eq_spec()
    &&& forall|a: K, b: K| #[trigger] a.eq_spec(&b) <==> a == b
    &&& forall|a: K, b: K| #[trigger] cloned::<K>(a, b) ==> b == a
}

/// The (lookup table, order queue) pair after an insert, on the
/// abstract model.  An existing key only has its value replaced, and
/// keeps its place in the queue.  A fresh key joins the back of the
/// queue; if the queue thereby reaches the reserved capacity, the key
/// at its front — the oldest surviving insertion — is evicted from
/// both containers.
pub open spec fn inserted<K, V>(
    table: Map<K, V>,
    order: Seq<K>,
    capacity: int,
    k: K,
    v: V,
) -> (Map<K, V>, Seq<K>) {
    if table.contains_key(k) {
        (table.insert(k, v), order)
    } else {
        let grown = order.push(k);
        if grown.len() >= capacity {
            (table.insert(k, v).remove(grown[0]), grown.drop_first())
        } else {
            (table.insert(k, v), grown)
        }
    }
}

/// The (lookup table, order queue) pair after a removal, on the
/// abstract model.  A present key leaves both containers, the queue
/// keeping the relative order of the remaining keys; an absent key
/// changes nothing.
pub open spec fn removed<K, V>(table: Map<K, V>, order: Seq<K>, k: K) -> (Map<K, V>, Seq<K>) {
    if table.contains_key(k) {
        (table.remove(k), order.remove_value(k))
    } else {
        (table, order)
    }
}

/// A `HashMap`-alike that never holds more entries than the capacity
/// fixed at construction, and evicts the oldest insertion to keep that
/// bound.
///
/// Keys are stored twice: once in the lookup table and once in the
/// insertion-order queue that picks eviction victims.
pub struct LimitedCache<K: Clone + Hash + Eq, V> {
    map: HashMap<K, V>,

    // first item is the oldest key
    oldest: VecDeque<K>,

    // how many slots the queue reserves; eviction keeps its length
    // below this, so pushing one more key never forces it to grow
    reserved: usize,
}

impl<K: Clone + Hash + Eq, V> LimitedCache<K, V> {
    /// The lookup table, abstractly: a map from the live keys to their
    /// values.
    pub closed spec fn table(self) -> Map<K, V> {
        self.map@
    }

    /// The order queue, abstractly: the live keys, oldest first.
    pub closed spec fn order(self) -> Seq<K> {
        self.oldest@
    }

    /// The reserved capacity, fixed at construction.
    pub closed spec fn capacity(self) -> int {
        self.reserved as int
    }

    /// Well-formedness: the queue and the table hold exactly the same
    /// keys, each at most once, and the number of live entries stays
    /// below the reserved capacity (a cache whose capacity cannot
    /// admit even one entry stays empty).
    pub open spec fn wf(self) -> bool {
        &&& 0 <= self.capacity()
        &&& self.order().no_duplicates()
        &&& forall|x: K|
            #![trigger self.table().contains_key(x)]
            #![trigger self.order().contains(x)]
            self.table().contains_key(x) <==> self.order().contains(x)
        &&& self.order().len() < self.capacity() || self.order().len() == 0
    }

    /// Creates an empty cache whose containers reserve room for
    /// `capacity_hint` entries; that reservation is the bound the
    /// cache enforces from then on.
    pub fn new(capacity_hint: usize) -> (r: Self)
        ensures
            r.wf(),
            r.table() == Map::<K, V>::empty(),
            r.order() == Seq::<K>::empty(),
            r.capacity() == capacity_hint,
    {
        Self {
            map: HashMap::with_capacity(capacity_hint),
            oldest: VecDeque::with_capacity(capacity_hint),
            reserved: capacity_hint,
        }
    }

    /// Returns the value stored under `k`, or `None` when the key is
    /// absent.  Read-only: neither the entries nor their order change.
    pub fn get(&self, k: &K) -> (r: Option<&V>)
        requires
            key_support::<K>(),
        ensures
            match r {
                Some(v) => self.table().contains_key(*k) && *v == self.table()[*k],
                None => !self.table().contains_key(*k),
            },
    {
        self.map.get(k)
    }

    /// Inserts or updates.  An existing key has its value replaced and
    /// keeps its place in the queue; a fresh key is appended to the
    /// back of the queue, and when the queue thereby reaches the
    /// reserved capacity the oldest key is evicted from both
    /// containers.  Always succeeds; an evicted or replaced value is
    /// discarded.
    pub fn insert(&mut self, k: K, v: V)
        requires
            old(self).wf(),
            key_support::<K>(),
        ensures
            final(self).wf(),
            final(self).capacity() == old(self).capacity(),
            final(self).table() == inserted(
                old(self).table(),
                old(self).order(),
                old(self).capacity(),
                k,
                v,
            ).0,
            final(self).order() == inserted(
                old(self).table(),
                old(self).order(),
                old(self).capacity(),
                k,
                v,
            ).1,
    {
        let ghost prev = *old(self);
        let ghost grown = prev.order().push(k);
        let inserted_new_item = if self.map.contains_key(&k) {
            self.map.insert(k, v);
            false
        } else {
            let dup = k.clone();
            proof {
                assert(cloned::<K>(k, dup));
                assert(dup == k);
            }
            self.oldest.push_back(dup);
            self.map.insert(k, v);
            proof {
                assert(self.oldest@ == grown);
                assert(!prev.order().contains(k));
                assert(grown.no_duplicates());
                assert forall|x: K| #[trigger] grown.contains(x) <==> prev.order().contains(x) || x
                    == k by {
                    if grown.contains(x) {
                        let j = choose|j: int| 0 <= j < grown.len() && grown[j] == x;
                        if j < prev.order().len() {
                            assert(prev.order()[j] == x);
                        }
                    }
                    if prev.order().contains(x) {
                        let j = choose|j: int| 0 <= j < prev.order().len() && prev.order()[j] == x;
                        assert(grown[j] == x);
                    }
                    assert(grown[prev.order().len() as int] == k);
                }
            }
            true
        };

        // ensure the next insert of a fresh key cannot force the
        // queue to grow past its reservation
        if inserted_new_item && self.oldest.len() >= self.reserved {
            if let Some(oldest_key) = self.oldest.pop_front() {
                proof {
                    assert(oldest_key == grown[0]);
                    assert(self.oldest@ == grown.drop_first());
                }
                self.map.remove(&oldest_key);
                proof {
                    assert(self.map@ == prev.table().insert(k, v).remove(grown[0]));
                    lemma_remove_keeps_others(grown, 0);
                    assert(grown.remove(0) =~= grown.drop_first());
                    assert forall|x: K|
                        #![trigger self.table().contains_key(x)]
                        #![trigger self.order().contains(x)]
                        self.table().contains_key(x) <==> self.order().contains(x) by {
                        assert(grown.contains(x) <==> prev.order().contains(x) || x == k);
                    }
                    assert(self.wf());
                }
            }
        }
    }

    /// Removes `k` and returns its value, or returns `None` and leaves
    /// the cache untouched when the key is absent.  A hit deletes the
    /// entry from the lookup table and scans the queue for the key's
    /// single slot, keeping the relative order of the remaining keys.
    pub fn remove(&mut self, k: &K) -> (r: Option<V>)
        requires
            old(self).wf(),
            key_support::<K>(),
        ensures
            final(self).wf(),
            final(self).capacity() == old(self).capacity(),
            final(self).table() == removed(old(self).table(), old(self).order(), *k).0,
            final(self).order() == removed(old(self).table(), old(self).order(), *k).1,
            match r {
                Some(v) => old(self).table().contains_key(*k) && v == old(self).table()[*k],
                None => !old(self).table().contains_key(*k),
            },
    {
        let ghost prev = *old(self);
        match self.map.remove(k) {
            Some(value) => {
                proof {
                    assert(self.map@ == prev.table().remove(*k));
                    assert(prev.order().contains(*k));
                    assert(0 < prev.order().len());
                    // the queue's length is a usize, so the scan index
                    // cannot overflow
                    assert(vstd::std_specs::vecdeque::spec_vec_dequeue_len(&self.oldest)
                        == self.oldest@.len());
                }
                // O(n) scan for the key's slot in the queue
                let mut i: usize = 0;
                while !(self.oldest[i] == *k)
                    invariant
                        key_support::<K>(),
                        self.map@ == prev.table().remove(*k),
                        self.oldest@ == prev.order(),
                        self.reserved == prev.reserved,
                        prev.order().contains(*k),
                        prev.order().len() <= usize::MAX,
                        0 <= i < prev.order().len(),
                        forall|j: int| 0 <= j < i ==> prev.order()[j] != *k,
                    decreases prev.order().len() - i,
                {
                    i = i + 1;
                    proof {
                        let j = choose|j: int|
                            0 <= j < prev.order().len() && prev.order()[j] == *k;
                        assert(i <= j);
                    }
                }
                proof {
                    assert(prev.order()[i as int] == *k);
                }
                self.oldest.remove(i);
                proof {
                    assert(self.oldest@ == prev.order().remove(i as int));
                    prev.order().index_of_first_ensures(*k);
                    let idx = prev.order().index_of_first(*k)->Some_0;
                    assert(idx == i as int);
                    lemma_remove_keeps_others(prev.order(), i as int);
                    assert forall|x: K|
                        #![trigger self.table().contains_key(x)]
                        #![trigger self.order().contains(x)]
                        self.table().contains_key(x) <==> self.order().contains(x) by {
                        assert(self.order().contains(x) <==> prev.order().contains(x) && x
                            != prev.order()[i as int]);
                    }
                    assert(self.wf());
                }
                Some(value)
            },
            None => None,
        }
    }
}

/// Removing one slot of a duplicate-free sequence keeps every other
/// element, keeps freedom from duplicates, and drops the removed
/// element for good.
proof fn lemma_remove_keeps_others<K>(q: Seq<K>, i: int)
    requires
        q.no_duplicates(),
        0 <= i < q.len(),
    ensures
        q.remove(i).no_duplicates(),
        forall|x: K| #[trigger] q.remove(i).contains(x) <==> q.contains(x) && x != q[i],
{
    q.remove_ensures(i);
    assert forall|x: K| #[trigger] q.remove(i).contains(x) implies q.contains(x) && x != q[i] by {
        let j = choose|j: int| 0 <= j < q.remove(i).len() && q.remove(i)[j] == x;
        if j < i {
            assert(q[j] == x);
        } else {
            assert(q[j + 1] == x);
        }
    }
    assert forall|x: K| q.contains(x) && x != q[i] implies #[trigger] q.remove(i).contains(x) by {
        let j = choose|j: int| 0 <= j < q.len() && q[j] == x;
        if j < i {
            assert(q.remove(i)[j] == x);
        } else {
            assert(j != i);
            assert(q.remove(i)[j - 1] == x);
        }
    }
}

} // verus!
