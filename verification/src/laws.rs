//! Laws the cache obeys, stated over its abstract model — the lookup
//! table, the order queue and the reserved capacity — and proved once
//! and for all.

use crate::cache::inserted;
use crate::cache::removed;
use crate::cache::LimitedCache;
use std::hash::Hash;
use vstd::prelude::*;
use vstd::seq_lib::*;

verus! {

/// Capacity bound: in a well-formed cache the number of retrievable
/// keys equals the queue length and, however many distinct keys have
/// been inserted, stays strictly below any positive reserved capacity.
pub proof fn lemma_capacity_bound<K: Clone + Hash + Eq, V>(c: LimitedCache<K, V>)
    requires
        c.wf(),
    ensures
        c.table().dom() == c.order().to_set(),
        c.table().len() == c.order().len(),
        c.order().len() <= c.capacity(),
        c.capacity() > 0 ==> c.table().len() < c.capacity(),
{
    assert(c.table().dom() =~= c.order().to_set());
    c.order().unique_seq_to_set();
}

/// Eviction picks the front: when an insert of a fresh key makes the
/// queue reach the reserved capacity, the key that disappears is the
/// oldest surviving one — the queue's front — and every younger key,
/// the fresh one included, stays retrievable.
pub proof fn lemma_eviction_takes_oldest<K, V>(
    table: Map<K, V>,
    order: Seq<K>,
    capacity: int,
    k: K,
    v: V,
)
    requires
        order.no_duplicates(),
        forall|x: K| table.contains_key(x) <==> order.contains(x),
        !table.contains_key(k),
        order.len() > 0,
        order.len() + 1 >= capacity,
    ensures
        ({
            let (t1, q1) = inserted(table, order, capacity, k, v);
            &&& q1 == order.drop_first().push(k)
            &&& !t1.contains_key(order[0])
            &&& t1.contains_key(k)
            &&& forall|j: int| 1 <= j < order.len() ==> t1.contains_key(#[trigger] order[j])
        }),
{
    let grown = order.push(k);
    assert(grown[0] == order[0]);
    assert(grown.drop_first() =~= order.drop_first().push(k));
    assert(order.contains(order[0]));
    assert(!order.contains(k));
    assert forall|j: int| 1 <= j < order.len() implies inserted(
        table,
        order,
        capacity,
        k,
        v,
    ).0.contains_key(#[trigger] order[j]) by {
        assert(order.contains(order[j]));
        assert(order[j] != order[0]);
    }
}

/// Update stability: inserting a key that is — or stays — resident a
/// second time replaces only its value; the queue, and with it the
/// eviction order, is left exactly as the first insert left it, and
/// the second value is the one retrieved.
pub proof fn lemma_update_keeps_order<K, V>(
    table: Map<K, V>,
    order: Seq<K>,
    capacity: int,
    k: K,
    v1: V,
    v2: V,
)
    requires
        forall|x: K| table.contains_key(x) <==> order.contains(x),
        table.contains_key(k) || order.len() > 0 || capacity > 1,
    ensures
        ({
            let (t1, q1) = inserted(table, order, capacity, k, v1);
            let (t2, q2) = inserted(t1, q1, capacity, k, v2);
            &&& q2 == q1
            &&& t2 == t1.insert(k, v2)
            &&& t2[k] == v2
        }),
{
    if !table.contains_key(k) && order.len() > 0 && order.len() + 1 >= capacity {
        assert(order.contains(order[0]));
        assert(!order.contains(k));
        assert(order.push(k)[0] == order[0]);
    }
}

/// Removal defers eviction: with the cache one fresh insert away from
/// evicting, removing a resident key first lets the following insert
/// admit its key without evicting anyone, so every other resident key
/// survives where the front one would otherwise have been pushed out.
pub proof fn lemma_removal_defers_eviction<K, V>(
    table: Map<K, V>,
    order: Seq<K>,
    capacity: int,
    k: K,
    k2: K,
    v: V,
)
    requires
        order.no_duplicates(),
        forall|x: K| table.contains_key(x) <==> order.contains(x),
        order.len() < capacity || order.len() == 0,
        table.contains_key(k),
        !table.contains_key(k2),
        order.len() + 1 >= capacity,
    ensures
        ({
            let (t1, q1) = removed(table, order, k);
            let (t2, q2) = inserted(t1, q1, capacity, k2, v);
            &&& q2 == q1.push(k2)
            &&& t2 == t1.insert(k2, v)
            &&& forall|x: K|
                #[trigger] t2.contains_key(x) <==> (table.contains_key(x) && x != k) || x == k2
        }),
{
    assert(order.contains(k));
    order.index_of_first_ensures(k);
    let q1 = order.remove_value(k);
    assert(q1.len() == order.len() - 1);
    assert(!table.remove(k).contains_key(k2));
    assert(q1.push(k2).len() < capacity);
}

/// Idempotent absence: removing a key that is not resident changes
/// neither the lookup table nor the order queue.
pub proof fn lemma_remove_absent_is_noop<K, V>(table: Map<K, V>, order: Seq<K>, k: K)
    requires
        !table.contains_key(k),
    ensures
        removed(table, order, k) == (table, order),
{
}

/// Queue/table agreement: in a well-formed cache a key is retrievable
/// exactly when the order queue records it.
pub proof fn lemma_table_order_agree<K: Clone + Hash + Eq, V>(c: LimitedCache<K, V>, k: K)
    requires
        c.wf(),
    ensures
        c.table().contains_key(k) <==> c.order().contains(k),
{
}

} // verus!
