//! The mathematical model of a set of self-keyed elements: a map from keys to
//! elements, and what the set's operations do to it.

use crate::Dual;
use vstd::prelude::*;

verus! {

/// The assumptions on a key type under which the contracts of this crate
/// hold: it hashes deterministically, its `==` agrees with equality of
/// values, and a clone of a key is that key.
pub open spec fn lawful_key<K: Clone + Eq>() -> bool {
    &&& vstd::std_specs::hash::obeys_key_model::<K>()
    &&& vstd::laws_eq::obeys_concrete_eq::<K>()
    &&& forall|a: K, b: K| #[trigger] call_ensures(K::clone, (&a,), b) ==> a == b
}

/// `u32` keys are lawful.
pub proof fn lemma_lawful_u32()
    ensures
        lawful_key::<u32>(),
{
    broadcast use vstd::std_specs::hash::group_hash_axioms;

    reveal(vstd::laws_eq::obeys_concrete_eq);
}

/// `u64` keys are lawful.
pub proof fn lemma_lawful_u64()
    ensures
        lawful_key::<u64>(),
{
    broadcast use vstd::std_specs::hash::group_hash_axioms;

    reveal(vstd::laws_eq::obeys_concrete_eq);
}

/// `usize` keys are lawful.
pub proof fn lemma_lawful_usize()
    ensures
        lawful_key::<usize>(),
{
    broadcast use vstd::std_specs::hash::group_hash_axioms;

    reveal(vstd::laws_eq::obeys_concrete_eq);
}

/// Index coherence: every element is filed under the key that it reports.
pub open spec fn coherent<T: Dual>(m: Map<T::Key, T>) -> bool {
    forall|k: T::Key| #[trigger] m.contains_key(k) ==> m[k].spec_key() == k
}

/// The entries after the element `e` has left slot `k` and has been filed
/// under its own key, displacing whatever was there.
pub open spec fn refiled<T: Dual>(m: Map<T::Key, T>, k: T::Key, e: T) -> Map<T::Key, T> {
    m.remove(k).insert(e.spec_key(), e)
}

/// The entries after the occupant of slot `k`, if there is one, has been
/// filed under the key it reports now.
pub open spec fn relocated<T: Dual>(m: Map<T::Key, T>, k: T::Key) -> Map<T::Key, T> {
    if m.contains_key(k) {
        refiled(m, k, m[k])
    } else {
        m
    }
}

/// Refiling an element keeps a coherent index coherent.
pub proof fn lemma_refiled_coherent<T: Dual>(m: Map<T::Key, T>, k: T::Key, e: T)
    requires
        forall|j: T::Key| j != k && #[trigger] m.contains_key(j) ==> m[j].spec_key() == j,
    ensures
        coherent(refiled(m, k, e)),
{
}

/// Every stored element is found again by the key it reports.
pub proof fn lemma_found_by_own_key<T: Dual>(m: Map<T::Key, T>, e: T)
    requires
        coherent(m),
        m.contains_value(e),
    ensures
        m.contains_key(e.spec_key()),
        m[e.spec_key()] == e,
{
    let k = choose|k: T::Key| m.contains_key(k) && m[k] == e;
    assert(m[k].spec_key() == k);
}

/// An element that has been inserted is found by the key it reports, and
/// the index is still coherent.
pub proof fn lemma_insert_then_get<T: Dual>(m: Map<T::Key, T>, e: T)
    requires
        coherent(m),
    ensures
        m.insert(e.spec_key(), e).contains_key(e.spec_key()),
        m.insert(e.spec_key(), e)[e.spec_key()] == e,
        coherent(m.insert(e.spec_key(), e)),
{
}

/// A second element with the same key takes the place of the first: the
/// first is the occupant that the second insertion finds, and the number
/// of entries does not change.
pub proof fn lemma_insert_displaces<T: Dual>(m: Map<T::Key, T>, first: T, second: T)
    requires
        m.dom().finite(),
        first.spec_key() == second.spec_key(),
    ensures
        ({
            let once = m.insert(first.spec_key(), first);
            let twice = once.insert(second.spec_key(), second);
            &&& once.contains_key(second.spec_key())
            &&& once[second.spec_key()] == first
            &&& twice[second.spec_key()] == second
            &&& twice.len() == once.len()
            &&& twice.dom() == once.dom()
        }),
{
    let once = m.insert(first.spec_key(), first);
    let twice = once.insert(second.spec_key(), second);
    assert(twice.dom() =~= once.dom());
}

/// An element whose key has changed is gone from its old slot and found
/// under its new key, as the change left it.
pub proof fn lemma_refiled_moves<T: Dual>(m: Map<T::Key, T>, k: T::Key, e: T)
    requires
        e.spec_key() != k,
    ensures
        !refiled(m, k, e).contains_key(k),
        refiled(m, k, e).contains_key(e.spec_key()),
        refiled(m, k, e)[e.spec_key()] == e,
{
}

/// An element whose key has not changed stays in its slot, and no other
/// slot changes.
pub proof fn lemma_refiled_stays<T: Dual>(m: Map<T::Key, T>, k: T::Key, e: T)
    requires
        e.spec_key() == k,
    ensures
        refiled(m, k, e) == m.insert(k, e),
{
    assert(refiled(m, k, e) =~= m.insert(k, e));
}

/// Writing to the occupant of a slot where it stands and then running the
/// relocation check leaves the entries that refiling the element leaves:
/// a guard that is released does what a modification through a closure
/// does.
pub proof fn lemma_relocated_as_refiled<T: Dual>(m: Map<T::Key, T>, k: T::Key, e: T)
    ensures
        relocated(m.insert(k, e), k) == refiled(m, k, e),
{
    assert(relocated(m.insert(k, e), k) =~= refiled(m, k, e));
}

/// The keys that the elements of a listing report, in its order.
pub open spec fn keys_of<T: Dual>(items: Seq<T>) -> Seq<T::Key> {
    Seq::new(items.len(), |i: int| items[i].spec_key())
}

/// `items` lists the elements of a set with the entries `m`: each of them
/// once, and nothing else.
pub open spec fn lists<T: Dual>(items: Seq<T>, m: Map<T::Key, T>) -> bool {
    &&& items.len() == m.len()
    &&& keys_of(items).no_duplicates()
    &&& forall|e: T|
        items.contains(e) <==> m.contains_key(e.spec_key()) && m[e.spec_key()] == e
}

/// A sequence of elements of the set, with pairwise distinct keys and as
/// long as the set, lists the set.
pub proof fn lemma_listing_complete<T: Dual>(m: Map<T::Key, T>, items: Seq<T>)
    requires
        m.dom().finite(),
        coherent(m),
        items.len() == m.len(),
        forall|j: int|
            0 <= j < items.len() ==> m.contains_key((#[trigger] items[j]).spec_key())
                && m[items[j].spec_key()] == items[j],
        forall|j: int, k: int|
            0 <= j < k < items.len() ==> items[j].spec_key() != items[k].spec_key(),
    ensures
        lists(items, m),
{
    let keys = keys_of(items);
    assert(keys.no_duplicates());
    keys.unique_seq_to_set();
    assert(keys.to_set().subset_of(m.dom()));
    vstd::set_lib::lemma_subset_equality(keys.to_set(), m.dom());
    assert forall|e: T| m.contains_key(e.spec_key()) && m[e.spec_key()] == e implies items.contains(
        e,
    ) by {
        assert(keys.to_set().contains(e.spec_key()));
        let j = choose|j: int| 0 <= j < keys.len() && keys[j] == e.spec_key();
        assert(items[j] == e);
    }
}

/// A sequence that holds the values of a coherent index, and is as long as
/// the index has entries, lists it.
pub proof fn lemma_values_list<T: Dual>(m: Map<T::Key, T>, items: Seq<T>)
    requires
        m.dom().finite(),
        coherent(m),
        items.len() == m.len(),
        items.to_set() == m.values(),
    ensures
        lists(items, m),
{
    let keys = keys_of(items);
    assert forall|e: T| items.contains(e) <==> m.contains_key(e.spec_key()) && m[e.spec_key()]
        == e by {
        if items.contains(e) {
            assert(items.to_set().contains(e));
            assert(m.values().contains(e));
            let k = choose|k: T::Key| m.contains_key(k) && m[k] == e;
            assert(m[k].spec_key() == k);
        }
        if m.contains_key(e.spec_key()) && m[e.spec_key()] == e {
            assert(m.values().contains(e));
            assert(items.to_set().contains(e));
        }
    }
    assert forall|k: T::Key| keys.to_set().contains(k) <==> m.dom().contains(k) by {
        if keys.to_set().contains(k) {
            let j = choose|j: int| 0 <= j < keys.len() && keys[j] == k;
            assert(items.contains(items[j]));
        }
        if m.dom().contains(k) {
            assert(items.contains(m[k]));
            let j = choose|j: int| 0 <= j < items.len() && items[j] == m[k];
            assert(keys[j] == k);
        }
    }
    assert(keys.to_set() =~= m.dom());
    keys.lemma_no_dup_set_cardinality();
}

/// The keys of a listing of a set are the keys of its slots, each once.
pub proof fn lemma_listing_keys<T: Dual>(m: Map<T::Key, T>, items: Seq<T>)
    requires
        coherent(m),
        lists(items, m),
    ensures
        keys_of(items).no_duplicates(),
        keys_of(items).to_set() == m.dom(),
        keys_of(items).len() == m.len(),
{
    let keys = keys_of(items);
    assert forall|k: T::Key| keys.to_set().contains(k) <==> m.dom().contains(k) by {
        if keys.to_set().contains(k) {
            let j = choose|j: int| 0 <= j < keys.len() && keys[j] == k;
            assert(items.contains(items[j]));
        }
        if m.dom().contains(k) {
            assert(items.contains(m[k]));
            let j = choose|j: int| 0 <= j < items.len() && items[j] == m[k];
            assert(keys[j] == k);
        }
    }
    assert(keys.to_set() =~= m.dom());
}

} // verus!
