//! [`DualHashSet`] and the types that go with it.

use crate::model::{
    coherent, keys_of, lawful_key, lemma_listing_complete, lemma_listing_keys, lemma_values_list,
    lemma_refiled_coherent, lists, refiled, relocated,
};
use crate::sweep::{follows, lemma_run_push, lemma_visited_coherent, slots, swept, visited, Visit};
use crate::Dual;
use std::borrow::Borrow;
use std::collections::hash_map::Values;
use std::collections::HashMap;
use std::hash::Hash;
use vstd::prelude::*;
use vstd::std_specs::iter::IteratorSpec;
use vstd::std_specs::hash::{contains_borrowed_key, maps_borrowed_key_to_value, obeys_key_model};

verus! {

broadcast use {vstd::std_specs::hash::group_hash_axioms, vstd::function::group_function_axioms};

/// `HashMap::get_mut`: a mutable reference to the value that the map holds
/// for `k`, if it holds one. Verus takes this contract on trust: the
/// reference starts out at that value; the value is stored under some key of
/// the map, and what is written through the reference is stored there; the
/// map then holds for `k` what was written; nothing else in the map changes;
/// and the lookup itself does not unwind.
#[verifier::external_body]
fn slot_mut<'a, K, V, Q>(m: &'a mut HashMap<K, V>, k: &Q) -> (slot: Option<&'a mut V>) where
    K: Borrow<Q> + Eq + Hash,
    Q: Hash + Eq + ?Sized,

    ensures
        obeys_key_model::<K>() ==> match slot {
            Some(v) => {
                &&& maps_borrowed_key_to_value(old(m)@, k, *v)
                &&& maps_borrowed_key_to_value(final(m)@, k, *final(v))
                &&& exists|stored: K|
                    {
                        &&& #[trigger] old(m)@.contains_key(stored)
                        &&& old(m)@[stored] == *v
                        &&& final(m)@ == old(m)@.insert(stored, *final(v))
                    }
            },
            None => !contains_borrowed_key(old(m)@, k) && final(m)@ == old(m)@,
        },
    no_unwind
{
    m.get_mut(k)
}

/// A set of values that can be accessed by their key.
///
/// Unlike in a `HashMap`, changing an element in a way that changes its key
/// is no logic error as long as the change goes through the set: the
/// element's place is updated to reflect the new key.
pub struct DualHashSet<T: Dual>(HashMap<T::Key, T>);

impl<T: Dual> DualHashSet<T> {
    /// The entries of the set: each slot's key and the element filed there.
    pub closed spec fn view(&self) -> Map<T::Key, T> {
        self.0@
    }

    /// The set's invariant: its index is coherent.
    pub open spec fn wf(&self) -> bool {
        coherent(self@)
    }

    /// Create a new set.
    #[must_use]
    pub fn new() -> (s: Self)
        ensures
            s@ == Map::<T::Key, T>::empty(),
            s.wf(),
    {
        Self::default()
    }

    /// A set has finitely many entries.
    pub proof fn lemma_finite(&self)
        ensures
            self@.dom().finite(),
    {
    }
}

impl<T: Dual + Clone> Clone for DualHashSet<T> {
    fn clone(&self) -> (copy: Self)
        ensures
            copy@ == self@,
    {
        Self(self.0.clone())
    }
}

impl<T: Dual> Default for DualHashSet<T> {
    fn default() -> (s: Self)
        ensures
            s@ == Map::<T::Key, T>::empty(),
            s.wf(),
    {
        Self(HashMap::default())
    }
}

impl<'k, Q, T> std::ops::Index<&'k Q> for DualHashSet<T> where Q: Hash + Eq + ?Sized, T: Dual, T::Key: Hash + Eq + Borrow<Q> {
    type Output = T;

    /// The value that the set holds for `key`, for callers that know it is
    /// there.
    fn index(&self, key: &'k Q) -> (value: &T)
        ensures
            maps_borrowed_key_to_value(self@, key, *value),
    {
        self.0.get(key).expect("key not found")
    }
}

impl<'k, Q, T> vstd::std_specs::core::IndexSpecImpl<&'k Q> for DualHashSet<T> where Q: Hash + Eq + ?Sized, T: Dual, T::Key: Hash + Eq + Borrow<Q> {
    open spec fn index_req(&self, key: &&'k Q) -> bool {
        lawful_key::<T::Key>() && contains_borrowed_key(self@, *key)
    }
}

/// What a sweep learns from one call: whether the element stays in the set.
/// A `bool` says so itself; a call that returns nothing keeps the element.
trait Verdict: Sized {
    spec fn kept(&self) -> bool;

    fn keep(&self) -> (b: bool)
        ensures
            b == self.kept(),
    ;
}

impl Verdict for bool {
    spec fn kept(&self) -> bool {
        *self
    }

    fn keep(&self) -> (b: bool) {
        *self
    }
}

impl Verdict for () {
    spec fn kept(&self) -> bool {
        true
    }

    fn keep(&self) -> (b: bool) {
        true
    }
}

impl<T> DualHashSet<T> where T: Dual, T::Key: Hash {
    /// Get a cursor over the keys.
    ///
    /// The cursor walks the set as it goes: what it will hand out,
    /// `keys.walk().remaining()`, are the values whose keys it reports.
    pub fn keys(&self) -> (keys: Keys<'_, T>)
        requires
            lawful_key::<T::Key>(),
            self.wf(),
        ensures
            lists(keys.walk().remaining().unref(), self@),
            keys_of(keys.walk().remaining().unref()).no_duplicates(),
            keys_of(keys.walk().remaining().unref()).to_set() == self@.dom(),
            keys_of(keys.walk().remaining().unref()).len() == self@.len(),
    {
        let keys = Keys(self.0.values());
        proof {
            lemma_values_list(self@, keys.walk().remaining().unref());
            lemma_listing_keys(self@, keys.walk().remaining().unref());
        }
        keys
    }

    /// Get a cursor over the values.
    ///
    /// The cursor walks the set as it goes: what it will hand out,
    /// `iter.walk().remaining()`, are the values of the set, each once.
    pub fn iter(&self) -> (iter: Iter<'_, T>)
        requires
            lawful_key::<T::Key>(),
            self.wf(),
        ensures
            lists(iter.walk().remaining().unref(), self@),
    {
        let iter = Iter(self.0.values());
        proof {
            lemma_values_list(self@, iter.walk().remaining().unref());
        }
        iter
    }

    /// Turn the set into a cursor that hands out its values.
    pub fn into_iter(self) -> (iter: IntoIter<T>)
        requires
            lawful_key::<T::Key>(),
            self.wf(),
        ensures
            lists(iter@, self@),
    {
        let mut set = self;
        let keys = set.stored_keys();
        let mut items: Vec<T> = Vec::new();
        let mut i: usize = keys.len();
        while i > 0
            invariant
                lawful_key::<T::Key>(),
                i <= keys.len(),
                keys@.no_duplicates(),
                keys@.to_set() == self@.dom(),
                items@.len() == keys.len() - i,
                forall|j: int| 0 <= j < i ==> set@.contains_key(#[trigger] keys@[j]) && set@[keys@[j]] == self@[keys@[j]],
                forall|j: int| 0 <= j < items@.len() ==> #[trigger] items@[j] == self@[keys@[keys.len() - 1 - j]],
            decreases i,
        {
            i -= 1;
            let value = set.0.remove(&keys[i]).unwrap();
            items.push(value);
        }
        let iter = IntoIter { items };
        proof {
            keys@.unique_seq_to_set();
            assert forall|j: int| 0 <= j < iter@.len() implies self@.contains_key(
                (#[trigger] iter@[j]).spec_key(),
            ) && self@[iter@[j].spec_key()] == iter@[j] by {
                assert(iter@[j] == self@[keys@[j]]);
                assert(keys@.to_set().contains(keys@[j]));
            }
            assert forall|j: int, k: int| 0 <= j < k < iter@.len() implies iter@[j].spec_key()
                != iter@[k].spec_key() by {
                assert(iter@[j] == self@[keys@[j]]);
                assert(iter@[k] == self@[keys@[k]]);
                assert(keys@.to_set().contains(keys@[j]));
                assert(keys@.to_set().contains(keys@[k]));
            }
            lemma_listing_complete(self@, iter@);
        }
        iter
    }

    /// Insert a value into the set, under the key it reports. Returns the
    /// element that was filed there before, if there was one.
    pub fn insert(&mut self, value: T) -> (displaced: Option<T>)
        requires
            lawful_key::<T::Key>(),
            old(self).wf(),
        ensures
            final(self)@ == old(self)@.insert(value.spec_key(), value),
            displaced == if old(self)@.contains_key(value.spec_key()) {
                Some(old(self)@[value.spec_key()])
            } else {
                None
            },
            final(self).wf(),
    {
        let key = value.key().clone();
        self.0.insert(key, value)
    }

    /// Remove a value from the set.
    ///
    /// `key` may be the key itself or any borrowed form of it. The set
    /// first finds the key under which the value is filed, and then takes
    /// the value out of that slot.
    pub fn remove<Q>(&mut self, key: &Q) -> (removed: Option<T>) where
        Q: Hash + Eq + ?Sized,
        T::Key: Borrow<Q>,

        requires
            lawful_key::<T::Key>(),
            old(self).wf(),
        ensures
            removed is None ==> !contains_borrowed_key(old(self)@, key) && final(self)@ == old(
                self,
            )@,
            removed matches Some(e) ==> {
                &&& maps_borrowed_key_to_value(old(self)@, key, e)
                &&& old(self)@.contains_key(e.spec_key())
                &&& old(self)@[e.spec_key()] == e
                &&& final(self)@ == old(self)@.remove(e.spec_key())
            },
            final(self).wf(),
    {
        let filed = match slot_mut(&mut self.0, key) {
            Some(value) => Some(value.key().clone()),
            None => None,
        };
        match filed {
            Some(filed) => {
                assert(self@ =~= old(self)@);
                self.0.remove::<T::Key>(&filed)
            },
            None => None,
        }
    }

    /// Get the number of values in the set.
    #[must_use]
    pub fn len(&self) -> (n: usize)
        requires
            lawful_key::<T::Key>(),
        ensures
            n == self@.len(),
    {
        self.0.len()
    }

    /// Check if the set is empty.
    #[must_use]
    pub fn is_empty(&self) -> (b: bool)
        requires
            lawful_key::<T::Key>(),
        ensures
            b == (self@.len() == 0),
            b == (self@ == Map::<T::Key, T>::empty()),
    {
        proof {
            if self@.dom().is_empty() {
                assert(self@ =~= Map::<T::Key, T>::empty());
            }
        }
        self.0.is_empty()
    }

    /// Remove all items from the set.
    pub fn clear(&mut self)
        ensures
            final(self)@ == Map::<T::Key, T>::empty(),
            final(self).wf(),
    {
        self.0.clear()
    }

    /// Check if the set contains a value with the given key.
    #[must_use]
    pub fn contains<Q>(&self, key: &Q) -> (b: bool) where
        Q: Hash + Eq + ?Sized,
        T::Key: Borrow<Q>,

        requires
            lawful_key::<T::Key>(),
        ensures
            b == contains_borrowed_key(self@, key),
    {
        self.0.contains_key(key)
    }

    /// Get a value from the set.
    #[must_use]
    pub fn get<Q>(&self, key: &Q) -> (found: Option<&T>) where
        Q: Hash + Eq + ?Sized,
        T::Key: Borrow<Q>,

        requires
            lawful_key::<T::Key>(),
        ensures
            found is None ==> !contains_borrowed_key(self@, key),
            found matches Some(value) ==> maps_borrowed_key_to_value(self@, key, *value),
    {
        self.0.get(key)
    }

    /// Modify a value in the set.
    /// If the key changes, the value will be moved to the new key.
    ///
    /// `key` may be the key itself or any borrowed form of it. `f` is called
    /// once on the element that the set holds for `key`, and not at all
    /// where it holds none.
    pub fn modify<Q, F, R>(&mut self, key: &Q, mut f: F) -> (result: Option<R>) where
        Q: Hash + Eq + ?Sized,
        T::Key: Borrow<Q>,
        F: FnMut(&mut T) -> R,

        requires
            lawful_key::<T::Key>(),
            old(self).wf(),
            forall|x: &mut T|
                maps_borrowed_key_to_value(old(self)@, key, *x) ==> #[trigger] call_requires(
                    f,
                    (x,),
                ),
        ensures
            result is None ==> !contains_borrowed_key(old(self)@, key) && final(self)@ == old(
                self,
            )@,
            result is Some ==> exists|x: &mut T, res: R|
                {
                    &&& result == Some(res)
                    &&& maps_borrowed_key_to_value(old(self)@, key, *x)
                    &&& old(self)@.contains_key((*x).spec_key())
                    &&& old(self)@[(*x).spec_key()] == *x
                    &&& #[trigger] call_ensures(f, (x,), res)
                    &&& final(self)@ == refiled(old(self)@, (*x).spec_key(), *final(x))
                },
            final(self).wf(),
    {
        match slot_mut(&mut self.0, key) {
            Some(value) => {
                let filed = value.key().clone();
                let res = f(value);
                let ghost after = *value;
                self.relocate(&filed);
                assert(self@ =~= refiled(old(self)@, filed, after));
                Some(res)
            },
            None => None,
        }
    }

    /// Modify every value in the set.
    /// If a key changes, the value will be moved to the new key.
    ///
    /// `f` is called once on the occupant of each slot that the set had when
    /// the call began, in an order that the set chooses. After each call the
    /// element is filed under the key it reports now.
    pub fn modify_all<F>(&mut self, f: F) where F: FnMut(&mut T)
        requires
            lawful_key::<T::Key>(),
            old(self).wf(),
            forall|x: &mut T| #[trigger] call_requires(f, (x,)),
        ensures
            final(self).wf(),
            exists|run: Seq<Visit<T>>|
                {
                    &&& slots(run).no_duplicates()
                    &&& slots(run).to_set() == old(self)@.dom()
                    &&& follows(old(self)@, run)
                    &&& forall|v: Visit<T>| #[trigger]
                        run.contains(v) ==> v.keep && exists|x: &mut T|
                            {
                                &&& *x == v.before
                                &&& *final(x) == v.after
                                &&& #[trigger] call_ensures(f, (x,), ())
                            }
                    &&& final(self)@ == swept(old(self)@, run)
                },
    {
        self.sweep(f)
    }

    /// Remove all values from the set that do not satisfy the predicate.
    ///
    /// The predicate is called once on the occupant of each slot that the set
    /// had when the call began, in an order that the set chooses. After
    /// each call the element leaves the slot it was found in, and is filed
    /// under the key it reports now if the predicate kept it.
    pub fn retain<F>(&mut self, predicate: F) where F: FnMut(&mut T) -> bool
        requires
            lawful_key::<T::Key>(),
            old(self).wf(),
            forall|x: &mut T| #[trigger] call_requires(predicate, (x,)),
        ensures
            final(self).wf(),
            exists|run: Seq<Visit<T>>|
                {
                    &&& slots(run).no_duplicates()
                    &&& slots(run).to_set() == old(self)@.dom()
                    &&& follows(old(self)@, run)
                    &&& forall|v: Visit<T>| #[trigger]
                        run.contains(v) ==> exists|x: &mut T|
                            {
                                &&& *x == v.before
                                &&& *final(x) == v.after
                                &&& #[trigger] call_ensures(predicate, (x,), v.keep)
                            }
                    &&& final(self)@ == swept(old(self)@, run)
                },
    {
        self.sweep(predicate)
    }

    /// The sweep behind [`DualHashSet::retain`] and
    /// [`DualHashSet::modify_all`]: takes a snapshot of the keys, so that the
    /// index is not walked while it changes, and visits each of them.
    fn sweep<F, R>(&mut self, mut f: F) where F: FnMut(&mut T) -> R, R: Verdict
        requires
            lawful_key::<T::Key>(),
            old(self).wf(),
            forall|x: &mut T| #[trigger] call_requires(f, (x,)),
        ensures
            final(self).wf(),
            exists|run: Seq<Visit<T>>|
                {
                    &&& slots(run).no_duplicates()
                    &&& slots(run).to_set() == old(self)@.dom()
                    &&& follows(old(self)@, run)
                    &&& forall|v: Visit<T>| #[trigger]
                        run.contains(v) ==> exists|x: &mut T, r: R|
                            {
                                &&& *x == v.before
                                &&& *final(x) == v.after
                                &&& r.kept() == v.keep
                                &&& #[trigger] call_ensures(f, (x,), r)
                            }
                    &&& final(self)@ == swept(old(self)@, run)
                },
    {
        let keys = self.stored_keys();
        let ghost given = f;
        let ghost mut run: Seq<Visit<T>> = Seq::empty();
        let mut i: usize = 0;
        proof {
            assert(slots(run) =~= keys@.take(0));
        }
        while i < keys.len()
            invariant
                lawful_key::<T::Key>(),
                f == given,
                forall|x: &mut T| #[trigger] call_requires(f, (x,)),
                keys@.no_duplicates(),
                keys@.to_set() == old(self)@.dom(),
                i <= keys.len(),
                slots(run) == keys@.take(i as int),
                coherent(self@),
                self@ == swept(old(self)@, run),
                follows(old(self)@, run),
                forall|j: int| i <= j < keys.len() ==> self@.contains_key(#[trigger] keys@[j]),
                forall|v: Visit<T>| #[trigger]
                    run.contains(v) ==> exists|x: &mut T, r: R|
                        {
                            &&& *x == v.before
                            &&& *final(x) == v.after
                            &&& r.kept() == v.keep
                            &&& #[trigger] call_ensures(f, (x,), r)
                        },
            decreases keys.len() - i,
        {
            let key = &keys[i];
            let ghost found = self@;
            let Ghost(v) = self.visit(key, &mut f);
            proof {
                lemma_visited_coherent(found, v);
                lemma_run_push(old(self)@, run, v);
                assert(keys@.take(i as int).push(*key) =~= keys@.take(i + 1));
                let next = run.push(v);
                assert forall|w: Visit<T>| #[trigger] next.contains(w) implies run.contains(w) || w
                    == v by {
                    let j = choose|j: int| 0 <= j < next.len() && next[j] == w;
                    if j < run.len() {
                        assert(run[j] == w);
                    }
                }
                run = next;
            }
            i += 1;
        }
        proof {
            assert(keys@.take(i as int) =~= keys@);
            assert(slots(run) == keys@);
            assert(self@ == swept(old(self)@, run));
        }
    }

    /// One visit of a sweep: calls `f` on the occupant of slot `key`, takes
    /// the element out of the slot if it was dropped or its key has changed,
    /// and files it under its own key if it was kept.
    fn visit<F, R>(&mut self, key: &T::Key, f: &mut F) -> (visit: Ghost<Visit<T>>) where
        F: FnMut(&mut T) -> R,
        R: Verdict,

        requires
            lawful_key::<T::Key>(),
            old(self)@.contains_key(*key),
            forall|x: &mut T| #[trigger] call_requires(*old(f), (x,)),
        ensures
            *final(f) == *old(f),
            visit@.slot == *key,
            visit@.before == old(self)@[*key],
            final(self)@ == visited(old(self)@, visit@),
            exists|x: &mut T, r: R|
                {
                    &&& *x == visit@.before
                    &&& *final(x) == visit@.after
                    &&& r.kept() == visit@.keep
                    &&& #[trigger] call_ensures(*old(f), (x,), r)
                },
    {
        let (keep, moved) = match slot_mut(&mut self.0, key) {
            Some(value) => {
                let ghost before = *value;
                let verdict = f(value);
                let keep = verdict.keep();
                proof {
                    reveal(vstd::laws_eq::obeys_concrete_eq);
                    assert(exists|x: &mut T, r: R|
                        {
                            &&& *x == before
                            &&& *final(x) == *value
                            &&& r.kept() == keep
                            &&& #[trigger] call_ensures(*old(f), (x,), r)
                        });
                }
                (keep, *value.key() != *key)
            },
            None => vstd::pervasive::unreached(),
        };
        let ghost v = Visit::<T> { slot: *key, before: old(self)@[*key], after: self@[*key], keep };
        if !keep || moved {
            let value = self.0.remove(key).unwrap();
            if keep {
                let new_key = value.key().clone();
                self.0.insert(new_key, value);
            }
        }
        proof {
            assert(self@ =~= visited(old(self)@, v));
        }
        Ghost(v)
    }

    /// The keys of the set's slots, each once, in the order in which the
    /// underlying map walks them.
    fn stored_keys(&self) -> (keys: Vec<T::Key>)
        requires
            lawful_key::<T::Key>(),
        ensures
            keys@.no_duplicates(),
            keys@.to_set() == self@.dom(),
    {
        let mut keys: Vec<T::Key> = Vec::new();
        for key in it: self.0.keys()
            invariant
                lawful_key::<T::Key>(),
                it.seq().no_duplicates(),
                it.seq().len() == self@.dom().len(),
                it.seq().unref().to_set() == self@.dom(),
                keys@.len() == it.index(),
                forall|j: int| 0 <= j < keys@.len() ==> keys@[j] == *it.seq()[j],
                keys@.no_duplicates(),
                forall|j: int| 0 <= j < keys@.len() ==> self@.contains_key(#[trigger] keys@[j]),
        {
            proof {
                let at = it.index();
                assert(it.seq().unref()[at] == *key);
                assert(it.seq().unref().to_set().contains(*key));
            }
            keys.push(key.clone());
        }
        proof {
            keys@.unique_seq_to_set();
            assert(keys@.to_set().subset_of(self@.dom()));
            vstd::set_lib::lemma_subset_equality(keys@.to_set(), self@.dom());
        }
        keys
    }

    /// The relocation check: files the occupant of slot `key`, if there is
    /// one, under the key it reports now.
    fn relocate(&mut self, key: &T::Key)
        requires
            lawful_key::<T::Key>(),
        ensures
            final(self)@ == relocated(old(self)@, *key),
    {
        proof {
            reveal(vstd::laws_eq::obeys_concrete_eq);
        }
        let moved = match self.0.get(key) {
            Some(value) => {
                let new_key = value.key();
                if *new_key != *key {
                    Some(new_key.clone())
                } else {
                    None
                }
            },
            None => None,
        };
        if let Some(new_key) = moved {
            let value = self.0.remove(key).unwrap();
            self.0.insert(new_key, value);
        } else {
            assert(self@ =~= relocated(self@, *key));
        }
    }
}

impl<T> DualHashSet<T> where T: Dual, T::Key: Hash {
    /// Get a mutable reference to a value in the set.
    ///
    /// When the reference is released, the value will be moved to the new
    /// key if it has changed.
    ///
    /// For simple modifications, prefer [`DualHashSet::modify`].
    #[must_use]
    pub fn get_mut<Q>(&mut self, key: &Q) -> (guard: Option<DualHashSetRef<'_, T>>) where
        Q: Hash + Eq + ?Sized,
        T::Key: Borrow<Q>,

        requires
            lawful_key::<T::Key>(),
            old(self).wf(),
        ensures
            guard is None ==> !contains_borrowed_key(old(self)@, key) && final(self)@ == old(
                self,
            )@,
            guard matches Some(g) ==> {
                &&& g.wf()
                &&& g@ == old(self)@
                &&& maps_borrowed_key_to_value(old(self)@, key, g@[g.slot()])
                &&& g@[g.slot()].spec_key() == g.slot()
                &&& *final(self) == *final(g.borrowed())
            },
    {
        let filed = match slot_mut(&mut self.0, key) {
            Some(value) => Some(value.key().clone()),
            None => None,
        };
        match filed {
            Some(key) => {
                assert(self@ =~= old(self)@);
                Some(DualHashSetRef { set: self, key })
            },
            None => None,
        }
    }

    /// Get a value from the set, or insert a new value if it does not exist.
    ///
    /// `f` is called only where no element is filed under `key`, and what it
    /// makes is filed under `key` whatever key it reports: where the two
    /// differ, the element is moved when the guard is released.
    pub fn get_or_insert_with<F>(&mut self, key: T::Key, f: F) -> (guard: DualHashSetRef<'_, T>) where
        F: FnOnce(T::Key) -> T,

        requires
            lawful_key::<T::Key>(),
            old(self).wf(),
            !old(self)@.contains_key(key) ==> call_requires(f, (key,)),
        ensures
            guard.wf(),
            guard.slot() == key,
            guard@.dom() == old(self)@.dom().insert(key),
            old(self)@.contains_key(key) ==> guard@ == old(self)@,
            !old(self)@.contains_key(key) ==> exists|made: T|
                {
                    &&& #[trigger] call_ensures(f, (key,), made)
                    &&& guard@ == old(self)@.insert(key, made)
                },
            *final(self) == *final(guard.borrowed()),
    {
        if !self.contains(&key) {
            let made = f(key.clone());
            self.0.insert(key.clone(), made);
        }
        DualHashSetRef { set: self, key }
    }
}

/// A mutable reference to a value in a [`DualHashSet`].
///
/// While the guard lives, the value stays in the slot it was found in,
/// whatever is written to it. [`DualHashSetRef::release`] ends the guard's
/// scope and moves the value to its new key if the key has changed. A guard
/// that goes out of scope without it leaves the value where it is.
#[must_use]
pub struct DualHashSetRef<'a, T> where T: Dual, T::Key: Hash {
    set: &'a mut DualHashSet<T>,
    key: T::Key,
}

impl<'a, T> DualHashSetRef<'a, T> where T: Dual, T::Key: Hash {
    /// The key of the slot that the guard watches.
    pub closed spec fn slot(&self) -> T::Key {
        self.key
    }

    /// The borrow of the set that the guard holds.
    pub closed spec fn borrowed(&self) -> &'a mut DualHashSet<T> {
        self.set
    }

    /// The entries of the borrowed set as they stand now.
    pub open spec fn view(&self) -> Map<T::Key, T> {
        self.borrowed()@
    }

    /// The watched slot is occupied, and every other element is filed
    /// under the key it reports.
    pub open spec fn wf(&self) -> bool {
        &&& self@.contains_key(self.slot())
        &&& forall|k: T::Key|
            k != self.slot() && #[trigger] self@.contains_key(k) ==> self@[k].spec_key() == k
    }

    #[verifier::type_invariant]
    spec fn inv(self) -> bool {
        lawful_key::<T::Key>() && self.wf()
    }

    /// End the guard's scope: the value is moved to its new key if the key
    /// has changed, as [`DualHashSet::modify`] would have moved it.
    pub fn release(self)
        ensures
            final(self.borrowed())@ == relocated(self@, self.slot()),
            final(self.borrowed()).wf(),
    {
        proof {
            use_type_invariant(&self);
            lemma_refiled_coherent(self@, self.slot(), self@[self.slot()]);
        }
        let DualHashSetRef { set, key } = self;
        set.relocate(&key);
    }
}

impl<'a, T> std::ops::Deref for DualHashSetRef<'a, T> where T: Dual, T::Key: Hash {
    type Target = T;

    fn deref(&self) -> (value: &T)
        ensures
            self.wf(),
            *value == self@[self.slot()],
    {
        proof {
            use_type_invariant(self);
        }
        match self.set.0.get(&self.key) {
            Some(value) => value,
            None => vstd::pervasive::unreached(),
        }
    }
}

impl<'a, T> std::ops::DerefMut for DualHashSetRef<'a, T> where T: Dual, T::Key: Hash {
    fn deref_mut(&mut self) -> (value: &mut T)
        ensures
            *value == old(self)@[old(self).slot()],
            final(self)@ == old(self)@.insert(old(self).slot(), *final(value)),
            final(self).slot() == old(self).slot(),
            *final(final(self).borrowed()) == *final(old(self).borrowed()),
    {
        proof {
            use_type_invariant(&*self);
        }
        match slot_mut(&mut self.set.0, &self.key) {
            Some(value) => value,
            None => vstd::pervasive::unreached(),
        }
    }
}

impl<'a, T> AsRef<T> for DualHashSetRef<'a, T> where T: Dual, T::Key: Hash {
    fn as_ref(&self) -> (value: &T)
        ensures
            *value == self@[self.slot()],
    {
        std::ops::Deref::deref(self)
    }
}

impl<'a, T> AsMut<T> for DualHashSetRef<'a, T> where T: Dual, T::Key: Hash {
    fn as_mut(&mut self) -> (value: &mut T)
        ensures
            *value == old(self)@[old(self).slot()],
            final(self)@ == old(self)@.insert(old(self).slot(), *final(value)),
            final(self).slot() == old(self).slot(),
            *final(final(self).borrowed()) == *final(old(self).borrowed()),
    {
        std::ops::DerefMut::deref_mut(self)
    }
}

impl<'a, T> std::borrow::Borrow<T> for DualHashSetRef<'a, T> where T: Dual, T::Key: Hash {
    /// The occupant of the watched slot. The guard can be borrowed as more
    /// than one type, so the first clause names the type of the result.
    fn borrow(&self) -> (value: &T)
        ensures
            ({
                let found: &T = value;
                *found == self@[self.slot()]
            }),
    {
        std::ops::Deref::deref(self)
    }
}

impl<'a, T> std::borrow::BorrowMut<T> for DualHashSetRef<'a, T> where T: Dual, T::Key: Hash {
    /// The occupant of the watched slot, for writing: what is written
    /// through the reference becomes the occupant, and nothing else in the
    /// set changes. The first clause names the type of the result, as in
    /// `borrow`.
    fn borrow_mut(&mut self) -> (value: &mut T)
        ensures
            ({
                let found: &mut T = value;
                *found == old(self)@[old(self).slot()]
            }),
            final(self)@ == old(self)@.insert(old(self).slot(), *final(value)),
            final(self).slot() == old(self).slot(),
            *final(final(self).borrowed()) == *final(old(self).borrowed()),
    {
        std::ops::DerefMut::deref_mut(self)
    }
}

/// One step of a walk: hands out the head of what the walk has yet to hand
/// out, if there is any.
fn step<I: Iterator>(walk: &mut I) -> (item: Option<I::Item>)
    requires
        (*old(walk)).obeys_prophetic_iter_laws(),
    ensures
        (*final(walk)).obeys_prophetic_iter_laws(),
        item == if (*old(walk)).remaining().len() > 0 {
            Some((*old(walk)).remaining()[0])
        } else {
            None
        },
        (*final(walk)).remaining() == if (*old(walk)).remaining().len() > 0 {
            (*old(walk)).remaining().drop_first()
        } else {
            (*old(walk)).remaining()
        },
{
    walk.next()
}

/// Cursor returned by [`DualHashSet::iter`]: it hands out the values of the
/// set, each once, in the order in which the underlying map walks them.
#[must_use]
pub struct Iter<'a, T: Dual>(Values<'a, T::Key, T>);

impl<'a, T: Dual> Iter<'a, T> {
    /// The walk of the underlying map that the cursor holds. What the
    /// cursor has yet to hand out is `walk().remaining()`.
    pub closed spec fn walk(&self) -> Values<'a, T::Key, T> {
        self.0
    }

    /// Hand out the next value.
    pub fn next(&mut self) -> (item: Option<&'a T>)
        ensures
            item == if old(self).walk().remaining().len() > 0 {
                Some(old(self).walk().remaining()[0])
            } else {
                None
            },
            final(self).walk().remaining() == if old(self).walk().remaining().len() > 0 {
                old(self).walk().remaining().drop_first()
            } else {
                old(self).walk().remaining()
            },
    {
        step(&mut self.0)
    }
}

/// Cursor returned by [`DualHashSet::keys`]: it hands out the key of each
/// value of the set.
#[must_use]
pub struct Keys<'a, T: Dual>(Values<'a, T::Key, T>);

impl<'a, T: Dual> Keys<'a, T> {
    /// The walk of the underlying map that the cursor holds. The keys that
    /// the cursor has yet to hand out are those that the values of
    /// `walk().remaining()` report.
    pub closed spec fn walk(&self) -> Values<'a, T::Key, T> {
        self.0
    }

    /// Hand out the next key.
    pub fn next(&mut self) -> (item: Option<&'a T::Key>)
        ensures
            item == if old(self).walk().remaining().len() > 0 {
                Some(&old(self).walk().remaining()[0].spec_key())
            } else {
                None
            },
            final(self).walk().remaining() == if old(self).walk().remaining().len() > 0 {
                old(self).walk().remaining().drop_first()
            } else {
                old(self).walk().remaining()
            },
    {
        match step(&mut self.0) {
            Some(value) => Some(value.key()),
            None => None,
        }
    }
}

/// Cursor returned by [`DualHashSet::into_iter`]: it hands out the values of
/// the set by value.
#[must_use]
pub struct IntoIter<T: Dual> {
    items: Vec<T>,
}

impl<T: Dual> IntoIter<T> {
    /// The values that the cursor has yet to hand out, in their order.
    pub closed spec fn view(&self) -> Seq<T> {
        self.items@.reverse()
    }

    /// Hand out the next value.
    pub fn next(&mut self) -> (item: Option<T>)
        ensures
            item == if old(self)@.len() > 0 {
                Some(old(self)@[0])
            } else {
                None
            },
            final(self)@ == if old(self)@.len() > 0 {
                old(self)@.drop_first()
            } else {
                old(self)@
            },
    {
        let item = self.items.pop();
        proof {
            if old(self)@.len() > 0 {
                assert(self@ =~= old(self)@.drop_first());
            }
        }
        item
    }
}

} // verus!
