//! What a sweep over the set does, visit by visit: the model behind
//! `retain` and `modify_all`, and what follows from it.

use crate::model::{coherent, keys_of, lemma_refiled_coherent, lists, refiled};
use crate::Dual;
use vstd::prelude::*;

verus! {

/// One visit of a sweep over the set: the slot that was visited, the element
/// as the call found it and as the call left it, and whether it was kept.
pub struct Visit<T: Dual> {
    pub slot: T::Key,
    pub before: T,
    pub after: T,
    pub keep: bool,
}

/// The entries after one visit: the element leaves the slot it was found in,
/// and comes back under its own key if it was kept.
pub open spec fn visited<T: Dual>(m: Map<T::Key, T>, v: Visit<T>) -> Map<T::Key, T> {
    if v.keep {
        refiled(m, v.slot, v.after)
    } else {
        m.remove(v.slot)
    }
}

/// The entries after the visits of `run`, in their order.
pub open spec fn swept<T: Dual>(m: Map<T::Key, T>, run: Seq<Visit<T>>) -> Map<T::Key, T>
    decreases run.len(),
{
    if run.len() == 0 {
        m
    } else {
        visited(swept(m, run.drop_last()), run.last())
    }
}

/// The slots that a run visits, in its order.
pub open spec fn slots<T: Dual>(run: Seq<Visit<T>>) -> Seq<T::Key> {
    Seq::new(run.len(), |i: int| run[i].slot)
}

/// Each visit of `run` found its element in the slot it visited, in the
/// entries that the visits before it had left.
pub open spec fn follows<T: Dual>(m: Map<T::Key, T>, run: Seq<Visit<T>>) -> bool
    decreases run.len(),
{
    run.len() > 0 ==> {
        let found = swept(m, run.drop_last());
        &&& follows(m, run.drop_last())
        &&& found.contains_key(run.last().slot)
        &&& found[run.last().slot] == run.last().before
    }
}

/// What becomes of a run when one more visit is added at its end.
pub proof fn lemma_run_push<T: Dual>(m: Map<T::Key, T>, run: Seq<Visit<T>>, v: Visit<T>)
    ensures
        swept(m, run.push(v)) == visited(swept(m, run), v),
        slots(run.push(v)) == slots(run).push(v.slot),
        follows(m, run.push(v)) <==> {
            &&& follows(m, run)
            &&& swept(m, run).contains_key(v.slot)
            &&& swept(m, run)[v.slot] == v.before
        },
{
    assert(run.push(v).drop_last() =~= run);
    assert(slots(run.push(v)) =~= slots(run).push(v.slot));
}

/// One visit keeps a coherent index coherent.
pub proof fn lemma_visited_coherent<T: Dual>(m: Map<T::Key, T>, v: Visit<T>)
    requires
        coherent(m),
    ensures
        coherent(visited(m, v)),
{
    lemma_refiled_coherent(m, v.slot, v.after);
}

/// A sweep keeps a coherent index coherent, whatever the calls did to the
/// elements' keys.
pub proof fn lemma_swept_coherent<T: Dual>(m: Map<T::Key, T>, run: Seq<Visit<T>>)
    requires
        coherent(m),
    ensures
        coherent(swept(m, run)),
    decreases run.len(),
{
    if run.len() > 0 {
        lemma_swept_coherent(m, run.drop_last());
        lemma_visited_coherent(swept(m, run.drop_last()), run.last());
    }
}

/// Every visit of a sweep over a coherent index finds an element that
/// reports the key of the slot it is in: no call sees an element filed
/// under a stale key.
pub proof fn lemma_visits_coherent<T: Dual>(m: Map<T::Key, T>, run: Seq<Visit<T>>)
    requires
        coherent(m),
        follows(m, run),
    ensures
        forall|v: Visit<T>| #[trigger] run.contains(v) ==> v.before.spec_key() == v.slot,
    decreases run.len(),
{
    if run.len() > 0 {
        let rest = run.drop_last();
        lemma_visits_coherent(m, rest);
        lemma_swept_coherent(m, rest);
        assert forall|v: Visit<T>| #[trigger] run.contains(v) implies v.before.spec_key()
            == v.slot by {
            let i = choose|i: int| 0 <= i < run.len() && run[i] == v;
            if i < rest.len() {
                assert(rest[i] == v);
                assert(rest.contains(v));
            } else {
                assert(v == run.last());
                assert(swept(m, rest).contains_key(v.slot));
            }
        }
    }
}

/// Whatever a sweep leaves in the set was kept by one of its visits, and is
/// as that visit left it: no element survives a sweep unseen or against the
/// verdict on it.
pub proof fn lemma_swept_only_kept<T: Dual>(m: Map<T::Key, T>, run: Seq<Visit<T>>)
    requires
        slots(run).to_set() == m.dom(),
    ensures
        forall|k: T::Key|
            swept(m, run).contains_key(k) ==> exists|i: int|
                0 <= i < run.len() && (#[trigger] run[i]).keep && run[i].after == swept(m, run)[k],
{
    lemma_swept_origin(m, run);
    assert forall|k: T::Key| swept(m, run).contains_key(k) implies exists|i: int|
        0 <= i < run.len() && (#[trigger] run[i]).keep && run[i].after == swept(m, run)[k] by {
        if m.contains_key(k) && !slots(run).contains(k) {
            assert(slots(run).to_set().contains(k));
        }
    }
}

/// Where each entry in the midst of a sweep comes from: it was there from
/// the start, in a slot not yet visited, or a visit that kept its element
/// left it.
proof fn lemma_swept_origin<T: Dual>(m: Map<T::Key, T>, run: Seq<Visit<T>>)
    ensures
        forall|k: T::Key| #[trigger]
            swept(m, run).contains_key(k) ==> (m.contains_key(k) && !slots(run).contains(k)
                && swept(m, run)[k] == m[k]) || exists|i: int|
                0 <= i < run.len() && (#[trigger] run[i]).keep && run[i].after == swept(m, run)[k],
    decreases run.len(),
{
    if run.len() > 0 {
        let rest = run.drop_last();
        let v = run.last();
        let last = run.len() - 1;
        lemma_swept_origin(m, rest);
        assert forall|k: T::Key| #[trigger] swept(m, run).contains_key(k) implies (m.contains_key(k)
            && !slots(run).contains(k) && swept(m, run)[k] == m[k]) || exists|i: int|
            0 <= i < run.len() && (#[trigger] run[i]).keep && run[i].after == swept(m, run)[k] by {
            if v.keep && k == v.after.spec_key() {
                assert(run[last].keep && run[last].after == swept(m, run)[k]);
            } else {
                assert(swept(m, rest).contains_key(k));
                assert(k != v.slot);
                if m.contains_key(k) && !slots(rest).contains(k) && swept(m, rest)[k] == m[k] {
                    if slots(run).contains(k) {
                        let i = choose|i: int| 0 <= i < slots(run).len() && slots(run)[i] == k;
                        if i < rest.len() {
                            assert(slots(rest)[i] == k);
                        }
                    }
                } else {
                    let i = choose|i: int|
                        0 <= i < rest.len() && (#[trigger] rest[i]).keep && rest[i].after == swept(
                            m,
                            rest,
                        )[k];
                    assert(run[i] == rest[i]);
                }
            }
        }
    }
}

/// A sweep never adds to the number of entries.
pub proof fn lemma_swept_shrinks<T: Dual>(m: Map<T::Key, T>, run: Seq<Visit<T>>)
    requires
        m.dom().finite(),
        follows(m, run),
    ensures
        swept(m, run).dom().finite(),
        swept(m, run).len() <= m.len(),
    decreases run.len(),
{
    if run.len() > 0 {
        lemma_swept_shrinks(m, run.drop_last());
    }
}

/// A run that kept every element kept as many as it visited.
pub proof fn lemma_kept_all<T: Dual>(run: Seq<Visit<T>>)
    requires
        forall|v: Visit<T>| #[trigger] run.contains(v) ==> v.keep,
    ensures
        kept(run).len() == run.len(),
    decreases run.len(),
{
    if run.len() > 0 {
        let rest = run.drop_last();
        assert(run.contains(run.last()));
        assert forall|v: Visit<T>| #[trigger] rest.contains(v) implies v.keep by {
            let i = choose|i: int| 0 <= i < rest.len() && rest[i] == v;
            assert(rest.len() == run.len() - 1);
            assert(run[i] == rest[i]);
            assert(run.contains(v));
        }
        lemma_kept_all(rest);
    }
}

/// The elements that a run kept, as the calls left them, in its order.
pub open spec fn kept<T: Dual>(run: Seq<Visit<T>>) -> Seq<T>
    decreases run.len(),
{
    if run.len() == 0 {
        Seq::empty()
    } else if run.last().keep {
        kept(run.drop_last()).push(run.last().after)
    } else {
        kept(run.drop_last())
    }
}

/// An element that a visit kept is among the kept elements.
pub proof fn lemma_kept_holds<T: Dual>(run: Seq<Visit<T>>, i: int)
    requires
        0 <= i < run.len(),
        run[i].keep,
    ensures
        kept(run).contains(run[i].after),
    decreases run.len(),
{
    let rest = run.drop_last();
    if i < rest.len() {
        assert(rest[i] == run[i]);
        lemma_kept_holds(rest, i);
        let j = choose|j: int| 0 <= j < kept(rest).len() && kept(rest)[j] == run[i].after;
        if run.last().keep {
            assert(kept(run)[j] == run[i].after);
        }
    } else {
        assert(kept(run)[kept(rest).len() as int] == run[i].after);
    }
}

/// Each kept element is what some visit that kept its element left.
pub proof fn lemma_kept_from<T: Dual>(run: Seq<Visit<T>>, e: T)
    requires
        kept(run).contains(e),
    ensures
        exists|i: int| 0 <= i < run.len() && (#[trigger] run[i]).keep && run[i].after == e,
    decreases run.len(),
{
    if run.len() > 0 {
        let rest = run.drop_last();
        let last = run.len() - 1;
        let j = choose|j: int| 0 <= j < kept(run).len() && kept(run)[j] == e;
        if run.last().keep && j == kept(rest).len() {
            assert(run[last].keep && run[last].after == e);
        } else {
            assert(kept(rest)[j] == e);
            lemma_kept_from(rest, e);
            let i = choose|i: int| 0 <= i < rest.len() && (#[trigger] rest[i]).keep && rest[i].after == e;
            assert(run[i] == rest[i]);
        }
    }
}

/// No element of the run lands on another: a kept element reports either
/// the key of the slot it was found in or a key that no slot of `m` has,
/// and no two kept elements report the same key.
pub open spec fn apart<T: Dual>(m: Map<T::Key, T>, run: Seq<Visit<T>>) -> bool {
    &&& forall|i: int|
        #![trigger run[i]]
        0 <= i < run.len() && run[i].keep ==> run[i].after.spec_key() == run[i].slot
            || !m.contains_key(run[i].after.spec_key())
    &&& forall|i: int, j: int|
        #![trigger run[i], run[j]]
        0 <= i < j < run.len() && run[i].keep && run[j].keep ==> run[i].after.spec_key()
            != run[j].after.spec_key()
}

/// What holds after any part of a sweep in which no element lands on
/// another: the slots not yet visited are as they were, and every element
/// kept so far is filed under its own key.
proof fn lemma_swept_apart<T: Dual>(m: Map<T::Key, T>, run: Seq<Visit<T>>)
    requires
        slots(run).no_duplicates(),
        forall|i: int| 0 <= i < run.len() ==> m.contains_key(#[trigger] run[i].slot),
        follows(m, run),
        apart(m, run),
    ensures
        forall|k: T::Key|
            #[trigger] swept(m, run).contains_key(k) <==> (m.contains_key(k) && !slots(
                run,
            ).contains(k)) || keys_of(kept(run)).contains(k),
        forall|k: T::Key|
            m.contains_key(k) && !slots(run).contains(k) ==> #[trigger] swept(m, run)[k] == m[k],
        forall|j: int|
            0 <= j < kept(run).len() ==> swept(m, run)[(#[trigger] kept(run)[j]).spec_key()]
                == kept(run)[j],
        keys_of(kept(run)).no_duplicates(),
        forall|e: T| #[trigger]
            kept(run).contains(e) ==> exists|i: int|
                0 <= i < run.len() && (#[trigger] run[i]).keep && run[i].after == e,
        forall|i: int| 0 <= i < run.len() ==> (#[trigger] run[i]).before == m[run[i].slot],
    decreases run.len(),
{
    if run.len() > 0 {
        let rest = run.drop_last();
        let v = run.last();
        let n = rest.len() as int;
        assert(run[n] == v);
        assert forall|i: int| 0 <= i < rest.len() implies rest[i] == run[i] by {}
        assert(slots(rest) =~= slots(run).drop_last());
        assert(slots(run)[n] == v.slot);
        assert(!slots(rest).contains(v.slot)) by {
            if slots(rest).contains(v.slot) {
                let i = choose|i: int| 0 <= i < slots(rest).len() && slots(rest)[i] == v.slot;
                assert(slots(run)[i] == slots(run)[n]);
            }
        }
        assert(apart(m, rest)) by {
            assert forall|i: int| #![trigger rest[i]] 0 <= i < rest.len() && rest[i].keep implies rest[i].after.spec_key()
                == rest[i].slot || !m.contains_key(rest[i].after.spec_key()) by {
                assert(rest[i] == run[i]);
            }
            assert forall|i: int, j: int|
                #![trigger rest[i], rest[j]]
                0 <= i < j < rest.len() && rest[i].keep && rest[j].keep implies rest[i].after.spec_key()
                != rest[j].after.spec_key() by {
                assert(rest[i] == run[i]);
                assert(rest[j] == run[j]);
            }
        }
        assert forall|i: int| 0 <= i < rest.len() implies m.contains_key(#[trigger] rest[i].slot) by {
            assert(rest[i] == run[i]);
        }
        lemma_swept_apart(m, rest);
        let before = swept(m, rest);
        let after = swept(m, run);
        assert(after == visited(before, v));
        // An element kept earlier sits neither in the slot visited now nor
        // where the element visited now lands.
        assert forall|j: int| 0 <= j < kept(rest).len() implies (#[trigger] kept(rest)[j]).spec_key()
            != v.slot && (v.keep ==> kept(rest)[j].spec_key() != v.after.spec_key()) by {
            assert(kept(rest).contains(kept(rest)[j]));
            let i = choose|i: int| 0 <= i < rest.len() && (#[trigger] rest[i]).keep && rest[i].after == kept(rest)[j];
            assert(rest[i] == run[i]);
            assert(slots(run)[i] == run[i].slot);
            assert(slots(run)[i] != slots(run)[n]);
        }
        assert forall|k: T::Key| slots(run).contains(k) <==> slots(rest).contains(k) || k
            == v.slot by {
            if slots(run).contains(k) {
                let i = choose|i: int| 0 <= i < slots(run).len() && slots(run)[i] == k;
                if i < n {
                    assert(slots(rest)[i] == k);
                }
            }
            if slots(rest).contains(k) {
                let i = choose|i: int| 0 <= i < slots(rest).len() && slots(rest)[i] == k;
                assert(slots(run)[i] == k);
            }
        }
        if v.keep {
            let landed = kept(rest).push(v.after);
            assert(kept(run) == landed);
            assert(keys_of(landed) =~= keys_of(kept(rest)).push(v.after.spec_key()));
            assert forall|k: T::Key| keys_of(landed).contains(k) <==> keys_of(kept(rest)).contains(k)
                || k == v.after.spec_key() by {
                if keys_of(landed).contains(k) {
                    let j = choose|j: int| 0 <= j < keys_of(landed).len() && keys_of(landed)[j] == k;
                    if j < kept(rest).len() {
                        assert(keys_of(kept(rest))[j] == k);
                    }
                }
                if keys_of(kept(rest)).contains(k) {
                    let j = choose|j: int|
                        0 <= j < keys_of(kept(rest)).len() && keys_of(kept(rest))[j] == k;
                    assert(keys_of(landed)[j] == k);
                }
                if k == v.after.spec_key() {
                    assert(keys_of(landed)[kept(rest).len() as int] == k);
                }
            }
            assert(!keys_of(kept(rest)).contains(v.after.spec_key())) by {
                if keys_of(kept(rest)).contains(v.after.spec_key()) {
                    let j = choose|j: int|
                        0 <= j < keys_of(kept(rest)).len() && keys_of(kept(rest))[j]
                            == v.after.spec_key();
                    assert(kept(rest)[j].spec_key() == v.after.spec_key());
                }
            }
            assert forall|j: int| 0 <= j < landed.len() implies after[(#[trigger] landed[j]).spec_key()]
                == landed[j] by {
                if j < kept(rest).len() {
                    assert(landed[j] == kept(rest)[j]);
                }
            }
            assert forall|e: T| #[trigger] landed.contains(e) implies exists|i: int|
                0 <= i < run.len() && (#[trigger] run[i]).keep && run[i].after == e by {
                let j = choose|j: int| 0 <= j < landed.len() && landed[j] == e;
                if j < kept(rest).len() {
                    assert(kept(rest).contains(kept(rest)[j]));
                    let i = choose|i: int|
                        0 <= i < rest.len() && (#[trigger] rest[i]).keep && rest[i].after == e;
                    assert(run[i] == rest[i]);
                } else {
                    assert(run[n].keep && run[n].after == e);
                }
            }
            assert(keys_of(landed).no_duplicates()) by {
                assert forall|a: int, b: int|
                    0 <= a < keys_of(landed).len() && 0 <= b < keys_of(landed).len() && a
                        != b implies keys_of(landed)[a] != keys_of(landed)[b] by {
                    if a < kept(rest).len() && b < kept(rest).len() {
                        assert(keys_of(kept(rest))[a] != keys_of(kept(rest))[b]);
                    } else if a < kept(rest).len() {
                        assert(kept(rest)[a].spec_key() != v.after.spec_key());
                    } else if b < kept(rest).len() {
                        assert(kept(rest)[b].spec_key() != v.after.spec_key());
                    }
                }
            }
        } else {
            assert(kept(run) == kept(rest));
            assert forall|k: T::Key| keys_of(kept(rest)).contains(k) implies k != v.slot by {
                let j = choose|j: int|
                    0 <= j < keys_of(kept(rest)).len() && keys_of(kept(rest))[j] == k;
                assert(kept(rest)[j].spec_key() == k);
            }
            assert forall|e: T| #[trigger] kept(rest).contains(e) implies exists|i: int|
                0 <= i < run.len() && (#[trigger] run[i]).keep && run[i].after == e by {
                let i = choose|i: int|
                    0 <= i < rest.len() && (#[trigger] rest[i]).keep && rest[i].after == e;
                assert(run[i] == rest[i]);
            }
        }
        assert forall|i: int| 0 <= i < run.len() implies (#[trigger] run[i]).before
            == m[run[i].slot] by {
            if i < n {
                assert(run[i] == rest[i]);
            }
        }
    }
}

/// Where no element lands on another, a sweep calls the predicate on each
/// element of the set as it was when the sweep began, and leaves exactly
/// the elements that were kept, each as its call left it and under the key
/// it reports: as many entries as elements were kept.
pub proof fn lemma_sweep_keeps_exactly<T: Dual>(m: Map<T::Key, T>, run: Seq<Visit<T>>)
    requires
        m.dom().finite(),
        slots(run).no_duplicates(),
        slots(run).to_set() == m.dom(),
        follows(m, run),
        apart(m, run),
    ensures
        forall|i: int| 0 <= i < run.len() ==> (#[trigger] run[i]).before == m[run[i].slot],
        lists(kept(run), swept(m, run)),
        swept(m, run).len() == kept(run).len(),
{
    assert forall|i: int| 0 <= i < run.len() implies m.contains_key(#[trigger] run[i].slot) by {
        assert(slots(run)[i] == run[i].slot);
        assert(slots(run).to_set().contains(slots(run)[i]));
    }
    lemma_swept_apart(m, run);
    let left = swept(m, run);
    let keys = keys_of(kept(run));
    assert forall|k: T::Key| left.dom().contains(k) <==> keys.to_set().contains(k) by {
        if m.contains_key(k) {
            assert(slots(run).to_set().contains(k));
        }
    }
    assert(left.dom() =~= keys.to_set());
    keys.unique_seq_to_set();
    assert forall|e: T| kept(run).contains(e) <==> left.contains_key(e.spec_key())
        && left[e.spec_key()] == e by {
        if kept(run).contains(e) {
            let j = choose|j: int| 0 <= j < kept(run).len() && kept(run)[j] == e;
            assert(keys[j] == e.spec_key());
        }
        if left.contains_key(e.spec_key()) && left[e.spec_key()] == e {
            assert(keys.to_set().contains(e.spec_key()));
            let j = choose|j: int| 0 <= j < keys.len() && keys[j] == e.spec_key();
            assert(kept(run)[j] == e);
        }
    }
}

} // verus!
