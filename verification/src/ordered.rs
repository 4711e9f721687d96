//! Maps keyed by block height: their lowest and their highest key, and sums over them.

use std::collections::BTreeMap;
use vstd::prelude::*;

verus! {

broadcast use vstd::std_specs::btree::group_btree_axioms;

/// Whether `k` is the lowest key of `m`.
pub open spec fn is_first<V>(m: Map<u64, V>, k: u64) -> bool {
    &&& m.contains_key(k)
    &&& forall|j: u64| #[trigger] m.contains_key(j) ==> k <= j
}

/// Whether `k` is the highest key of `m`.
pub open spec fn is_last<V>(m: Map<u64, V>, k: u64) -> bool {
    &&& m.contains_key(k)
    &&& forall|j: u64| #[trigger] m.contains_key(j) ==> j <= k
}

/// The lowest key of a map that has one.
pub open spec fn first_key<V>(m: Map<u64, V>) -> u64 {
    choose|k: u64| is_first(m, k)
}

/// The highest key of a map that has one.
pub open spec fn last_key<V>(m: Map<u64, V>) -> u64 {
    choose|k: u64| is_last(m, k)
}

/// The lowest key, or `None` of an empty map.
pub fn lowest<V>(m: &BTreeMap<u64, V>) -> (key: Option<u64>)
    ensures
        match key {
            Some(k) => is_first(m@, k) && k == first_key(m@),
            None => m@ == Map::<u64, V>::empty(),
        },
{
    let mut found: Option<u64> = None;
    let ghost keys: Seq<u64> = vstd::std_specs::iter::IteratorSpec::remaining(&m.keys()).unref();
    let ghost mut seen: Seq<u64> = Seq::empty();
    for k in it: m.keys()
        invariant
            it.seq().unref() == keys,
            keys.to_set() == m@.dom(),
            seen == keys.take(it.index() as int),
            found is None <==> seen.len() == 0,
            found is Some ==> m@.contains_key(found->0),
            forall|j: int| 0 <= j < seen.len() ==> found->0 <= #[trigger] seen[j],
    {
        proof {
            assert(keys[it.index() as int] == *k);
            assert(keys.to_set().contains(*k));
            assert(keys.take(it.index() + 1) =~= seen.push(*k));
            seen = seen.push(*k);
        }
        found = match found {
            Some(least) if least <= *k => Some(least),
            _ => Some(*k),
        };
    }
    proof {
        assert(keys.take(keys.len() as int) =~= keys);
        assert(forall|j: u64| #[trigger] m@.contains_key(j) ==> seen.contains(j));
        if found is Some {
            assert(is_first(m@, found->0));
            assert(is_first(m@, first_key(m@)));
        } else {
            assert(m@ =~= Map::<u64, V>::empty());
        }
    }
    found
}

/// The highest key, or `None` of an empty map.
pub fn highest<V>(m: &BTreeMap<u64, V>) -> (key: Option<u64>)
    ensures
        match key {
            Some(k) => is_last(m@, k) && k == last_key(m@),
            None => m@ == Map::<u64, V>::empty(),
        },
{
    let mut found: Option<u64> = None;
    let ghost keys: Seq<u64> = vstd::std_specs::iter::IteratorSpec::remaining(&m.keys()).unref();
    let ghost mut seen: Seq<u64> = Seq::empty();
    for k in it: m.keys()
        invariant
            it.seq().unref() == keys,
            keys.to_set() == m@.dom(),
            seen == keys.take(it.index() as int),
            found is None <==> seen.len() == 0,
            found is Some ==> m@.contains_key(found->0),
            forall|j: int| 0 <= j < seen.len() ==> found->0 >= #[trigger] seen[j],
    {
        proof {
            assert(keys[it.index() as int] == *k);
            assert(keys.to_set().contains(*k));
            assert(keys.take(it.index() + 1) =~= seen.push(*k));
            seen = seen.push(*k);
        }
        found = match found {
            Some(most) if most >= *k => Some(most),
            _ => Some(*k),
        };
    }
    proof {
        assert(keys.take(keys.len() as int) =~= keys);
        assert(forall|j: u64| #[trigger] m@.contains_key(j) ==> seen.contains(j));
        if found is Some {
            assert(is_last(m@, found->0));
            assert(is_last(m@, last_key(m@)));
        } else {
            assert(m@ =~= Map::<u64, V>::empty());
        }
    }
    found
}

/// A map with finitely many keys, and at least one, has a lowest key.
pub proof fn lemma_has_first<V>(m: Map<u64, V>)
    requires
        m.dom().finite(),
        !m.dom().is_empty(),
    ensures
        is_first(m, first_key(m)),
    decreases m.dom().len(),
{
    let k = m.dom().choose();
    let rest = m.remove(k);
    if rest.dom().is_empty() {
        assert forall|j: u64| #[trigger] m.contains_key(j) implies k <= j by {
            if j != k {
                assert(rest.dom().contains(j));
            }
        }
        assert(is_first(m, k));
    } else {
        lemma_has_first(rest);
        let least = first_key(rest);
        let k0 = if k <= least {
            k
        } else {
            least
        };
        assert forall|j: u64| #[trigger] m.contains_key(j) implies k0 <= j by {
            if j != k {
                assert(rest.contains_key(j));
            }
        }
        assert(is_first(m, k0));
    }
}

/// A map with finitely many keys, and at least one, has a highest key.
pub proof fn lemma_has_last<V>(m: Map<u64, V>)
    requires
        m.dom().finite(),
        !m.dom().is_empty(),
    ensures
        is_last(m, last_key(m)),
    decreases m.dom().len(),
{
    let k = m.dom().choose();
    let rest = m.remove(k);
    if rest.dom().is_empty() {
        assert forall|j: u64| #[trigger] m.contains_key(j) implies j <= k by {
            if j != k {
                assert(rest.dom().contains(j));
            }
        }
        assert(is_last(m, k));
    } else {
        lemma_has_last(rest);
        let most = last_key(rest);
        let k0 = if k >= most {
            k
        } else {
            most
        };
        assert forall|j: u64| #[trigger] m.contains_key(j) implies j <= k0 by {
            if j != k {
                assert(rest.contains_key(j));
            }
        }
        assert(is_last(m, k0));
    }
}

/// The sum of `weight` over the values of a map.
pub open spec fn total<V>(m: Map<u64, V>, weight: spec_fn(V) -> nat) -> nat
    decreases m.dom().len(),
{
    if !m.dom().finite() || m.dom().is_empty() {
        0
    } else {
        let k = first_key(m);
        proof {
            lemma_has_first(m);
        }
        weight(m[k]) + total(m.remove(k), weight)
    }
}

/// Taking a key out of a map takes its weight out of the sum.
pub proof fn lemma_total_remove<V>(m: Map<u64, V>, k: u64, weight: spec_fn(V) -> nat)
    requires
        m.dom().finite(),
        m.contains_key(k),
    ensures
        total(m, weight) == weight(m[k]) + total(m.remove(k), weight),
    decreases m.dom().len(),
{
    lemma_has_first(m);
    let first = first_key(m);
    if k != first {
        let rest = m.remove(k);
        assert(rest.contains_key(first));
        assert(is_first(rest, first));
        lemma_has_first(rest);
        assert(first_key(rest) == first);
        lemma_total_remove(m.remove(first), k, weight);
        assert(m.remove(first).remove(k) =~= rest.remove(first));
    }
}

/// Putting a key into a map adds its weight to the sum, less the weight that it replaces.
pub proof fn lemma_total_insert<V>(m: Map<u64, V>, k: u64, v: V, weight: spec_fn(V) -> nat)
    requires
        m.dom().finite(),
    ensures
        m.contains_key(k) ==> total(m.insert(k, v), weight) + weight(m[k]) == total(m, weight)
            + weight(v),
        !m.contains_key(k) ==> total(m.insert(k, v), weight) == total(m, weight) + weight(v),
{
    let inserted = m.insert(k, v);
    lemma_total_remove(inserted, k, weight);
    if m.contains_key(k) {
        lemma_total_remove(m, k, weight);
        assert(inserted.remove(k) =~= m.remove(k));
    } else {
        assert(inserted.remove(k) =~= m);
    }
}

} // verus!
