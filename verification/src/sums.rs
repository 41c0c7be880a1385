//! Sums of call and byte tallies over finite maps.
use vstd::prelude::*;

verus! {

/// A number of calls and a number of bytes.
pub type Tally = (nat, nat);

/// The two tallies taken together.
pub open spec fn plus(a: Tally, b: Tally) -> Tally {
    (a.0 + b.0, a.1 + b.1)
}

/// Both numbers of the tally can be held in a `usize`.
pub open spec fn fits(t: Tally) -> bool {
    t.0 <= usize::MAX && t.1 <= usize::MAX
}

/// The sum of all the tallies of a finite map.
pub open spec fn total<K>(m: Map<K, Tally>) -> Tally
    decreases m.dom().len(),
{
    if m.dom().finite() && m.dom().len() > 0 {
        let k = m.dom().choose();
        plus(m[k], total(m.remove(k)))
    } else {
        (0, 0)
    }
}

/// Any entry can be taken out of a sum first.
pub proof fn lemma_total_remove<K>(m: Map<K, Tally>, k: K)
    requires
        m.dom().finite(),
        m.contains_key(k),
    ensures
        total(m) == plus(m[k], total(m.remove(k))),
    decreases m.dom().len(),
{
    let first = m.dom().choose();
    assert(m.dom().contains(k));
    assert(m.dom().len() > 0);
    assert(m.contains_key(first));
    if first != k {
        lemma_total_remove(m.remove(first), k);
        lemma_total_remove(m.remove(k), first);
        assert(m.remove(first).remove(k) =~= m.remove(k).remove(first));
    }
}

/// A new entry adds its tally to a sum.
pub proof fn lemma_total_insert<K>(m: Map<K, Tally>, k: K, v: Tally)
    requires
        m.dom().finite(),
        !m.contains_key(k),
    ensures
        total(m.insert(k, v)) == plus(v, total(m)),
{
    lemma_total_remove(m.insert(k, v), k);
    assert(m.insert(k, v).remove(k) =~= m);
}

/// The sum of an empty map is nothing.
pub proof fn lemma_total_empty<K>(m: Map<K, Tally>)
    requires
        forall|k: K| !m.contains_key(k),
    ensures
        m.dom().finite(),
        total(m) == (0nat, 0nat),
{
    assert(m.dom() =~= Set::empty());
}

/// A sum falls into the sum over some of the keys and the sum over the others.
pub proof fn lemma_total_split<K>(m: Map<K, Tally>, keys: Set<K>)
    requires
        m.dom().finite(),
    ensures
        m.restrict(keys).dom().finite(),
        m.remove_keys(keys).dom().finite(),
        total(m) == plus(total(m.restrict(keys)), total(m.remove_keys(keys))),
    decreases m.dom().len(),
{
    let inside = m.restrict(keys);
    let outside = m.remove_keys(keys);
    assert(inside.dom() =~= m.dom().intersect(keys));
    assert(outside.dom() =~= m.dom().difference(keys));
    if m.dom().len() == 0 {
        assert(m.dom() =~= Set::empty());
        assert(inside.dom() =~= Set::empty());
        assert(outside.dom() =~= Set::empty());
    } else {
        let k = m.dom().choose();
        assert(m.contains_key(k));
        lemma_total_split(m.remove(k), keys);
        if keys.contains(k) {
            assert(inside.contains_key(k));
            lemma_total_remove(inside, k);
            assert(m.remove(k).restrict(keys) =~= inside.remove(k));
            assert(m.remove(k).remove_keys(keys) =~= outside);
        } else {
            assert(outside.contains_key(k));
            lemma_total_remove(outside, k);
            assert(m.remove(k).restrict(keys) =~= inside);
            assert(m.remove(k).remove_keys(keys) =~= outside.remove(k));
        }
    }
}

/// A sum over some of the keys stays below the whole sum and grows by each new key.
pub proof fn lemma_total_grow<K>(m: Map<K, Tally>, seen: Set<K>, k: K)
    requires
        m.dom().finite(),
        m.contains_key(k),
        !seen.contains(k),
    ensures
        total(m.restrict(seen.insert(k))) == plus(m[k], total(m.restrict(seen))),
        total(m.restrict(seen.insert(k))).0 <= total(m).0,
        total(m.restrict(seen.insert(k))).1 <= total(m).1,
{
    lemma_total_split(m, seen);
    lemma_total_split(m, seen.insert(k));
    assert(m.restrict(seen.insert(k)) =~= m.restrict(seen).insert(k, m[k]));
    lemma_total_insert(m.restrict(seen), k, m[k]);
}

/// Entries that count nothing do not change a sum.
pub proof fn lemma_total_drop_zeros<K>(m: Map<K, Tally>, small: Map<K, Tally>)
    requires
        m.dom().finite(),
        forall|k: K| #[trigger] small.contains_key(k) ==> m.contains_key(k) && small[k] == m[k],
        forall|k: K| #[trigger]
            m.contains_key(k) && !small.contains_key(k) ==> m[k] == (0nat, 0nat),
    ensures
        total(m) == total(small),
    decreases m.dom().len(),
{
    if forall|k: K| m.contains_key(k) ==> small.contains_key(k) {
        assert(m =~= small);
    } else {
        let k = choose|k: K| m.contains_key(k) && !small.contains_key(k);
        lemma_total_remove(m, k);
        lemma_total_drop_zeros(m.remove(k), small);
    }
}

/// The tally of a key; nothing where there is none.
pub open spec fn tally_at<K>(m: Map<K, Tally>, k: K) -> Tally {
    if m.contains_key(k) {
        m[k]
    } else {
        (0, 0)
    }
}

/// Where the tallies of two maps are added up key by key, their sums are added up.
pub proof fn lemma_total_plus<K>(a: Map<K, Tally>, b: Map<K, Tally>, both: Map<K, Tally>)
    requires
        a.dom().finite(),
        b.dom().finite(),
        forall|k: K| #[trigger] both.contains_key(k) <==> a.contains_key(k) || b.contains_key(k),
        forall|k: K| #[trigger]
            both.contains_key(k) ==> both[k] == plus(tally_at(a, k), tally_at(b, k)),
    ensures
        both.dom().finite(),
        total(both) == plus(total(a), total(b)),
    decreases a.dom().len() + b.dom().len(),
{
    assert(both.dom() =~= a.dom().union(b.dom()));
    if a.dom().len() > 0 {
        let k = a.dom().choose();
        assert(a.contains_key(k));
        lemma_total_plus(a.remove(k), b.remove(k), both.remove(k));
        lemma_total_remove(a, k);
        lemma_total_remove(both, k);
        if b.contains_key(k) {
            lemma_total_remove(b, k);
        } else {
            assert(b.remove(k) =~= b);
        }
    } else {
        assert(a.dom() =~= Set::empty());
        assert(both =~= b);
    }
}

} // verus!
