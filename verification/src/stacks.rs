//! Call stacks as sequences of frame addresses, and the order in which they are walked.
use vstd::prelude::*;

verus! {

/// `a` begins `b`: every frame of `a` stands at the same place in `b`.
pub open spec fn begins(a: Seq<usize>, b: Seq<usize>) -> bool {
    &&& a.len() <= b.len()
    &&& forall|i: int| 0 <= i < a.len() ==> a[i] == b[i]
}

/// `a` and `b` part at place `at`, where `a` has the smaller frame.
pub open spec fn parts_at(a: Seq<usize>, b: Seq<usize>, at: int) -> bool {
    &&& 0 <= at < a.len()
    &&& at < b.len()
    &&& a[at] < b[at]
    &&& forall|i: int| 0 <= i < at ==> a[i] == b[i]
}

/// At the first place where `a` and `b` differ both have a frame, and `a` has the smaller one.
pub open spec fn branches_before(a: Seq<usize>, b: Seq<usize>) -> bool {
    exists|at: int| parts_at(a, b, at)
}

/// `a` comes before `b`: it is a shorter beginning of `b`, or branches off before it.
pub open spec fn precedes(a: Seq<usize>, b: Seq<usize>) -> bool {
    ||| begins(a, b) && a.len() < b.len()
    ||| branches_before(a, b)
}

/// What stands in `m` under the stacks that `k` begins.
pub open spec fn under<V>(m: Map<Seq<usize>, V>, k: Seq<usize>) -> Map<Seq<usize>, V> {
    Map::new(|s: Seq<usize>| m.contains_key(s) && begins(k, s), |s: Seq<usize>| m[s])
}

/// `k` is one of the first `n` of `keys`.
pub open spec fn among(keys: Seq<Seq<usize>>, n: int, k: Seq<usize>) -> bool {
    exists|i: int| 0 <= i < n && #[trigger] keys[i] == k
}

/// What stands in `m` under the first `n` of `keys`.
pub open spec fn first_of<V>(m: Map<Seq<usize>, V>, keys: Seq<Seq<usize>>, n: int) -> Map<
    Seq<usize>,
    V,
> {
    m.restrict(Set::new(|k: Seq<usize>| among(keys, n, k)))
}

/// One key more is one entry more.
pub proof fn lemma_first_next<V>(m: Map<Seq<usize>, V>, keys: Seq<Seq<usize>>, n: int)
    requires
        0 <= n < keys.len(),
        m.contains_key(keys[n]),
    ensures
        first_of(m, keys, n + 1) == first_of(m, keys, n).insert(keys[n], m[keys[n]]),
{
    assert forall|k: Seq<usize>| #[trigger] among(keys, n + 1, k) <==> among(keys, n, k) || k
        == keys[n] by {
        if among(keys, n, k) {
            let j = choose|j: int| 0 <= j < n && #[trigger] keys[j] == k;
            assert(keys[j] == k);
        }
    }
    assert(first_of(m, keys, n + 1) =~= first_of(m, keys, n).insert(keys[n], m[keys[n]]));
}

/// With all its keys a map is whole, and it is finite.
proof fn lemma_first_all<V>(m: Map<Seq<usize>, V>, keys: Seq<Seq<usize>>)
    requires
        forall|k: Seq<usize>| m.contains_key(k) ==> #[trigger] keys.contains(k),
    ensures
        first_of(m, keys, keys.len() as int) == m,
        m.dom().finite(),
{
    assert forall|k: Seq<usize>| #[trigger] m.contains_key(k) implies among(
        keys,
        keys.len() as int,
        k,
    ) by {
        assert(keys.contains(k));
    }
    assert(first_of(m, keys, keys.len() as int) =~= m);
    assert(m.dom().subset_of(keys.to_set()));
    vstd::seq_lib::seq_to_set_is_finite(keys);
    vstd::set_lib::lemma_set_subset_finite(keys.to_set(), m.dom());
}

/// The stacks of some entries.
pub open spec fn entry_keys<C>(entries: Seq<(&Vec<usize>, C)>) -> Seq<Seq<usize>> {
    Seq::new(entries.len(), |i: int| entries[i].0@)
}

/// With the stacks of all its entries a map is whole, and it is finite.
pub proof fn lemma_entries_all<V, C>(m: Map<Seq<usize>, V>, entries: Seq<(&Vec<usize>, C)>)
    requires
        forall|k: Seq<usize>| #[trigger]
            m.contains_key(k) ==> exists|i: int|
                0 <= i < entries.len() && (#[trigger] entries[i]).0@ == k,
    ensures
        first_of(m, entry_keys(entries), entries.len() as int) == m,
        m.dom().finite(),
{
    let keys = entry_keys(entries);
    assert forall|k: Seq<usize>| m.contains_key(k) implies #[trigger] keys.contains(k) by {
        let i = choose|i: int| 0 <= i < entries.len() && (#[trigger] entries[i]).0@ == k;
        assert(keys[i] == k);
    }
    lemma_first_all(m, keys);
}

/// Two stacks that begin each other are one stack.
pub proof fn lemma_begins_antisymmetric(a: Seq<usize>, b: Seq<usize>)
    requires
        begins(a, b),
        begins(b, a),
    ensures
        a == b,
{
    assert(a =~= b);
}

/// What begins a beginning begins the whole.
pub proof fn lemma_begins_transitive(a: Seq<usize>, b: Seq<usize>, c: Seq<usize>)
    requires
        begins(a, b),
        begins(b, c),
    ensures
        begins(a, c),
{
}

/// Of two beginnings of one stack, the shorter begins the longer.
pub proof fn lemma_begins_nested(a: Seq<usize>, b: Seq<usize>, c: Seq<usize>)
    requires
        begins(a, c),
        begins(b, c),
    ensures
        begins(a, b) || begins(b, a),
{
}

/// Stacks on different branches do not begin each other, and neither do their extensions.
pub proof fn lemma_branches_extend(
    a: Seq<usize>,
    b: Seq<usize>,
    x: Seq<usize>,
    y: Seq<usize>,
)
    requires
        branches_before(a, b),
        begins(a, x),
        begins(b, y),
    ensures
        branches_before(x, y),
        !begins(x, y),
        !begins(y, x),
{
    let at = choose|at: int| parts_at(a, b, at);
    assert(parts_at(x, y, at));
}

/// Any two different stacks stand in one order or the other.
pub proof fn lemma_precedes_total(a: Seq<usize>, b: Seq<usize>)
    ensures
        a == b || precedes(a, b) || precedes(b, a),
{
    lemma_precedes_total_from(a, b, 0);
}

/// Two stacks that agree up to `at` stand in one order or the other.
proof fn lemma_precedes_total_from(a: Seq<usize>, b: Seq<usize>, at: int)
    requires
        0 <= at <= a.len(),
        at <= b.len(),
        forall|i: int| 0 <= i < at ==> a[i] == b[i],
    ensures
        a == b || precedes(a, b) || precedes(b, a),
    decreases a.len() - at,
{
    if at == a.len() || at == b.len() {
        if a.len() == b.len() {
            assert(a =~= b);
        } else if a.len() < b.len() {
            assert(begins(a, b));
        } else {
            assert(begins(b, a));
        }
    } else if a[at] < b[at] {
        assert(parts_at(a, b, at));
    } else if b[at] < a[at] {
        assert(parts_at(b, a, at));
    } else {
        lemma_precedes_total_from(a, b, at + 1);
    }
}

/// No two stacks stand in both orders.
pub proof fn lemma_precedes_asymmetric(a: Seq<usize>, b: Seq<usize>)
    requires
        precedes(a, b),
    ensures
        !precedes(b, a),
        a != b,
{
    if branches_before(a, b) {
        let at = choose|at: int| parts_at(a, b, at);
        assert(a[at] < b[at]);
        if branches_before(b, a) {
            let back = choose|back: int| parts_at(b, a, back);
            if back < at {
                assert(a[back] == b[back]);
            } else if at < back {
                assert(b[at] == a[at]);
            }
        }
    } else if branches_before(b, a) {
        let back = choose|back: int| parts_at(b, a, back);
        assert(a[back] == b[back]);
    }
}

/// The order of stacks is transitive.
pub proof fn lemma_precedes_transitive(a: Seq<usize>, b: Seq<usize>, c: Seq<usize>)
    requires
        precedes(a, b),
        precedes(b, c),
    ensures
        precedes(a, c),
{
    if branches_before(a, b) {
        let at = choose|at: int| parts_at(a, b, at);
        if branches_before(b, c) {
            let next = choose|next: int| parts_at(b, c, next);
            if at <= next {
                assert(parts_at(a, c, at));
            } else {
                assert(parts_at(a, c, next));
            }
        } else {
            assert(parts_at(a, c, at));
        }
    } else if branches_before(b, c) {
        let next = choose|next: int| parts_at(b, c, next);
        if next < a.len() {
            assert(parts_at(a, c, next));
        } else {
            assert(begins(a, c));
        }
    } else {
        assert(begins(a, c));
    }
}

} // verus!
