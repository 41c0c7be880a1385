//! The order in which a report shows call stacks: most calls first.
use vstd::prelude::*;

use crate::stacks::{
    begins, lemma_begins_nested, lemma_precedes_asymmetric, lemma_precedes_total,
    lemma_precedes_transitive, precedes, under,
};
use crate::sums::{lemma_total_empty, lemma_total_split, plus, total, Tally};

verus! {

/// `k` is a topmost stack of `m`: no other stack of `m` begins it.
pub open spec fn topmost(m: Map<Seq<usize>, Tally>, k: Seq<usize>) -> bool {
    &&& m.contains_key(k)
    &&& forall|s: Seq<usize>| #[trigger] m.contains_key(s) && begins(s, k) ==> s == k
}

/// All the topmost stacks of `m`.
pub open spec fn tops(m: Map<Seq<usize>, Tally>) -> Set<Seq<usize>> {
    Set::new(|k: Seq<usize>| topmost(m, k))
}

/// `a` is shown before `b`: it has more calls, or as many and comes first in the order of stacks.
pub open spec fn outranks(m: Map<Seq<usize>, Tally>, a: Seq<usize>, b: Seq<usize>) -> bool {
    ||| m[a].0 > m[b].0
    ||| m[a].0 == m[b].0 && precedes(a, b)
}

/// `order` has each of `stacks` once, in the order in which they are shown.
pub open spec fn ranks(
    m: Map<Seq<usize>, Tally>,
    stacks: Set<Seq<usize>>,
    order: Seq<Seq<usize>>,
) -> bool {
    &&& forall|i: int| 0 <= i < order.len() ==> stacks.contains(#[trigger] order[i])
    &&& forall|k: Seq<usize>| #[trigger] stacks.contains(k) ==> order.contains(k)
    &&& forall|i: int, j: int|
        0 <= i < j < order.len() ==> outranks(m, #[trigger] order[i], #[trigger] order[j])
}

/// The topmost stacks of `m` in the order in which they are shown.
pub open spec fn ranked(m: Map<Seq<usize>, Tally>) -> Seq<Seq<usize>> {
    choose|order: Seq<Seq<usize>>| ranks(m, tops(m), order)
}

/// Any two stacks are shown in one order or the other.
proof fn lemma_outranks_total(m: Map<Seq<usize>, Tally>, a: Seq<usize>, b: Seq<usize>)
    ensures
        a == b || outranks(m, a, b) || outranks(m, b, a),
{
    lemma_precedes_total(a, b);
}

/// No two stacks are shown in both orders.
proof fn lemma_outranks_asymmetric(m: Map<Seq<usize>, Tally>, a: Seq<usize>, b: Seq<usize>)
    requires
        outranks(m, a, b),
    ensures
        !outranks(m, b, a),
        a != b,
{
    if precedes(a, b) {
        lemma_precedes_asymmetric(a, b);
    }
    if precedes(b, a) {
        lemma_precedes_asymmetric(b, a);
    }
}

/// The order in which stacks are shown is transitive.
proof fn lemma_outranks_transitive(
    m: Map<Seq<usize>, Tally>,
    a: Seq<usize>,
    b: Seq<usize>,
    c: Seq<usize>,
)
    requires
        outranks(m, a, b),
        outranks(m, b, c),
    ensures
        outranks(m, a, c),
{
    if precedes(a, b) && precedes(b, c) {
        lemma_precedes_transitive(a, b, c);
    }
}

/// Some stack is shown first.
proof fn lemma_first_exists(m: Map<Seq<usize>, Tally>, stacks: Set<Seq<usize>>)
    requires
        stacks.finite(),
        stacks.len() > 0,
    ensures
        exists|k: Seq<usize>| #[trigger]
            stacks.contains(k) && forall|s: Seq<usize>| #[trigger]
                stacks.contains(s) && s != k ==> outranks(m, k, s),
    decreases stacks.len(),
{
    let a = stacks.choose();
    assert(stacks.contains(a));
    let others = stacks.remove(a);
    if others.len() == 0 {
        assert(others =~= Set::empty());
        assert forall|s: Seq<usize>| #[trigger] stacks.contains(s) && s != a implies outranks(
            m,
            a,
            s,
        ) by {
            assert(others.contains(s));
        }
    } else {
        lemma_first_exists(m, others);
        let b = choose|k: Seq<usize>| #[trigger]
            others.contains(k) && forall|s: Seq<usize>| #[trigger]
                others.contains(s) && s != k ==> outranks(m, k, s);
        lemma_outranks_total(m, a, b);
        let first = if outranks(m, a, b) {
            a
        } else {
            b
        };
        assert forall|s: Seq<usize>| #[trigger] stacks.contains(s) && s != first implies outranks(
            m,
            first,
            s,
        ) by {
            if s != a {
                assert(others.contains(s));
                if first == a && s != b {
                    lemma_outranks_transitive(m, a, b, s);
                }
            }
        }
        assert(stacks.contains(first));
    }
}

/// Every finite set of stacks can be put in the order in which they are shown.
pub proof fn lemma_order_exists(m: Map<Seq<usize>, Tally>, stacks: Set<Seq<usize>>)
    requires
        stacks.finite(),
    ensures
        exists|order: Seq<Seq<usize>>| ranks(m, stacks, order),
    decreases stacks.len(),
{
    if stacks.len() == 0 {
        assert(stacks =~= Set::empty());
        assert(ranks(m, stacks, Seq::empty()));
    } else {
        lemma_first_exists(m, stacks);
        let first = choose|k: Seq<usize>| #[trigger]
            stacks.contains(k) && forall|s: Seq<usize>| #[trigger]
                stacks.contains(s) && s != k ==> outranks(m, k, s);
        let others = stacks.remove(first);
        lemma_order_exists(m, others);
        let rest = choose|order: Seq<Seq<usize>>| ranks(m, others, order);
        let order = seq![first] + rest;
        assert forall|i: int| 0 <= i < order.len() implies stacks.contains(#[trigger] order[i]) by {
            if i > 0 {
                assert(others.contains(rest[i - 1]));
            }
        }
        assert forall|k: Seq<usize>| #[trigger] stacks.contains(k) implies order.contains(k) by {
            if k == first {
                assert(order[0] == k);
            } else {
                assert(others.contains(k));
                let i = choose|i: int| 0 <= i < rest.len() && rest[i] == k;
                assert(order[i + 1] == k);
            }
        }
        assert forall|i: int, j: int| 0 <= i < j < order.len() implies outranks(
            m,
            #[trigger] order[i],
            #[trigger] order[j],
        ) by {
            assert(others.contains(rest[j - 1]));
            if i > 0 {
                assert(outranks(m, rest[i - 1], rest[j - 1]));
            }
        }
        assert(ranks(m, stacks, order));
    }
}

/// There is only one such order.
pub proof fn lemma_order_unique(
    m: Map<Seq<usize>, Tally>,
    stacks: Set<Seq<usize>>,
    a: Seq<Seq<usize>>,
    b: Seq<Seq<usize>>,
)
    requires
        ranks(m, stacks, a),
        ranks(m, stacks, b),
    ensures
        a == b,
    decreases a.len(),
{
    if a.len() == 0 {
        if b.len() > 0 {
            assert(stacks.contains(b[0]));
            assert(a.contains(b[0]));
        }
        assert(a =~= b);
    } else {
        assert(stacks.contains(a[0]));
        assert(b.contains(a[0]));
        assert(stacks.contains(b[0]));
        assert(a.contains(b[0]));
        let i = choose|i: int| 0 <= i < a.len() && a[i] == b[0];
        let j = choose|j: int| 0 <= j < b.len() && b[j] == a[0];
        if i > 0 && j > 0 {
            assert(outranks(m, a[0], a[i]));
            assert(outranks(m, b[0], b[j]));
            lemma_outranks_asymmetric(m, a[0], b[0]);
        }
        assert(a[0] == b[0]);
        let first = a[0];
        let others = stacks.remove(first);
        lemma_order_rest(m, stacks, a);
        lemma_order_rest(m, stacks, b);
        lemma_order_unique(m, others, a.drop_first(), b.drop_first());
        assert(a =~= seq![first] + a.drop_first());
        assert(b =~= seq![first] + b.drop_first());
    }
}

/// Without its first stack, an order is one of the others.
proof fn lemma_order_rest(m: Map<Seq<usize>, Tally>, stacks: Set<Seq<usize>>, a: Seq<Seq<usize>>)
    requires
        ranks(m, stacks, a),
        a.len() > 0,
    ensures
        ranks(m, stacks.remove(a[0]), a.drop_first()),
{
    let others = stacks.remove(a[0]);
    let rest = a.drop_first();
    assert forall|i: int| 0 <= i < rest.len() implies others.contains(#[trigger] rest[i]) by {
        assert(rest[i] == a[i + 1]);
        assert(outranks(m, a[0], a[i + 1]));
        lemma_outranks_asymmetric(m, a[0], a[i + 1]);
    }
    assert forall|k: Seq<usize>| #[trigger] others.contains(k) implies rest.contains(k) by {
        assert(stacks.contains(k));
        let i = choose|i: int| 0 <= i < a.len() && a[i] == k;
        assert(rest[i - 1] == k);
    }
    assert forall|i: int, j: int| 0 <= i < j < rest.len() implies outranks(
        m,
        #[trigger] rest[i],
        #[trigger] rest[j],
    ) by {
        assert(outranks(m, a[i + 1], a[j + 1]));
    }
}

/// The topmost stacks of a finite map are ranked, each once.
pub proof fn lemma_ranked(m: Map<Seq<usize>, Tally>)
    requires
        m.dom().finite(),
    ensures
        ranks(m, tops(m), ranked(m)),
        forall|i: int, j: int|
            0 <= i < j < ranked(m).len() ==> #[trigger] ranked(m)[i] != #[trigger] ranked(m)[j],
{
    assert(tops(m).subset_of(m.dom()));
    vstd::set_lib::lemma_set_subset_finite(m.dom(), tops(m));
    lemma_order_exists(m, tops(m));
    assert forall|i: int, j: int| 0 <= i < j < ranked(m).len() implies #[trigger] ranked(m)[i]
        != #[trigger] ranked(m)[j] by {
        lemma_outranks_asymmetric(m, ranked(m)[i], ranked(m)[j]);
    }
}

/// What the first `n` stacks of `order` amount to.
pub open spec fn sum_over(m: Map<Seq<usize>, Tally>, order: Seq<Seq<usize>>, n: nat) -> Tally
    decreases n,
{
    if n == 0 {
        (0, 0)
    } else {
        plus(sum_over(m, order, (n - 1) as nat), m[order[n - 1]])
    }
}

/// The stacks that one of the first `n` stacks of `order` begins.
pub open spec fn begun(order: Seq<Seq<usize>>, n: nat) -> Set<Seq<usize>> {
    Set::new(|s: Seq<usize>| exists|i: int| 0 <= i < n && begins(#[trigger] order[i], s))
}

/// Different topmost stacks begin different stacks, so that what they amount to is what all the
/// stacks of `t` amount to that one of them begins.
pub proof fn lemma_sum_begun(
    m: Map<Seq<usize>, Tally>,
    t: Map<Seq<usize>, Tally>,
    order: Seq<Seq<usize>>,
    n: nat,
)
    requires
        t.dom().finite(),
        forall|k: Seq<usize>| #[trigger] m.contains_key(k) ==> m[k] == total(under(t, k)),
        n <= order.len(),
        forall|i: int| 0 <= i < order.len() ==> topmost(m, #[trigger] order[i]),
        forall|i: int, j: int|
            0 <= i < j < order.len() ==> #[trigger] order[i] != #[trigger] order[j],
    ensures
        sum_over(m, order, n) == total(t.restrict(begun(order, n))),
    decreases n,
{
    let all = begun(order, n);
    lemma_total_split(t, all);
    if n == 0 {
        lemma_total_empty(t.restrict(all));
    } else {
        let k = order[n - 1];
        let before = begun(order, (n - 1) as nat);
        let here = t.restrict(all);
        lemma_sum_begun(m, t, order, (n - 1) as nat);
        lemma_total_split(here, before);
        assert forall|s: Seq<usize>| before.contains(s) implies #[trigger] all.contains(s) by {
            let i = choose|i: int| 0 <= i < n - 1 && begins(#[trigger] order[i], s);
            assert(begins(order[i], s));
        }
        assert(here.restrict(before) =~= t.restrict(before));
        assert forall|s: Seq<usize>| begins(k, s) implies !before.contains(s)
            && #[trigger] all.contains(s) by {
            assert(begins(order[n - 1], s));
            if before.contains(s) {
                let i = choose|i: int| 0 <= i < n - 1 && begins(#[trigger] order[i], s);
                lemma_begins_nested(order[i], k, s);
                assert(topmost(m, order[i]) && topmost(m, k));
            }
        }
        assert forall|s: Seq<usize>| #[trigger]
            all.contains(s) && !before.contains(s) implies begins(k, s) by {
            let i = choose|i: int| 0 <= i < n && begins(#[trigger] order[i], s);
            if i < n - 1 {
                assert(begins(order[i], s));
            }
        }
        assert(here.remove_keys(before) =~= under(t, k));
        assert(topmost(m, k));
    }
}

/// Every stack has a topmost stack that begins it.
pub proof fn lemma_top_of(m: Map<Seq<usize>, Tally>, s: Seq<usize>) -> (top: Seq<usize>)
    requires
        m.contains_key(s),
    ensures
        topmost(m, top),
        begins(top, s),
    decreases s.len(),
{
    if topmost(m, s) {
        s
    } else {
        let shorter = choose|k: Seq<usize>| #[trigger]
            m.contains_key(k) && begins(k, s) && k != s;
        if shorter.len() == s.len() {
            assert(shorter =~= s);
        }
        lemma_top_of(m, shorter)
    }
}

/// Where every stack of `t` is one of `m`, the topmost stacks amount to all there is.
pub proof fn lemma_tops_cover(m: Map<Seq<usize>, Tally>, t: Map<Seq<usize>, Tally>)
    requires
        m.dom().finite(),
        t.dom().finite(),
        forall|k: Seq<usize>| #[trigger] m.contains_key(k) ==> m[k] == total(under(t, k)),
        forall|s: Seq<usize>| #[trigger] t.contains_key(s) ==> m.contains_key(s),
    ensures
        sum_over(m, ranked(m), ranked(m).len()) == total(t),
{
    let order = ranked(m);
    lemma_ranked(m);
    assert forall|i: int| 0 <= i < order.len() implies topmost(m, #[trigger] order[i]) by {
        assert(tops(m).contains(order[i]));
    }
    lemma_sum_begun(m, t, order, order.len());
    assert forall|s: Seq<usize>| #[trigger] t.contains_key(s) implies begun(
        order,
        order.len(),
    ).contains(s) by {
        let top = lemma_top_of(m, s);
        assert(tops(m).contains(top));
        assert(order.contains(top));
    }
    assert(t.restrict(begun(order, order.len())) =~= t);
}

/// The position `p` of `counts` comes before `q`: it has the larger count, or an equal one and
/// is the smaller position.
pub open spec fn ahead(counts: Seq<usize>, p: usize, q: usize) -> bool {
    ||| counts[p as int] > counts[q as int]
    ||| counts[p as int] == counts[q as int] && p < q
}

/// `order` has each of the positions from `from` up to `to`, in order.
pub open spec fn sorts_between(counts: Seq<usize>, from: int, to: int, order: Seq<usize>) -> bool {
    &&& forall|i: int| 0 <= i < order.len() ==> from <= (#[trigger] order[i]) < to
    &&& forall|p: usize| from <= p < to ==> #[trigger] order.contains(p)
    &&& forall|i: int, j: int|
        0 <= i < j < order.len() ==> ahead(counts, #[trigger] order[i], #[trigger] order[j])
}

/// The positions of `counts`, the largest count first and equal counts in their order.
pub open spec fn sorts_down(counts: Seq<usize>, order: Seq<usize>) -> bool {
    sorts_between(counts, 0, counts.len() as int, order)
}

/// Sorts the positions of `counts` by falling count. The sort is stable.
pub(crate) fn by_calls(counts: &Vec<usize>) -> (order: Vec<usize>)
    ensures
        sorts_down(counts@, order@),
        order.len() == counts.len(),
{
    sort_between(counts, 0, counts.len())
}

/// Sorts the positions from `from` up to `to`: each half for itself, and then both together.
fn sort_between(counts: &Vec<usize>, from: usize, to: usize) -> (order: Vec<usize>)
    requires
        from <= to <= counts.len(),
    ensures
        sorts_between(counts@, from as int, to as int, order@),
        order.len() == to - from,
    decreases to - from,
{
    if to - from <= 1 {
        let mut order: Vec<usize> = Vec::new();
        if from < to {
            order.push(from);
            assert(order@[0] == from);
        }
        return order;
    }
    let middle: usize = from + (to - from) / 2;
    let left = sort_between(counts, from, middle);
    let right = sort_between(counts, middle, to);
    merge_sorted(counts, &left, &right, Ghost(from as int), Ghost(middle as int), Ghost(to as int))
}

/// Merges the sorted positions of two ranges, of which one follows the other.
fn merge_sorted(
    counts: &Vec<usize>,
    left: &Vec<usize>,
    right: &Vec<usize>,
    Ghost(from): Ghost<int>,
    Ghost(middle): Ghost<int>,
    Ghost(to): Ghost<int>,
) -> (order: Vec<usize>)
    requires
        0 <= from <= middle <= to <= counts.len(),
        sorts_between(counts@, from, middle, left@),
        sorts_between(counts@, middle, to, right@),
        left.len() + right.len() <= usize::MAX,
    ensures
        sorts_between(counts@, from, to, order@),
        order.len() == left.len() + right.len(),
{
    let mut order: Vec<usize> = Vec::new();
    let mut i: usize = 0;
    let mut j: usize = 0;
    while i < left.len() || j < right.len()
        invariant
            0 <= from <= middle <= to <= counts.len(),
            sorts_between(counts@, from, middle, left@),
            sorts_between(counts@, middle, to, right@),
            left.len() + right.len() <= usize::MAX,
            i <= left.len(),
            j <= right.len(),
            order.len() == i + j,
            forall|x: int| 0 <= x < order.len() ==> from <= (#[trigger] order[x]) < to,
            forall|x: int, y: int|
                0 <= x < y < order.len() ==> ahead(
                    counts@,
                    #[trigger] order[x],
                    #[trigger] order[y],
                ),
            forall|x: int, y: int|
                0 <= x < order.len() && i <= y < left.len() ==> ahead(
                    counts@,
                    #[trigger] order[x],
                    #[trigger] left[y],
                ),
            forall|x: int, y: int|
                0 <= x < order.len() && j <= y < right.len() ==> ahead(
                    counts@,
                    #[trigger] order[x],
                    #[trigger] right[y],
                ),
            forall|y: int| 0 <= y < i ==> order@.contains(#[trigger] left[y]),
            forall|y: int| 0 <= y < j ==> order@.contains(#[trigger] right[y]),
        decreases left.len() - i + right.len() - j,
    {
        let ghost before = order@;
        let take_left = j == right.len() || i < left.len() && counts[left[i]] >= counts[right[j]];
        if take_left {
            order.push(left[i]);
            i = i + 1;
        } else {
            order.push(right[j]);
            j = j + 1;
        }
        proof {
            assert forall|p: usize| before.contains(p) implies #[trigger] order@.contains(p) by {
                let x = choose|x: int| 0 <= x < before.len() && before[x] == p;
                assert(order@[x] == p);
            }
            assert(order@.contains(order@[before.len() as int]));
        }
    }
    proof {
        assert forall|p: usize| from <= p < to implies #[trigger] order@.contains(p) by {
            if p < middle {
                assert(left@.contains(p));
                let y = choose|y: int| 0 <= y < left.len() && left@[y] == p;
                assert(order@.contains(left[y]));
            } else {
                assert(right@.contains(p));
                let y = choose|y: int| 0 <= y < right.len() && right@[y] == p;
                assert(order@.contains(right[y]));
            }
        }
    }
    order
}

} // verus!
