//! The nearest descendants of a trie node that have keys.
use radix_trie::SubTrie;
use vstd::prelude::*;

use crate::stacks::branches_before;
use crate::stats::{sums_of, CallStackStats, StatsView};
use crate::sums::Tally;
use crate::trie::{
    children_at, headed_by, key_at, node_height, node_key, node_stats, parts_of, splits,
};

verus! {

/// Each of the nodes has a key, which begins all the stacks at and below it.
pub open spec fn all_keyed(nodes: Seq<SubTrie<'_, Vec<usize>, CallStackStats>>) -> bool {
    forall|i: int|
        0 <= i < nodes.len() ==> (node_key(#[trigger] nodes[i]) matches Some(key) && headed_by(
            node_stats(nodes[i]),
            key,
        ))
}

/// The stacks of the first `n` parts.
pub open spec fn keys_before<V>(parts: Seq<Map<Seq<usize>, V>>, n: int) -> Set<Seq<usize>> {
    Set::new(|k: Seq<usize>| exists|i: int| 0 <= i < n && #[trigger] parts[i].contains_key(k))
}

/// The first `n + 1` parts have the stacks of the first `n` and those of the next one.
pub proof fn lemma_keys_next<V>(parts: Seq<Map<Seq<usize>, V>>, n: int)
    requires
        0 <= n < parts.len(),
    ensures
        keys_before(parts, n + 1) == keys_before(parts, n).union(parts[n].dom()),
{
    assert forall|k: Seq<usize>| #[trigger] keys_before(parts, n + 1).contains(k) <==> keys_before(
        parts,
        n,
    ).contains(k) || parts[n].contains_key(k) by {
        if keys_before(parts, n + 1).contains(k) {
            let i = choose|i: int| 0 <= i < n + 1 && #[trigger] parts[i].contains_key(k);
            assert(parts[i].contains_key(k));
        }
        if keys_before(parts, n).contains(k) {
            let i = choose|i: int| 0 <= i < n && #[trigger] parts[i].contains_key(k);
            assert(parts[i].contains_key(k));
        }
    }
    assert(keys_before(parts, n + 1) =~= keys_before(parts, n).union(parts[n].dom()));
}

/// What the statistics of each part amount to.
pub open spec fn sums_each(parts: Seq<Map<Seq<usize>, StatsView>>) -> Seq<
    Map<Seq<usize>, Tally>,
> {
    Seq::new(parts.len(), |i: int| sums_of(parts[i]))
}

/// Where statistics fall into parts, what they amount to falls into parts in the same way.
pub proof fn lemma_sums_split(
    own: Option<Seq<usize>>,
    whole: Map<Seq<usize>, StatsView>,
    parts: Seq<Map<Seq<usize>, StatsView>>,
)
    requires
        splits(own, whole, parts),
    ensures
        splits(own, sums_of(whole), sums_each(parts)),
{
    let sums = sums_of(whole);
    let each = sums_each(parts);
    assert(sums.dom() =~= whole.dom());
    assert forall|i: int, k: Seq<usize>|
        0 <= i < each.len() && #[trigger] each[i].contains_key(k) implies own != Some(k)
        && sums.contains_key(k) && sums[k] == each[i][k] by {
        assert(parts[i].contains_key(k));
    }
    assert forall|k: Seq<usize>| #[trigger] sums.contains_key(k) implies own == Some(k)
        || exists|i: int| 0 <= i < each.len() && #[trigger] each[i].contains_key(k) by {
        assert(whole.contains_key(k));
        if own != Some(k) {
            let i = choose|i: int| 0 <= i < parts.len() && #[trigger] parts[i].contains_key(k);
            assert(each[i].contains_key(k));
        }
    }
    assert forall|i: int, j: int, a: Seq<usize>, b: Seq<usize>|
        0 <= i < j < each.len() && #[trigger] each[i].contains_key(a)
            && #[trigger] each[j].contains_key(b) implies branches_before(a, b) by {
        assert(parts[i].contains_key(a) && parts[j].contains_key(b));
    }
}

/// A split of some stacks and a split of stacks on later branches make up a split of both.
proof fn lemma_splits_join<V>(
    left: Map<Seq<usize>, V>,
    lefts: Seq<Map<Seq<usize>, V>>,
    right: Map<Seq<usize>, V>,
    rights: Seq<Map<Seq<usize>, V>>,
    whole: Map<Seq<usize>, V>,
)
    requires
        splits(None, left, lefts),
        splits(None, right, rights),
        forall|a: Seq<usize>, b: Seq<usize>| #[trigger]
            left.contains_key(a) && #[trigger] right.contains_key(b) ==> branches_before(a, b),
        whole.dom() == left.dom().union(right.dom()),
        forall|k: Seq<usize>| #[trigger] left.contains_key(k) ==> whole[k] == left[k],
        forall|k: Seq<usize>| #[trigger] right.contains_key(k) ==> whole[k] == right[k],
    ensures
        splits(None, whole, lefts + rights),
{
    let parts = lefts + rights;
    assert forall|i: int, k: Seq<usize>|
        0 <= i < parts.len() && #[trigger] parts[i].contains_key(k) implies whole.contains_key(k)
        && whole[k] == parts[i][k] by {
        if i < lefts.len() {
            assert(lefts[i].contains_key(k));
        } else {
            assert(rights[i - lefts.len()].contains_key(k));
        }
    }
    assert forall|k: Seq<usize>| #[trigger] whole.contains_key(k) implies exists|i: int|
        0 <= i < parts.len() && #[trigger] parts[i].contains_key(k) by {
        if left.contains_key(k) {
            let i = choose|i: int| 0 <= i < lefts.len() && #[trigger] lefts[i].contains_key(k);
            assert(parts[i].contains_key(k));
        } else {
            assert(right.contains_key(k));
            let i = choose|i: int| 0 <= i < rights.len() && #[trigger] rights[i].contains_key(k);
            assert(parts[i + lefts.len()].contains_key(k));
        }
    }
    assert forall|i: int, j: int, a: Seq<usize>, b: Seq<usize>|
        0 <= i < j < parts.len() && #[trigger] parts[i].contains_key(a)
            && #[trigger] parts[j].contains_key(b) implies branches_before(a, b) by {
        if j < lefts.len() {
            assert(lefts[i].contains_key(a) && lefts[j].contains_key(b));
        } else if i < lefts.len() {
            assert(lefts[i].contains_key(a) && rights[j - lefts.len()].contains_key(b));
            assert(left.contains_key(a) && right.contains_key(b));
        } else {
            assert(rights[i - lefts.len()].contains_key(a) && rights[j
                - lefts.len()].contains_key(b));
        }
    }
}

/// The nearest descendants of `node` that have keys, in order. They hold between them everything
/// that is below the node.
pub(crate) fn trie_children_with_keys<'a>(
    node: &SubTrie<'a, Vec<usize>, CallStackStats>,
) -> (found: Vec<SubTrie<'a, Vec<usize>, CallStackStats>>)
    ensures
        all_keyed(found@),
        splits(node_key(*node), node_stats(*node), parts_of(found@)),
        forall|i: int|
            0 <= i < found.len() ==> node_height(#[trigger] found[i]) < node_height(*node),
    decreases node_height(*node),
{
    let ghost whole = node_stats(*node);
    let ghost own = node_key(*node);
    let ghost height = node_height(*node);
    let mut found: Vec<SubTrie<'a, Vec<usize>, CallStackStats>> = Vec::new();
    let children = children_at(node);
    let ghost parts = parts_of(children@);
    assert(whole.restrict(keys_before(parts, 0)).dom() =~= Set::empty());
    for child in it: children
        invariant
            splits(own, whole, parts),
            height == node_height(*node),
            parts == parts_of(it.seq()),
            forall|i: int| 0 <= i < it.seq().len() ==> node_height(#[trigger] it.seq()[i]) < height,
            all_keyed(found@),
            splits(
                None,
                whole.restrict(keys_before(parts, it.index() as int)),
                parts_of(found@),
            ),
            forall|i: int| 0 <= i < found.len() ==> node_height(#[trigger] found[i]) < height,
    {
        let ghost n = it.index() as int;
        let ghost part = node_stats(child);
        let ghost before = found@;
        let ghost more: Seq<Map<Seq<usize>, StatsView>>;
        assert(parts[n] == part);
        if key_at(&child).is_some() {
            proof {
                more = seq![part];
                assert forall|k: Seq<usize>| #[trigger] part.contains_key(k) implies exists|i: int|
                    0 <= i < more.len() && #[trigger] more[i].contains_key(k) by {
                    assert(more[0].contains_key(k));
                }
                assert(splits(None, part, more));
            }
            found.push(child);
        } else {
            let mut deeper = trie_children_with_keys(&child);
            proof {
                more = parts_of(deeper@);
            }
            found.append(&mut deeper);
        }
        proof {
            lemma_keys_next(parts, n);
            let left = whole.restrict(keys_before(parts, n));
            let both = whole.restrict(keys_before(parts, n + 1));
            assert forall|k: Seq<usize>| #[trigger] part.contains_key(k) implies whole.contains_key(
                k,
            ) && whole[k] == part[k] by {
                assert(parts[n].contains_key(k));
            }
            assert(both.dom() =~= left.dom().union(part.dom()));
            lemma_splits_join(left, parts_of(before), part, more, both);
            assert(parts_of(found@) =~= parts_of(before) + more);
        }
    }
    proof {
        let all = keys_before(parts, parts.len() as int);
        let rest = whole.restrict(all);
        let nodes = parts_of(found@);
        assert forall|k: Seq<usize>| #[trigger] all.contains(k) implies own != Some(k) by {
            let i = choose|i: int| 0 <= i < parts.len() && #[trigger] parts[i].contains_key(k);
            assert(parts[i].contains_key(k));
        }
        assert forall|k: Seq<usize>| #[trigger] whole.contains_key(k) implies own == Some(k)
            || exists|i: int| 0 <= i < nodes.len() && #[trigger] nodes[i].contains_key(k) by {
            if own != Some(k) {
                assert(all.contains(k));
                assert(rest.contains_key(k));
            }
        }
        assert forall|i: int, k: Seq<usize>|
            0 <= i < nodes.len() && #[trigger] nodes[i].contains_key(k) implies own != Some(k)
            && whole.contains_key(k) && whole[k] == nodes[i][k] by {
            assert(rest.contains_key(k));
            assert(all.contains(k));
        }
    }
    found
}

} // verus!
