//! The tries of the `radix_trie` crate, keyed by call stacks.
//!
//! The crate encodes a call stack as the big-endian bytes of its frames, so that two stacks have
//! the same encoding only if they are equal, one encoding begins another exactly if the one stack
//! begins the other, and a trie walks its stacks in the order of [`precedes`].
use std::collections::HashMap;

use radix_trie::{SubTrie, Trie, TrieCommon};
use vstd::prelude::*;

use crate::stacks::{begins, branches_before, precedes};
use crate::stats::{AllocCounts, CallStackStats, StatsView};

verus! {

/// `radix_trie::Trie`, a map from keys to values that shares the beginnings of its keys.
#[verifier::external_type_specification]
#[verifier::external_body]
#[verifier::reject_recursive_types(K)]
#[verifier::reject_recursive_types(V)]
pub struct ExTrie<K, V>(Trie<K, V>);

/// `radix_trie::SubTrie`, a node of a trie together with everything below it.
#[verifier::external_type_specification]
#[verifier::external_body]
#[verifier::reject_recursive_types(K)]
#[verifier::reject_recursive_types(V)]
pub struct ExSubTrie<'a, K: 'a, V: 'a>(SubTrie<'a, K, V>);

/// The call stacks in a trie, each with its allocation counts.
pub uninterp spec fn counts_of(trie: Trie<Vec<usize>, HashMap<usize, usize>>) -> Map<
    Seq<usize>,
    Map<usize, usize>,
>;

/// The call stacks in a trie, each with its statistics.
pub uninterp spec fn stats_of(trie: Trie<Vec<usize>, CallStackStats>) -> Map<
    Seq<usize>,
    StatsView,
>;

/// The call stacks at and below a node, each with its statistics.
pub uninterp spec fn node_stats(node: SubTrie<'_, Vec<usize>, CallStackStats>) -> Map<
    Seq<usize>,
    StatsView,
>;

/// The call stack that is stored at the node itself, if there is one.
pub uninterp spec fn node_key(node: SubTrie<'_, Vec<usize>, CallStackStats>) -> Option<Seq<usize>>;

/// The number of nodes on the longest way down from a node.
pub uninterp spec fn node_height(node: SubTrie<'_, Vec<usize>, CallStackStats>) -> nat;

/// What stands at and below each of some nodes.
pub open spec fn parts_of(nodes: Seq<SubTrie<'_, Vec<usize>, CallStackStats>>) -> Seq<
    Map<Seq<usize>, StatsView>,
> {
    Seq::new(nodes.len(), |i: int| node_stats(nodes[i]))
}

/// The finite map `m` has an entry for `top`, which begins all its stacks.
pub open spec fn headed_by<V>(m: Map<Seq<usize>, V>, top: Seq<usize>) -> bool {
    &&& m.dom().finite()
    &&& m.contains_key(top)
    &&& forall|k: Seq<usize>| #[trigger] m.contains_key(k) ==> begins(top, k)
}

/// The finite map `whole` falls into the entry of `own`, if there is one, and `parts`: the stack
/// of `own` begins all the others, and those of different parts are on different branches, the
/// parts in order.
pub open spec fn splits<V>(
    own: Option<Seq<usize>>,
    whole: Map<Seq<usize>, V>,
    parts: Seq<Map<Seq<usize>, V>>,
) -> bool {
    &&& whole.dom().finite()
    &&& own matches Some(top) ==> headed_by(whole, top)
    &&& forall|i: int, k: Seq<usize>|
        0 <= i < parts.len() && #[trigger] parts[i].contains_key(k) ==> own != Some(k)
            && whole.contains_key(k) && whole[k] == parts[i][k]
    &&& forall|k: Seq<usize>| #[trigger]
        whole.contains_key(k) ==> own == Some(k) || exists|i: int|
            0 <= i < parts.len() && #[trigger] parts[i].contains_key(k)
    &&& forall|i: int, j: int, a: Seq<usize>, b: Seq<usize>|
        0 <= i < j < parts.len() && #[trigger] parts[i].contains_key(a)
            && #[trigger] parts[j].contains_key(b) ==> branches_before(a, b)
}

/// `Trie::new`: an empty trie of allocation counts.
#[verifier::external_body]
pub(crate) fn new_counts() -> (trie: Trie<Vec<usize>, AllocCounts>)
    ensures
        (counts_of(trie) == Map::<Seq<usize>, Map<usize, usize>>::empty()),
{
    Trie::new()
}

/// `Trie::get_mut`: the counts of `stack`, to be changed in place, if the trie has that stack.
/// Nothing else in the trie changes.
#[verifier::external_body]
pub(crate) fn counts_mut<'a>(
    trie: &'a mut Trie<Vec<usize>, AllocCounts>,
    stack: &Vec<usize>,
) -> (found: Option<&'a mut AllocCounts>)
    ensures
        match found {
            Some(counts) => {
                &&& counts_of(*old(trie)).contains_key(stack@)
                &&& counts@ == counts_of(*old(trie))[stack@]
                &&& counts_of(*final(trie)) == counts_of(*old(trie)).insert(
                    stack@,
                    final(counts)@,
                )
            },
            None => {
                &&& !counts_of(*old(trie)).contains_key(stack@)
                &&& counts_of(*final(trie)) == counts_of(*old(trie))
            },
        },
{
    trie.get_mut(stack)
}

/// `Trie::get`: the counts of `stack`, if the trie has that stack.
#[verifier::external_body]
pub(crate) fn counts_at<'a>(
    trie: &'a Trie<Vec<usize>, AllocCounts>,
    stack: &Vec<usize>,
) -> (found: Option<&'a AllocCounts>)
    ensures
        match found {
            Some(counts) => counts_of(*trie).contains_key(stack@) && counts@ == counts_of(
                *trie,
            )[stack@],
            None => !counts_of(*trie).contains_key(stack@),
        },
{
    trie.get(stack)
}

/// `Trie::insert`: stores `counts` under `stack`, in place of what stood there.
#[verifier::external_body]
pub(crate) fn insert_counts(
    trie: &mut Trie<Vec<usize>, AllocCounts>,
    stack: Vec<usize>,
    counts: AllocCounts,
)
    ensures
        counts_of(*final(trie)) == counts_of(*old(trie)).insert(stack@, counts@),
{
    trie.insert(stack, counts);
}

/// `TrieCommon::iter`: every stack of the trie with its counts, once, in order.
#[verifier::external_body]
pub(crate) fn counts_entries<'a>(trie: &'a Trie<Vec<usize>, AllocCounts>) -> (entries: Vec<
    (&'a Vec<usize>, &'a AllocCounts),
>)
    ensures
        forall|i: int|
            0 <= i < entries.len() ==> counts_of(*trie).contains_key(
                (#[trigger] entries[i]).0@,
            ) && counts_of(*trie)[entries[i].0@] == entries[i].1@,
        forall|k: Seq<usize>| #[trigger]
            counts_of(*trie).contains_key(k) ==> exists|i: int|
                0 <= i < entries.len() && (#[trigger] entries[i]).0@ == k,
        forall|i: int, j: int|
            0 <= i < j < entries.len() ==> precedes(
                (#[trigger] entries[i]).0@,
                (#[trigger] entries[j]).0@,
            ),
{
    trie.iter().collect()
}

/// `Trie::new`: an empty trie of statistics.
#[verifier::external_body]
pub(crate) fn new_stats() -> (trie: Trie<Vec<usize>, CallStackStats>)
    ensures
        (stats_of(trie) == Map::<Seq<usize>, StatsView>::empty()),
{
    Trie::new()
}

/// `Trie::get`: the statistics of `stack`, if the trie has that stack.
#[verifier::external_body]
pub(crate) fn stats_at<'a>(
    trie: &'a Trie<Vec<usize>, CallStackStats>,
    stack: &Vec<usize>,
) -> (found: Option<&'a CallStackStats>)
    ensures
        match found {
            Some(stats) => stats_of(*trie).contains_key(stack@) && stats@ == stats_of(
                *trie,
            )[stack@],
            None => !stats_of(*trie).contains_key(stack@),
        },
{
    trie.get(stack)
}

/// `Trie::insert`: stores `stats` under `stack`, in place of what stood there.
#[verifier::external_body]
pub(crate) fn insert_stats(
    trie: &mut Trie<Vec<usize>, CallStackStats>,
    stack: Vec<usize>,
    stats: CallStackStats,
)
    ensures
        stats_of(*final(trie)) == stats_of(*old(trie)).insert(stack@, stats@),
{
    trie.insert(stack, stats);
}

/// `Trie::subtrie` on the empty stack, which every trie has a node for: the whole trie as a node.
#[verifier::external_body]
pub(crate) fn root<'a>(trie: &'a Trie<Vec<usize>, CallStackStats>) -> (node: SubTrie<
    'a,
    Vec<usize>,
    CallStackStats,
>)
    ensures
        node_stats(node) == stats_of(*trie),
        node_key(node) == (if stats_of(*trie).contains_key(Seq::empty()) {
            Some(Seq::<usize>::empty())
        } else {
            None
        }),
{
    trie.subtrie(&Vec::new()).unwrap()
}

/// `TrieCommon::key`: the stack that is stored at the node itself, if there is one. It begins all
/// the stacks below the node.
#[verifier::external_body]
pub(crate) fn key_at<'a>(node: &SubTrie<'a, Vec<usize>, CallStackStats>) -> (key: Option<
    &'a Vec<usize>,
>)
    ensures
        match key {
            Some(key) => node_key(*node) == Some(key@) && headed_by(node_stats(*node), key@),
            None => node_key(*node) is None,
        },
{
    node.key()
}

/// `TrieCommon::value`: the statistics that are stored at the node itself, if it has a stack.
#[verifier::external_body]
pub(crate) fn value_at<'a>(node: &SubTrie<'a, Vec<usize>, CallStackStats>) -> (value: Option<
    &'a CallStackStats,
>)
    ensures
        match value {
            Some(value) => node_key(*node) matches Some(key) && node_stats(*node)[key] == value@,
            None => node_key(*node) is None,
        },
{
    node.value()
}

/// `TrieCommon::children`: the nodes right below a node, in order, which hold between them
/// everything that is below it and are each less high.
#[verifier::external_body]
pub(crate) fn children_at<'a>(node: &SubTrie<'a, Vec<usize>, CallStackStats>) -> (children: Vec<
    SubTrie<'a, Vec<usize>, CallStackStats>,
>)
    ensures
        splits(node_key(*node), node_stats(*node), parts_of(children@)),
        forall|i: int|
            0 <= i < children.len() ==> node_height(#[trigger] children[i]) < node_height(*node),
{
    node.children().collect()
}

} // verus!
