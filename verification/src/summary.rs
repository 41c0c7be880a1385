//! Aggregation of allocation counts over the beginnings of call stacks.
use radix_trie::{SubTrie, Trie};
use vstd::prelude::*;

use crate::children::{
    keys_before, lemma_keys_next, lemma_sums_split, sums_each, trie_children_with_keys,
};
use crate::profile::{finite_counts, Profile};
use crate::stacks::{
    among, begins, branches_before, entry_keys, first_of, lemma_begins_antisymmetric,
    lemma_begins_transitive, lemma_branches_extend, lemma_entries_all, lemma_first_next,
    lemma_precedes_asymmetric, precedes, under,
};
use crate::stats::{add_up, sums_of, tally, CallStack, CallStackStats, StatsView};
use crate::sums::{
    fits, lemma_total_drop_zeros, lemma_total_empty, lemma_total_grow, lemma_total_insert,
    lemma_total_split, plus, total, Tally,
};
use crate::trie::{
    counts_entries, headed_by, insert_stats, key_at, new_stats, node_height, node_key, node_stats,
    parts_of, root, splits, stats_at, stats_of, value_at,
};

verus! {

broadcast use vstd::std_specs::hash::group_hash_axioms;

/// What each recorded call stack amounts to.
pub open spec fn tallies(stacks: Map<Seq<usize>, Map<usize, usize>>) -> Map<Seq<usize>, Tally> {
    Map::new(|s: Seq<usize>| stacks.contains_key(s), |s: Seq<usize>| tally(stacks[s]))
}

/// The stacks that a summary lists: those that were recorded, and their beginnings that leave out
/// at least the last two frames.
pub open spec fn listed<V>(stacks: Map<Seq<usize>, V>, k: Seq<usize>) -> bool {
    ||| stacks.contains_key(k)
    ||| exists|s: Seq<usize>| #[trigger]
        stacks.contains_key(s) && begins(k, s) && 1 <= k.len() < s.len() - 1
}

/// With each listed stack, what all the recorded stacks that it begins amount to.
pub open spec fn totals_of(stacks: Map<Seq<usize>, Map<usize, usize>>) -> Map<Seq<usize>, Tally> {
    Map::new(
        |k: Seq<usize>| listed(stacks, k),
        |k: Seq<usize>| total(under(tallies(stacks), k)),
    )
}

/// A summary of finitely many stacks is finite.
pub proof fn lemma_listed_finite<V>(stacks: Map<Seq<usize>, V>)
    requires
        stacks.dom().finite(),
    ensures
        Set::new(|k: Seq<usize>| listed(stacks, k)).finite(),
    decreases stacks.dom().len(),
{
    let all = Set::new(|k: Seq<usize>| listed(stacks, k));
    if stacks.dom().len() == 0 {
        assert(stacks.dom() =~= Set::empty());
        assert(all =~= Set::empty());
    } else {
        let s = stacks.dom().choose();
        let others = stacks.remove(s);
        assert(stacks.contains_key(s));
        lemma_listed_finite(others);
        let beginnings = Seq::new(s.len() + 1, |i: int| s.take(i));
        vstd::seq_lib::seq_to_set_is_finite(beginnings);
        let cover = Set::new(|k: Seq<usize>| listed(others, k)).union(beginnings.to_set());
        assert forall|k: Seq<usize>| #[trigger] all.contains(k) implies cover.contains(k) by {
            if !listed(others, k) {
                if !stacks.contains_key(k) {
                    let t = choose|t: Seq<usize>| #[trigger]
                        stacks.contains_key(t) && begins(k, t) && 1 <= k.len() < t.len() - 1;
                    if t != s {
                        assert(others.contains_key(t));
                    }
                }
                assert(begins(k, s));
                assert(k =~= s.take(k.len() as int));
                assert(beginnings[k.len() as int] == k);
            }
        }
        assert(all.subset_of(cover));
        vstd::set_lib::lemma_set_subset_finite(cover, all);
    }
}

/// `k` begins no other stack of `m`.
pub open spec fn ends<V>(m: Map<Seq<usize>, V>, k: Seq<usize>) -> bool {
    forall|s: Seq<usize>| #[trigger] m.contains_key(s) && begins(k, s) ==> s == k
}

/// The summary of recorded call stacks. A listed stack that begins no other recorded one keeps
/// its number of allocations of each size; any other has the total of the recorded stacks that it
/// begins.
pub open spec fn summary_of(stacks: Map<Seq<usize>, Map<usize, usize>>) -> Map<
    Seq<usize>,
    StatsView,
> {
    Map::new(
        |k: Seq<usize>| listed(stacks, k),
        |k: Seq<usize>|
            if ends(stacks, k) {
                StatsView::Detailed(stacks[k])
            } else {
                StatsView::Summary(total(under(tallies(stacks), k)))
            },
    )
}

/// What is stored for the stack `k` of `m`: its own statistics if it begins no other stack, and
/// else the total of all the stacks that it begins.
pub open spec fn rolled_up(m: Map<Seq<usize>, StatsView>, k: Seq<usize>) -> StatsView {
    if ends(m, k) {
        m[k]
    } else {
        StatsView::Summary(total(sums_of(under(m, k))))
    }
}

/// `base`, with the stacks of `keys` stored over it as they are rolled up in `m`.
pub open spec fn with_rolled_up(
    base: Map<Seq<usize>, StatsView>,
    m: Map<Seq<usize>, StatsView>,
    keys: Set<Seq<usize>>,
) -> Map<Seq<usize>, StatsView> {
    Map::new(
        |k: Seq<usize>| base.contains_key(k) || keys.contains(k),
        |k: Seq<usize>|
            if keys.contains(k) {
                rolled_up(m, k)
            } else {
                base[k]
            },
    )
}

/// The total of a single entry is that entry.
proof fn lemma_total_single(m: Map<Seq<usize>, Tally>, k: Seq<usize>)
    requires
        m.contains_key(k),
        forall|s: Seq<usize>| #[trigger] m.contains_key(s) ==> s == k,
    ensures
        m.dom().finite(),
        total(m) == m[k],
{
    let none = Map::<Seq<usize>, Tally>::empty();
    lemma_total_empty(none);
    lemma_total_insert(none, k, m[k]);
    assert(m =~= none.insert(k, m[k]));
}

/// A summary amounts to the totals of the listed stacks.
pub proof fn lemma_summary_totals(stacks: Map<Seq<usize>, Map<usize, usize>>)
    ensures
        sums_of(summary_of(stacks)) == totals_of(stacks),
{
    assert forall|k: Seq<usize>| #[trigger] listed(stacks, k) implies summary_of(stacks)[k].tally()
        == totals_of(stacks)[k] by {
        if ends(stacks, k) {
            lemma_ends_recorded(stacks, k);
            lemma_total_single(under(tallies(stacks), k), k);
        }
    }
    assert(sums_of(summary_of(stacks)) =~= totals_of(stacks));
}

/// A listed stack that begins no other recorded one was recorded itself.
proof fn lemma_ends_recorded<V>(stacks: Map<Seq<usize>, V>, k: Seq<usize>)
    requires
        listed(stacks, k),
        ends(stacks, k),
    ensures
        stacks.contains_key(k),
{
}

/// The node's own stack and those of the first `n` parts.
spec fn reached(
    own: Option<Seq<usize>>,
    parts: Seq<Map<Seq<usize>, Tally>>,
    n: int,
) -> Set<Seq<usize>> {
    Set::new(|k: Seq<usize>| own == Some(k) || keys_before(parts, n).contains(k))
}

/// A part shares no stack with the node itself or with the parts before it, so that its total is
/// added to theirs.
proof fn lemma_next_total(
    own: Option<Seq<usize>>,
    whole: Map<Seq<usize>, Tally>,
    parts: Seq<Map<Seq<usize>, Tally>>,
    n: int,
)
    requires
        splits(own, whole, parts),
        0 <= n < parts.len(),
    ensures
        total(whole.restrict(reached(own, parts, n + 1))) == plus(
            total(whole.restrict(reached(own, parts, n))),
            total(parts[n]),
        ),
        total(whole.restrict(reached(own, parts, n + 1))).0 <= total(whole).0,
        total(whole.restrict(reached(own, parts, n + 1))).1 <= total(whole).1,
{
    let sofar = reached(own, parts, n);
    let next = whole.restrict(reached(own, parts, n + 1));
    lemma_total_split(whole, reached(own, parts, n + 1));
    lemma_total_split(next, sofar);
    assert(next.restrict(sofar) =~= whole.restrict(sofar)) by {
        assert forall|k: Seq<usize>| sofar.contains(k) implies reached(own, parts, n + 1).contains(
            k,
        ) by {
            if own != Some(k) {
                let i = choose|i: int| 0 <= i < n && #[trigger] parts[i].contains_key(k);
                assert(parts[i].contains_key(k));
            }
        }
    }
    assert(next.remove_keys(sofar) =~= parts[n]) by {
        assert forall|k: Seq<usize>| #[trigger] parts[n].contains_key(k) implies !sofar.contains(k)
            && next.contains_key(k) && next[k] == parts[n][k] by {
            if sofar.contains(k) {
                let i = choose|i: int| 0 <= i < n && #[trigger] parts[i].contains_key(k);
                assert(branches_before(k, k));
                lemma_branches_extend(k, k, k, k);
            }
            assert(keys_before(parts, n + 1).contains(k));
        }
        assert forall|k: Seq<usize>| #[trigger]
            next.remove_keys(sofar).contains_key(k) implies parts[n].contains_key(k) by {
            let i = choose|i: int| 0 <= i < n + 1 && #[trigger] parts[i].contains_key(k);
            assert(parts[i].contains_key(k));
            if i < n {
                assert(keys_before(parts, n).contains(k));
            }
        }
    }
}

/// All that is under a stack of a part is in that part.
proof fn lemma_under_part<V>(
    own: Option<Seq<usize>>,
    whole: Map<Seq<usize>, V>,
    parts: Seq<Map<Seq<usize>, V>>,
    n: int,
    k: Seq<usize>,
)
    requires
        splits(own, whole, parts),
        0 <= n < parts.len(),
        parts[n].contains_key(k),
    ensures
        under(parts[n], k) == under(whole, k),
{
    assert forall|s: Seq<usize>| whole.contains_key(s) && begins(k, s) implies #[trigger] parts[
        n].contains_key(s) by {
        assert(whole.contains_key(k));
        if own == Some(s) {
            assert(begins(s, k));
            lemma_begins_antisymmetric(s, k);
        } else {
            let i = choose|i: int| 0 <= i < parts.len() && #[trigger] parts[i].contains_key(s);
            if i < n {
                lemma_branches_extend(s, k, s, k);
            } else if n < i {
                lemma_branches_extend(k, s, k, s);
            }
        }
    }
    assert(under(parts[n], k) =~= under(whole, k));
}

/// A stack of a part is rolled up there as it is in all.
proof fn lemma_rolled_up_part(
    own: Option<Seq<usize>>,
    whole: Map<Seq<usize>, StatsView>,
    parts: Seq<Map<Seq<usize>, StatsView>>,
    n: int,
    k: Seq<usize>,
)
    requires
        splits(own, whole, parts),
        0 <= n < parts.len(),
        parts[n].contains_key(k),
    ensures
        rolled_up(parts[n], k) == rolled_up(whole, k),
{
    lemma_under_part(own, whole, parts, n, k);
    assert forall|s: Seq<usize>|
        parts[n].contains_key(s) && begins(k, s) <==> whole.contains_key(s) && begins(k, s) by {
        assert(under(parts[n], k).contains_key(s) == under(whole, k).contains_key(s));
    }
}

/// A summary can be made: no recorded stack is empty, and the totals fit in a `usize`.
pub open spec fn summable(stacks: Map<Seq<usize>, Map<usize, usize>>) -> bool {
    &&& forall|s: Seq<usize>| #[trigger] stacks.contains_key(s) ==> s.len() > 0
    &&& fits(total(tallies(stacks)))
}

/// The listed stacks, with nothing yet added up.
spec fn skeleton(stacks: Map<Seq<usize>, Map<usize, usize>>) -> Map<Seq<usize>, StatsView> {
    Map::new(
        |k: Seq<usize>| listed(stacks, k),
        |k: Seq<usize>|
            if stacks.contains_key(k) {
                StatsView::Detailed(stacks[k])
            } else {
                StatsView::Summary((0, 0))
            },
    )
}

/// The listed stacks of `done`, with `stack` and its beginnings of fewer than `n` frames.
spec fn partial_skeleton(
    done: Map<Seq<usize>, Map<usize, usize>>,
    stack: Seq<usize>,
    counts: Map<usize, usize>,
    n: int,
) -> Map<Seq<usize>, StatsView> {
    Map::new(
        |k: Seq<usize>| listed(done, k) || k == stack || begins(k, stack) && 1 <= k.len() < n,
        |k: Seq<usize>|
            if k == stack {
                StatsView::Detailed(counts)
            } else if done.contains_key(k) {
                StatsView::Detailed(done[k])
            } else {
                StatsView::Summary((0, 0))
            },
    )
}

impl Profile {
    /// A summary can be made: no recorded stack is empty, and the totals fit in a `usize`.
    pub fn is_summable(&self) -> (ok: bool)
        ensures
            ok == summable(self@.callstacks),
            finite_counts(self@.callstacks),
    {
        self.add_up_all().is_some()
    }

    /// The number of all the recorded calls.
    pub(crate) fn all_calls(&self) -> (calls: usize)
        requires
            summable(self@.callstacks),
        ensures
            calls == total(tallies(self@.callstacks)).0,
    {
        self.add_up_all().unwrap().0
    }

    /// The number of all the recorded calls and of their bytes, if a summary can be made.
    fn add_up_all(&self) -> (sums: Option<(usize, usize)>)
        ensures
            match sums {
                Some((calls, bytes)) => summable(self@.callstacks) && (calls as nat, bytes as nat)
                    == total(tallies(self@.callstacks)),
                None => !summable(self@.callstacks),
            },
            finite_counts(self@.callstacks),
    {
        let ghost stacks = self@.callstacks;
        let ghost sums = tallies(stacks);
        let entries = counts_entries(&self.callstacks);
        let ghost keys = entry_keys(entries@);
        let mut calls: usize = 0;
        let mut bytes: usize = 0;
        let n: usize = entries.len();
        proof {
            lemma_entries_all(stacks, entries@);
            lemma_entries_all(sums, entries@);
            assert forall|k: Seq<usize>| #[trigger] stacks.contains_key(
                k,
            ) implies stacks[k].dom().finite() by {
                let i = choose|i: int| 0 <= i < entries.len() && (#[trigger] entries[i]).0@ == k;
                assert(stacks[k] == entries[i].1@);
            }
            lemma_total_empty(first_of(sums, keys, 0));
        }
        for i in 0..n
            invariant
                n == entries.len(),
                keys.len() == entries@.len(),
                forall|i: int| 0 <= i < keys.len() ==> #[trigger] keys[i] == entries@[i].0@,
                forall|i: int, j: int|
                    0 <= i < j < entries.len() ==> precedes(
                        (#[trigger] entries[i]).0@,
                        (#[trigger] entries[j]).0@,
                    ),
                forall|i: int|
                    0 <= i < entries.len() ==> stacks.contains_key((#[trigger] entries[i]).0@)
                        && stacks[entries[i].0@] == entries[i].1@,
                stacks == self@.callstacks,
                finite_counts(stacks),
                sums == tallies(stacks),
                sums.dom().finite(),
                (calls as nat, bytes as nat) == total(first_of(sums, keys, i as int)),
                forall|j: int| 0 <= j < i ==> (#[trigger] keys[j]).len() > 0,
        {
            let (callstack, counts) = entries[i];
            proof {
                let seen = Set::new(|k: Seq<usize>| among(keys, i as int, k));
                assert(keys[i as int] == callstack@);
                if seen.contains(callstack@) {
                    let j = choose|j: int| 0 <= j < i && #[trigger] keys[j] == callstack@;
                    assert(keys[j] == entries[j].0@);
                    lemma_precedes_asymmetric(entries[j].0@, entries[i as int].0@);
                }
                lemma_first_next(sums, keys, i as int);
                lemma_total_grow(sums, seen, callstack@);
                assert(first_of(sums, keys, i + 1) =~= sums.restrict(seen.insert(callstack@)));
            }
            if callstack.len() == 0 {
                return None;
            }
            let (more_calls, more_bytes) = match add_up(counts) {
                Some(sums) => sums,
                None => return None,
            };
            calls = match calls.checked_add(more_calls) {
                Some(sum) => sum,
                None => return None,
            };
            bytes = match bytes.checked_add(more_bytes) {
                Some(sum) => sum,
                None => return None,
            };
        }
        proof {
            assert forall|s: Seq<usize>| #[trigger] stacks.contains_key(s) implies s.len() > 0 by {
                let i = choose|i: int| 0 <= i < entries.len() && (#[trigger] entries[i]).0@ == s;
                assert(keys[i] == s);
            }
        }
        Some((calls, bytes))
    }

    /// Adds up the allocations under every listed call stack.
    pub fn summarize(&self) -> (summary: Trie<CallStack, CallStackStats>)
        requires
            summable(self@.callstacks),
        ensures
            self@.callstacks.dom().finite(),
            stats_of(summary) == summary_of(self@.callstacks),
    {
        let ghost stacks = self@.callstacks;
        let mut all_stacks = new_stats();
        let entries = counts_entries(&self.callstacks);
        let ghost keys = entry_keys(entries@);
        assert(stats_of(all_stacks) =~= skeleton(first_of(stacks, keys, 0)));
        let n: usize = entries.len();
        for i in 0..n
            invariant
                n == entries.len(),
                keys.len() == entries@.len(),
                forall|i: int| 0 <= i < keys.len() ==> #[trigger] keys[i] == entries@[i].0@,
                forall|i: int|
                    0 <= i < entries.len() ==> stacks.contains_key((#[trigger] entries[i]).0@)
                        && stacks[entries[i].0@] == entries[i].1@,
                forall|s: Seq<usize>| #[trigger] stacks.contains_key(s) ==> s.len() > 0,
                stats_of(all_stacks) == skeleton(first_of(stacks, keys, i as int)),
        {
            let (callstack, counts) = entries[i];
            let ghost done = first_of(stacks, keys, i as int);
            insert_stats(
                &mut all_stacks,
                callstack.clone(),
                CallStackStats::Detailed(counts.clone()),
            );
            let mut prefix: CallStack = Vec::new();
            let len: usize = callstack.len();
            assert(stats_of(all_stacks) =~= partial_skeleton(done, callstack@, counts@, 1));
            assert(prefix@ =~= callstack@.take(0));
            let mut range: usize = 1;
            while range < len - 1
                invariant
                    1 <= len == callstack.len(),
                    1 <= range,
                    range == 1 || range <= len - 1,
                    prefix@ == callstack@.take(range - 1),
                    stats_of(all_stacks) == partial_skeleton(
                        done,
                        callstack@,
                        counts@,
                        range as int,
                    ),
                decreases len - range,
            {
                prefix.push(callstack[range - 1]);
                assert(prefix@ =~= callstack@.take(range as int));
                let ghost before = stats_of(all_stacks);
                if stats_at(&all_stacks, &prefix).is_none() {
                    insert_stats(&mut all_stacks, prefix.clone(), CallStackStats::new());
                }
                proof {
                    assert forall|k: Seq<usize>|
                        begins(k, callstack@) && 1 <= k.len() < range + 1 implies k == prefix@
                        || #[trigger] begins(k, callstack@) && k.len() < range by {
                        if k.len() == range {
                            assert(k =~= prefix@);
                        }
                    }
                    assert(stats_of(all_stacks) =~= partial_skeleton(
                        done,
                        callstack@,
                        counts@,
                        range + 1,
                    ));
                }
                range = range + 1;
            }
            proof {
                let next = first_of(stacks, keys, i + 1);
                assert(stacks.contains_key(entries[i as int].0@));
                assert(stats_of(all_stacks) =~= partial_skeleton(
                    done,
                    callstack@,
                    counts@,
                    len - 1,
                ));
                assert(keys[i as int] == callstack@);
                lemma_first_next(stacks, keys, i as int);
                assert(next =~= done.insert(callstack@, counts@));
                assert forall|k: Seq<usize>| #[trigger] listed(next, k) <==> listed(done, k) || k
                    == callstack@ || begins(k, callstack@) && 1 <= k.len() < len - 1 by {
                    if begins(k, callstack@) && 1 <= k.len() < len - 1 {
                        assert(next.contains_key(callstack@));
                    }
                    if listed(done, k) && !done.contains_key(k) {
                        let s = choose|s: Seq<usize>| #[trigger]
                            done.contains_key(s) && begins(k, s) && 1 <= k.len() < s.len() - 1;
                        assert(next.contains_key(s));
                    }
                    if listed(next, k) && !next.contains_key(k) {
                        let s = choose|s: Seq<usize>| #[trigger]
                            next.contains_key(s) && begins(k, s) && 1 <= k.len() < s.len() - 1;
                        if s != callstack@ {
                            assert(done.contains_key(s));
                        }
                    }
                }
                assert(stats_of(all_stacks) =~= skeleton(next));
            }
        }
        let mut summary = new_stats();
        proof {
            lemma_entries_all(stacks, entries@);
            lemma_skeleton(stacks);
        }
        Self::aggregate_stats(&mut summary, &root(&all_stacks));
        proof {
            assert forall|k: Seq<usize>| #[trigger] listed(stacks, k) implies rolled_up(
                skeleton(stacks),
                k,
            ) == summary_of(stacks)[k] by {
                lemma_skeleton_rolled_up(stacks, k);
            }
            assert(stats_of(summary) =~= summary_of(stacks));
        }
        summary
    }

    /// Scans a trie from `node` down and stores each of its stacks in `summary`, with the total of
    /// all the stacks that it begins; one that begins no other is stored as it is. Returns what
    /// everything at and below the node amounts to, in the same way.
    fn aggregate_stats(
        summary: &mut Trie<CallStack, CallStackStats>,
        node: &SubTrie<'_, CallStack, CallStackStats>,
    ) -> (stats: CallStackStats)
        requires
            fits(total(sums_of(node_stats(*node)))),
        ensures
            node_stats(*node).dom().finite(),
            stats@.tally() == total(sums_of(node_stats(*node))),
            stats@ == (match node_key(*node) {
                Some(key) => rolled_up(node_stats(*node), key),
                None => StatsView::Summary(total(sums_of(node_stats(*node)))),
            }),
            stats_of(*final(summary)) == with_rolled_up(
                stats_of(*old(summary)),
                node_stats(*node),
                node_stats(*node).dom(),
            ),
        decreases node_height(*node),
    {
        let ghost base = stats_of(*summary);
        let ghost whole = node_stats(*node);
        let ghost sums = sums_of(whole);
        let ghost own = node_key(*node);
        let ghost height = node_height(*node);
        let mut stats = match value_at(node) {
            Some(value) => value.clone(),
            None => CallStackStats::new(),
        };
        let children = trie_children_with_keys(node);
        let ghost parts = parts_of(children@);
        let ghost each = sums_each(parts);
        proof {
            lemma_sums_split(own, whole, parts);
            let first = sums.restrict(reached(own, each, 0));
            match own {
                Some(key) => {
                    lemma_total_single(first, key);
                },
                None => {
                    lemma_total_empty(first);
                },
            }
            assert(base =~= with_rolled_up(base, whole, keys_before(parts, 0)));
        }
        for child in it: children
            invariant
                splits(own, whole, parts),
                splits(own, sums, each),
                each == sums_each(parts),
                fits(total(sums)),
                height == node_height(*node),
                parts == parts_of(it.seq()),
                forall|i: int|
                    0 <= i < it.seq().len() ==> node_height(#[trigger] it.seq()[i]) < height,
                stats@.tally() == total(sums.restrict(reached(own, each, it.index() as int))),
                it.index() == 0 ==> stats@ == (match own {
                    Some(key) => whole[key],
                    None => StatsView::Summary((0, 0)),
                }),
                it.index() > 0 ==> stats@ is Summary,
                stats_of(*summary) == with_rolled_up(
                    base,
                    whole,
                    keys_before(parts, it.index() as int),
                ),
        {
            let ghost n = it.index() as int;
            proof {
                lemma_next_total(own, sums, each, n);
                assert(parts[n] == node_stats(child));
            }
            let child_stats = Self::aggregate_stats(summary, &child);
            stats.merge(&child_stats);
            proof {
                lemma_keys_next(parts, n);
                assert forall|k: Seq<usize>| #[trigger] parts[n].contains_key(k) implies rolled_up(
                    parts[n],
                    k,
                ) == rolled_up(whole, k) by {
                    lemma_rolled_up_part(own, whole, parts, n, k);
                }
                assert(stats_of(*summary) =~= with_rolled_up(
                    base,
                    whole,
                    keys_before(parts, n + 1),
                ));
            }
        }
        let ghost n = parts.len() as int;
        proof {
            assert(sums.restrict(reached(own, each, n)) =~= sums);
            if n > 0 {
                let nearest = node_key(children@[0])->0;
                assert(headed_by(node_stats(children@[0]), nearest));
                assert(parts[0].contains_key(nearest));
            }
            if let Some(key) = own {
                assert(under(whole, key) =~= whole);
                assert(ends(whole, key) <==> n == 0);
            } else if n == 0 {
                lemma_total_empty(sums);
            }
        }
        if let Some(key) = key_at(node) {
            insert_stats(summary, key.clone(), stats.clone());
        }
        proof {
            assert forall|k: Seq<usize>| #[trigger] whole.contains_key(k) implies own == Some(k)
                || keys_before(parts, n).contains(k) by {}
            assert(stats_of(*summary) =~= with_rolled_up(base, whole, whole.dom()));
        }
        stats
    }
}

/// The stacks that are only listed add nothing.
proof fn lemma_skeleton(stacks: Map<Seq<usize>, Map<usize, usize>>)
    requires
        fits(total(tallies(stacks))),
    ensures
        fits(total(sums_of(skeleton(stacks)))),
{
    let sums = sums_of(skeleton(stacks));
    if sums.dom().finite() {
        lemma_total_drop_zeros(sums, tallies(stacks));
    }
}

/// Once the listed stacks are rolled up they make up the summary.
proof fn lemma_skeleton_rolled_up(stacks: Map<Seq<usize>, Map<usize, usize>>, k: Seq<usize>)
    requires
        skeleton(stacks).dom().finite(),
        listed(stacks, k),
    ensures
        rolled_up(skeleton(stacks), k) == summary_of(stacks)[k],
{
    let all = skeleton(stacks);
    if ends(stacks, k) {
        lemma_ends_recorded(stacks, k);
        assert forall|s: Seq<usize>| #[trigger] all.contains_key(s) && begins(k, s) implies s
            == k by {
            if !stacks.contains_key(s) {
                let t = choose|t: Seq<usize>| #[trigger]
                    stacks.contains_key(t) && begins(s, t) && 1 <= s.len() < t.len() - 1;
                lemma_begins_transitive(k, s, t);
            }
        }
    } else {
        let s = choose|s: Seq<usize>| #[trigger] stacks.contains_key(s) && begins(k, s) && s != k;
        assert(all.contains_key(s));
        let part = sums_of(under(all, k));
        assert(part.dom().subset_of(all.dom()));
        vstd::set_lib::lemma_set_subset_finite(all.dom(), part.dom());
        lemma_total_drop_zeros(part, under(tallies(stacks), k));
    }
}

} // verus!
