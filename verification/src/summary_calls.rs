//! What the calls that make and read summaries give back.
use vstd::prelude::*;

use radix_trie::Trie;

use crate::calls::{add_all, enumerates, lemma_total_enumerated};
use crate::profile::Profile;
use crate::stacks::{begins, branches_before, parts_at, precedes, under};
use crate::stats::{add_up, by_size, tally, AllocCounts, CallStack, CallStackStats, StatsView};
use crate::summary::{listed, summable, tallies, totals_of};
use crate::sums::{total, Tally};
use crate::trie::stats_of;

verus! {

/// To begin a stack is to be a prefix of it.
pub proof fn beginnings_are_prefixes(a: Seq<usize>, b: Seq<usize>)
    ensures
        begins(a, b) <==> a.is_prefix_of(b),
        begins(a, b) <==> a.len() <= b.len() && a == b.take(a.len() as int),
{
    if begins(a, b) {
        assert(a =~= b.take(a.len() as int));
    }
}

/// What is under a stack is what stands under the stacks that it is a prefix of.
pub proof fn what_is_under_a_stack<V>(m: Map<Seq<usize>, V>, k: Seq<usize>, s: Seq<usize>)
    ensures
        under(m, k).contains_key(s) <==> m.contains_key(s) && k.is_prefix_of(s),
        under(m, k).contains_key(s) ==> under(m, k)[s] == m[s],
{
    beginnings_are_prefixes(k, s);
}

/// A stack comes before its extensions, and before a stack that has a larger frame where they
/// part.
pub proof fn stacks_are_ordered_by_frames(
    common: Seq<usize>,
    x: usize,
    y: usize,
    a: Seq<usize>,
    b: Seq<usize>,
)
    ensures
        x < y ==> precedes(common.push(x) + a, common.push(y) + b),
        a.len() > 0 ==> precedes(common, common + a),
        !precedes(common + a, common),
        !precedes(common, common),
        x < y ==> !precedes(common.push(y) + b, common.push(x) + a),
{
    let left = common.push(x) + a;
    let right = common.push(y) + b;
    let n = common.len() as int;
    if x < y {
        assert(left[n] == x && right[n] == y);
        assert(parts_at(left, right, n));
        if branches_before(right, left) {
            let at = choose|at: int| parts_at(right, left, at);
            if at < n {
                assert(left[at] == common[at] && right[at] == common[at]);
            } else if at > n {
                assert(right[n] == left[n]);
            }
        }
        assert(!begins(right, left)) by {
            if begins(right, left) {
                assert(right[n] == left[n]);
            }
        }
    }
    if a.len() > 0 {
        assert(begins(common, common + a));
    }
    if branches_before(common + a, common) {
        let at = choose|at: int| parts_at(common + a, common, at);
        assert((common + a)[at] == common[at]);
    }
    if branches_before(common, common) {
        let at = choose|at: int| parts_at(common, common, at);
        assert(common[at] < common[at]);
    }
}

/// The numbers of calls of the sizes in `sizes`.
pub open spec fn calls_by_size(counts: Map<usize, usize>, sizes: Seq<usize>) -> Seq<nat> {
    Seq::new(sizes.len(), |i: int| counts[sizes[i]] as nat)
}

/// The numbers of bytes of the sizes in `sizes`.
pub open spec fn bytes_by_size(counts: Map<usize, usize>, sizes: Seq<usize>) -> Seq<nat> {
    Seq::new(sizes.len(), |i: int| sizes[i] as nat * counts[sizes[i]] as nat)
}

/// Counts amount to the sum of the counts, and of the counts times the sizes.
pub proof fn counts_amount_to_sums(counts: Map<usize, usize>, sizes: Seq<usize>)
    requires
        enumerates(sizes, counts.dom()),
    ensures
        tally(counts).0 == add_all(calls_by_size(counts, sizes)),
        tally(counts).1 == add_all(bytes_by_size(counts, sizes)),
{
    let m = by_size(counts);
    assert(m.dom() =~= counts.dom());
    lemma_total_enumerated(m, sizes);
    assert forall|i: int| 0 <= i < sizes.len() implies m.contains_key(#[trigger] sizes[i]) by {
        assert(counts.dom().contains(sizes[i]));
    }
    assert(calls_by_size(counts, sizes) =~= Seq::new(sizes.len(), |i: int| m[sizes[i]].0));
    assert(bytes_by_size(counts, sizes) =~= Seq::new(sizes.len(), |i: int| m[sizes[i]].1));
}

/// `sizes` has, for each of the stacks in `list`, the sizes that were recorded under it.
pub open spec fn sizes_of(
    stacks: Map<Seq<usize>, Map<usize, usize>>,
    list: Seq<Seq<usize>>,
    sizes: Seq<Seq<usize>>,
) -> bool {
    &&& sizes.len() == list.len()
    &&& forall|i: int|
        0 <= i < list.len() ==> enumerates(#[trigger] sizes[i], stacks[list[i]].dom())
}

/// All the calls that were recorded under the stacks in `list`.
pub open spec fn calls_under(
    stacks: Map<Seq<usize>, Map<usize, usize>>,
    list: Seq<Seq<usize>>,
    sizes: Seq<Seq<usize>>,
) -> nat {
    add_all(
        Seq::new(list.len(), |i: int| add_all(calls_by_size(stacks[list[i]], sizes[i]))),
    )
}

/// All the bytes that were recorded under the stacks in `list`.
pub open spec fn bytes_under(
    stacks: Map<Seq<usize>, Map<usize, usize>>,
    list: Seq<Seq<usize>>,
    sizes: Seq<Seq<usize>>,
) -> nat {
    add_all(
        Seq::new(list.len(), |i: int| add_all(bytes_by_size(stacks[list[i]], sizes[i]))),
    )
}

/// Some of the recorded stacks amount to all the calls and bytes recorded under them.
proof fn lemma_part_sums(
    stacks: Map<Seq<usize>, Map<usize, usize>>,
    part: Map<Seq<usize>, Tally>,
    list: Seq<Seq<usize>>,
    sizes: Seq<Seq<usize>>,
)
    requires
        enumerates(list, part.dom()),
        sizes_of(stacks, list, sizes),
        forall|s: Seq<usize>| #[trigger]
            part.contains_key(s) ==> stacks.contains_key(s) && part[s] == tally(stacks[s]),
    ensures
        total(part).0 == calls_under(stacks, list, sizes),
        total(part).1 == bytes_under(stacks, list, sizes),
{
    lemma_total_enumerated(part, list);
    assert forall|i: int| 0 <= i < list.len() implies part[#[trigger] list[i]].0 == add_all(
        calls_by_size(stacks[list[i]], sizes[i]),
    ) && part[list[i]].1 == add_all(bytes_by_size(stacks[list[i]], sizes[i])) by {
        assert(part.dom().contains(list[i]));
        assert(part.contains_key(list[i]));
        assert(enumerates(sizes[i], stacks[list[i]].dom()));
        counts_amount_to_sums(stacks[list[i]], sizes[i]);
    }
    assert(Seq::new(list.len(), |i: int| part[list[i]].0) =~= Seq::new(
        list.len(),
        |i: int| add_all(calls_by_size(stacks[list[i]], sizes[i])),
    ));
    assert(Seq::new(list.len(), |i: int| part[list[i]].1) =~= Seq::new(
        list.len(),
        |i: int| add_all(bytes_by_size(stacks[list[i]], sizes[i])),
    ));
}

/// All the recorded stacks amount to all the recorded calls and bytes.
pub proof fn profiles_amount_to_sums(
    stacks: Map<Seq<usize>, Map<usize, usize>>,
    list: Seq<Seq<usize>>,
    sizes: Seq<Seq<usize>>,
)
    requires
        enumerates(list, stacks.dom()),
        sizes_of(stacks, list, sizes),
    ensures
        total(tallies(stacks)).0 == calls_under(stacks, list, sizes),
        total(tallies(stacks)).1 == bytes_under(stacks, list, sizes),
{
    assert(tallies(stacks).dom() =~= stacks.dom());
    lemma_part_sums(stacks, tallies(stacks), list, sizes);
}

/// The recorded stacks that have `k` as a prefix.
pub open spec fn extensions(
    stacks: Map<Seq<usize>, Map<usize, usize>>,
    k: Seq<usize>,
) -> Set<Seq<usize>> {
    Set::new(|s: Seq<usize>| stacks.contains_key(s) && k.is_prefix_of(s))
}

/// The stacks that are listed: the recorded ones, and each of their beginnings of at least one
/// frame that leaves out two frames or more.
pub proof fn all_beginnings_are_listed(
    stacks: Map<Seq<usize>, Map<usize, usize>>,
    s: Seq<usize>,
    n: int,
    k: Seq<usize>,
)
    ensures
        stacks.contains_key(s) ==> listed(stacks, s),
        stacks.contains_key(s) && 1 <= n < s.len() - 1 ==> listed(stacks, s.take(n)),
        listed(stacks, k) ==> stacks.contains_key(k) || exists|t: Seq<usize>, at: int| #[trigger]
            stacks.contains_key(t) && 1 <= at < t.len() - 1 && k == #[trigger] t.take(at),
{
    if stacks.contains_key(s) && 1 <= n < s.len() - 1 {
        assert(begins(s.take(n), s));
    }
    if listed(stacks, k) && !stacks.contains_key(k) {
        let t = choose|t: Seq<usize>| #[trigger]
            stacks.contains_key(t) && begins(k, t) && 1 <= k.len() < t.len() - 1;
        assert(k =~= t.take(k.len() as int));
        assert(stacks.contains_key(t) && 1 <= k.len() < t.len() - 1 && k == t.take(k.len() as int));
    }
}

/// A listed stack amounts to all the calls and bytes recorded under the stacks that have it as a
/// prefix.
pub proof fn listed_stacks_amount_to_sums(
    stacks: Map<Seq<usize>, Map<usize, usize>>,
    k: Seq<usize>,
    list: Seq<Seq<usize>>,
    sizes: Seq<Seq<usize>>,
)
    requires
        listed(stacks, k),
        enumerates(list, extensions(stacks, k)),
        sizes_of(stacks, list, sizes),
    ensures
        totals_of(stacks).contains_key(k),
        totals_of(stacks)[k].0 == calls_under(stacks, list, sizes),
        totals_of(stacks)[k].1 == bytes_under(stacks, list, sizes),
{
    let part = under(tallies(stacks), k);
    assert forall|s: Seq<usize>| #[trigger] part.dom().contains(s) <==> extensions(
        stacks,
        k,
    ).contains(s) by {
        beginnings_are_prefixes(k, s);
    }
    assert(part.dom() =~= extensions(stacks, k));
    lemma_part_sums(stacks, part, list, sizes);
}

/// Totals are those of the listed stacks.
pub proof fn totals_are_of_listed_stacks(
    stacks: Map<Seq<usize>, Map<usize, usize>>,
    s: Seq<usize>,
    n: int,
    k: Seq<usize>,
)
    ensures
        stacks.contains_key(s) ==> totals_of(stacks).contains_key(s),
        stacks.contains_key(s) && 1 <= n < s.len() - 1 ==> totals_of(stacks).contains_key(
            s.take(n),
        ),
        totals_of(stacks).contains_key(k) ==> stacks.contains_key(k) || exists|
            t: Seq<usize>,
            at: int,
        | #[trigger]
            stacks.contains_key(t) && 1 <= at < t.len() - 1 && k == #[trigger] t.take(at),
{
    all_beginnings_are_listed(stacks, s, n, k);
}

/// A summary has an entry for each recorded stack, and for each of its beginnings of at least one
/// frame that leaves out two frames or more. It has no other entries.
pub proof fn summaries_have_all_beginnings(
    p: Profile,
    summary: Trie<CallStack, CallStackStats>,
    s: Seq<usize>,
    n: int,
    k: Seq<usize>,
)
    requires
        call_ensures(Profile::summarize, (&p,), summary),
    ensures
        p@.callstacks.contains_key(s) ==> stats_of(summary).contains_key(s),
        p@.callstacks.contains_key(s) && 1 <= n < s.len() - 1 ==> stats_of(summary).contains_key(
            s.take(n),
        ),
        stats_of(summary).contains_key(k) ==> p@.callstacks.contains_key(k) || exists|
            t: Seq<usize>,
            at: int,
        | #[trigger]
            p@.callstacks.contains_key(t) && 1 <= at < t.len() - 1 && k == #[trigger] t.take(at),
{
    all_beginnings_are_listed(p@.callstacks, s, n, k);
}

/// An entry of a summary keeps what was recorded where no other recorded stack has it as a
/// prefix. Any other entry has the sum of the calls, and of the bytes, recorded under all the
/// stacks that have it as a prefix.
pub proof fn summaries_add_up(
    p: Profile,
    summary: Trie<CallStack, CallStackStats>,
    k: Seq<usize>,
    list: Seq<Seq<usize>>,
    sizes: Seq<Seq<usize>>,
)
    requires
        call_ensures(Profile::summarize, (&p,), summary),
        stats_of(summary).contains_key(k),
        enumerates(list, extensions(p@.callstacks, k)),
        sizes_of(p@.callstacks, list, sizes),
    ensures
        match stats_of(summary)[k] {
            StatsView::Detailed(counts) => p@.callstacks.contains_key(k) && counts
                == p@.callstacks[k] && forall|s: Seq<usize>| #[trigger]
                p@.callstacks.contains_key(s) && k.is_prefix_of(s) ==> s == k,
            StatsView::Summary((calls, bytes)) => calls == calls_under(p@.callstacks, list, sizes)
                && bytes == bytes_under(p@.callstacks, list, sizes) && exists|s: Seq<usize>|
                #[trigger]
                p@.callstacks.contains_key(s) && k.is_prefix_of(s) && s != k,
        },
{
    let stacks = p@.callstacks;
    assert(listed(stacks, k));
    listed_stacks_amount_to_sums(stacks, k, list, sizes);
    assert forall|s: Seq<usize>| begins(k, s) <==> #[trigger] k.is_prefix_of(s) by {
        beginnings_are_prefixes(k, s);
    }
}

/// A summary can be made exactly if no recorded stack is empty and the sums of all the calls and
/// of all the bytes fit in a `usize`.
pub proof fn summaries_are_limited_by_sums(
    p: Profile,
    ok: bool,
    list: Seq<Seq<usize>>,
    sizes: Seq<Seq<usize>>,
)
    requires
        call_ensures(Profile::is_summable, (&p,), ok),
        enumerates(list, p@.callstacks.dom()),
        sizes_of(p@.callstacks, list, sizes),
    ensures
        ok <==> !p@.callstacks.contains_key(Seq::empty()) && calls_under(p@.callstacks, list, sizes)
            <= usize::MAX && bytes_under(p@.callstacks, list, sizes) <= usize::MAX,
{
    let stacks = p@.callstacks;
    profiles_amount_to_sums(stacks, list, sizes);
    if !stacks.contains_key(Seq::empty()) {
        assert forall|s: Seq<usize>| #[trigger] stacks.contains_key(s) implies s.len() > 0 by {
            if s.len() == 0 {
                assert(s =~= Seq::empty());
            }
        }
    }
}

/// A report can be made exactly if a summary can be made and something was recorded.
pub proof fn reports_need_something_recorded(p: Profile, ok: bool, summable: bool)
    requires
        call_ensures(Profile::is_reportable, (&p,), ok),
        call_ensures(Profile::is_summable, (&p,), summable),
    ensures
        ok <==> summable && exists|s: Seq<usize>| p@.callstacks.contains_key(s),
{
}

/// Counts are added up, unless a sum does not fit in a `usize`.
pub proof fn counts_are_added_up(
    counts: AllocCounts,
    sums: Option<(usize, usize)>,
    sizes: Seq<usize>,
)
    requires
        call_ensures(add_up, (&counts,), sums),
        enumerates(sizes, counts@.dom()),
    ensures
        sums is Some <==> add_all(calls_by_size(counts@, sizes)) <= usize::MAX && add_all(
            bytes_by_size(counts@, sizes),
        ) <= usize::MAX,
        sums matches Some((calls, bytes)) ==> calls == add_all(calls_by_size(counts@, sizes))
            && bytes == add_all(bytes_by_size(counts@, sizes)),
{
    counts_amount_to_sums(counts@, sizes);
}

/// The statistics are these calls and bytes: as they are, or as sums over the sizes.
pub open spec fn amounts_to(
    stats: CallStackStats,
    sizes: Seq<usize>,
    calls: nat,
    bytes: nat,
) -> bool {
    match stats {
        CallStackStats::Summary(c, b) => c == calls && b == bytes,
        CallStackStats::Detailed(counts) => enumerates(sizes, counts@.dom()) && calls == add_all(
            calls_by_size(counts@, sizes),
        ) && bytes == add_all(bytes_by_size(counts@, sizes)),
    }
}

/// What statistics amount to.
proof fn lemma_amounts(stats: CallStackStats, sizes: Seq<usize>, calls: nat, bytes: nat)
    requires
        amounts_to(stats, sizes, calls, bytes),
    ensures
        stats@.tally() == (calls, bytes),
{
    if let CallStackStats::Detailed(counts) = stats {
        counts_amount_to_sums(counts@, sizes);
    }
}

/// New statistics count nothing.
pub proof fn new_statistics_are_zero(stats: CallStackStats)
    requires
        call_ensures(CallStackStats::new, (), stats),
    ensures
        stats matches CallStackStats::Summary(c, b) && c == 0 && b == 0,
{
}

/// A copy of statistics has the same counts, or the same calls and bytes.
pub proof fn copies_are_the_same(stats: CallStackStats, copy: CallStackStats)
    requires
        call_ensures(<CallStackStats as Clone>::clone, (&stats,), copy),
    ensures
        match stats {
            CallStackStats::Detailed(counts) => copy matches CallStackStats::Detailed(copied)
                && copied@ == counts@,
            CallStackStats::Summary(c, b) => copy == CallStackStats::Summary(c, b),
        },
{
}

/// The summary of statistics is the number of their calls and of their bytes.
pub proof fn statistics_are_summed_up(
    stats: CallStackStats,
    summary: CallStackStats,
    sizes: Seq<usize>,
    calls: nat,
    bytes: nat,
)
    requires
        call_ensures(CallStackStats::summarize, (&stats,), summary),
        amounts_to(stats, sizes, calls, bytes),
    ensures
        summary matches CallStackStats::Summary(c, b) && c == calls && b == bytes,
{
    lemma_amounts(stats, sizes, calls, bytes);
}

/// The number of calls of statistics.
pub proof fn calls_of_statistics(
    stats: CallStackStats,
    n: usize,
    sizes: Seq<usize>,
    calls: nat,
    bytes: nat,
)
    requires
        call_ensures(CallStackStats::num_calls, (&stats,), n),
        amounts_to(stats, sizes, calls, bytes),
    ensures
        n == calls,
{
    lemma_amounts(stats, sizes, calls, bytes);
}

/// Merged statistics are the summary of the calls and bytes of both.
pub proof fn statistics_are_merged(
    stats: &mut CallStackStats,
    other: CallStackStats,
    sizes: Seq<usize>,
    other_sizes: Seq<usize>,
    mine: (nat, nat),
    theirs: (nat, nat),
)
    requires
        call_ensures(CallStackStats::merge, (stats, &other), ()),
        amounts_to(*old(stats), sizes, mine.0, mine.1),
        amounts_to(other, other_sizes, theirs.0, theirs.1),
    ensures
        *final(stats) matches CallStackStats::Summary(c, b) && c == mine.0 + theirs.0 && b == mine.1
            + theirs.1,
{
    lemma_amounts(*old(stats), sizes, mine.0, mine.1);
    lemma_amounts(other, other_sizes, theirs.0, theirs.1);
}

} // verus!
