//! What holds of profiles, summaries and reports as a whole.
use vstd::prelude::*;

use crate::allocator::{finished, started, Plan};
use crate::lines::{
    is_entry, lemma_lines_list, lemma_only_entries, lemma_report_lines, lines_of, lists, shown,
    shown_stacks, text_of, Line,
};
use crate::profile::{
    aggregable, aggregated, count, counts_for, counts_mergeable, empty_profile, finite_counts,
    frames_of, lemma_merge_no_counts, merged_counts, merged_names, merged_stacks, mergeable,
    Profile, ProfileView,
};
use crate::ranking::{lemma_tops_cover, ranked, sum_over};
use crate::report::{
    answers, answers_for, considered, hidden_calls, lemma_under_fits, report, threshold_of,
    Threshold,
};
use crate::stacks::{begins, lemma_begins_antisymmetric, lemma_begins_transitive, under};
use crate::stats::{by_size, sums_of, tally, totals_text, StatsView};
use crate::summary::{
    lemma_listed_finite, lemma_summary_totals, listed, summable, summary_of, tallies, totals_of,
};
use crate::sums::{
    lemma_total_empty, lemma_total_insert, lemma_total_plus, lemma_total_remove, lemma_total_split,
    plus, tally_at, total, Tally,
};
use crate::text::{decimal, digit, dir_path, file_path, grouped, hands_out, pattern_path};

verus! {

/// Merging with an empty profile changes nothing.
pub proof fn merge_with_empty(p: ProfileView)
    ensures
        p.merge(empty_profile()) == p,
        empty_profile().merge(p) == p,
{
    assert forall|s: Seq<usize>| #[trigger] p.callstacks.contains_key(s) implies merged_counts(
        p.callstacks[s],
        Map::empty(),
    ) == p.callstacks[s] && merged_counts(Map::empty(), p.callstacks[s]) == p.callstacks[s] by {
        lemma_merge_no_counts(p.callstacks[s]);
    }
    assert(p.merge(empty_profile()).callstacks =~= p.callstacks);
    assert(empty_profile().merge(p).callstacks =~= p.callstacks);
    assert(p.merge(empty_profile()).symbols =~= p.symbols);
    assert(empty_profile().merge(p).symbols =~= p.symbols);
}

/// The counts of two merged profiles do not depend on which is merged into which, and neither do
/// the names, unless the two name a frame differently.
pub proof fn merge_commutes(a: ProfileView, b: ProfileView)
    ensures
        mergeable(a.callstacks, b.callstacks) == mergeable(b.callstacks, a.callstacks),
        a.merge(b).callstacks == b.merge(a).callstacks,
        (forall|frame: usize| #[trigger]
            a.symbols.contains_key(frame) && b.symbols.contains_key(frame) ==> a.symbols[frame]
                == b.symbols[frame]) ==> a.merge(b) == b.merge(a),
{
    let (x, y) = (a.callstacks, b.callstacks);
    assert forall|s: Seq<usize>| merged_counts(#[trigger] counts_for(x, s), counts_for(y, s))
        == merged_counts(counts_for(y, s), counts_for(x, s)) by {
        assert(merged_counts(counts_for(x, s), counts_for(y, s)) =~= merged_counts(
            counts_for(y, s),
            counts_for(x, s),
        ));
    }
    assert(merged_stacks(x, y) =~= merged_stacks(y, x));
    if mergeable(x, y) {
        lemma_mergeable_swapped(x, y);
    }
    if mergeable(y, x) {
        lemma_mergeable_swapped(y, x);
    }
    if forall|frame: usize| #[trigger]
        a.symbols.contains_key(frame) && b.symbols.contains_key(frame) ==> a.symbols[frame]
            == b.symbols[frame] {
        assert(merged_names(a.symbols, b.symbols) =~= merged_names(b.symbols, a.symbols));
    }
}

/// Whether two profiles can be merged does not depend on which is merged into which.
proof fn lemma_mergeable_swapped(
    a: Map<Seq<usize>, Map<usize, usize>>,
    b: Map<Seq<usize>, Map<usize, usize>>,
)
    requires
        mergeable(a, b),
    ensures
        mergeable(b, a),
{
    assert forall|s: Seq<usize>| #[trigger]
        b.contains_key(s) && a.contains_key(s) implies counts_mergeable(b[s], a[s]) by {
        assert(counts_mergeable(a[s], b[s]));
        assert forall|size: usize| #[trigger]
            b[s].contains_key(size) && a[s].contains_key(size) implies b[s][size] + a[s][size]
            <= usize::MAX by {
            assert(a[s].contains_key(size));
        }
    }
}

/// What two profiles can be merged says of every stack and size.
proof fn lemma_sums_fit(
    a: Map<Seq<usize>, Map<usize, usize>>,
    b: Map<Seq<usize>, Map<usize, usize>>,
    s: Seq<usize>,
    size: usize,
)
    requires
        mergeable(a, b),
    ensures
        count(counts_for(a, s), size) + count(counts_for(b, s), size) <= usize::MAX,
        count(counts_for(merged_stacks(a, b), s), size) == count(counts_for(a, s), size) + count(
            counts_for(b, s),
            size,
        ),
{
    if a.contains_key(s) && b.contains_key(s) {
        assert(counts_mergeable(a[s], b[s]));
        if a[s].contains_key(size) && b[s].contains_key(size) {
            assert(a[s][size] + b[s][size] <= usize::MAX);
        }
    }
    assert(merged_stacks(a, b).contains_key(s) <==> a.contains_key(s) || b.contains_key(s));
}

/// Merging adds the counts up, for every stack and size.
pub proof fn merge_adds_counts(a: ProfileView, b: ProfileView, stack: Seq<usize>, size: usize)
    requires
        mergeable(a.callstacks, b.callstacks),
    ensures
        count(counts_for(a.merge(b).callstacks, stack), size) == count(
            counts_for(a.callstacks, stack),
            size,
        ) + count(counts_for(b.callstacks, stack), size),
{
    lemma_sums_fit(a.callstacks, b.callstacks, stack, size);
}

/// Three profiles give the same whichever two are merged first.
pub proof fn merge_associates(a: ProfileView, b: ProfileView, c: ProfileView)
    requires
        mergeable(a.callstacks, b.callstacks),
        mergeable(a.merge(b).callstacks, c.callstacks),
    ensures
        mergeable(b.callstacks, c.callstacks),
        mergeable(a.callstacks, b.merge(c).callstacks),
        a.merge(b).merge(c) == a.merge(b.merge(c)),
{
    let (x, y, z) = (a.callstacks, b.callstacks, c.callstacks);
    assert forall|s: Seq<usize>, size: usize|
        #![trigger count(counts_for(x, s), size)]
        #![trigger count(counts_for(y, s), size)]
        count(counts_for(x, s), size) + count(counts_for(y, s), size) + count(
            counts_for(z, s),
            size,
        ) <= usize::MAX by {
        lemma_sums_fit(x, y, s, size);
        lemma_sums_fit(merged_stacks(x, y), z, s, size);
    }
    assert forall|s: Seq<usize>| #[trigger]
        y.contains_key(s) && z.contains_key(s) implies counts_mergeable(y[s], z[s]) by {
        assert forall|size: usize| #[trigger]
            y[s].contains_key(size) && z[s].contains_key(size) implies y[s][size] + z[s][size]
            <= usize::MAX by {
            assert(count(counts_for(y, s), size) == y[s][size]);
            assert(count(counts_for(z, s), size) == z[s][size]);
        }
    }
    assert forall|s: Seq<usize>| #[trigger]
        x.contains_key(s) && merged_stacks(y, z).contains_key(s) implies counts_mergeable(
        x[s],
        merged_stacks(y, z)[s],
    ) by {
        assert forall|size: usize| #[trigger]
            x[s].contains_key(size) && merged_stacks(y, z)[s].contains_key(size) implies x[s][size]
            + merged_stacks(y, z)[s][size] <= usize::MAX by {
            assert(count(counts_for(x, s), size) == x[s][size]);
            lemma_sums_fit(y, z, s, size);
        }
    }
    assert forall|s: Seq<usize>| #[trigger]
        merged_stacks(merged_stacks(x, y), z).contains_key(s) implies merged_stacks(
        merged_stacks(x, y),
        z,
    )[s] == merged_stacks(x, merged_stacks(y, z))[s] by {
        let left = merged_stacks(merged_stacks(x, y), z)[s];
        let right = merged_stacks(x, merged_stacks(y, z))[s];
        assert forall|size: usize| left.contains_key(size) implies #[trigger] left[size]
            == right[size] by {
            lemma_sums_fit(x, y, s, size);
            lemma_sums_fit(merged_stacks(x, y), z, s, size);
            lemma_sums_fit(y, z, s, size);
            lemma_sums_fit(x, merged_stacks(y, z), s, size);
        }
        assert(left =~= right);
    }
    assert(merged_stacks(merged_stacks(x, y), z) =~= merged_stacks(x, merged_stacks(y, z)));
    assert(merged_names(merged_names(a.symbols, b.symbols), c.symbols) =~= merged_names(
        a.symbols,
        merged_names(b.symbols, c.symbols),
    ));
}

/// Allocations can be recorded in any order.
pub proof fn record_commutes(
    p: ProfileView,
    s: Seq<usize>,
    size: usize,
    other: Seq<usize>,
    other_size: usize,
)
    ensures
        p.record(s, size).record(other, other_size) == p.record(other, other_size).record(s, size),
{
    let left = p.record(s, size).record(other, other_size).callstacks;
    let right = p.record(other, other_size).record(s, size).callstacks;
    if s == other {
        assert(left[s] =~= right[s]);
    }
    assert(left =~= right);
}

/// It does not matter whether an allocation is recorded before two profiles are merged or after.
pub proof fn record_before_or_after_merge(
    a: ProfileView,
    b: ProfileView,
    s: Seq<usize>,
    size: usize,
)
    requires
        count(counts_for(a.callstacks, s), size) < usize::MAX,
        mergeable(a.record(s, size).callstacks, b.callstacks),
    ensures
        mergeable(a.callstacks, b.callstacks),
        count(counts_for(a.merge(b).callstacks, s), size) < usize::MAX,
        a.record(s, size).merge(b) == a.merge(b).record(s, size),
{
    let (x, y) = (a.callstacks, b.callstacks);
    let more = a.record(s, size).callstacks;
    assert forall|t: Seq<usize>| #[trigger] x.contains_key(t) && y.contains_key(t) implies
        counts_mergeable(x[t], y[t]) by {
        assert(more.contains_key(t));
        assert(counts_mergeable(more[t], y[t]));
        assert forall|n: usize| #[trigger]
            x[t].contains_key(n) && y[t].contains_key(n) implies x[t][n] + y[t][n]
            <= usize::MAX by {
            assert(more[t].contains_key(n));
        }
    }
    lemma_sums_fit(x, y, s, size);
    lemma_sums_fit(more, y, s, size);
    let left = merged_stacks(more, y);
    let right = a.merge(b).record(s, size).callstacks;
    assert forall|t: Seq<usize>| left.contains_key(t) implies #[trigger] left[t] == right[t] by {
        if t == s {
            assert(left[t] =~= right[t]);
        }
    }
    assert(left =~= right);
}

/// The counts of two maps amount to what each amounts to.
proof fn lemma_tally_merged(a: Map<usize, usize>, b: Map<usize, usize>)
    requires
        a.dom().finite(),
        b.dom().finite(),
        counts_mergeable(a, b),
    ensures
        merged_counts(a, b).dom().finite(),
        tally(merged_counts(a, b)) == plus(tally(a), tally(b)),
{
    let both = merged_counts(a, b);
    assert(both.dom() =~= a.dom().union(b.dom()));
    assert(by_size(a).dom() =~= a.dom());
    assert(by_size(b).dom() =~= b.dom());
    assert forall|size: usize| #[trigger] by_size(both).contains_key(size) implies by_size(
        both,
    )[size] == plus(tally_at(by_size(a), size), tally_at(by_size(b), size)) by {
        if a.contains_key(size) && b.contains_key(size) {
            assert(a[size] + b[size] <= usize::MAX);
        }
        let (n, m) = (count(a, size), count(b, size));
        assert(both[size] as nat == n + m);
        assert(size as nat * (n + m) == size as nat * n + size as nat * m) by (nonlinear_arith);
        assert(size as nat * 0 == 0);
    }
    lemma_total_plus(by_size(a), by_size(b), by_size(both));
}

/// Merging adds up the calls and bytes of each stack.
proof fn lemma_tallies_merged(
    a: Map<Seq<usize>, Map<usize, usize>>,
    b: Map<Seq<usize>, Map<usize, usize>>,
    s: Seq<usize>,
)
    requires
        finite_counts(a),
        finite_counts(b),
        mergeable(a, b),
        merged_stacks(a, b).contains_key(s),
    ensures
        merged_stacks(a, b)[s].dom().finite(),
        tallies(merged_stacks(a, b))[s] == plus(tally_at(tallies(a), s), tally_at(tallies(b), s)),
{
    lemma_tally_merged(counts_for(a, s), counts_for(b, s));
    assert(tally(Map::<usize, usize>::empty()) == (0nat, 0nat)) by {
        lemma_total_empty(by_size(Map::empty()));
    }
}

/// Merging adds up the calls and bytes of the profiles: all of them, and those of the stacks that
/// begin with any given frames.
pub proof fn merge_adds_totals(
    a: Map<Seq<usize>, Map<usize, usize>>,
    b: Map<Seq<usize>, Map<usize, usize>>,
    k: Seq<usize>,
)
    requires
        finite_counts(a),
        finite_counts(b),
        mergeable(a, b),
    ensures
        finite_counts(merged_stacks(a, b)),
        total(tallies(merged_stacks(a, b))) == plus(total(tallies(a)), total(tallies(b))),
        total(under(tallies(merged_stacks(a, b)), k)) == plus(
            total(under(tallies(a), k)),
            total(under(tallies(b), k)),
        ),
{
    let both = merged_stacks(a, b);
    assert(both.dom() =~= a.dom().union(b.dom()));
    assert(tallies(a).dom() =~= a.dom());
    assert(tallies(b).dom() =~= b.dom());
    assert forall|s: Seq<usize>| #[trigger] both.contains_key(s) implies both[s].dom().finite()
        && tallies(both)[s] == plus(tally_at(tallies(a), s), tally_at(tallies(b), s)) by {
        lemma_tallies_merged(a, b, s);
    }
    lemma_total_plus(tallies(a), tallies(b), tallies(both));
    lemma_under_finite(tallies(a), k);
    lemma_under_finite(tallies(b), k);
    lemma_total_plus(under(tallies(a), k), under(tallies(b), k), under(tallies(both), k));
}

/// A single allocation amounts to one call and its bytes.
proof fn lemma_tally_one(size: usize)
    ensures
        tally(Map::<usize, usize>::empty().insert(size, 1)) == (1nat, size as nat),
{
    let one = Map::<usize, usize>::empty().insert(size, 1);
    let none = Map::<usize, Tally>::empty();
    assert(size as nat * 1nat == size as nat) by (nonlinear_arith);
    assert(by_size(one).dom() =~= none.insert(size, (1nat, size as nat)).dom());
    assert(by_size(one)[size] == (1nat, size as nat));
    assert(by_size(one) =~= none.insert(size, (1nat, size as nat)));
    lemma_total_empty(none);
    lemma_total_insert(none, size, (1nat, size as nat));
}

/// Recording an allocation adds one call and its bytes to the total, and to what is under every
/// beginning of its stack; what is under other stacks stays as it was.
pub proof fn record_adds_one_call(p: ProfileView, s: Seq<usize>, size: usize, k: Seq<usize>)
    requires
        finite_counts(p.callstacks),
        count(counts_for(p.callstacks, s), size) < usize::MAX,
    ensures
        finite_counts(p.record(s, size).callstacks),
        total(tallies(p.record(s, size).callstacks)) == plus(
            total(tallies(p.callstacks)),
            (1, size as nat),
        ),
        total(under(tallies(p.record(s, size).callstacks), k)) == (if begins(k, s) {
            plus(total(under(tallies(p.callstacks), k)), (1, size as nat))
        } else {
            total(under(tallies(p.callstacks), k))
        }),
{
    let one = Map::<usize, usize>::empty().insert(size, 1);
    let single = Map::<Seq<usize>, Map<usize, usize>>::empty().insert(s, one);
    let after = p.record(s, size).callstacks;
    let old_counts = counts_for(p.callstacks, s);
    assert(merged_counts(old_counts, one) =~= after[s]);
    let sum = merged_stacks(p.callstacks, single);
    assert forall|t: Seq<usize>| #[trigger] after.contains_key(t) implies sum.contains_key(t)
        && sum[t] == after[t] by {
        if t != s {
            lemma_merge_no_counts(p.callstacks[t]);
        }
    }
    assert(sum.dom() =~= after.dom()) by {
        assert(single.dom() =~= set![s]);
        assert(after.dom() =~= p.callstacks.dom().insert(s));
    }
    assert(sum =~= after);
    merge_adds_totals(p.callstacks, single, k);
    lemma_tally_one(size);
    assert(tallies(single) =~= Map::empty().insert(s, (1nat, size as nat)));
    lemma_total_empty(Map::<Seq<usize>, Tally>::empty());
    lemma_total_insert(Map::<Seq<usize>, Tally>::empty(), s, (1nat, size as nat));
    if begins(k, s) {
        assert(under(tallies(single), k) =~= tallies(single));
    } else {
        lemma_total_empty(under(tallies(single), k));
    }
}

/// What is under a stack is finite where all there is is finite.
proof fn lemma_under_finite<V>(m: Map<Seq<usize>, V>, k: Seq<usize>)
    requires
        m.dom().finite(),
    ensures
        under(m, k).dom().finite(),
{
    assert(under(m, k).dom().subset_of(m.dom()));
    vstd::set_lib::lemma_set_subset_finite(m.dom(), under(m, k).dom());
}

/// A summary keeps the number of allocations of each size exactly where no other recorded stack
/// lies below, and amounts to the totals of the listed stacks everywhere.
pub proof fn sizes_are_kept_where_nothing_lies_below(
    stacks: Map<Seq<usize>, Map<usize, usize>>,
    k: Seq<usize>,
)
    requires
        listed(stacks, k),
    ensures
        summary_of(stacks)[k] is Detailed <==> forall|s: Seq<usize>| #[trigger]
            stacks.contains_key(s) && begins(k, s) ==> s == k,
        summary_of(stacks)[k] is Detailed ==> stacks.contains_key(k) && summary_of(stacks)[k]
            == StatsView::Detailed(stacks[k]),
        summary_of(stacks)[k].tally() == totals_of(stacks)[k],
{
    lemma_summary_totals(stacks);
    assert(sums_of(summary_of(stacks))[k] == totals_of(stacks)[k]);
}

/// What is under a beginning of a stack includes what is under the stack: no entry of a summary
/// has more calls or bytes than one that begins it.
pub proof fn beginnings_have_no_less(
    stacks: Map<Seq<usize>, Map<usize, usize>>,
    k: Seq<usize>,
    s: Seq<usize>,
)
    requires
        stacks.dom().finite(),
        listed(stacks, k),
        listed(stacks, s),
        begins(k, s),
    ensures
        totals_of(stacks)[s].0 <= totals_of(stacks)[k].0,
        totals_of(stacks)[s].1 <= totals_of(stacks)[k].1,
{
    let t = tallies(stacks);
    assert(t.dom() =~= stacks.dom());
    lemma_under_finite(t, k);
    let keys = Set::new(|x: Seq<usize>| begins(s, x));
    lemma_total_split(under(t, k), keys);
    assert(under(t, k).restrict(keys) =~= under(t, s));
}

/// The topmost entries of a summary amount to everything that was recorded.
pub proof fn topmost_entries_add_up(stacks: Map<Seq<usize>, Map<usize, usize>>)
    requires
        stacks.dom().finite(),
    ensures
        totals_of(stacks).dom().finite(),
        sum_over(
            totals_of(stacks),
            ranked(totals_of(stacks)),
            ranked(totals_of(stacks)).len(),
        ) == total(tallies(stacks)),
{
    lemma_listed_finite(stacks);
    assert(totals_of(stacks).dom() =~= Set::new(|k: Seq<usize>| listed(stacks, k)));
    assert(tallies(stacks).dom() =~= stacks.dom());
    lemma_tops_cover(totals_of(stacks), tallies(stacks));
}

/// An entry of a summary amounts to what was recorded for its own stack and the entries right
/// below it.
pub proof fn entries_below_add_up(stacks: Map<Seq<usize>, Map<usize, usize>>, k: Seq<usize>)
    requires
        stacks.dom().finite(),
        listed(stacks, k),
    ensures
        ({
            let below = under(totals_of(stacks), k).remove(k);
            totals_of(stacks)[k] == plus(
                tally_at(tallies(stacks), k),
                sum_over(below, ranked(below), ranked(below).len()),
            )
        }),
{
    let t = tallies(stacks);
    let part = under(t, k);
    let below = under(totals_of(stacks), k).remove(k);
    let rest = part.remove(k);
    topmost_entries_add_up(stacks);
    assert(t.dom() =~= stacks.dom());
    lemma_under_finite(totals_of(stacks), k);
    lemma_under_finite(t, k);
    assert forall|j: Seq<usize>| #[trigger] below.contains_key(j) implies below[j] == total(
        under(rest, j),
    ) by {
        assert(begins(k, j) && j != k);
        assert forall|x: Seq<usize>| #[trigger] under(t, j).contains_key(x) implies under(
            rest,
            j,
        ).contains_key(x) by {
            lemma_begins_transitive(k, j, x);
            if x == k {
                lemma_begins_antisymmetric(j, k);
            }
            assert(part.contains_key(x));
        }
        assert(under(rest, j).dom() =~= under(t, j).dom());
        assert(under(rest, j) =~= under(t, j));
    }
    lemma_tops_cover(below, rest);
    if part.contains_key(k) {
        lemma_total_remove(part, k);
    } else {
        assert(rest =~= part);
    }
}

/// The calls of those of the first `n` stacks of `order` that are shown.
pub open spec fn shown_calls(
    m: Map<Seq<usize>, Tally>,
    threshold: Threshold,
    order: Seq<Seq<usize>>,
    n: nat,
) -> nat
    decreases n,
{
    if n == 0 {
        0
    } else {
        let calls = m[order[n - 1]].0;
        shown_calls(m, threshold, order, (n - 1) as nat) + if threshold.hides(calls) {
            0
        } else {
            calls
        }
    }
}

/// Every stack is either shown or hidden.
proof fn lemma_shown_and_hidden(
    m: Map<Seq<usize>, Tally>,
    threshold: Threshold,
    order: Seq<Seq<usize>>,
    n: nat,
)
    ensures
        shown_calls(m, threshold, order, n) + hidden_calls(m, threshold, order, n) == sum_over(
            m,
            order,
            n,
        ).0,
    decreases n,
{
    if n > 0 {
        lemma_shown_and_hidden(m, threshold, order, (n - 1) as nat);
    }
}

/// The totals of a stack read the same with its details and without them.
pub proof fn details_do_not_change_the_totals(stats: StatsView)
    ensures
        totals_text(StatsView::Summary(stats.tally()).tally()) == totals_text(stats.tally()),
{
}

/// Whatever the threshold, a report accounts for every recorded call: those of the topmost
/// entries that it shows, and those in its last line, make up the total.
pub proof fn report_accounts_for_every_call(
    stacks: Map<Seq<usize>, Map<usize, usize>>,
    threshold: Threshold,
)
    requires
        stacks.dom().finite(),
    ensures
        ({
            let m = totals_of(stacks);
            let order = ranked(m);
            shown_calls(m, threshold, order, order.len()) + hidden_calls(
                m,
                threshold,
                order,
                order.len(),
            ) == total(tallies(stacks)).0
        }),
{
    let m = totals_of(stacks);
    topmost_entries_add_up(stacks);
    lemma_shown_and_hidden(m, threshold, ranked(m), ranked(m).len());
}

/// Whatever the threshold, an entry accounts for each of its calls: those that were recorded for
/// its own stack, those of the entries right below it that are shown, and those in the line for
/// the others.
pub proof fn entries_account_for_their_calls(
    stacks: Map<Seq<usize>, Map<usize, usize>>,
    threshold: Threshold,
    k: Seq<usize>,
)
    requires
        stacks.dom().finite(),
        listed(stacks, k),
    ensures
        ({
            let below = under(totals_of(stacks), k).remove(k);
            let order = ranked(below);
            totals_of(stacks)[k].0 == tally_at(tallies(stacks), k).0 + shown_calls(
                below,
                threshold,
                order,
                order.len(),
            ) + hidden_calls(below, threshold, order, order.len())
        }),
{
    let below = under(totals_of(stacks), k).remove(k);
    entries_below_add_up(stacks, k);
    lemma_shown_and_hidden(below, threshold, ranked(below), ranked(below).len());
}

/// `below` tells whether a number of calls is less than `part` of `whole` of the total; for a
/// threshold of 0.2 percent, 2 of 1000.
pub open spec fn compares_share<F: Fn(usize, usize) -> bool>(
    below: F,
    part: nat,
    whole: nat,
) -> bool {
    forall|calls: usize, total: usize, answer: bool| #[trigger]
        call_ensures(below, (calls, total), answer) ==> answer == (calls * whole < part * total)
}

/// An entry lies below a threshold exactly if it has less than that share of all the recorded
/// calls, wherever that is up to its own calls.
pub proof fn threshold_is_of_all_calls<F: Fn(usize, usize) -> bool>(
    stacks: Map<Seq<usize>, Map<usize, usize>>,
    below: F,
    part: nat,
    whole: nat,
    text: Seq<char>,
    k: Seq<usize>,
)
    requires
        stacks.dom().finite(),
        summable(stacks),
        compares_share(below, part, whole),
        answers(
            below,
            total(tallies(stacks)).0,
            totals_of(stacks),
            threshold_of(below, total(tallies(stacks)).0, text),
        ),
        considered(totals_of(stacks), threshold_of(below, total(tallies(stacks)).0, text), k),
    ensures
        threshold_of(below, total(tallies(stacks)).0, text).hides(totals_of(stacks)[k].0)
            <==> totals_of(stacks)[k].0 * whole < part * total(tallies(stacks)).0,
{
    let all = total(tallies(stacks)).0;
    assert(tallies(stacks).dom() =~= stacks.dom());
    lemma_under_fits(tallies(stacks), k);
    assert(answers_for(below, all, totals_of(stacks), threshold_of(below, all, text), k));
}

/// The lines of the report on a profile.
pub open spec fn report_lines(
    stacks: Map<Seq<usize>, Map<usize, usize>>,
    threshold: Threshold,
) -> Seq<Line> {
    lines_of(totals_of(stacks), threshold, None, seq![])
}

/// The stacks that have a line in the report on a profile.
pub open spec fn entries(
    stacks: Map<Seq<usize>, Map<usize, usize>>,
    threshold: Threshold,
) -> Set<Seq<usize>> {
    Set::new(
        |k: Seq<usize>|
            exists|i: int|
                0 <= i < report_lines(stacks, threshold).len() && is_entry(
                    #[trigger] report_lines(stacks, threshold)[i],
                    k,
                ),
    )
}

/// A summary of finitely many stacks is finite, and its report lists the stacks that are shown.
proof fn lemma_entries_shown(stacks: Map<Seq<usize>, Map<usize, usize>>, threshold: Threshold)
    requires
        stacks.dom().finite(),
    ensures
        totals_of(stacks).dom().finite(),
        lists(
            report_lines(stacks, threshold),
            totals_of(stacks),
            shown_stacks(totals_of(stacks), threshold),
        ),
        entries(stacks, threshold) == shown_stacks(totals_of(stacks), threshold),
{
    topmost_entries_add_up(stacks);
    lemma_lines_list(totals_of(stacks), threshold, None, seq![]);
    assert(entries(stacks, threshold) =~= shown_stacks(totals_of(stacks), threshold));
}

/// The report on a profile reads as its lines do, one after the other.
pub proof fn report_reads_as_its_lines(
    stacks: Map<Seq<usize>, Map<usize, usize>>,
    names: Map<usize, Seq<char>>,
    threshold: Threshold,
)
    requires
        stacks.dom().finite(),
    ensures
        report(totals_of(stacks), names, threshold, seq![]) == text_of(
            report_lines(stacks, threshold),
            names,
            threshold,
        ),
{
    topmost_entries_add_up(stacks);
    lemma_report_lines(totals_of(stacks), names, threshold, None, seq![]);
}

/// A listed stack has a line in a report exactly if neither it nor a listed stack that begins it
/// lies below the threshold. No other stack has a line.
pub proof fn entries_are_above_the_threshold(
    stacks: Map<Seq<usize>, Map<usize, usize>>,
    threshold: Threshold,
    k: Seq<usize>,
)
    requires
        stacks.dom().finite(),
    ensures
        entries(stacks, threshold).contains(k) <==> listed(stacks, k) && forall|s: Seq<usize>|
            #[trigger] listed(stacks, s) && begins(s, k) ==> !threshold.hides(
                totals_of(stacks)[s].0,
            ),
{
    let m = totals_of(stacks);
    lemma_entries_shown(stacks, threshold);
    assert forall|s: Seq<usize>| #[trigger] listed(stacks, s) <==> m.contains_key(s) by {}
}

/// A stack that has a line in a report has one line only, and it gives the totals of the stack.
pub proof fn entries_have_one_line(
    stacks: Map<Seq<usize>, Map<usize, usize>>,
    threshold: Threshold,
    i: int,
    j: int,
    k: Seq<usize>,
)
    requires
        stacks.dom().finite(),
        0 <= i < report_lines(stacks, threshold).len(),
        0 <= j < report_lines(stacks, threshold).len(),
        is_entry(report_lines(stacks, threshold)[i], k),
        is_entry(report_lines(stacks, threshold)[j], k),
    ensures
        i == j,
        report_lines(stacks, threshold)[i]->sums == totals_of(stacks)[k],
{
    lemma_entries_shown(stacks, threshold);
}

/// Every listed stack that begins an entry of a report is an entry itself: nothing is shown below
/// a stack that is not.
pub proof fn what_begins_an_entry_is_an_entry(
    stacks: Map<Seq<usize>, Map<usize, usize>>,
    threshold: Threshold,
    s: Seq<usize>,
    k: Seq<usize>,
)
    requires
        stacks.dom().finite(),
        entries(stacks, threshold).contains(k),
        listed(stacks, s),
        begins(s, k),
    ensures
        entries(stacks, threshold).contains(s),
{
    let m = totals_of(stacks);
    lemma_entries_shown(stacks, threshold);
    assert forall|t: Seq<usize>| #[trigger]
        m.contains_key(t) && begins(t, s) implies !threshold.hides(m[t].0) by {
        lemma_begins_transitive(t, s, k);
    }
}

/// A higher threshold shows no stack that a lower one does not show.
pub proof fn higher_thresholds_show_less(
    stacks: Map<Seq<usize>, Map<usize, usize>>,
    low: Threshold,
    high: Threshold,
)
    requires
        stacks.dom().finite(),
        low.below.subset_of(high.below),
    ensures
        entries(stacks, high).subset_of(entries(stacks, low)),
{
    let m = totals_of(stacks);
    lemma_entries_shown(stacks, low);
    lemma_entries_shown(stacks, high);
    assert forall|k: Seq<usize>| shown(m, high, k) implies #[trigger] shown(m, low, k) by {
        assert forall|s: Seq<usize>| #[trigger]
            m.contains_key(s) && begins(s, k) implies !low.hides(m[s].0) by {
            assert(!high.hides(m[s].0));
        }
    }
}

/// A higher share shows no stack that a lower one does not show.
pub proof fn higher_shares_show_less<F: Fn(usize, usize) -> bool, G: Fn(usize, usize) -> bool>(
    stacks: Map<Seq<usize>, Map<usize, usize>>,
    low: F,
    low_share: (nat, nat),
    low_text: Seq<char>,
    high: G,
    high_share: (nat, nat),
    high_text: Seq<char>,
)
    requires
        stacks.dom().finite(),
        compares_share(low, low_share.0, low_share.1),
        compares_share(high, high_share.0, high_share.1),
        answers(
            high,
            total(tallies(stacks)).0,
            totals_of(stacks),
            threshold_of(high, total(tallies(stacks)).0, high_text),
        ),
        low_share.1 > 0,
        high_share.1 > 0,
        low_share.0 * high_share.1 <= high_share.0 * low_share.1,
    ensures
        entries(stacks, threshold_of(high, total(tallies(stacks)).0, high_text)).subset_of(
            entries(stacks, threshold_of(low, total(tallies(stacks)).0, low_text)),
        ),
{
    let m = totals_of(stacks);
    let all = total(tallies(stacks)).0;
    let base = all as usize;
    let lower = threshold_of(low, all, low_text);
    let higher = threshold_of(high, all, high_text);
    lemma_entries_shown(stacks, lower);
    lemma_entries_shown(stacks, higher);
    assert forall|k: Seq<usize>| shown(m, higher, k) implies #[trigger] shown(m, lower, k) by {
        assert forall|s: Seq<usize>| #[trigger]
            m.contains_key(s) && begins(s, k) implies !lower.hides(m[s].0) by {
            assert forall|t: Seq<usize>| #[trigger]
                m.contains_key(t) && begins(t, s) && t != s implies !higher.hides(m[t].0) by {
                lemma_begins_transitive(t, s, k);
            }
            assert(considered(m, higher, s));
            assert(answers_for(high, all, m, higher, s));
            if lower.hides(m[s].0) {
                let calls = m[s].0 as usize;
                assert(call_ensures(low, (calls, base), true));
                lemma_share_grows(calls as nat, base as nat, low_share, high_share);
            }
        }
    }
}

/// What is less than a share of a total is less than a larger share of it.
proof fn lemma_share_grows(calls: nat, total: nat, low: (nat, nat), high: (nat, nat))
    requires
        low.1 > 0,
        high.1 > 0,
        low.0 * high.1 <= high.0 * low.1,
        calls * low.1 < low.0 * total,
    ensures
        calls * high.1 < high.0 * total,
{
    let (a, b, c, d) = (low.0, low.1, high.0, high.1);
    assert((calls * b) * d < (a * total) * d) by (nonlinear_arith)
        requires
            calls * b < a * total,
            d > 0,
    ;
    assert((a * d) * total <= (c * b) * total) by (nonlinear_arith)
        requires
            a * d <= c * b,
    ;
    assert((a * total) * d == (a * d) * total) by (nonlinear_arith);
    assert((calls * b) * d == (calls * d) * b) by (nonlinear_arith);
    assert((c * b) * total == (c * total) * b) by (nonlinear_arith);
    assert(calls * d < c * total) by (nonlinear_arith)
        requires
            (calls * d) * b < (c * total) * b,
            b > 0,
    ;
}

/// Without a threshold every listed stack, and so every recorded one, has exactly one line, with
/// its totals, and there are no other lines.
pub proof fn every_stack_has_one_line_without_threshold(
    stacks: Map<Seq<usize>, Map<usize, usize>>,
    threshold: Threshold,
    k: Seq<usize>,
) -> (at: int)
    requires
        stacks.dom().finite(),
        threshold.below.is_empty(),
        listed(stacks, k),
    ensures
        0 <= at < report_lines(stacks, threshold).len(),
        is_entry(report_lines(stacks, threshold)[at], k),
        report_lines(stacks, threshold)[at]->sums == totals_of(stacks)[k],
        forall|i: int|
            0 <= i < report_lines(stacks, threshold).len() ==> (#[trigger] report_lines(
                stacks,
                threshold,
            )[i]) is Entry,
        forall|i: int|
            0 <= i < report_lines(stacks, threshold).len() && is_entry(
                #[trigger] report_lines(stacks, threshold)[i],
                k,
            ) ==> i == at,
        entries(stacks, threshold) == totals_of(stacks).dom(),
{
    let m = totals_of(stacks);
    let lines = report_lines(stacks, threshold);
    lemma_entries_shown(stacks, threshold);
    lemma_only_entries(m, threshold, None, seq![]);
    assert(entries(stacks, threshold) =~= m.dom()) by {
        assert forall|s: Seq<usize>| m.contains_key(s) implies #[trigger] shown(
            m,
            threshold,
            s,
        ) by {}
    }
    assert(entries(stacks, threshold).contains(k));
    choose|i: int| 0 <= i < lines.len() && is_entry(#[trigger] lines[i], k)
}

/// Nothing lies below a threshold of zero, so that its report is the one with every entry.
pub proof fn nothing_lies_below_zero<F: Fn(usize, usize) -> bool>(
    below: F,
    whole: nat,
    calls: nat,
    percent: Seq<char>,
)
    requires
        compares_share(below, 0, whole),
    ensures
        threshold_of(below, calls, percent) == (Threshold { below: Set::empty(), percent }),
{
    let threshold = threshold_of(below, calls, percent);
    assert forall|n: usize| !(#[trigger] threshold.below.contains(n)) by {
        assert(n * whole >= 0) by (nonlinear_arith);
        if threshold.below.contains(n) {
            assert(call_ensures(below, (n, calls as usize), true));
        }
    }
    assert(threshold.below =~= Set::empty());
}

/// After a request, nested in others or not, the thread's flag is as it was before.
pub proof fn flag_is_restored(nested: Option<bool>)
    ensures
        finished(started(nested).0, started(nested).1) == nested,
{
}

/// A request that comes while another is being recorded is not recorded.
pub proof fn nested_requests_are_not_recorded(nested: Option<bool>)
    requires
        started(nested).0 == Plan::Record,
    ensures
        started(started(nested).1) == (Plan::Forward, started(nested).1),
{
}

/// A profile that was stored is not stored again, if it has any frame at all.
pub proof fn profiles_are_stored_once(p: ProfileView, s: Seq<usize>)
    requires
        p.callstacks.contains_key(s),
        s.len() > 0,
        p.symbols.dom() == frames_of(p.callstacks),
    ensures
        !p.symbols.dom().is_empty(),
{
    assert(s.contains(s[0]));
    assert(frames_of(p.callstacks).contains(s[0]));
}

/// What the first `n` profiles amount to, each for itself.
pub open spec fn sum_of_profiles(profiles: Seq<Profile>, n: nat) -> Tally
    decreases n,
{
    if n == 0 {
        (0, 0)
    } else {
        plus(
            sum_of_profiles(profiles, (n - 1) as nat),
            total(tallies(profiles[n - 1]@.callstacks)),
        )
    }
}

/// The profiles of all the threads amount to the same together as each for itself: no call and no
/// byte is lost or counted twice.
pub proof fn aggregate_adds_totals(profiles: Seq<Profile>, n: nat)
    requires
        n <= profiles.len(),
        aggregable(profiles, n),
        forall|i: int| 0 <= i < n ==> finite_counts((#[trigger] profiles[i])@.callstacks),
    ensures
        finite_counts(aggregated(profiles, n).callstacks),
        total(tallies(aggregated(profiles, n).callstacks)) == sum_of_profiles(profiles, n),
    decreases n,
{
    if n == 0 {
        lemma_total_empty(tallies(empty_profile().callstacks));
    } else {
        aggregate_adds_totals(profiles, (n - 1) as nat);
        merge_adds_totals(
            aggregated(profiles, (n - 1) as nat).callstacks,
            profiles[n - 1]@.callstacks,
            Seq::empty(),
        );
    }
}

/// The number of allocations of one size under one stack in the first `n` profiles.
pub open spec fn sum_of_counts(
    profiles: Seq<Profile>,
    n: nat,
    stack: Seq<usize>,
    size: usize,
) -> nat
    decreases n,
{
    if n == 0 {
        0
    } else {
        sum_of_counts(profiles, (n - 1) as nat, stack, size) + count(
            counts_for(profiles[n - 1]@.callstacks, stack),
            size,
        )
    }
}

/// The count of every stack and size in an aggregated profile is the sum of those in the single
/// profiles, whatever their order.
pub proof fn aggregate_adds_counts(
    profiles: Seq<Profile>,
    n: nat,
    stack: Seq<usize>,
    size: usize,
)
    requires
        n <= profiles.len(),
        aggregable(profiles, n),
    ensures
        count(counts_for(aggregated(profiles, n).callstacks, stack), size) == sum_of_counts(
            profiles,
            n,
            stack,
            size,
        ),
    decreases n,
{
    if n > 0 {
        aggregate_adds_counts(profiles, (n - 1) as nat, stack, size);
        merge_adds_counts(
            aggregated(profiles, (n - 1) as nat),
            profiles[n - 1]@,
            stack,
            size,
        );
    }
}

/// The pattern for a directory is matched by the file of every thread in it: it is the start of
/// that file's path, and a star for the rest.
pub proof fn pattern_matches_every_file(dir: Seq<char>, thread: nat)
    ensures
        pattern_path(dir).last() == '*',
        file_path(dir, thread) == pattern_path(dir).drop_last() + decimal(thread),
{
    reveal_strlit("/malloc_freq.");
    reveal_strlit("/malloc_freq.*");
    assert("/malloc_freq.*"@.drop_last() =~= "/malloc_freq."@);
    assert(pattern_path(dir).drop_last() =~= dir + "/malloc_freq."@);
}

/// A digit has one character.
proof fn lemma_digit_once(a: nat, b: nat)
    requires
        a < 10,
        b < 10,
        digit(a) == digit(b),
    ensures
        a == b,
{
    assert(digit(a) as nat == 48 + a);
    assert(digit(b) as nat == 48 + b);
}

/// Different numbers have different digits.
proof fn lemma_decimal_once(a: nat, b: nat)
    requires
        decimal(a) == decimal(b),
    ensures
        a == b,
    decreases a,
{
    lemma_decimal_long(a);
    lemma_decimal_long(b);
    if a < 10 || b < 10 {
        assert(seq![digit(a)][0] == decimal(a)[0]);
        assert(seq![digit(b)][0] == decimal(b)[0]);
        lemma_digit_once(a, b);
    } else {
        assert(decimal(a / 10).push(digit(a % 10)).last() == decimal(a).last());
        assert(decimal(b / 10).push(digit(b % 10)).last() == decimal(b).last());
        lemma_digit_once(a % 10, b % 10);
        assert(decimal(a).drop_last() =~= decimal(a / 10));
        assert(decimal(b).drop_last() =~= decimal(b / 10));
        lemma_decimal_once(a / 10, b / 10);
    }
}

/// A number has one digit if it is below ten, and more if it is not.
proof fn lemma_decimal_long(n: nat)
    ensures
        decimal(n).len() >= 1,
        decimal(n).len() == 1 <==> n < 10,
    decreases n,
{
    if n >= 10 {
        lemma_decimal_long(n / 10);
    }
}

/// Profiles of different processes are left in different directories.
pub proof fn processes_have_their_own_directory(a: nat, b: nat)
    requires
        a != b,
    ensures
        dir_path(a) != dir_path(b),
{
    if dir_path(a) == dir_path(b) {
        let start = "malloc_freq."@;
        assert(decimal(a) =~= dir_path(a).skip(start.len() as int));
        assert(decimal(b) =~= dir_path(b).skip(start.len() as int));
        lemma_decimal_once(a, b);
    }
}

/// Profiles of different threads are left in different files.
pub proof fn threads_have_their_own_file(dir: Seq<char>, a: nat, b: nat)
    requires
        a != b,
    ensures
        file_path(dir, a) != file_path(dir, b),
{
    if file_path(dir, a) == file_path(dir, b) {
        let start = dir + "/malloc_freq."@;
        assert(decimal(a) =~= file_path(dir, a).skip(start.len() as int));
        assert(decimal(b) =~= file_path(dir, b).skip(start.len() as int));
        lemma_decimal_once(a, b);
    }
}

/// The files that are handed out to threads one after the other are all different: each thread
/// has one of its own, and no profile takes the place of another.
pub proof fn no_profile_replaces_another(dir: Seq<char>, states: Seq<nat>, files: Seq<Seq<char>>)
    requires
        states.len() == files.len() + 1,
        forall|i: int|
            0 <= i < files.len() ==> hands_out(
                #[trigger] states[i],
                dir,
                files[i],
                states[i + 1],
            ),
    ensures
        files.no_duplicates(),
{
    assert forall|i: int, j: int| 0 <= i < j < files.len() implies files[i] != files[j] by {
        lemma_states_grow(dir, states, files, i, j);
        assert(hands_out(states[i], dir, files[i], states[i + 1]));
        assert(hands_out(states[j], dir, files[j], states[j + 1]));
        threads_have_their_own_file(dir, states[i], states[j]);
    }
}

/// The numbers that are handed out grow.
proof fn lemma_states_grow(
    dir: Seq<char>,
    states: Seq<nat>,
    files: Seq<Seq<char>>,
    i: int,
    j: int,
)
    requires
        states.len() == files.len() + 1,
        forall|i: int|
            0 <= i < files.len() ==> hands_out(
                #[trigger] states[i],
                dir,
                files[i],
                states[i + 1],
            ),
        0 <= i < j < files.len(),
    ensures
        states[i] < states[j],
    decreases j,
{
    assert(hands_out(states[j - 1], dir, files[j - 1], states[j]));
    if i < j - 1 {
        lemma_states_grow(dir, states, files, i, j - 1);
    }
}

/// A decimal number has no comma.
proof fn lemma_decimal_has_no_comma(n: nat)
    ensures
        !decimal(n).contains(','),
    decreases n,
{
    if n >= 10 {
        lemma_decimal_has_no_comma(n / 10);
        let d = decimal(n);
        assert forall|i: int| 0 <= i < d.len() implies d[i] != ',' by {
            if i < d.len() - 1 {
                assert(decimal(n / 10)[i] == d[i]);
            }
        }
    }
}

/// The text without its commas.
pub open spec fn without_commas(text: Seq<char>) -> Seq<char>
    decreases text.len(),
{
    if text.len() == 0 {
        seq![]
    } else if text.last() == ',' {
        without_commas(text.drop_last())
    } else {
        without_commas(text.drop_last()).push(text.last())
    }
}

/// A text that has no commas stays as it is.
proof fn lemma_no_commas(text: Seq<char>)
    requires
        !text.contains(','),
    ensures
        without_commas(text) == text,
    decreases text.len(),
{
    if text.len() > 0 {
        let shorter = text.drop_last();
        assert forall|i: int| 0 <= i < shorter.len() implies shorter[i] != ',' by {
            assert(text[i] == shorter[i]);
        }
        lemma_no_commas(shorter);
        assert(text =~= shorter.push(text.last()));
    } else {
        assert(text =~= seq![]);
    }
}

/// The commas between groups of digits are all that tells a grouped number from a plain one.
pub proof fn grouping_only_adds_commas(n: nat)
    ensures
        without_commas(grouped(n)) == decimal(n),
    decreases n,
{
    if n < 1000 {
        lemma_decimal_has_no_comma(n);
        lemma_no_commas(decimal(n));
    } else {
        grouping_only_adds_commas(n / 1000);
        let head = grouped(n / 1000);
        let (a, b, c) = (digit(n / 100 % 10), digit(n / 10 % 10), digit(n % 10));
        let text = grouped(n);
        assert(text =~= head.push(',').push(a).push(b).push(c));
        assert(text.drop_last() =~= head.push(',').push(a).push(b));
        assert(text.drop_last().drop_last() =~= head.push(',').push(a));
        assert(text.drop_last().drop_last().drop_last() =~= head.push(','));
        assert(head.push(',').drop_last() =~= head);
        reveal_with_fuel(without_commas, 5);
        reveal_with_fuel(decimal, 4);
        assert(n / 10 / 10 == n / 100);
        assert(n / 10 / 10 / 10 == n / 1000);
    }
}

} // verus!
