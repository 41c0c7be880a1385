//! Human-readable reports.
use radix_trie::SubTrie;
use vstd::prelude::*;

use crate::children::{all_keyed, lemma_sums_split, sums_each, trie_children_with_keys};
use crate::output::{
    joined, lemma_texts_kept, lemma_writes_join, lemma_writes_none, lemma_writes_one,
    lemma_writes_stop, write_next, writes_all, WriteError, Writer,
};
use crate::profile::Profile;
use crate::ranking::{
    begun, by_calls, lemma_order_unique, lemma_ranked, lemma_sum_begun, lemma_top_of, outranks,
    ranked, ranks, sorts_down, sum_over, topmost, tops,
};
use crate::stacks::{
    begins, branches_before, lemma_begins_antisymmetric, lemma_begins_transitive,
    lemma_branches_extend, under,
};
use crate::stats::{sums_of, totals_text, CallStackStats, StatsView};
use crate::summary::{
    lemma_listed_finite, lemma_summary_totals, listed, summable, tallies, totals_of,
};
use crate::sums::{fits, lemma_total_split, total, Tally};
use crate::text::{decimal, decimal_text};
use crate::trie::{
    counts_entries, headed_by, key_at, node_height, node_key, node_stats, parts_of, root, splits,
    value_at,
};

verus! {

broadcast use vstd::std_specs::hash::group_hash_axioms;

/// Which entries of a report are too small to be shown, and how the line about them reads. Only
/// contracts speak of it.
pub struct Threshold {
    /// The numbers of calls that lie below the threshold.
    pub below: Set<usize>,
    /// The threshold in percent, as it is printed.
    pub percent: Seq<char>,
}

impl Threshold {
    /// An entry with this many calls is not shown.
    pub open spec fn hides(self, calls: nat) -> bool {
        calls <= usize::MAX && self.below.contains(calls as usize)
    }
}

/// `below` can be asked of any number of calls and any total, and has one answer.
pub open spec fn decisive<F: Fn(usize, usize) -> bool>(below: F) -> bool {
    forall|calls: usize, total: usize| #[trigger]
        call_requires(below, (calls, total)) && !(call_ensures(below, (calls, total), true)
            && call_ensures(below, (calls, total), false))
}

/// The threshold that `below` decides: a number of calls lies below it if `below` says so of that
/// number and the total.
pub open spec fn threshold_of<F: Fn(usize, usize) -> bool>(
    below: F,
    total: nat,
    percent: Seq<char>,
) -> Threshold {
    Threshold {
        below: Set::new(|calls: usize| call_ensures(below, (calls, total as usize), true)),
        percent,
    }
}

/// The name of a frame, or its address in decimal where it has none.
pub open spec fn frame_name(names: Map<usize, Seq<char>>, frame: usize) -> Seq<char> {
    if names.contains_key(frame) {
        names[frame]
    } else {
        decimal(frame as nat)
    }
}

/// The line of one stack: its totals and the name of its last frame.
pub open spec fn entry_text(
    names: Map<usize, Seq<char>>,
    stack: Seq<usize>,
    t: Tally,
    prefix: Seq<char>,
) -> Seq<char> {
    "\n"@ + prefix + "->"@ + totals_text(t) + ": "@ + frame_name(names, stack.last())
}

/// The pieces in which the line of one stack is written.
pub open spec fn entry_parts(
    names: Map<usize, Seq<char>>,
    stack: Seq<usize>,
    t: Tally,
    prefix: Seq<char>,
) -> Seq<Seq<char>> {
    seq!["\n"@, prefix, "->"@, totals_text(t), ": "@, frame_name(names, stack.last())]
}

/// The pieces of the line of a stack that may not be there.
pub open spec fn own_parts(
    names: Map<usize, Seq<char>>,
    own: Option<Seq<usize>>,
    whole: Map<Seq<usize>, Tally>,
    prefix: Seq<char>,
) -> Seq<Seq<char>> {
    match own {
        Some(stack) => entry_parts(names, stack, whole[stack], prefix),
        None => seq![],
    }
}

/// What stands before the lines below the entry `n` of `len`: a bar, but not below the last.
pub open spec fn inner_prefix(prefix: Seq<char>, n: nat, len: nat) -> Seq<char> {
    if n == len {
        prefix + "  "@
    } else {
        prefix + " |"@
    }
}

/// The calls of those of the first `n` stacks of `order` that are not shown.
pub open spec fn hidden_calls(
    m: Map<Seq<usize>, Tally>,
    threshold: Threshold,
    order: Seq<Seq<usize>>,
    n: nat,
) -> nat
    decreases n,
{
    if n == 0 {
        0
    } else {
        let calls = m[order[n - 1]].0;
        hidden_calls(m, threshold, order, (n - 1) as nat) + if threshold.hides(calls) {
            calls
        } else {
            0
        }
    }
}

/// The line for the calls that are not shown.
pub open spec fn hidden_text(
    calls: nat,
    threshold: Threshold,
    prefix: Seq<char>,
) -> Seq<char> {
    "\n"@ + prefix + "  ->"@ + decimal(calls) + " calls in places below mf_print threshold ("@
        + threshold.percent + "%)"@
}

/// The line for the calls that are not shown is written in one piece, if there are any.
pub open spec fn hidden_parts(
    calls: nat,
    threshold: Threshold,
    prefix: Seq<char>,
) -> Seq<Seq<char>> {
    if calls == 0 {
        seq![]
    } else {
        seq![hidden_text(calls, threshold, prefix)]
    }
}

/// The report on the stacks of `m`: each topmost stack with all that it begins, in the order of
/// [`ranked`], and then the number of calls that are not shown.
pub open spec fn report(
    m: Map<Seq<usize>, Tally>,
    names: Map<usize, Seq<char>>,
    threshold: Threshold,
    prefix: Seq<char>,
) -> Seq<char> {
    joined(report_parts(m, names, threshold, prefix))
}

/// The pieces in which the report on the stacks of `m` is written.
pub open spec fn report_parts(
    m: Map<Seq<usize>, Tally>,
    names: Map<usize, Seq<char>>,
    threshold: Threshold,
    prefix: Seq<char>,
) -> Seq<Seq<char>>
    decreases m.dom().len(), ranked(m).len() + 1,
    when m.dom().finite()
{
    parts_first(m, names, threshold, prefix, ranked(m).len()) + hidden_parts(
        hidden_calls(m, threshold, ranked(m), ranked(m).len()),
        threshold,
        prefix,
    )
}

/// The pieces of the report on the first `n` topmost stacks of `m` and all that they begin.
pub open spec fn parts_first(
    m: Map<Seq<usize>, Tally>,
    names: Map<usize, Seq<char>>,
    threshold: Threshold,
    prefix: Seq<char>,
    n: nat,
) -> Seq<Seq<char>>
    decreases m.dom().len(), n,
    when m.dom().finite() && n <= ranked(m).len()
{
    if n == 0 {
        seq![]
    } else {
        let k = ranked(m)[n - 1];
        let inner = inner_prefix(prefix, n, ranked(m).len());
        proof {
            lemma_fewer_below(m, n);
        }
        parts_first(m, names, threshold, prefix, (n - 1) as nat) + if threshold.hides(m[k].0) {
            seq![]
        } else {
            entry_parts(names, k, m[k], inner) + report_parts(
                under(m, k).remove(k),
                names,
                threshold,
                inner,
            )
        }
    }
}

/// What is reported of the first stacks stands at the start of the whole report.
proof fn lemma_first_starts(
    m: Map<Seq<usize>, Tally>,
    names: Map<usize, Seq<char>>,
    threshold: Threshold,
    prefix: Seq<char>,
    n: nat,
    end: nat,
)
    requires
        m.dom().finite(),
        n <= end <= ranked(m).len(),
    ensures
        parts_first(m, names, threshold, prefix, n).is_prefix_of(
            parts_first(m, names, threshold, prefix, end),
        ),
    decreases end,
{
    if n < end {
        lemma_first_starts(m, names, threshold, prefix, n, (end - 1) as nat);
    }
}

/// The pieces of a topmost stack that is shown stand behind those of the stacks before it.
proof fn lemma_parts_next(
    m: Map<Seq<usize>, Tally>,
    names: Map<usize, Seq<char>>,
    threshold: Threshold,
    prefix: Seq<char>,
    n: nat,
)
    requires
        m.dom().finite(),
        0 < n <= ranked(m).len(),
        !threshold.hides(m[ranked(m)[n - 1]].0),
    ensures
        parts_first(m, names, threshold, prefix, n) == parts_first(
            m,
            names,
            threshold,
            prefix,
            (n - 1) as nat,
        ) + (entry_parts(
            names,
            ranked(m)[n - 1],
            m[ranked(m)[n - 1]],
            inner_prefix(prefix, n, ranked(m).len()),
        ) + report_parts(
            under(m, ranked(m)[n - 1]).remove(ranked(m)[n - 1]),
            names,
            threshold,
            inner_prefix(prefix, n, ranked(m).len()),
        )),
{
    lemma_fewer_below(m, n);
}

/// The pieces of the first topmost stacks stand at the start of the report.
proof fn lemma_parts_start(
    m: Map<Seq<usize>, Tally>,
    names: Map<usize, Seq<char>>,
    threshold: Threshold,
    prefix: Seq<char>,
    n: nat,
)
    requires
        m.dom().finite(),
        n <= ranked(m).len(),
    ensures
        parts_first(m, names, threshold, prefix, n).is_prefix_of(
            report_parts(m, names, threshold, prefix),
        ),
{
    let len = ranked(m).len();
    let whole = parts_first(m, names, threshold, prefix, len);
    let tail = hidden_parts(hidden_calls(m, threshold, ranked(m), len), threshold, prefix);
    lemma_first_starts(m, names, threshold, prefix, n, len);
    lemma_prefix_grows(parts_first(m, names, threshold, prefix, n), whole, tail);
    assert(report_parts(m, names, threshold, prefix) == whole + tail);
}

/// Once more texts are written behind those before them, all of these are; where they could not be
/// written, the whole ends.
proof fn lemma_more_written<W: Writer>(
    head: Seq<Seq<char>>,
    before: Seq<Seq<char>>,
    more: Seq<Seq<char>>,
    all: Seq<Seq<char>>,
    start: W,
    mid: W,
    after: W,
    ok: bool,
)
    requires
        (before + more).is_prefix_of(all),
        writes_all(start, head + before, mid, true),
        writes_all(mid, more, after, ok),
    ensures
        ok ==> writes_all(start, head + (before + more), after, true),
        !ok ==> writes_all(start, head + all, after, false),
{
    lemma_writes_join(start, head + before, mid, more, after, ok);
    lemma_joins_group(head, before, more);
    if !ok {
        lemma_prefix_behind(head, before + more, all);
        lemma_writes_stop(start, head + (before + more), head + all, after);
    }
}

/// It does not matter which texts are put together first.
proof fn lemma_joins_group(a: Seq<Seq<char>>, b: Seq<Seq<char>>, c: Seq<Seq<char>>)
    ensures
        (a + b) + c == a + (b + c),
{
    assert((a + b) + c =~= a + (b + c));
}

/// What starts some texts starts them with more behind them too.
proof fn lemma_prefix_grows(part: Seq<Seq<char>>, whole: Seq<Seq<char>>, tail: Seq<Seq<char>>)
    requires
        part.is_prefix_of(whole),
    ensures
        part.is_prefix_of(whole + tail),
{
    assert((whole + tail).subrange(0, part.len() as int) =~= whole.subrange(0, part.len() as int));
}

/// What starts some texts starts them behind others too.
proof fn lemma_prefix_behind(head: Seq<Seq<char>>, part: Seq<Seq<char>>, whole: Seq<Seq<char>>)
    requires
        part.is_prefix_of(whole),
    ensures
        (head + part).is_prefix_of(head + whole),
{
    assert((head + whole).subrange(0, (head + part).len() as int) =~= head + whole.subrange(
        0,
        part.len() as int,
    ));
}

/// Whether `k` is shown is up to its own calls: no other stack of `m` that begins it lies below
/// the threshold.
pub open spec fn considered(
    m: Map<Seq<usize>, Tally>,
    threshold: Threshold,
    k: Seq<usize>,
) -> bool {
    &&& m.contains_key(k)
    &&& forall|s: Seq<usize>| #[trigger]
        m.contains_key(s) && begins(s, k) && s != k ==> !threshold.hides(m[s].0)
}

/// `below` says of the calls of `k` whether they lie below the threshold.
pub open spec fn answers_for<F: Fn(usize, usize) -> bool>(
    below: F,
    total: nat,
    m: Map<Seq<usize>, Tally>,
    threshold: Threshold,
    k: Seq<usize>,
) -> bool {
    call_ensures(below, (m[k].0 as usize, total as usize), threshold.hides(m[k].0))
}

/// `below` says of the calls of every stack that is considered whether they lie below the
/// threshold.
pub open spec fn answers<F: Fn(usize, usize) -> bool>(
    below: F,
    total: nat,
    m: Map<Seq<usize>, Tally>,
    threshold: Threshold,
) -> bool {
    forall|k: Seq<usize>| #[trigger]
        considered(m, threshold, k) ==> answers_for(below, total, m, threshold, k)
}

/// `below` says so of the first `n` topmost stacks and of all that they begin.
spec fn answers_first<F: Fn(usize, usize) -> bool>(
    below: F,
    total: nat,
    m: Map<Seq<usize>, Tally>,
    threshold: Threshold,
    n: int,
) -> bool {
    forall|i: int| #![trigger ranked(m)[i]]
        0 <= i < n ==> {
            let k = ranked(m)[i];
            &&& answers_for(below, total, m, threshold, k)
            &&& threshold.hides(m[k].0) || answers(
                below,
                total,
                under(m, k).remove(k),
                threshold,
            )
        }
}

/// The topmost stacks begin all the others.
proof fn lemma_answers<F: Fn(usize, usize) -> bool>(
    below: F,
    total: nat,
    m: Map<Seq<usize>, Tally>,
    threshold: Threshold,
)
    requires
        m.dom().finite(),
        answers_first(below, total, m, threshold, ranked(m).len() as int),
    ensures
        answers(below, total, m, threshold),
{
    lemma_ranked(m);
    assert forall|k: Seq<usize>| #[trigger] considered(m, threshold, k) implies answers_for(
        below,
        total,
        m,
        threshold,
        k,
    ) by {
        let top = lemma_top_of(m, k);
        assert(tops(m).contains(top));
        let i = choose|i: int| 0 <= i < ranked(m).len() && ranked(m)[i] == top;
        if top != k {
            let inner = under(m, top).remove(top);
            assert(inner.contains_key(k));
            assert(considered(inner, threshold, k));
            assert(answers_for(below, total, inner, threshold, k));
        }
    }
}

/// There is less below a topmost stack than there is in all.
pub proof fn lemma_fewer_below(m: Map<Seq<usize>, Tally>, n: nat)
    requires
        m.dom().finite(),
        0 < n <= ranked(m).len(),
    ensures
        ({
            let k = ranked(m)[n - 1];
            &&& m.contains_key(k)
            &&& under(m, k).remove(k).dom().finite()
            &&& under(m, k).remove(k).dom().len() < m.dom().len()
        }),
{
    let k = ranked(m)[n - 1];
    let all = m.dom();
    lemma_ranked(m);
    assert(tops(m).contains(k));
    let inner = under(m, k).remove(k).dom();
    assert(inner.subset_of(all.remove(k)));
    vstd::set_lib::lemma_set_subset_finite(all, inner);
    vstd::set_lib::lemma_len_subset(inner, all.remove(k));
}

/// What the stacks at and below a node amount to.
spec fn node_totals(node: SubTrie<'_, Vec<usize>, CallStackStats>) -> Map<Seq<usize>, Tally> {
    sums_of(node_stats(node))
}

/// What the stacks at and below each of some nodes amount to.
spec fn parts_totals(nodes: Seq<SubTrie<'_, Vec<usize>, CallStackStats>>) -> Seq<
    Map<Seq<usize>, Tally>,
> {
    Seq::new(nodes.len(), |i: int| node_totals(nodes[i]))
}

/// Each of the nodes has a key, which begins all the stacks at and below it.
spec fn keyed(nodes: Seq<SubTrie<'_, Vec<usize>, CallStackStats>>) -> bool {
    forall|i: int|
        0 <= i < nodes.len() ==> (node_key(#[trigger] nodes[i]) matches Some(key) && headed_by(
            node_totals(nodes[i]),
            key,
        ))
}

/// What stands at and below a node falls into parts as its statistics do.
proof fn lemma_totals_split(
    own: Option<Seq<usize>>,
    whole: Map<Seq<usize>, StatsView>,
    nodes: Seq<SubTrie<'_, Vec<usize>, CallStackStats>>,
)
    requires
        splits(own, whole, parts_of(nodes)),
        all_keyed(nodes),
    ensures
        splits(own, sums_of(whole), parts_totals(nodes)),
        keyed(nodes),
{
    lemma_sums_split(own, whole, parts_of(nodes));
    assert(sums_each(parts_of(nodes)) =~= parts_totals(nodes));
    assert forall|i: int| 0 <= i < nodes.len() implies (node_key(#[trigger] nodes[i]) matches Some(
        key,
    ) && headed_by(node_totals(nodes[i]), key)) by {
        assert(node_totals(nodes[i]).dom() =~= node_stats(nodes[i]).dom());
    }
}

/// Without the entry of `own`, if there is one.
spec fn without(own: Option<Seq<usize>>, whole: Map<Seq<usize>, Tally>) -> Map<Seq<usize>, Tally> {
    match own {
        Some(key) => whole.remove(key),
        None => whole,
    }
}

/// The keys of some nodes.
spec fn keys_of(nodes: Seq<SubTrie<'_, Vec<usize>, CallStackStats>>) -> Seq<Seq<usize>> {
    Seq::new(nodes.len(), |i: int| node_key(nodes[i])->0)
}

/// The keys of the nodes right below another are the topmost stacks there, and all that is under
/// such a stack is at and below its node.
proof fn lemma_keys_topmost(
    own: Option<Seq<usize>>,
    whole: Map<Seq<usize>, Tally>,
    nodes: Seq<SubTrie<'_, Vec<usize>, CallStackStats>>,
)
    requires
        splits(own, whole, parts_totals(nodes)),
        keyed(nodes),
    ensures
        forall|i: int|
            0 <= i < nodes.len() ==> topmost(without(own, whole), #[trigger] keys_of(nodes)[i])
                && under(without(own, whole), keys_of(nodes)[i]) == node_totals(nodes[i]),
        forall|k: Seq<usize>| #[trigger]
            topmost(without(own, whole), k) ==> keys_of(nodes).contains(k),
{
    let rest = without(own, whole);
    let parts = parts_totals(nodes);
    let keys = keys_of(nodes);
    assert forall|i: int| 0 <= i < nodes.len() implies topmost(rest, #[trigger] keys[i]) && under(
        rest,
        keys[i],
    ) == node_totals(nodes[i]) by {
        let k = keys[i];
        assert(headed_by(node_totals(nodes[i]), k));
        assert(parts[i].contains_key(k));
        assert forall|s: Seq<usize>| #[trigger]
            rest.contains_key(s) && (begins(s, k) || begins(k, s)) implies parts[i].contains_key(
            s,
        ) by {
            assert(whole.contains_key(s));
            let j = choose|j: int| 0 <= j < parts.len() && #[trigger] parts[j].contains_key(s);
            if i < j {
                lemma_branches_extend(k, s, k, s);
            } else if j < i {
                lemma_branches_extend(s, k, s, k);
            }
        }
        assert forall|s: Seq<usize>| #[trigger] rest.contains_key(s) && begins(s, k) implies s
            == k by {
            assert(parts[i].contains_key(s));
            assert(begins(k, s));
            lemma_begins_antisymmetric(s, k);
        }
        assert forall|s: Seq<usize>| #[trigger] parts[i].contains_key(s) implies rest.contains_key(
            s,
        ) && rest[s] == parts[i][s] && begins(k, s) by {
            assert(node_totals(nodes[i]).contains_key(s));
        }
        assert(under(rest, k) =~= node_totals(nodes[i]));
    }
    assert forall|k: Seq<usize>| #[trigger] topmost(rest, k) implies keys.contains(k) by {
        assert(whole.contains_key(k));
        let i = choose|i: int| 0 <= i < parts.len() && #[trigger] parts[i].contains_key(k);
        assert(node_totals(nodes[i]).contains_key(k));
        assert(begins(keys[i], k));
        assert(topmost(rest, keys[i]));
        assert(keys[i] == k);
    }
}

/// Nodes in the order of their calls are in the order in which their stacks are shown.
proof fn lemma_sorted_ranks(
    own: Option<Seq<usize>>,
    whole: Map<Seq<usize>, Tally>,
    nodes: Seq<SubTrie<'_, Vec<usize>, CallStackStats>>,
    counts: Seq<usize>,
    order: Seq<usize>,
)
    requires
        splits(own, whole, parts_totals(nodes)),
        keyed(nodes),
        counts.len() == nodes.len() <= usize::MAX,
        forall|i: int|
            0 <= i < nodes.len() ==> counts[i] == whole[#[trigger] keys_of(nodes)[i]].0,
        sorts_down(counts, order),
    ensures
        ranked(without(own, whole)) == Seq::new(
            order.len(),
            |i: int| keys_of(nodes)[order[i] as int],
        ),
{
    let rest = without(own, whole);
    let parts = parts_totals(nodes);
    let keys = keys_of(nodes);
    let shown = Seq::new(order.len(), |i: int| keys[order[i] as int]);
    lemma_keys_topmost(own, whole, nodes);
    assert forall|i: int| 0 <= i < shown.len() implies tops(rest).contains(#[trigger] shown[i]) by {
        assert(topmost(rest, keys[order[i] as int]));
    }
    assert forall|k: Seq<usize>| #[trigger] tops(rest).contains(k) implies shown.contains(k) by {
        assert(topmost(rest, k));
        assert(keys.contains(k));
        let p = choose|p: int| 0 <= p < keys.len() && keys[p] == k;
        assert(order.contains(p as usize));
        let i = choose|i: int| 0 <= i < order.len() && order[i] == p as usize;
        assert(shown[i] == k);
    }
    assert forall|i: int, j: int| 0 <= i < j < shown.len() implies outranks(
        rest,
        #[trigger] shown[i],
        #[trigger] shown[j],
    ) by {
        let p = order[i] as int;
        let q = order[j] as int;
        assert(topmost(rest, keys[p]) && topmost(rest, keys[q]));
        if p < q {
            assert(headed_by(node_totals(nodes[p]), keys[p]));
            assert(headed_by(node_totals(nodes[q]), keys[q]));
            assert(parts[p].contains_key(keys[p]) && parts[q].contains_key(keys[q]));
            assert(branches_before(keys[p], keys[q]));
        }
    }
    assert(ranks(rest, tops(rest), shown));
    lemma_order_unique(rest, tops(rest), ranked(rest), shown);
}

/// The calls of the topmost stacks of `m` add up within a `usize`.
spec fn level_fits(m: Map<Seq<usize>, Tally>) -> bool {
    sum_over(m, ranked(m), ranked(m).len()).0 <= usize::MAX
}

/// A report can be written on the stacks of `m`: none is empty, the numbers of each fit in a
/// `usize`, and so do the calls of the stacks that stand side by side.
spec fn printable(m: Map<Seq<usize>, Tally>) -> bool {
    &&& forall|k: Seq<usize>| #[trigger] m.contains_key(k) ==> k.len() > 0 && fits(m[k])
    &&& level_fits(m)
    &&& forall|k: Seq<usize>| #[trigger]
        m.contains_key(k) ==> level_fits(under(m, k).remove(k))
}

/// Where a report can be written on all, one can be written on what is below a stack.
proof fn lemma_printable_below(m: Map<Seq<usize>, Tally>, k: Seq<usize>)
    requires
        printable(m),
        m.contains_key(k),
    ensures
        printable(under(m, k).remove(k)),
{
    let inner = under(m, k).remove(k);
    assert forall|j: Seq<usize>| #[trigger] inner.contains_key(j) implies level_fits(
        under(inner, j).remove(j),
    ) by {
        assert(m.contains_key(j));
        assert forall|s: Seq<usize>| #[trigger]
            m.contains_key(s) && begins(j, s) && s != j implies inner.contains_key(s) by {
            lemma_begins_transitive(k, j, s);
            if s == k {
                lemma_begins_antisymmetric(j, k);
            }
        }
        assert(under(inner, j).remove(j) =~= under(m, j).remove(j));
    }
}

/// What is under one stack is at most all there is.
pub proof fn lemma_under_fits(t: Map<Seq<usize>, Tally>, k: Seq<usize>)
    requires
        t.dom().finite(),
        fits(total(t)),
    ensures
        fits(total(under(t, k))),
{
    let keys = Set::new(|s: Seq<usize>| begins(k, s));
    lemma_total_split(t, keys);
    assert(t.restrict(keys) =~= under(t, k));
}

/// Where each stack of `m` has the total of those of `t` that it begins, the calls of the topmost
/// stacks are some of those of `t`.
proof fn lemma_level_fits(m: Map<Seq<usize>, Tally>, t: Map<Seq<usize>, Tally>)
    requires
        m.dom().finite(),
        t.dom().finite(),
        fits(total(t)),
        forall|k: Seq<usize>| #[trigger] m.contains_key(k) ==> m[k] == total(under(t, k)),
    ensures
        level_fits(m),
{
    let order = ranked(m);
    lemma_ranked(m);
    assert forall|i: int| 0 <= i < order.len() implies topmost(m, #[trigger] order[i]) by {
        assert(tops(m).contains(order[i]));
    }
    lemma_sum_begun(m, t, order, order.len());
    lemma_total_split(t, begun(order, order.len()));
}

/// A report can be written on every profile of which a summary can be made.
proof fn lemma_totals_printable(stacks: Map<Seq<usize>, Map<usize, usize>>)
    requires
        stacks.dom().finite(),
        summable(stacks),
    ensures
        totals_of(stacks).dom().finite(),
        printable(totals_of(stacks)),
{
    let m = totals_of(stacks);
    let t = tallies(stacks);
    assert(t.dom() =~= stacks.dom());
    lemma_listed_finite(stacks);
    assert(m.dom() =~= Set::new(|k: Seq<usize>| listed(stacks, k)));
    lemma_level_fits(m, t);
    assert forall|k: Seq<usize>| #[trigger] m.contains_key(k) implies k.len() > 0 && fits(m[k])
        && level_fits(under(m, k).remove(k)) by {
        let inner = under(m, k).remove(k);
        assert(inner.dom().subset_of(m.dom()));
        vstd::set_lib::lemma_set_subset_finite(m.dom(), inner.dom());
        lemma_under_fits(t, k);
        lemma_level_fits(inner, t);
    }
}

/// The calls of those of the first `n` stacks that are not shown are some of those of all the
/// stacks.
proof fn lemma_hidden_some(
    m: Map<Seq<usize>, Tally>,
    threshold: Threshold,
    order: Seq<Seq<usize>>,
    n: nat,
    end: nat,
)
    requires
        n <= end,
    ensures
        hidden_calls(m, threshold, order, n) <= sum_over(m, order, end).0,
    decreases end,
{
    if n < end {
        lemma_hidden_some(m, threshold, order, n, (end - 1) as nat);
    } else if n > 0 {
        lemma_hidden_some(m, threshold, order, (n - 1) as nat, (n - 1) as nat);
    }
}

/// The number of calls of each of some nodes.
fn calls_of(nodes: &Vec<SubTrie<'_, Vec<usize>, CallStackStats>>) -> (counts: Vec<usize>)
    requires
        keyed(nodes@),
        forall|i: int|
            0 <= i < nodes.len() ==> fits(node_totals(nodes[i])[#[trigger] keys_of(nodes@)[i]]),
    ensures
        counts.len() == nodes.len(),
        forall|i: int|
            0 <= i < nodes.len() ==> counts[i] == node_totals(nodes[i])[#[trigger] keys_of(
                nodes@,
            )[i]].0,
{
    let n: usize = nodes.len();
    let mut counts: Vec<usize> = Vec::new();
    for i in 0..n
        invariant
            n == nodes.len(),
            keyed(nodes@),
            forall|i: int|
                0 <= i < nodes.len() ==> fits(
                    node_totals(nodes[i])[#[trigger] keys_of(nodes@)[i]],
                ),
            counts.len() == i,
            forall|j: int|
                0 <= j < i ==> counts[j] == node_totals(nodes[j])[#[trigger] keys_of(nodes@)[j]].0,
    {
        let ghost k = keys_of(nodes@)[i as int];
        assert(headed_by(node_totals(nodes[i as int]), k));
        counts.push(value_at(&nodes[i]).unwrap().num_calls());
    }
    counts
}

/// Writes the line for the calls that are not shown, if there are any.
fn format_hidden<W: Writer>(
    calls: usize,
    percent: &str,
    prefix: &str,
    f: &mut W,
    Ghost(threshold): Ghost<Threshold>,
) -> (result: Result<(), WriteError>)
    requires
        threshold.percent == percent@,
    ensures
        writes_all(
            *old(f),
            hidden_parts(calls as nat, threshold, prefix@),
            *final(f),
            result is Ok,
        ),
{
    if calls == 0 {
        proof {
            lemma_writes_none(*f);
        }
        return Ok(());
    }
    let mut text = String::new();
    text.append("\n");
    text.append(prefix);
    text.append("  ->");
    text.append(decimal_text(calls).as_str());
    text.append(" calls in places below mf_print threshold (");
    text.append(percent);
    text.append("%)");
    assert(text@ =~= hidden_text(calls as nat, threshold, prefix@));
    let result = f.write_str(text.as_str());
    proof {
        lemma_writes_one(*old(f), text@, *f, result is Ok);
    }
    result
}

impl Profile {
    /// The name of a frame in a stack trace, or its address where it has none.
    pub fn resolve_symbol(&self, frame: usize) -> (name: String)
        ensures
            name@ == frame_name(self@.symbols, frame),
    {
        match self.symbols.get(&frame) {
            Some(symbol) => symbol.clone(),
            None => decimal_text(frame),
        }
    }

    /// Writes the line of one stack.
    fn format_entry<W: Writer>(
        &self,
        key: &Vec<usize>,
        value: &CallStackStats,
        prefix: &str,
        f: &mut W,
    ) -> (result: Result<(), WriteError>)
        requires
            key.len() > 0,
            fits(value@.tally()),
        ensures
            writes_all(
                *old(f),
                entry_parts(self@.symbols, key@, value@.tally(), prefix@),
                *final(f),
                result is Ok,
            ),
    {
        let ghost start = *f;
        let ghost all = entry_parts(self@.symbols, key@, value@.tally(), prefix@);
        proof {
            lemma_writes_none(start);
            assert(all.take(0) =~= Seq::empty());
        }
        write_next(f, "\n", Ghost(start), Ghost(all), Ghost(0))?;
        write_next(f, prefix, Ghost(start), Ghost(all), Ghost(1))?;
        write_next(f, "->", Ghost(start), Ghost(all), Ghost(2))?;
        let ghost mid = *f;
        let result = value.format_totals(f);
        proof {
            lemma_writes_one(mid, all[3], *f, result is Ok);
            lemma_writes_join(start, all.take(3), mid, seq![all[3]], *f, result is Ok);
            assert(all.take(3) + seq![all[3]] =~= all.take(4));
            if result is Err {
                lemma_writes_stop(start, all.take(4), all, *f);
            }
        }
        result?;
        write_next(f, ": ", Ghost(start), Ghost(all), Ghost(4))?;
        let sym = self.resolve_symbol(key[key.len() - 1]);
        write_next(f, sym.as_str(), Ghost(start), Ghost(all), Ghost(5))?;
        assert(all.take(6) =~= all);
        Ok(())
    }

    /// Writes the entry of a trie node that has one, and the report on all that is below it, one
    /// step further in.
    fn format_child<F: Fn(usize, usize) -> bool, W: Writer>(
        &self,
        child: &SubTrie<'_, Vec<usize>, CallStackStats>,
        total_calls: usize,
        below: &F,
        percent: &str,
        prefix: &str,
        last: bool,
        f: &mut W,
    ) -> (result: Result<(), WriteError>)
        requires
            decisive(*below),
            node_key(*child) matches Some(key) && key.len() > 0 && fits(node_totals(*child)[key])
                && printable(node_totals(*child).remove(key)),
        ensures
            ({
                let key = node_key(*child)->0;
                let inner = prefix@ + if last {
                    "  "@
                } else {
                    " |"@
                };
                let threshold = threshold_of(*below, total_calls as nat, percent@);
                &&& writes_all(
                    *old(f),
                    entry_parts(self@.symbols, key, node_totals(*child)[key], inner)
                        + report_parts(
                        node_totals(*child).remove(key),
                        self@.symbols,
                        threshold,
                        inner,
                    ),
                    *final(f),
                    result is Ok,
                )
                &&& result is Ok ==> answers(
                    *below,
                    total_calls as nat,
                    node_totals(*child).remove(key),
                    threshold,
                )
            }),
        decreases node_height(*child), 1nat,
    {
        let mut inner = String::new();
        inner.append(prefix);
        if last {
            inner.append("  ");
        } else {
            inner.append(" |");
        }
        assert(inner@ =~= prefix@ + if last {
            "  "@
        } else {
            " |"@
        });
        self.format_summary(child, total_calls, below, percent, inner.as_str(), f)
    }

    /// Writes the entry of a trie node, if it has one, and the report on all that is below it.
    #[verifier::spinoff_prover]
    #[verifier::rlimit(80)]
    fn format_summary<F: Fn(usize, usize) -> bool, W: Writer>(
        &self,
        stats: &SubTrie<'_, Vec<usize>, CallStackStats>,
        total_calls: usize,
        below: &F,
        percent: &str,
        prefix: &str,
        f: &mut W,
    ) -> (result: Result<(), WriteError>)
        requires
            decisive(*below),
            node_key(*stats) matches Some(key) ==> key.len() > 0 && fits(node_totals(*stats)[key]),
            printable(without(node_key(*stats), node_totals(*stats))),
        ensures
            node_stats(*stats).dom().finite(),
            writes_all(
                *old(f),
                own_parts(self@.symbols, node_key(*stats), node_totals(*stats), prefix@)
                    + report_parts(
                    without(node_key(*stats), node_totals(*stats)),
                    self@.symbols,
                    threshold_of(*below, total_calls as nat, percent@),
                    prefix@,
                ),
                *final(f),
                result is Ok,
            ),
            result is Ok ==> answers(
                *below,
                total_calls as nat,
                without(node_key(*stats), node_totals(*stats)),
                threshold_of(*below, total_calls as nat, percent@),
            ),
        decreases node_height(*stats), 0nat,
    {
        let ghost start = *f;
        let ghost threshold = threshold_of(*below, total_calls as nat, percent@);
        let ghost whole = node_totals(*stats);
        let ghost own = node_key(*stats);
        let ghost rest = without(own, whole);
        let ghost names = self@.symbols;
        let ghost head = own_parts(names, own, whole, prefix@);
        let ghost all = head + report_parts(rest, names, threshold, prefix@);
        proof {
            lemma_writes_none(start);
        }
        if let Some(key) = key_at(stats) {
            let result = self.format_entry(key, value_at(stats).unwrap(), prefix, f);
            proof {
                if result is Err {
                    lemma_writes_stop(start, head, all, *f);
                }
            }
            result?;
        }
        assert(writes_all(start, head, *f, true));

        let children = trie_children_with_keys(stats);
        let ghost keys = keys_of(children@);
        proof {
            lemma_totals_split(own, node_stats(*stats), children@);
            lemma_keys_topmost(own, whole, children@);
            assert forall|i: int| 0 <= i < children.len() implies node_totals(children[i])[
                #[trigger] keys[i]] == whole[keys[i]] && fits(whole[keys[i]]) by {
                assert(topmost(rest, keys[i]));
                assert(under(rest, keys[i]).contains_key(keys[i]));
            }
        }
        let nchildren: usize = children.len();
        let counts = calls_of(&children);
        let order = by_calls(&counts);
        proof {
            lemma_sorted_ranks(own, whole, children@, counts@, order@);
            lemma_ranked(rest);
            assert(head + parts_first(rest, names, threshold, prefix@, 0) =~= head);
        }
        let mut below_threshold: usize = 0;
        for idx in 0..nchildren
            invariant
                decisive(*below),
                threshold == threshold_of(*below, total_calls as nat, percent@),
                nchildren == children.len() == counts.len() == order.len(),
                forall|i: int| 0 <= i < order.len() ==> (#[trigger] order[i]) < nchildren,
                ranked(rest) == Seq::new(order@.len(), |i: int| keys[order[i] as int]),
                keys == keys_of(children@),
                keyed(children@),
                node_stats(*stats).dom().finite(),
                own == node_key(*stats),
                whole == node_totals(*stats),
                rest == without(own, whole),
                rest.dom().finite(),
                printable(rest),
                names == self@.symbols,
                head == own_parts(names, own, whole, prefix@),
                all == head + report_parts(rest, names, threshold, prefix@),
                start == *old(f),
                forall|i: int|
                    0 <= i < children.len() ==> topmost(rest, #[trigger] keys[i]) && under(
                        rest,
                        keys[i],
                    ) == node_totals(children[i]),
                forall|i: int| 0 <= i < children.len() ==> counts[i] == rest[#[trigger] keys[i]].0,
                forall|i: int|
                    0 <= i < children.len() ==> node_height(#[trigger] children[i]) < node_height(
                        *stats,
                    ),
                below_threshold == hidden_calls(rest, threshold, ranked(rest), idx as nat),
                answers_first(*below, total_calls as nat, rest, threshold, idx as int),
                writes_all(
                    start,
                    head + parts_first(rest, names, threshold, prefix@, idx as nat),
                    *f,
                    true,
                ),
        {
            let at: usize = order[idx];
            let child = &children[at];
            let calls: usize = counts[at];
            let ghost k = keys[at as int];
            let ghost sofar = head + parts_first(rest, names, threshold, prefix@, idx as nat);
            let ghost next = head + parts_first(rest, names, threshold, prefix@, (idx + 1) as nat);
            assert(ranked(rest)[idx as int] == k);
            assert(topmost(rest, k));
            let hidden = below(calls, total_calls);
            assert(call_requires(*below, (calls, total_calls)));
            assert(hidden == threshold.hides(calls as nat));
            assert(answers_for(*below, total_calls as nat, rest, threshold, k));
            if hidden {
                proof {
                    lemma_hidden_some(
                        rest,
                        threshold,
                        ranked(rest),
                        (idx + 1) as nat,
                        ranked(rest).len(),
                    );
                    assert(next =~= sofar);
                }
                below_threshold = below_threshold + calls;
            } else {
                proof {
                    assert(node_key(*child) == Some(k));
                    assert(under(rest, k).contains_key(k));
                    lemma_printable_below(rest, k);
                }
                let ghost mid = *f;
                let result = self.format_child(
                    child,
                    total_calls,
                    below,
                    percent,
                    prefix,
                    idx == nchildren - 1,
                    f,
                );
                proof {
                    let inner = inner_prefix(prefix@, (idx + 1) as nat, ranked(rest).len());
                    lemma_parts_next(rest, names, threshold, prefix@, (idx + 1) as nat);
                    lemma_parts_start(rest, names, threshold, prefix@, (idx + 1) as nat);
                    lemma_more_written(
                        head,
                        parts_first(rest, names, threshold, prefix@, idx as nat),
                        entry_parts(names, k, rest[k], inner) + report_parts(
                            under(rest, k).remove(k),
                            names,
                            threshold,
                            inner,
                        ),
                        report_parts(rest, names, threshold, prefix@),
                        start,
                        mid,
                        *f,
                        result is Ok,
                    );
                }
                result?;
            }
        }
        let ghost mid = *f;
        let result = format_hidden(below_threshold, percent, prefix, f, Ghost(threshold));
        proof {
            let shown = head + parts_first(rest, names, threshold, prefix@, nchildren as nat);
            let last = hidden_parts(below_threshold as nat, threshold, prefix@);
            lemma_writes_join(start, shown, mid, last, *f, result is Ok);
            assert(shown + last =~= all);
            lemma_answers(*below, total_calls as nat, rest, threshold);
        }
        result
    }

    /// A report can be made: something was recorded, and it can be summarized.
    pub fn is_reportable(&self) -> (ok: bool)
        ensures
            ok == reportable(self@.callstacks),
    {
        let entries = counts_entries(&self.callstacks);
        if entries.len() == 0 {
            return false;
        }
        assert(self@.callstacks.contains_key(entries[0].0@));
        self.is_summable()
    }

    /// Writes the report on the whole profile. Entries that lie below the threshold are left out,
    /// with all that is below them.
    ///
    /// `below` decides, for the number of calls of an entry and the number of all the recorded
    /// calls, whether the entry lies below the threshold. `percent` is the threshold as it is
    /// printed. It is an error if a piece of the report cannot be written, and no more is written
    /// then.
    pub fn fmt_with_threshold<F: Fn(usize, usize) -> bool, W: Writer>(
        &self,
        below: F,
        percent: &str,
        f: &mut W,
    ) -> (result: Result<(), WriteError>)
        requires
            reportable(self@.callstacks),
            decisive(below),
        ensures
            writes_all(
                *old(f),
                report_parts(
                    totals_of(self@.callstacks),
                    self@.symbols,
                    threshold_of(below, total(tallies(self@.callstacks)).0, percent@),
                    seq![],
                ),
                *final(f),
                result is Ok,
            ),
            W::keeps_text() ==> result is Ok && final(f).held() == old(f).held() + report(
                totals_of(self@.callstacks),
                self@.symbols,
                threshold_of(below, total(tallies(self@.callstacks)).0, percent@),
                seq![],
            ),
            result is Ok ==> answers(
                below,
                total(tallies(self@.callstacks)).0,
                totals_of(self@.callstacks),
                threshold_of(below, total(tallies(self@.callstacks)).0, percent@),
            ),
    {
        let ghost stacks = self@.callstacks;
        let summary = self.summarize();
        let total_calls: usize = self.all_calls();
        let node = root(&summary);
        proof {
            lemma_summary_totals(stacks);
            lemma_totals_printable(stacks);
        }
        let result = self.format_summary(&node, total_calls, &below, percent, "", f);
        proof {
            let parts = report_parts(
                totals_of(stacks),
                self@.symbols,
                threshold_of(below, total_calls as nat, percent@),
                seq![],
            );
            reveal_strlit("");
            assert(""@ =~= Seq::<char>::empty());
            assert(Seq::<Seq<char>>::empty() + parts =~= parts);
            if W::keeps_text() {
                lemma_texts_kept(*old(f), parts, *f, result is Ok);
            }
        }
        result
    }

    /// The report on the whole profile, with every entry.
    pub fn to_string(&self) -> (text: String)
        requires
            reportable(self@.callstacks),
        ensures
            text@ == report(
                totals_of(self@.callstacks),
                self@.symbols,
                (Threshold { below: Set::empty(), percent: "0"@ }),
                seq![],
            ),
    {
        let mut text = String::new();
        let below = |_calls: usize, _total: usize| -> (hidden: bool)
            ensures
                !hidden,
            { false };
        let _written = self.fmt_with_threshold(below, "0", &mut text);
        proof {
            let calls = total(tallies(self@.callstacks)).0;
            assert(threshold_of(below, calls, "0"@).below =~= Set::empty());
            assert(text@ =~= report(
                totals_of(self@.callstacks),
                self@.symbols,
                Threshold { below: Set::empty(), percent: "0"@ },
                seq![],
            ));
        }
        text
    }
}

/// A report can be made: something was recorded, and it can be summarized.
pub open spec fn reportable(stacks: Map<Seq<usize>, Map<usize, usize>>) -> bool {
    &&& summable(stacks)
    &&& exists|s: Seq<usize>| stacks.contains_key(s)
}

} // verus!
