//! Allocation counts of a single call stack.
use std::collections::HashMap;

use vstd::prelude::*;

use crate::output::{wrote, WriteError, Writer};
use crate::sums::{fits, lemma_total_empty, lemma_total_grow, plus, total, Tally};
use crate::text::{grouped, grouped_text};

verus! {

broadcast use vstd::std_specs::hash::group_hash_axioms;

/// Call stack as returned by `backtrace::trace`: frame addresses, innermost first.
pub type CallStack = Vec<usize>;

/// For one call stack, the number of allocations of each size.
pub type AllocCounts = HashMap<usize, usize>;

/// What the allocations of each size amount to.
pub open spec fn by_size(counts: Map<usize, usize>) -> Map<usize, Tally> {
    Map::new(
        |size: usize| counts.contains_key(size),
        |size: usize| (counts[size] as nat, size as nat * counts[size] as nat),
    )
}

/// The number of all the allocations, and of the bytes that they asked for.
pub open spec fn tally(counts: Map<usize, usize>) -> Tally {
    total(by_size(counts))
}

/// Statistics of one call stack.
#[derive(Debug)]
pub enum CallStackStats {
    /// The number of allocations of each size.
    Detailed(AllocCounts),
    /// Aggregate number of invocations and total bytes allocated.
    Summary(usize, usize),
}

/// What the statistics of a call stack hold.
#[verifier::ext_equal]
pub enum StatsView {
    /// The number of allocations of each size.
    Detailed(Map<usize, usize>),
    /// The number of calls and the number of bytes.
    Summary(Tally),
}

impl StatsView {
    /// The number of calls and the number of bytes.
    pub open spec fn tally(self) -> Tally {
        match self {
            StatsView::Detailed(counts) => tally(counts),
            StatsView::Summary(sums) => sums,
        }
    }
}

impl View for CallStackStats {
    type V = StatsView;

    open spec fn view(&self) -> StatsView {
        match self {
            CallStackStats::Detailed(counts) => StatsView::Detailed(counts@),
            CallStackStats::Summary(calls, bytes) => StatsView::Summary(
                (*calls as nat, *bytes as nat),
            ),
        }
    }
}

/// What the statistics in `m` amount to.
pub open spec fn sums_of<K>(m: Map<K, StatsView>) -> Map<K, Tally> {
    Map::new(|k: K| m.contains_key(k), |k: K| m[k].tally())
}

/// `calls calls, bytesB`, both numbers in groups of three digits.
pub open spec fn totals_text(t: Tally) -> Seq<char> {
    grouped(t.0) + " calls, "@ + grouped(t.1) + "B"@
}

impl Clone for CallStackStats {
    fn clone(&self) -> (copy: Self)
        ensures
            copy@ == self@,
    {
        match self {
            CallStackStats::Detailed(counts) => CallStackStats::Detailed(counts.clone()),
            CallStackStats::Summary(calls, bytes) => CallStackStats::Summary(*calls, *bytes),
        }
    }
}

impl CallStackStats {
    /// No calls and no bytes.
    pub fn new() -> (stats: Self)
        ensures
            stats == CallStackStats::Summary(0, 0),
    {
        CallStackStats::Summary(0, 0)
    }

    /// The same totals, without the details.
    pub fn summarize(&self) -> (summary: CallStackStats)
        requires
            fits(self@.tally()),
        ensures
            summary@ == StatsView::Summary(self@.tally()),
    {
        match self {
            CallStackStats::Summary(calls, bytes) => CallStackStats::Summary(*calls, *bytes),
            CallStackStats::Detailed(counts) => {
                let (calls, bytes) = add_up(counts).unwrap();
                CallStackStats::Summary(calls, bytes)
            },
        }
    }

    /// Adds the calls and bytes of `other` to these.
    pub fn merge(&mut self, other: &CallStackStats)
        requires
            fits(plus(old(self)@.tally(), other@.tally())),
        ensures
            final(self)@ == StatsView::Summary(plus(old(self)@.tally(), other@.tally())),
    {
        if let CallStackStats::Summary(self_calls, self_bytes) = self.summarize() {
            if let CallStackStats::Summary(other_calls, other_bytes) = other.summarize() {
                *self = CallStackStats::Summary(
                    self_calls + other_calls,
                    self_bytes + other_bytes,
                );
            }
        }
    }

    /// Writes the totals, as `1,234 calls, 5,678B`, in one piece.
    pub fn format_totals<W: Writer>(&self, f: &mut W) -> (result: Result<(), WriteError>)
        requires
            fits(self@.tally()),
        ensures
            wrote(*old(f), totals_text(self@.tally()), *final(f), result is Ok),
        decreases (if self is Detailed { 1nat } else { 0nat }),
    {
        match self {
            CallStackStats::Summary(self_calls, self_bytes) => {
                let mut text = grouped_text(*self_calls);
                text.append(" calls, ");
                text.append(grouped_text(*self_bytes).as_str());
                text.append("B");
                assert(text@ =~= totals_text(self@.tally()));
                f.write_str(text.as_str())
            },
            CallStackStats::Detailed(_) => self.summarize().format_totals(f),
        }
    }

    /// The number of calls.
    pub fn num_calls(&self) -> (calls: usize)
        requires
            fits(self@.tally()),
        ensures
            calls == self@.tally().0,
        decreases (if self is Detailed { 1nat } else { 0nat }),
    {
        match self {
            CallStackStats::Summary(calls, _) => *calls,
            CallStackStats::Detailed(_) => self.summarize().num_calls(),
        }
    }
}

/// The number of all the allocations and of their bytes, if both fit in a `usize`.
pub fn add_up(counts: &AllocCounts) -> (sums: Option<(usize, usize)>)
    ensures
        match sums {
            Some((calls, bytes)) => (calls as nat, bytes as nat) == tally(counts@),
            None => !fits(tally(counts@)),
        },
{
    let mut calls: usize = 0;
    let mut bytes: usize = 0;
    let ghost sizes = by_size(counts@);
    let ghost mut seen = Set::<usize>::empty();
    proof {
        assert(sizes.dom() =~= counts@.dom());
        lemma_total_empty(sizes.restrict(seen));
    }
    for (b, c) in it: counts.iter()
        invariant
            sizes == by_size(counts@),
            sizes.dom().finite(),
            (calls as nat, bytes as nat) == total(sizes.restrict(seen)),
            it.seq().no_duplicates(),
            forall|i: int|
                0 <= i < it.seq().len() ==> counts@.contains_key(*(#[trigger] it.seq()[i]).0)
                    && counts@[*it.seq()[i].0] == *it.seq()[i].1,
            forall|k: usize| #[trigger]
                seen.contains(k) <==> exists|i: int|
                    0 <= i < it.index() && *(#[trigger] it.seq()[i]).0 == k,
    {
        proof {
            let at = it.index() as int;
            if seen.contains(*b) {
                let i = choose|i: int|
                    0 <= i < it.index() && *(#[trigger] it.seq()[i]).0 == *b;
                assert(it.seq()[i] == it.seq()[at]);
            }
            lemma_total_grow(sizes, seen, *b);
            seen = seen.insert(*b);
            assert(*c * *b == *b * *c) by (nonlinear_arith);
            assert(*c * *b >= 0) by (nonlinear_arith);
        }
        let product: usize = match c.checked_mul(*b) {
            Some(product) => product,
            None => return None,
        };
        calls = match calls.checked_add(*c) {
            Some(sum) => sum,
            None => return None,
        };
        bytes = match bytes.checked_add(product) {
            Some(sum) => sum,
            None => return None,
        };
    }
    assert(sizes.restrict(seen) =~= sizes);
    Some((calls, bytes))
}

} // verus!
