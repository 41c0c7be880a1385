//! The lines of a report.
use vstd::prelude::*;

use crate::output::{joined, lemma_joined};
use crate::ranking::{begun, lemma_ranked, lemma_top_of, ranked, topmost, tops};
use crate::report::{
    entry_parts, entry_text, hidden_calls, hidden_parts, hidden_text, inner_prefix,
    lemma_fewer_below, parts_first, report, report_parts, Threshold,
};
use crate::stacks::{begins, lemma_begins_nested, under};
use crate::sums::Tally;

verus! {

/// A line of a report. Only contracts speak of it.
pub enum Line {
    /// The line of a stack: what it amounts to, behind a margin.
    Entry { stack: Seq<usize>, sums: Tally, margin: Seq<char> },
    /// The line for the calls right below `parent` that are not shown, behind a margin.
    Hidden { parent: Option<Seq<usize>>, calls: nat, margin: Seq<char> },
}

/// How a line reads.
pub open spec fn line_text(
    line: Line,
    names: Map<usize, Seq<char>>,
    threshold: Threshold,
) -> Seq<char> {
    match line {
        Line::Entry { stack, sums, margin } => entry_text(names, stack, sums, margin),
        Line::Hidden { calls, margin, .. } => hidden_text(calls, threshold, margin),
    }
}

/// How some lines read, one after the other.
pub open spec fn text_of(
    lines: Seq<Line>,
    names: Map<usize, Seq<char>>,
    threshold: Threshold,
) -> Seq<char>
    decreases lines.len(),
{
    if lines.len() == 0 {
        seq![]
    } else {
        text_of(lines.drop_last(), names, threshold) + line_text(lines.last(), names, threshold)
    }
}

/// The lines of the report on the stacks of `m`, which stand right below `parent`: those of each
/// topmost stack that is shown, and then the one for the calls that are not.
pub open spec fn lines_of(
    m: Map<Seq<usize>, Tally>,
    threshold: Threshold,
    parent: Option<Seq<usize>>,
    prefix: Seq<char>,
) -> Seq<Line>
    decreases m.dom().len(), ranked(m).len() + 1,
    when m.dom().finite()
{
    lines_first(m, threshold, prefix, ranked(m).len()) + last_line(m, threshold, parent, prefix)
}

/// The line for the calls of topmost stacks that are not shown, if there are any.
pub open spec fn last_line(
    m: Map<Seq<usize>, Tally>,
    threshold: Threshold,
    parent: Option<Seq<usize>>,
    prefix: Seq<char>,
) -> Seq<Line> {
    let calls = hidden_calls(m, threshold, ranked(m), ranked(m).len());
    if calls == 0 {
        seq![]
    } else {
        seq![Line::Hidden { parent, calls, margin: prefix }]
    }
}

/// The lines of the first `n` topmost stacks of `m` and of all that they begin.
pub open spec fn lines_first(
    m: Map<Seq<usize>, Tally>,
    threshold: Threshold,
    prefix: Seq<char>,
    n: nat,
) -> Seq<Line>
    decreases m.dom().len(), n,
    when m.dom().finite() && n <= ranked(m).len()
{
    if n == 0 {
        seq![]
    } else {
        let k = ranked(m)[n - 1];
        let inner = inner_prefix(prefix, n, ranked(m).len());
        proof {
            lemma_fewer_below(m, n);
        }
        lines_first(m, threshold, prefix, (n - 1) as nat) + if threshold.hides(m[k].0) {
            seq![]
        } else {
            seq![Line::Entry { stack: k, sums: m[k], margin: inner }] + lines_of(
                under(m, k).remove(k),
                threshold,
                Some(k),
                inner,
            )
        }
    }
}

/// Lines that are put together read like the ones and then the others.
proof fn lemma_text_join(
    a: Seq<Line>,
    b: Seq<Line>,
    names: Map<usize, Seq<char>>,
    threshold: Threshold,
)
    ensures
        text_of(a + b, names, threshold) == text_of(a, names, threshold) + text_of(
            b,
            names,
            threshold,
        ),
    decreases b.len(),
{
    let both = text_of(a + b, names, threshold);
    if b.len() == 0 {
        assert(a + b =~= a);
        assert(both =~= text_of(a, names, threshold) + text_of(b, names, threshold));
    } else {
        lemma_text_join(a, b.drop_last(), names, threshold);
        assert((a + b).drop_last() =~= a + b.drop_last());
        assert(both =~= text_of(a, names, threshold) + text_of(b, names, threshold));
    }
}

/// A single line reads as it does.
proof fn lemma_text_single(line: Line, names: Map<usize, Seq<char>>, threshold: Threshold)
    ensures
        text_of(seq![line], names, threshold) == line_text(line, names, threshold),
{
    let lines = seq![line];
    assert(lines.drop_last().len() == 0);
    assert(text_of(lines.drop_last(), names, threshold) =~= seq![]);
    assert(text_of(lines, names, threshold) =~= line_text(line, names, threshold));
}

/// The pieces of the line of a stack make up that line.
proof fn lemma_entry_joined(
    names: Map<usize, Seq<char>>,
    stack: Seq<usize>,
    sums: Tally,
    margin: Seq<char>,
)
    ensures
        joined(entry_parts(names, stack, sums, margin)) == entry_text(names, stack, sums, margin),
{
    let parts = entry_parts(names, stack, sums, margin);
    assert(parts.drop_last() =~= parts.take(5));
    assert(parts.take(5).drop_last() =~= parts.take(4));
    assert(parts.take(4).drop_last() =~= parts.take(3));
    assert(parts.take(3).drop_last() =~= parts.take(2));
    assert(parts.take(2).drop_last() =~= parts.take(1));
    assert(parts.take(1).drop_last() =~= parts.take(0));
    reveal_with_fuel(joined, 7);
    assert(joined(parts) =~= entry_text(names, stack, sums, margin));
}

/// A single text reads as it does.
proof fn lemma_joined_single(text: Seq<char>)
    ensures
        joined(seq![text]) == text,
{
    assert(seq![text].drop_last().len() == 0);
    assert(joined(seq![text].drop_last()) =~= seq![]);
    assert(joined(seq![text]) =~= text);
}

/// A report reads as its lines do.
pub proof fn lemma_report_lines(
    m: Map<Seq<usize>, Tally>,
    names: Map<usize, Seq<char>>,
    threshold: Threshold,
    parent: Option<Seq<usize>>,
    prefix: Seq<char>,
)
    requires
        m.dom().finite(),
    ensures
        report(m, names, threshold, prefix) == text_of(
            lines_of(m, threshold, parent, prefix),
            names,
            threshold,
        ),
    decreases m.dom().len(), ranked(m).len() + 1,
{
    let n = ranked(m).len();
    let calls = hidden_calls(m, threshold, ranked(m), n);
    lemma_report_lines_first(m, names, threshold, prefix, n);
    lemma_joined(
        parts_first(m, names, threshold, prefix, n),
        hidden_parts(calls, threshold, prefix),
    );
    lemma_joined_single(hidden_text(calls, threshold, prefix));
    lemma_text_join(
        lines_first(m, threshold, prefix, n),
        last_line(m, threshold, parent, prefix),
        names,
        threshold,
    );
    lemma_text_single(Line::Hidden { parent, calls, margin: prefix }, names, threshold);
}

/// A report on the first topmost stacks reads as its lines do.
proof fn lemma_report_lines_first(
    m: Map<Seq<usize>, Tally>,
    names: Map<usize, Seq<char>>,
    threshold: Threshold,
    prefix: Seq<char>,
    n: nat,
)
    requires
        m.dom().finite(),
        n <= ranked(m).len(),
    ensures
        joined(parts_first(m, names, threshold, prefix, n)) == text_of(
            lines_first(m, threshold, prefix, n),
            names,
            threshold,
        ),
    decreases m.dom().len(), n,
{
    if n > 0 {
        let k = ranked(m)[n - 1];
        let inner = inner_prefix(prefix, n, ranked(m).len());
        let below = under(m, k).remove(k);
        let before = lines_first(m, threshold, prefix, (n - 1) as nat);
        let parts = parts_first(m, names, threshold, prefix, (n - 1) as nat);
        lemma_report_lines_first(m, names, threshold, prefix, (n - 1) as nat);
        lemma_fewer_below(m, n);
        if threshold.hides(m[k].0) {
            assert(before + Seq::<Line>::empty() =~= before);
            assert(parts + Seq::<Seq<char>>::empty() =~= parts);
        } else {
            let entry = Line::Entry { stack: k, sums: m[k], margin: inner };
            let rest = lines_of(below, threshold, Some(k), inner);
            let line = entry_parts(names, k, m[k], inner);
            let deeper = report_parts(below, names, threshold, inner);
            lemma_report_lines(below, names, threshold, Some(k), inner);
            lemma_text_single(entry, names, threshold);
            lemma_text_join(seq![entry], rest, names, threshold);
            lemma_text_join(before, seq![entry] + rest, names, threshold);
            lemma_entry_joined(names, k, m[k], inner);
            lemma_joined(line, deeper);
            lemma_joined(parts, line + deeper);
        }
    }
}

/// The pieces in which some lines are written.
pub open spec fn pieces_of(
    lines: Seq<Line>,
    names: Map<usize, Seq<char>>,
    threshold: Threshold,
) -> Seq<Seq<char>>
    decreases lines.len(),
{
    if lines.len() == 0 {
        seq![]
    } else {
        pieces_of(lines.drop_last(), names, threshold) + match lines.last() {
            Line::Entry { stack, sums, margin } => entry_parts(names, stack, sums, margin),
            Line::Hidden { calls, margin, .. } => seq![hidden_text(calls, threshold, margin)],
        }
    }
}

/// Lines that are put together are written as the ones and then the others.
proof fn lemma_pieces_join(
    a: Seq<Line>,
    b: Seq<Line>,
    names: Map<usize, Seq<char>>,
    threshold: Threshold,
)
    ensures
        pieces_of(a + b, names, threshold) == pieces_of(a, names, threshold) + pieces_of(
            b,
            names,
            threshold,
        ),
    decreases b.len(),
{
    let both = pieces_of(a + b, names, threshold);
    if b.len() == 0 {
        assert(a + b =~= a);
        assert(both =~= pieces_of(a, names, threshold) + pieces_of(b, names, threshold));
    } else {
        lemma_pieces_join(a, b.drop_last(), names, threshold);
        assert((a + b).drop_last() =~= a + b.drop_last());
        assert(both =~= pieces_of(a, names, threshold) + pieces_of(b, names, threshold));
    }
}

/// A single line is written as it is.
proof fn lemma_pieces_single(line: Line, names: Map<usize, Seq<char>>, threshold: Threshold)
    ensures
        pieces_of(seq![line], names, threshold) == (match line {
            Line::Entry { stack, sums, margin } => entry_parts(names, stack, sums, margin),
            Line::Hidden { calls, margin, .. } => seq![hidden_text(calls, threshold, margin)],
        }),
{
    let lines = seq![line];
    assert(lines.drop_last().len() == 0);
    assert(pieces_of(lines.drop_last(), names, threshold) =~= seq![]);
    assert(pieces_of(lines, names, threshold) =~= match line {
        Line::Entry { stack, sums, margin } => entry_parts(names, stack, sums, margin),
        Line::Hidden { calls, margin, .. } => seq![hidden_text(calls, threshold, margin)],
    });
}

/// A report is written as its lines are.
pub proof fn lemma_parts_lines(
    m: Map<Seq<usize>, Tally>,
    names: Map<usize, Seq<char>>,
    threshold: Threshold,
    parent: Option<Seq<usize>>,
    prefix: Seq<char>,
)
    requires
        m.dom().finite(),
    ensures
        report_parts(m, names, threshold, prefix) == pieces_of(
            lines_of(m, threshold, parent, prefix),
            names,
            threshold,
        ),
    decreases m.dom().len(), ranked(m).len() + 1,
{
    let n = ranked(m).len();
    let calls = hidden_calls(m, threshold, ranked(m), n);
    lemma_parts_lines_first(m, names, threshold, prefix, n);
    lemma_pieces_join(
        lines_first(m, threshold, prefix, n),
        last_line(m, threshold, parent, prefix),
        names,
        threshold,
    );
    lemma_pieces_single(Line::Hidden { parent, calls, margin: prefix }, names, threshold);
}

/// A report on the first topmost stacks is written as its lines are.
proof fn lemma_parts_lines_first(
    m: Map<Seq<usize>, Tally>,
    names: Map<usize, Seq<char>>,
    threshold: Threshold,
    prefix: Seq<char>,
    n: nat,
)
    requires
        m.dom().finite(),
        n <= ranked(m).len(),
    ensures
        parts_first(m, names, threshold, prefix, n) == pieces_of(
            lines_first(m, threshold, prefix, n),
            names,
            threshold,
        ),
    decreases m.dom().len(), n,
{
    if n > 0 {
        let k = ranked(m)[n - 1];
        let inner = inner_prefix(prefix, n, ranked(m).len());
        let below = under(m, k).remove(k);
        let before = lines_first(m, threshold, prefix, (n - 1) as nat);
        let parts = parts_first(m, names, threshold, prefix, (n - 1) as nat);
        lemma_parts_lines_first(m, names, threshold, prefix, (n - 1) as nat);
        lemma_fewer_below(m, n);
        if threshold.hides(m[k].0) {
            assert(before + Seq::<Line>::empty() =~= before);
            assert(parts + Seq::<Seq<char>>::empty() =~= parts);
        } else {
            let entry = Line::Entry { stack: k, sums: m[k], margin: inner };
            let rest = lines_of(below, threshold, Some(k), inner);
            lemma_parts_lines(below, names, threshold, Some(k), inner);
            lemma_pieces_single(entry, names, threshold);
            lemma_pieces_join(seq![entry], rest, names, threshold);
            lemma_pieces_join(before, seq![entry] + rest, names, threshold);
        }
    }
}

/// The line is that of the stack `k`.
pub open spec fn is_entry(line: Line, k: Seq<usize>) -> bool {
    line matches Line::Entry { stack, .. } && stack == k
}

/// The entries among some lines are those of `stacks`, each once, with what they amount to in `m`.
pub open spec fn lists(
    lines: Seq<Line>,
    m: Map<Seq<usize>, Tally>,
    stacks: Set<Seq<usize>>,
) -> bool {
    &&& forall|i: int|
        0 <= i < lines.len() ==> (#[trigger] lines[i] matches Line::Entry { stack, sums, .. }
            ==> stacks.contains(stack) && sums == m[stack])
    &&& forall|k: Seq<usize>| #[trigger]
        stacks.contains(k) ==> exists|i: int|
            0 <= i < lines.len() && is_entry(#[trigger] lines[i], k)
    &&& forall|i: int, j: int, k: Seq<usize>|
        0 <= i < lines.len() && 0 <= j < lines.len() && #[trigger] is_entry(lines[i], k)
            && #[trigger] is_entry(lines[j], k) ==> i == j
}

/// Lines of different stacks make up the lines of both.
proof fn lemma_lists_join(
    a: Seq<Line>,
    b: Seq<Line>,
    m: Map<Seq<usize>, Tally>,
    left: Set<Seq<usize>>,
    right: Set<Seq<usize>>,
)
    requires
        lists(a, m, left),
        lists(b, m, right),
        left.disjoint(right),
    ensures
        lists(a + b, m, left.union(right)),
{
    let both = a + b;
    let stacks = left.union(right);
    assert forall|i: int| 0 <= i < both.len() implies (#[trigger] both[i] matches Line::Entry {
        stack,
        sums,
        ..
    } ==> stacks.contains(stack) && sums == m[stack]) by {
        if i < a.len() {
            assert(both[i] == a[i]);
        } else {
            assert(both[i] == b[i - a.len()]);
        }
    }
    assert forall|k: Seq<usize>| #[trigger] stacks.contains(k) implies exists|i: int|
        0 <= i < both.len() && is_entry(#[trigger] both[i], k) by {
        if left.contains(k) {
            let i = choose|i: int| 0 <= i < a.len() && is_entry(#[trigger] a[i], k);
            assert(both[i] == a[i]);
        } else {
            let i = choose|i: int| 0 <= i < b.len() && is_entry(#[trigger] b[i], k);
            assert(both[i + a.len()] == b[i]);
        }
    }
    assert forall|i: int, j: int, k: Seq<usize>|
        0 <= i < both.len() && 0 <= j < both.len() && #[trigger] is_entry(both[i], k)
            && #[trigger] is_entry(both[j], k) implies i == j by {
        if i < a.len() {
            assert(is_entry(a[i], k) && left.contains(k));
        } else {
            assert(is_entry(b[i - a.len()], k) && right.contains(k));
        }
        if j < a.len() {
            assert(is_entry(a[j], k) && left.contains(k));
        } else {
            assert(is_entry(b[j - a.len()], k) && right.contains(k));
        }
    }
}

/// `k` is a stack of `m` that is shown: neither it nor a stack that begins it lies below the
/// threshold.
pub open spec fn shown(
    m: Map<Seq<usize>, Tally>,
    threshold: Threshold,
    k: Seq<usize>,
) -> bool {
    &&& m.contains_key(k)
    &&& forall|s: Seq<usize>| #[trigger]
        m.contains_key(s) && begins(s, k) ==> !threshold.hides(m[s].0)
}

/// All the stacks of `m` that are shown.
pub open spec fn shown_stacks(m: Map<Seq<usize>, Tally>, threshold: Threshold) -> Set<Seq<usize>> {
    Set::new(|k: Seq<usize>| shown(m, threshold, k))
}

/// Those of the stacks that are shown that one of the first `n` topmost stacks begins.
pub open spec fn shown_first(
    m: Map<Seq<usize>, Tally>,
    threshold: Threshold,
    n: nat,
) -> Set<Seq<usize>> {
    Set::new(|k: Seq<usize>| shown(m, threshold, k) && begun(ranked(m), n).contains(k))
}

/// What is shown under a topmost stack is that stack and what is shown below it.
pub proof fn lemma_shown_below(
    m: Map<Seq<usize>, Tally>,
    threshold: Threshold,
    top: Seq<usize>,
    k: Seq<usize>,
)
    requires
        topmost(m, top),
    ensures
        shown(m, threshold, k) && begins(top, k) <==> !threshold.hides(m[top].0) && (k == top
            || shown(under(m, top).remove(top), threshold, k)),
{
    let below = under(m, top).remove(top);
    if shown(m, threshold, k) && begins(top, k) && k != top {
        assert(below.contains_key(k));
        assert forall|s: Seq<usize>| #[trigger]
            below.contains_key(s) && begins(s, k) implies !threshold.hides(below[s].0) by {
            assert(m.contains_key(s));
        }
    }
    if !threshold.hides(m[top].0) && (k == top || shown(below, threshold, k)) {
        assert(k == top || below.contains_key(k));
        assert forall|s: Seq<usize>| #[trigger]
            m.contains_key(s) && begins(s, k) implies !threshold.hides(m[s].0) by {
            lemma_begins_nested(s, top, k);
            if s != top {
                assert(below.contains_key(s));
            }
        }
    }
}

/// The entries of a report are those of the stacks that are shown, each once.
pub proof fn lemma_lines_list(
    m: Map<Seq<usize>, Tally>,
    threshold: Threshold,
    parent: Option<Seq<usize>>,
    prefix: Seq<char>,
)
    requires
        m.dom().finite(),
    ensures
        lists(lines_of(m, threshold, parent, prefix), m, shown_stacks(m, threshold)),
    decreases m.dom().len(), ranked(m).len() + 1,
{
    let n = ranked(m).len();
    lemma_lines_list_first(m, threshold, prefix, n);
    lemma_lists_join(
        lines_first(m, threshold, prefix, n),
        last_line(m, threshold, parent, prefix),
        m,
        shown_first(m, threshold, n),
        Set::empty(),
    );
    lemma_ranked(m);
    assert forall|k: Seq<usize>| shown(m, threshold, k) implies begun(
        ranked(m),
        n,
    ).contains(k) by {
        let top = lemma_top_of(m, k);
        assert(tops(m).contains(top));
        assert(ranked(m).contains(top));
    }
    assert(shown_first(m, threshold, n).union(Set::empty()) =~= shown_stacks(m, threshold));
}

/// The entries of the first topmost stacks are those of the stacks that are shown under them.
pub proof fn lemma_lines_list_first(
    m: Map<Seq<usize>, Tally>,
    threshold: Threshold,
    prefix: Seq<char>,
    n: nat,
)
    requires
        m.dom().finite(),
        n <= ranked(m).len(),
    ensures
        lists(lines_first(m, threshold, prefix, n), m, shown_first(m, threshold, n)),
    decreases m.dom().len(), n,
{
    let order = ranked(m);
    if n == 0 {
        assert(shown_first(m, threshold, n) =~= Set::empty());
    } else {
        let top = order[n - 1];
        let inner = inner_prefix(prefix, n, order.len());
        let below = under(m, top).remove(top);
        let before = lines_first(m, threshold, prefix, (n - 1) as nat);
        let known = shown_first(m, threshold, (n - 1) as nat);
        lemma_lines_list_first(m, threshold, prefix, (n - 1) as nat);
        lemma_fewer_below(m, n);
        lemma_ranked(m);
        assert(tops(m).contains(top));
        assert forall|k: Seq<usize>| #[trigger] begun(order, n).contains(k) <==> begins(top, k)
            || begun(order, (n - 1) as nat).contains(k) by {
            if begun(order, n).contains(k) {
                let i = choose|i: int| 0 <= i < n && begins(#[trigger] order[i], k);
                assert(begins(order[i], k));
            }
            if begins(top, k) {
                assert(begins(order[n - 1], k));
            }
            if begun(order, (n - 1) as nat).contains(k) {
                let i = choose|i: int| 0 <= i < n - 1 && begins(#[trigger] order[i], k);
                assert(begins(order[i], k));
            }
        }
        if threshold.hides(m[top].0) {
            assert(before + Seq::<Line>::empty() =~= before);
            assert(shown_first(m, threshold, n) =~= known);
        } else {
            let entry = Line::Entry { stack: top, sums: m[top], margin: inner };
            let rest = lines_of(below, threshold, Some(top), inner);
            let inside = shown_stacks(below, threshold);
            lemma_lines_list(below, threshold, Some(top), inner);
            assert forall|i: int| 0 <= i < rest.len() implies (#[trigger] rest[i] matches
                Line::Entry { stack, sums, .. } ==> inside.contains(stack) && sums == m[stack]) by {
                if let Line::Entry { stack, .. } = rest[i] {
                    assert(inside.contains(stack) && below.contains_key(stack));
                }
            }
            assert(lists(rest, m, inside));
            assert(seq![entry][0] == entry);
            assert(lists(seq![entry], m, set![top]));
            lemma_lists_join(seq![entry], rest, m, set![top], inside);
            let here = set![top].union(inside);
            assert forall|k: Seq<usize>| #[trigger] here.contains(k) <==> shown(m, threshold, k)
                && begins(top, k) by {
                lemma_shown_below(m, threshold, top, k);
            }
            assert forall|k: Seq<usize>| #[trigger] here.contains(k) implies !known.contains(k) by {
                if known.contains(k) {
                    let i = choose|i: int| 0 <= i < n - 1 && begins(#[trigger] order[i], k);
                    assert(tops(m).contains(order[i]));
                    lemma_begins_nested(order[i], top, k);
                    assert(order[i] != order[n - 1]);
                }
            }
            lemma_lists_join(before, seq![entry] + rest, m, known, here);
            assert(shown_first(m, threshold, n) =~= known.union(here));
        }
    }
}

/// Without a threshold every line is an entry.
pub proof fn lemma_only_entries(
    m: Map<Seq<usize>, Tally>,
    threshold: Threshold,
    parent: Option<Seq<usize>>,
    prefix: Seq<char>,
)
    requires
        m.dom().finite(),
        threshold.below.is_empty(),
    ensures
        forall|i: int|
            0 <= i < lines_of(m, threshold, parent, prefix).len() ==> #[trigger] lines_of(
                m,
                threshold,
                parent,
                prefix,
            )[i] is Entry,
    decreases m.dom().len(), ranked(m).len() + 1,
{
    lemma_only_entries_first(m, threshold, prefix, ranked(m).len());
    lemma_nothing_hidden(m, threshold, ranked(m), ranked(m).len());
}

/// Without a threshold every line of the first topmost stacks is an entry.
proof fn lemma_only_entries_first(
    m: Map<Seq<usize>, Tally>,
    threshold: Threshold,
    prefix: Seq<char>,
    n: nat,
)
    requires
        m.dom().finite(),
        threshold.below.is_empty(),
        n <= ranked(m).len(),
    ensures
        forall|i: int|
            0 <= i < lines_first(m, threshold, prefix, n).len() ==> #[trigger] lines_first(
                m,
                threshold,
                prefix,
                n,
            )[i] is Entry,
    decreases m.dom().len(), n,
{
    if n > 0 {
        let k = ranked(m)[n - 1];
        lemma_only_entries_first(m, threshold, prefix, (n - 1) as nat);
        lemma_fewer_below(m, n);
        lemma_only_entries(
            under(m, k).remove(k),
            threshold,
            Some(k),
            inner_prefix(prefix, n, ranked(m).len()),
        );
    }
}

/// Without a threshold no calls are hidden.
proof fn lemma_nothing_hidden(
    m: Map<Seq<usize>, Tally>,
    threshold: Threshold,
    order: Seq<Seq<usize>>,
    n: nat,
)
    requires
        threshold.below.is_empty(),
    ensures
        hidden_calls(m, threshold, order, n) == 0,
    decreases n,
{
    if n > 0 {
        lemma_nothing_hidden(m, threshold, order, (n - 1) as nat);
    }
}

} // verus!
