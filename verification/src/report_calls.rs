//! What the calls that write reports give back.
use vstd::prelude::*;

use crate::calls::{add_all, enumerates, lemma_total_enumerated};
use crate::layout::{
    comes_before, goes_first, hidden_below, hidden_lines, lemma_layout, margins, ordered,
    side_by_side,
};
use crate::lines::{
    is_entry, last_line, lemma_lines_list_first, lemma_parts_lines, lines_first, lines_of, lists,
    pieces_of, shown, shown_first, Line,
};
use crate::output::{joined, writes_all, WriteError, Writer};
use crate::profile::Profile;
use crate::ranking::{begun, lemma_ranked, lemma_top_of, outranks, ranked, topmost, tops};
use crate::report::{hidden_calls, threshold_of, Threshold};
use crate::stacks::{begins, lemma_begins_antisymmetric, lemma_begins_nested, parts_at, under};
use crate::summary::{lemma_listed_finite, listed, tallies, totals_of};
use crate::summary_calls::{beginnings_are_prefixes, totals_are_of_listed_stacks};
use crate::sums::{total, Tally};
use crate::text::{decimal, grouped};

verus! {

/// A stack is topmost exactly if no other has a prefix of it.
pub proof fn topmost_stacks_have_no_prefix(m: Map<Seq<usize>, Tally>, k: Seq<usize>)
    ensures
        topmost(m, k) <==> m.contains_key(k) && forall|s: Seq<usize>| #[trigger]
            m.contains_key(s) && s.is_prefix_of(k) ==> s == k,
{
    assert forall|s: Seq<usize>| begins(s, k) <==> #[trigger] s.is_prefix_of(k) by {
        beginnings_are_prefixes(s, k);
    }
}

/// Entries that stand side by side come in the order of their calls, the most calls first, and
/// those with as many calls in the order of their frames.
pub proof fn most_calls_come_first(m: Map<Seq<usize>, Tally>, i: int, j: int)
    requires
        m.dom().finite(),
        0 <= i < j < ranked(m).len(),
    ensures
        m[ranked(m)[i]].0 >= m[ranked(m)[j]].0,
        m[ranked(m)[i]].0 == m[ranked(m)[j]].0 ==> exists|at: int|
            0 <= at < ranked(m)[i].len() && at < ranked(m)[j].len() && ranked(m)[i].take(at)
                == ranked(m)[j].take(at) && #[trigger] ranked(m)[i][at] < ranked(m)[j][at],
        ranked(m)[i] != ranked(m)[j],
{
    let (a, b) = (ranked(m)[i], ranked(m)[j]);
    lemma_ranked(m);
    assert(tops(m).contains(a) && tops(m).contains(b));
    assert(outranks(m, ranked(m)[i], ranked(m)[j]));
    if m[a].0 == m[b].0 {
        assert(a != b);
        assert(!begins(a, b));
        let at = choose|at: int| parts_at(a, b, at);
        assert(a.take(at) =~= b.take(at));
        assert(a[at] < b[at]);
    }
}

/// The stacks that are ranked are those that have no other as a prefix.
pub proof fn topmost_stacks_are_ranked(m: Map<Seq<usize>, Tally>, k: Seq<usize>)
    requires
        m.dom().finite(),
    ensures
        ranked(m).contains(k) <==> m.contains_key(k) && forall|s: Seq<usize>| #[trigger]
            m.contains_key(s) && s.is_prefix_of(k) ==> s == k,
{
    lemma_ranked(m);
    topmost_stacks_have_no_prefix(m, k);
    if ranked(m).contains(k) {
        let n = choose|n: int| 0 <= n < ranked(m).len() && ranked(m)[n] == k;
        assert(tops(m).contains(ranked(m)[n]));
    }
    if topmost(m, k) {
        assert(tops(m).contains(k));
    }
}

/// The calls of the stacks in `list`.
pub open spec fn calls_in(m: Map<Seq<usize>, Tally>, list: Seq<Seq<usize>>) -> Seq<nat> {
    Seq::new(list.len(), |i: int| m[list[i]].0)
}

/// The calls that are hidden of the first `n` of some stacks are the sum over those that are.
proof fn lemma_hidden_first(
    m: Map<Seq<usize>, Tally>,
    threshold: Threshold,
    order: Seq<Seq<usize>>,
    n: nat,
) -> (list: Seq<Seq<usize>>)
    requires
        n <= order.len(),
        forall|i: int, j: int| 0 <= i < j < order.len() ==> order[i] != order[j],
    ensures
        hidden_calls(m, threshold, order, n) == add_all(calls_in(m, list)),
        enumerates(
            list,
            Set::new(
                |k: Seq<usize>|
                    threshold.hides(m[k].0) && exists|i: int|
                        0 <= i < n && #[trigger] order[i] == k,
            ),
        ),
    decreases n,
{
    let keys = Set::new(
        |k: Seq<usize>|
            threshold.hides(m[k].0) && exists|i: int| 0 <= i < n && #[trigger] order[i] == k,
    );
    if n == 0 {
        let none = Seq::<Seq<usize>>::empty();
        assert(calls_in(m, none).len() == 0);
        none
    } else {
        let before = lemma_hidden_first(m, threshold, order, (n - 1) as nat);
        let k = order[n - 1];
        let fewer = Set::new(
            |k: Seq<usize>|
                threshold.hides(m[k].0) && exists|i: int|
                    0 <= i < n - 1 && #[trigger] order[i] == k,
        );
        assert forall|x: Seq<usize>| #[trigger] keys.contains(x) <==> fewer.contains(x) || x == k
            && threshold.hides(m[k].0) by {
            if keys.contains(x) {
                let i = choose|i: int| 0 <= i < n && #[trigger] order[i] == x;
                if i < n - 1 {
                    assert(order[i] == x);
                }
            }
            if fewer.contains(x) {
                let i = choose|i: int| 0 <= i < n - 1 && #[trigger] order[i] == x;
                assert(order[i] == x);
            }
            if x == k {
                assert(order[n - 1] == x);
            }
        }
        assert(!fewer.contains(k)) by {
            if fewer.contains(k) {
                let i = choose|i: int| 0 <= i < n - 1 && #[trigger] order[i] == k;
                assert(order[i] != order[n - 1]);
            }
        }
        if threshold.hides(m[k].0) {
            let list = before.push(k);
            assert(calls_in(m, list).drop_last() =~= calls_in(m, before));
            assert forall|i: int| 0 <= i < list.len() implies keys.contains(#[trigger] list[i]) by {
                if i < before.len() {
                    assert(fewer.contains(before[i]));
                }
            }
            assert forall|i: int, j: int| 0 <= i < j < list.len() implies list[i] != list[j] by {
                assert(fewer.contains(before[i]));
            }
            assert forall|x: Seq<usize>| #[trigger] keys.contains(x) implies exists|i: int|
                0 <= i < list.len() && #[trigger] list[i] == x by {
                if x == k {
                    assert(list[before.len() as int] == x);
                } else {
                    assert(fewer.contains(x));
                    let i = choose|i: int| 0 <= i < before.len() && #[trigger] before[i] == x;
                    assert(list[i] == x);
                }
            }
            list
        } else {
            assert(keys =~= fewer);
            before
        }
    }
}

/// A sum does not depend on the order.
proof fn lemma_sum_unordered(
    m: Map<Seq<usize>, Tally>,
    keys: Set<Seq<usize>>,
    a: Seq<Seq<usize>>,
    b: Seq<Seq<usize>>,
)
    requires
        enumerates(a, keys),
        enumerates(b, keys),
    ensures
        add_all(calls_in(m, a)) == add_all(calls_in(m, b)),
{
    let part = Map::new(|k: Seq<usize>| keys.contains(k), |k: Seq<usize>| m[k]);
    assert(part.dom() =~= keys);
    lemma_total_enumerated(part, a);
    lemma_total_enumerated(part, b);
    assert forall|i: int| 0 <= i < a.len() implies part[#[trigger] a[i]] == m[a[i]] by {
        assert(keys.contains(a[i]));
    }
    assert forall|i: int| 0 <= i < b.len() implies part[#[trigger] b[i]] == m[b[i]] by {
        assert(keys.contains(b[i]));
    }
    assert(calls_in(m, a) =~= Seq::new(a.len(), |i: int| part[a[i]].0));
    assert(calls_in(m, b) =~= Seq::new(b.len(), |i: int| part[b[i]].0));
}

/// The topmost stacks of `m` whose calls are among `hidden`.
pub open spec fn hidden_tops(m: Map<Seq<usize>, Tally>, hidden: Set<usize>) -> Set<Seq<usize>> {
    Set::new(
        |k: Seq<usize>|
            m.contains_key(k) && m[k].0 <= usize::MAX && hidden.contains(m[k].0 as usize) && (
            forall|s: Seq<usize>| #[trigger] m.contains_key(s) && s.is_prefix_of(k) ==> s == k),
    )
}

/// The hidden calls at the top are the sum over the topmost stacks that are not shown.
pub proof fn hidden_calls_at_the_top(
    m: Map<Seq<usize>, Tally>,
    threshold: Threshold,
    list: Seq<Seq<usize>>,
)
    requires
        m.dom().finite(),
        enumerates(list, hidden_tops(m, threshold.below)),
    ensures
        hidden_calls(m, threshold, ranked(m), ranked(m).len()) == add_all(calls_in(m, list)),
{
    let order = ranked(m);
    lemma_ranked(m);
    assert forall|i: int, j: int| 0 <= i < j < order.len() implies order[i] != order[j] by {
        assert(ranked(m)[i] != ranked(m)[j]);
    }
    let found = lemma_hidden_first(m, threshold, order, order.len());
    let keys = Set::new(
        |k: Seq<usize>|
            threshold.hides(m[k].0) && exists|i: int|
                0 <= i < order.len() && #[trigger] order[i] == k,
    );
    assert forall|k: Seq<usize>| #[trigger] keys.contains(k) <==> hidden_tops(
        m,
        threshold.below,
    ).contains(k) by {
        topmost_stacks_have_no_prefix(m, k);
        if keys.contains(k) {
            let i = choose|i: int| 0 <= i < order.len() && #[trigger] order[i] == k;
            assert(tops(m).contains(order[i]));
        }
        if topmost(m, k) {
            assert(tops(m).contains(k));
            assert(order.contains(k));
            let i = choose|i: int| 0 <= i < order.len() && order[i] == k;
            assert(order[i] == k);
        }
    }
    assert(keys =~= hidden_tops(m, threshold.below));
    lemma_sum_unordered(m, keys, found, list);
}

/// The stacks right below `p` whose calls are among `hidden`: those of which `p` is a prefix,
/// with no other stack between.
pub open spec fn hidden_right_below(
    m: Map<Seq<usize>, Tally>,
    hidden: Set<usize>,
    p: Seq<usize>,
) -> Set<Seq<usize>> {
    Set::new(
        |k: Seq<usize>|
            m.contains_key(k) && m[k].0 <= usize::MAX && hidden.contains(m[k].0 as usize)
                && p.is_prefix_of(k) && p != k && (forall|s: Seq<usize>| #[trigger]
                m.contains_key(s) && s.is_prefix_of(k) && s != k ==> s.is_prefix_of(p)),
    )
}

/// The hidden calls below a stack are the sum over the stacks right below it that are not shown.
pub proof fn hidden_calls_below_a_stack(
    m: Map<Seq<usize>, Tally>,
    threshold: Threshold,
    p: Seq<usize>,
    list: Seq<Seq<usize>>,
)
    requires
        m.dom().finite(),
        m.contains_key(p),
        enumerates(list, hidden_right_below(m, threshold.below, p)),
    ensures
        hidden_below(m, threshold, p) == add_all(calls_in(m, list)),
{
    let below = under(m, p).remove(p);
    assert(below.dom().subset_of(m.dom()));
    vstd::set_lib::lemma_set_subset_finite(m.dom(), below.dom());
    assert forall|a: Seq<usize>, b: Seq<usize>| begins(a, b) <==> #[trigger] a.is_prefix_of(b) by {
        beginnings_are_prefixes(a, b);
    }
    assert forall|k: Seq<usize>| #[trigger]
        hidden_right_below(m, threshold.below, p).contains(k) <==> hidden_tops(
            below,
            threshold.below,
        ).contains(k) by {
        if hidden_right_below(m, threshold.below, p).contains(k) {
            assert(below.contains_key(k));
            assert forall|s: Seq<usize>| #[trigger]
                below.contains_key(s) && s.is_prefix_of(k) implies s == k by {
                if s != k {
                    assert(m.contains_key(s));
                    assert(s.is_prefix_of(p));
                    lemma_begins_antisymmetric(s, p);
                }
            }
        }
        if hidden_tops(below, threshold.below).contains(k) {
            assert(below.contains_key(k));
            assert forall|s: Seq<usize>| #[trigger]
                m.contains_key(s) && s.is_prefix_of(k) && s != k implies s.is_prefix_of(p) by {
                lemma_begins_nested(s, p, k);
                if !s.is_prefix_of(p) {
                    assert(below.contains_key(s));
                }
            }
        }
    }
    assert(hidden_right_below(m, threshold.below, p) =~= hidden_tops(below, threshold.below));
    hidden_calls_at_the_top(below, threshold, list);
    assert forall|i: int| 0 <= i < list.len() implies below[#[trigger] list[i]] == m[list[i]] by {
        assert(hidden_tops(below, threshold.below).contains(list[i]));
    }
    assert(calls_in(below, list) =~= calls_in(m, list));
}

/// The name of a frame, or its address.
pub open spec fn name_or_address(names: Map<usize, Seq<char>>, frame: usize) -> Seq<char> {
    if names.contains_key(frame) {
        names[frame]
    } else {
        decimal(frame as nat)
    }
}

/// The pieces in which lines are written: six for an entry, one for hidden calls.
pub open spec fn written(
    lines: Seq<Line>,
    names: Map<usize, Seq<char>>,
    percent: Seq<char>,
) -> Seq<Seq<char>>
    decreases lines.len(),
{
    if lines.len() == 0 {
        seq![]
    } else {
        written(lines.drop_last(), names, percent) + match lines.last() {
            Line::Entry { stack, sums, margin } => seq![
                "\n"@,
                margin,
                "->"@,
                grouped(sums.0) + " calls, "@ + grouped(sums.1) + "B"@,
                ": "@,
                name_or_address(names, stack[stack.len() - 1]),
            ],
            Line::Hidden { calls, margin, .. } => seq![
                "\n"@ + margin + "  ->"@ + decimal(calls)
                    + " calls in places below mf_print threshold ("@ + percent + "%)"@,
            ],
        }
    }
}

/// Lines are written in these pieces.
proof fn lemma_written(lines: Seq<Line>, names: Map<usize, Seq<char>>, threshold: Threshold)
    ensures
        pieces_of(lines, names, threshold) == written(lines, names, threshold.percent),
    decreases lines.len(),
{
    if lines.len() > 0 {
        lemma_written(lines.drop_last(), names, threshold);
    }
}

/// `lines` are the lines of the report on stacks with the totals `m`, of which the entries with a
/// number of calls among `hidden` are left out.
///
/// A stack has a line exactly if neither its calls nor those of a stack that begins it are hidden;
/// it has one line, with its totals. Lines stand in order, behind their margins. For the calls
/// right below a stack that has a line, and for those at the top, there is one line if some are
/// hidden.
pub open spec fn is_report(
    lines: Seq<Line>,
    m: Map<Seq<usize>, Tally>,
    hidden: Set<usize>,
    percent: Seq<char>,
) -> bool {
    let threshold = Threshold { below: hidden, percent };
    let at_the_top = hidden_calls(m, threshold, ranked(m), ranked(m).len());
    let seen = if at_the_top == 0 {
        lines
    } else {
        lines.drop_last()
    };
    let stacks = Set::new(
        |k: Seq<usize>|
            m.contains_key(k) && forall|s: Seq<usize>| #[trigger]
                m.contains_key(s) && s.is_prefix_of(k) ==> !(m[s].0 <= usize::MAX
                    && hidden.contains(m[s].0 as usize)),
    );
    &&& at_the_top > 0 ==> lines.len() > 0 && lines.last() == (Line::Hidden {
        parent: None,
        calls: at_the_top,
        margin: seq![],
    })
    &&& lists(seen, m, stacks)
    &&& ordered(seen, m)
    &&& margins(seen, m, seq![])
    &&& hidden_lines(seen, m, threshold, stacks)
}

/// The report has these lines.
proof fn lemma_is_report(m: Map<Seq<usize>, Tally>, threshold: Threshold)
    requires
        m.dom().finite(),
    ensures
        is_report(
            lines_of(m, threshold, None, seq![]),
            m,
            threshold.below,
            threshold.percent,
        ),
{
    let lines = lines_of(m, threshold, None, seq![]);
    let n = ranked(m).len();
    let first = lines_first(m, threshold, seq![], n);
    let calls = hidden_calls(m, threshold, ranked(m), n);
    lemma_layout(m, threshold, seq![], n);
    lemma_lines_list_first(m, threshold, seq![], n);
    let stacks = Set::new(
        |k: Seq<usize>|
            m.contains_key(k) && forall|s: Seq<usize>| #[trigger]
                m.contains_key(s) && s.is_prefix_of(k) ==> !(m[s].0 <= usize::MAX
                    && threshold.below.contains(m[s].0 as usize)),
    );
    lemma_ranked(m);
    assert forall|k: Seq<usize>| #[trigger] stacks.contains(k) <==> shown_first(
        m,
        threshold,
        n,
    ).contains(k) by {
        assert forall|s: Seq<usize>| begins(s, k) <==> #[trigger] s.is_prefix_of(k) by {
            beginnings_are_prefixes(s, k);
        }
        if shown(m, threshold, k) {
            let top = lemma_top_of(m, k);
            assert(tops(m).contains(top));
            assert(ranked(m).contains(top));
            assert(begun(ranked(m), n).contains(k));
        }
    }
    assert(stacks =~= shown_first(m, threshold, n));
    assert(lines == first + last_line(m, threshold, None, seq![]));
    if calls == 0 {
        assert(lines =~= first);
    } else {
        assert(lines.drop_last() =~= first);
    }
}

/// Of two entries of a report that stand side by side, the one with more calls has the earlier
/// line.
pub proof fn hotter_entries_come_first(
    lines: Seq<Line>,
    m: Map<Seq<usize>, Tally>,
    hidden: Set<usize>,
    percent: Seq<char>,
    i: int,
    j: int,
    a: Seq<usize>,
    b: Seq<usize>,
)
    requires
        is_report(lines, m, hidden, percent),
        0 <= i < lines.len(),
        0 <= j < lines.len(),
        is_entry(lines[i], a),
        is_entry(lines[j], b),
        !a.is_prefix_of(b),
        !b.is_prefix_of(a),
        forall|s: Seq<usize>| #[trigger]
            m.contains_key(s) && s != a && s != b ==> (s.is_prefix_of(a) <==> s.is_prefix_of(b)),
        m[a].0 > m[b].0,
    ensures
        i < j,
{
    let threshold = Threshold { below: hidden, percent };
    let seen = if hidden_calls(m, threshold, ranked(m), ranked(m).len()) == 0 {
        lines
    } else {
        lines.drop_last()
    };
    assert(is_entry(seen[i], a) && is_entry(seen[j], b));
    assert forall|x: Seq<usize>, y: Seq<usize>| begins(x, y) <==> #[trigger] x.is_prefix_of(y) by {
        beginnings_are_prefixes(x, y);
    }
    if j < i {
        assert(comes_before(m, b, a));
        let (x, y) = choose|x: Seq<usize>, y: Seq<usize>| #[trigger]
            side_by_side(m, x, y) && begins(x, b) && begins(y, a) && goes_first(m, x, y);
        if x != b {
            assert(x.is_prefix_of(b));
            assert(x.is_prefix_of(a));
            lemma_begins_nested(x, y, a);
        }
        if y != a {
            assert(y.is_prefix_of(a));
            assert(y.is_prefix_of(b));
            lemma_begins_nested(x, y, b);
        }
    }
    if i == j {
        assert(a == b);
        assert(a.is_prefix_of(a));
    }
}

/// The numbers of calls of which `below` says that they lie below the threshold, for `total` calls
/// in all.
pub open spec fn said_below<F: Fn(usize, usize) -> bool>(below: F, total: nat) -> Set<usize> {
    Set::new(|calls: usize| call_ensures(below, (calls, total as usize), true))
}

/// A report with a threshold writes the lines of the report on the totals of the profile, piece by
/// piece, up to the first that cannot be written.
pub proof fn reports_are_written<F: Fn(usize, usize) -> bool, W: Writer>(
    p: Profile,
    below: F,
    percent: &str,
    f: &mut W,
    result: Result<(), WriteError>,
) -> (lines: Seq<Line>)
    requires
        p@.callstacks.dom().finite(),
        call_ensures(Profile::fmt_with_threshold::<F, W>, (&p, below, percent, f), result),
    ensures
        is_report(
            lines,
            totals_of(p@.callstacks),
            said_below(below, total(tallies(p@.callstacks)).0),
            percent@,
        ),
        writes_all(*old(f), written(lines, p@.symbols, percent@), *final(f), result is Ok),
        W::keeps_text() ==> result is Ok && final(f).held() == old(f).held() + joined(
            written(lines, p@.symbols, percent@),
        ),
{
    let m = totals_of(p@.callstacks);
    let all = total(tallies(p@.callstacks)).0;
    let threshold = threshold_of(below, all, percent@);
    let lines = lines_of(m, threshold, None, seq![]);
    lemma_listed_finite(p@.callstacks);
    assert(m.dom() =~= Set::new(|k: Seq<usize>| listed(p@.callstacks, k)));
    assert(threshold.below =~= said_below(below, all));
    lemma_is_report(m, threshold);
    lemma_parts_lines(m, p@.symbols, threshold, None, seq![]);
    lemma_written(lines, p@.symbols, threshold);
    lines
}

/// The text of a profile is the report with every entry.
pub proof fn profiles_read_as_reports(p: Profile, text: String) -> (lines: Seq<Line>)
    requires
        p@.callstacks.dom().finite(),
        call_ensures(Profile::to_string, (&p,), text),
    ensures
        is_report(lines, totals_of(p@.callstacks), Set::empty(), "0"@),
        text@ == joined(written(lines, p@.symbols, "0"@)),
{
    let m = totals_of(p@.callstacks);
    let threshold = Threshold { below: Set::empty(), percent: "0"@ };
    let lines = lines_of(m, threshold, None, seq![]);
    lemma_listed_finite(p@.callstacks);
    assert(m.dom() =~= Set::new(|k: Seq<usize>| listed(p@.callstacks, k)));
    lemma_is_report(m, threshold);
    lemma_parts_lines(m, p@.symbols, threshold, None, seq![]);
    lemma_written(lines, p@.symbols, threshold);
    lines
}

/// Where nothing is hidden, each recorded stack has a line, and so has each of its beginnings of at
/// least one frame that leaves out two frames or more. No other stack has a line.
pub proof fn all_beginnings_have_a_line(
    lines: Seq<Line>,
    stacks: Map<Seq<usize>, Map<usize, usize>>,
    percent: Seq<char>,
    s: Seq<usize>,
    n: int,
    i: int,
    k: Seq<usize>,
)
    requires
        is_report(lines, totals_of(stacks), Set::empty(), percent),
    ensures
        stacks.contains_key(s) ==> exists|at: int|
            0 <= at < lines.len() && is_entry(#[trigger] lines[at], s),
        stacks.contains_key(s) && 1 <= n < s.len() - 1 ==> exists|at: int|
            0 <= at < lines.len() && is_entry(#[trigger] lines[at], s.take(n)),
        0 <= i < lines.len() && is_entry(lines[i], k) ==> stacks.contains_key(k) || exists|
            t: Seq<usize>,
            at: int,
        | #[trigger]
            stacks.contains_key(t) && 1 <= at < t.len() - 1 && k == #[trigger] t.take(at),
{
    let m = totals_of(stacks);
    let threshold = Threshold { below: Set::empty(), percent };
    let seen = if hidden_calls(m, threshold, ranked(m), ranked(m).len()) == 0 {
        lines
    } else {
        lines.drop_last()
    };
    let listed_stacks = Set::new(
        |k: Seq<usize>|
            m.contains_key(k) && forall|s: Seq<usize>| #[trigger]
                m.contains_key(s) && s.is_prefix_of(k) ==> !(m[s].0 <= usize::MAX
                    && threshold.below.contains(m[s].0 as usize)),
    );
    assert(lists(seen, m, listed_stacks));
    totals_are_of_listed_stacks(stacks, s, n, k);
    if stacks.contains_key(s) {
        assert(listed_stacks.contains(s));
        let at = choose|at: int| 0 <= at < seen.len() && is_entry(#[trigger] seen[at], s);
        assert(lines[at] == seen[at]);
        if 1 <= n < s.len() - 1 {
            assert(listed_stacks.contains(s.take(n)));
            let at = choose|at: int|
                0 <= at < seen.len() && is_entry(#[trigger] seen[at], s.take(n));
            assert(lines[at] == seen[at]);
        }
    }
    if 0 <= i < lines.len() && is_entry(lines[i], k) {
        assert(seen[i] == lines[i]);
        assert(listed_stacks.contains(k));
    }
}

} // verus!
