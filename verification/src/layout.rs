//! How the lines of a report stand to each other.
use vstd::prelude::*;

use crate::lines::{
    is_entry, last_line, lemma_lines_list_first, lemma_shown_below, lines_first, lines_of, shown,
    shown_first, shown_stacks, Line,
};
use crate::ranking::{begun, lemma_ranked, lemma_top_of, outranks, ranked, topmost, tops};
use crate::report::{hidden_calls, inner_prefix, lemma_fewer_below, Threshold};
use crate::stacks::{
    begins, lemma_begins_antisymmetric, lemma_begins_nested, lemma_begins_transitive,
    lemma_precedes_asymmetric, precedes, under,
};
use crate::sums::Tally;

verus! {

/// `a` and `b` stand side by side in `m`: neither begins the other, and any other stack that
/// begins the one begins the other.
pub open spec fn side_by_side(m: Map<Seq<usize>, Tally>, a: Seq<usize>, b: Seq<usize>) -> bool {
    &&& m.contains_key(a)
    &&& m.contains_key(b)
    &&& !begins(a, b)
    &&& !begins(b, a)
    &&& forall|s: Seq<usize>| #[trigger]
        m.contains_key(s) && s != a && s != b ==> (begins(s, a) <==> begins(s, b))
}

/// Of two stacks side by side, `a` goes first: it has more calls, or as many and comes first in
/// the order of stacks.
pub open spec fn goes_first(m: Map<Seq<usize>, Tally>, a: Seq<usize>, b: Seq<usize>) -> bool {
    m[a].0 > m[b].0 || m[a].0 == m[b].0 && precedes(a, b)
}

/// The line of `a` comes before that of `b`: `a` begins `b`, or stands under a stack that goes
/// before one beside it, under which `b` stands.
pub open spec fn comes_before(m: Map<Seq<usize>, Tally>, a: Seq<usize>, b: Seq<usize>) -> bool {
    ||| begins(a, b) && a != b
    ||| exists|x: Seq<usize>, y: Seq<usize>| #[trigger]
        side_by_side(m, x, y) && begins(x, a) && begins(y, b) && goes_first(m, x, y)
}

/// `p` is the stack of `m` right above `k`.
pub open spec fn right_above(m: Map<Seq<usize>, Tally>, p: Seq<usize>, k: Seq<usize>) -> bool {
    &&& m.contains_key(p)
    &&& m.contains_key(k)
    &&& begins(p, k)
    &&& p != k
    &&& forall|s: Seq<usize>| #[trigger]
        m.contains_key(s) && begins(s, k) && s != k ==> begins(s, p)
}

/// `k` goes last of those beside it.
pub open spec fn goes_last(m: Map<Seq<usize>, Tally>, k: Seq<usize>) -> bool {
    forall|y: Seq<usize>| #[trigger] side_by_side(m, k, y) ==> goes_first(m, y, k)
}

/// What stands in the margin for `k`: a bar, unless it goes last.
pub open spec fn mark(m: Map<Seq<usize>, Tally>, k: Seq<usize>) -> Seq<char> {
    if goes_last(m, k) {
        "  "@
    } else {
        " |"@
    }
}

/// The entries stand in order.
pub open spec fn ordered(lines: Seq<Line>, m: Map<Seq<usize>, Tally>) -> bool {
    forall|i: int, j: int, a: Seq<usize>, b: Seq<usize>|
        0 <= i < j < lines.len() && #[trigger] is_entry(lines[i], a) && #[trigger] is_entry(
            lines[j],
            b,
        ) ==> comes_before(m, a, b)
}

/// Each entry has the margin of the one right above it, or `prefix`, and its own mark.
pub open spec fn margins(lines: Seq<Line>, m: Map<Seq<usize>, Tally>, prefix: Seq<char>) -> bool {
    &&& forall|i: int, k: Seq<usize>|
        0 <= i < lines.len() && #[trigger] is_entry(lines[i], k) && topmost(m, k)
            ==> lines[i]->Entry_margin == prefix + mark(m, k)
    &&& forall|i: int, j: int, p: Seq<usize>, k: Seq<usize>|
        0 <= i < lines.len() && 0 <= j < lines.len() && #[trigger] is_entry(lines[j], p)
            && #[trigger] is_entry(lines[i], k) && right_above(m, p, k)
            ==> lines[i]->Entry_margin == lines[j]->Entry_margin + mark(m, k)
}

/// The calls right below `p` that are not shown.
pub open spec fn hidden_below(
    m: Map<Seq<usize>, Tally>,
    threshold: Threshold,
    p: Seq<usize>,
) -> nat {
    let below = under(m, p).remove(p);
    hidden_calls(below, threshold, ranked(below), ranked(below).len())
}

/// The line is that for the calls below `p` that are not shown.
pub open spec fn is_hidden(line: Line, p: Option<Seq<usize>>) -> bool {
    line matches Line::Hidden { parent, .. } && parent == p
}

/// There is one line for the calls right below each of `stacks` that are not shown, if there are
/// any. It has the margin of the stack and stands behind all the lines of stacks that it begins,
/// and before those of others that come after it.
pub open spec fn hidden_lines(
    lines: Seq<Line>,
    m: Map<Seq<usize>, Tally>,
    threshold: Threshold,
    stacks: Set<Seq<usize>>,
) -> bool {
    &&& forall|i: int|
        0 <= i < lines.len() ==> (#[trigger] lines[i] matches Line::Hidden { parent, calls, .. }
            ==> (parent matches Some(p) && stacks.contains(p) && calls > 0 && calls == hidden_below(
            m,
            threshold,
            p,
        )))
    &&& forall|p: Seq<usize>| #[trigger]
        stacks.contains(p) && hidden_below(m, threshold, p) > 0 ==> exists|i: int|
            0 <= i < lines.len() && is_hidden(#[trigger] lines[i], Some(p))
    &&& forall|i: int, j: int, p: Seq<usize>|
        0 <= i < lines.len() && 0 <= j < lines.len() && #[trigger] is_hidden(lines[i], Some(p))
            && #[trigger] is_hidden(lines[j], Some(p)) ==> i == j
    &&& forall|i: int, j: int, p: Seq<usize>|
        0 <= i < lines.len() && 0 <= j < lines.len() && #[trigger] is_hidden(lines[i], Some(p))
            && #[trigger] is_entry(lines[j], p) ==> lines[i]->Hidden_margin
            == lines[j]->Entry_margin
    &&& forall|i: int, j: int, p: Seq<usize>, k: Seq<usize>|
        0 <= i < lines.len() && 0 <= j < lines.len() && #[trigger] is_hidden(lines[i], Some(p))
            && #[trigger] is_entry(lines[j], k) && begins(p, k) ==> j < i
    &&& forall|i: int, j: int, p: Seq<usize>, q: Seq<usize>|
        0 <= i < lines.len() && 0 <= j < lines.len() && #[trigger] is_hidden(lines[i], Some(p))
            && #[trigger] is_hidden(lines[j], Some(q)) && begins(p, q) && p != q ==> j < i
    &&& forall|i: int, j: int, l: int, p: Seq<usize>, k: Seq<usize>|
        0 <= i < lines.len() && 0 <= l < j < lines.len() && #[trigger] is_hidden(
            lines[i],
            Some(p),
        ) && #[trigger] is_entry(lines[l], p) && #[trigger] is_entry(lines[j], k) && !begins(p, k)
            ==> i < j
}

/// What stands side by side below a stack stands side by side in all.
proof fn lemma_side_by_side_below(
    m: Map<Seq<usize>, Tally>,
    top: Seq<usize>,
    x: Seq<usize>,
    y: Seq<usize>,
)
    requires
        m.contains_key(top),
        under(m, top).remove(top).contains_key(x),
    ensures
        side_by_side(under(m, top).remove(top), x, y) <==> side_by_side(m, x, y),
{
    let below = under(m, top).remove(top);
    if side_by_side(below, x, y) {
        assert forall|s: Seq<usize>| #[trigger]
            m.contains_key(s) && s != x && s != y implies (begins(s, x) <==> begins(s, y)) by {
            if !below.contains_key(s) {
                assert(begins(top, x) && begins(top, y));
                if begins(s, x) {
                    lemma_begins_nested(s, top, x);
                    assert(begins(s, top));
                    lemma_begins_transitive(s, top, y);
                }
                if begins(s, y) {
                    lemma_begins_nested(s, top, y);
                    assert(begins(s, top));
                    lemma_begins_transitive(s, top, x);
                }
            }
        }
    }
    if side_by_side(m, x, y) {
        assert(top != x);
        if top == y {
            assert(begins(y, x));
        }
        assert(begins(top, y));
        assert forall|s: Seq<usize>| #[trigger]
            below.contains_key(s) && s != x && s != y implies (begins(s, x) <==> begins(s, y)) by {
            assert(m.contains_key(s));
        }
    }
}

/// The mark of a stack is the same below another as in all.
proof fn lemma_mark_below(m: Map<Seq<usize>, Tally>, top: Seq<usize>, k: Seq<usize>)
    requires
        m.contains_key(top),
        under(m, top).remove(top).contains_key(k),
    ensures
        mark(under(m, top).remove(top), k) == mark(m, k),
{
    let below = under(m, top).remove(top);
    assert forall|y: Seq<usize>| side_by_side(below, k, y) <==> #[trigger] side_by_side(
        m,
        k,
        y,
    ) by {
        lemma_side_by_side_below(m, top, k, y);
    }
    if goes_last(below, k) {
        assert forall|y: Seq<usize>| #[trigger] side_by_side(m, k, y) implies goes_first(
            m,
            y,
            k,
        ) by {
            assert(side_by_side(below, k, y));
        }
    }
    if goes_last(m, k) {
        assert forall|y: Seq<usize>| #[trigger] side_by_side(below, k, y) implies goes_first(
            below,
            y,
            k,
        ) by {
            assert(side_by_side(m, k, y));
        }
    }
}

/// Lines that come in order below a stack come in order in all.
proof fn lemma_before_below(
    m: Map<Seq<usize>, Tally>,
    top: Seq<usize>,
    a: Seq<usize>,
    b: Seq<usize>,
)
    requires
        m.contains_key(top),
        comes_before(under(m, top).remove(top), a, b),
    ensures
        comes_before(m, a, b),
{
    let below = under(m, top).remove(top);
    if !(begins(a, b) && a != b) {
        let (x, y) = choose|x: Seq<usize>, y: Seq<usize>| #[trigger]
            side_by_side(below, x, y) && begins(x, a) && begins(y, b) && goes_first(below, x, y);
        lemma_side_by_side_below(m, top, x, y);
        assert(side_by_side(m, x, y));
    }
}

/// What is below a stack further down is the same there as in all.
proof fn lemma_below_below(m: Map<Seq<usize>, Tally>, top: Seq<usize>, p: Seq<usize>)
    requires
        m.contains_key(top),
        under(m, top).remove(top).contains_key(p),
    ensures
        under(under(m, top).remove(top), p).remove(p) == under(m, p).remove(p),
{
    let below = under(m, top).remove(top);
    assert forall|s: Seq<usize>| #[trigger]
        m.contains_key(s) && begins(p, s) && s != p implies below.contains_key(s) by {
        lemma_begins_transitive(top, p, s);
        if s == top {
            lemma_begins_antisymmetric(p, top);
        }
    }
    assert(under(below, p).remove(p) =~= under(m, p).remove(p));
}

/// Two topmost stacks stand side by side.
proof fn lemma_tops_side_by_side(m: Map<Seq<usize>, Tally>, x: Seq<usize>, y: Seq<usize>)
    requires
        topmost(m, x),
        topmost(m, y),
        x != y,
    ensures
        side_by_side(m, x, y),
{
    assert forall|s: Seq<usize>| #[trigger]
        m.contains_key(s) && s != x && s != y implies (begins(s, x) <==> begins(s, y)) by {}
}

/// The mark of a topmost stack: it goes last exactly if it is ranked last.
proof fn lemma_mark_top(m: Map<Seq<usize>, Tally>, n: nat)
    requires
        m.dom().finite(),
        0 < n <= ranked(m).len(),
    ensures
        goes_last(m, ranked(m)[n - 1]) <==> n == ranked(m).len(),
{
    let order = ranked(m);
    let k = order[n - 1];
    lemma_ranked(m);
    assert(tops(m).contains(k));
    if n == order.len() {
        assert forall|y: Seq<usize>| #[trigger] side_by_side(m, k, y) implies goes_first(
            m,
            y,
            k,
        ) by {
            let top = lemma_top_of(m, y);
            if top != y {
                assert(begins(top, k));
                assert(top == k);
            }
            assert(tops(m).contains(y));
            let i = choose|i: int| 0 <= i < order.len() && order[i] == y;
            assert(i != n - 1);
            assert(outranks(m, order[i], order[n - 1]));
        }
    } else {
        let next = order[n as int];
        assert(tops(m).contains(next));
        assert(order[n - 1] != order[n as int]);
        lemma_tops_side_by_side(m, k, next);
        assert(outranks(m, order[n - 1], order[n as int]));
        lemma_not_both(m, k, next);
    }
}

/// No two stacks go first before each other.
proof fn lemma_not_both(m: Map<Seq<usize>, Tally>, a: Seq<usize>, b: Seq<usize>)
    requires
        outranks(m, a, b),
    ensures
        goes_first(m, a, b),
        !goes_first(m, b, a),
{
    if precedes(a, b) {
        lemma_precedes_asymmetric(a, b);
    }
    if precedes(b, a) {
        lemma_precedes_asymmetric(b, a);
    }
}

/// The entries of some lines are among `stacks`.
spec fn entries_in(lines: Seq<Line>, stacks: Set<Seq<usize>>) -> bool {
    forall|i: int, k: Seq<usize>|
        0 <= i < lines.len() && #[trigger] is_entry(lines[i], k) ==> stacks.contains(k)
}

/// No stack of the one set begins one of the other.
spec fn unrelated(left: Set<Seq<usize>>, right: Set<Seq<usize>>) -> bool {
    forall|a: Seq<usize>, b: Seq<usize>| #[trigger]
        left.contains(a) && #[trigger] right.contains(b) ==> !begins(a, b) && !begins(b, a)
}

/// Lines in order are in order together, where the ones come before the others.
proof fn lemma_ordered_join(
    a: Seq<Line>,
    b: Seq<Line>,
    m: Map<Seq<usize>, Tally>,
    left: Set<Seq<usize>>,
    right: Set<Seq<usize>>,
)
    requires
        ordered(a, m),
        ordered(b, m),
        entries_in(a, left),
        entries_in(b, right),
        forall|x: Seq<usize>, y: Seq<usize>| #[trigger]
            left.contains(x) && #[trigger] right.contains(y) ==> comes_before(m, x, y),
    ensures
        ordered(a + b, m),
        entries_in(a + b, left.union(right)),
{
    let both = a + b;
    assert forall|i: int, k: Seq<usize>|
        0 <= i < both.len() && #[trigger] is_entry(both[i], k) implies (i < a.len()
        && is_entry(a[i], k) && left.contains(k)) || (i >= a.len() && is_entry(b[i - a.len()], k)
        && right.contains(k)) by {
        if i < a.len() {
            assert(is_entry(a[i], k));
        } else {
            assert(is_entry(b[i - a.len()], k));
        }
    }
}

/// The margins of unrelated lines stay right together.
proof fn lemma_margins_join(
    a: Seq<Line>,
    b: Seq<Line>,
    m: Map<Seq<usize>, Tally>,
    prefix: Seq<char>,
    left: Set<Seq<usize>>,
    right: Set<Seq<usize>>,
)
    requires
        margins(a, m, prefix),
        margins(b, m, prefix),
        entries_in(a, left),
        entries_in(b, right),
        unrelated(left, right),
    ensures
        margins(a + b, m, prefix),
{
    let both = a + b;
    assert forall|i: int, k: Seq<usize>|
        0 <= i < both.len() && #[trigger] is_entry(both[i], k) implies (i < a.len()
        && is_entry(a[i], k) && left.contains(k)) || (i >= a.len() && is_entry(b[i - a.len()], k)
        && right.contains(k)) by {
        if i < a.len() {
            assert(is_entry(a[i], k));
        } else {
            assert(is_entry(b[i - a.len()], k));
        }
    }
}

/// Which of two groups of lines a line for hidden calls is from.
proof fn lemma_hidden_from(
    a: Seq<Line>,
    b: Seq<Line>,
    m: Map<Seq<usize>, Tally>,
    threshold: Threshold,
    left: Set<Seq<usize>>,
    right: Set<Seq<usize>>,
    i: int,
    p: Seq<usize>,
)
    requires
        hidden_lines(a, m, threshold, left),
        hidden_lines(b, m, threshold, right),
        0 <= i < (a + b).len(),
        is_hidden((a + b)[i], Some(p)),
    ensures
        i < a.len() ==> is_hidden(a[i], Some(p)) && left.contains(p),
        i >= a.len() ==> is_hidden(b[i - a.len()], Some(p)) && right.contains(p),
{
    if i < a.len() {
        assert((a + b)[i] == a[i]);
    } else {
        assert((a + b)[i] == b[i - a.len()]);
    }
}

/// The lines for hidden calls of unrelated lines stay right together.
#[verifier::rlimit(40)]
proof fn lemma_hidden_join(
    a: Seq<Line>,
    b: Seq<Line>,
    m: Map<Seq<usize>, Tally>,
    threshold: Threshold,
    left: Set<Seq<usize>>,
    right: Set<Seq<usize>>,
)
    requires
        hidden_lines(a, m, threshold, left),
        hidden_lines(b, m, threshold, right),
        entries_in(a, left),
        entries_in(b, right),
        unrelated(left, right),
    ensures
        hidden_lines(a + b, m, threshold, left.union(right)),
{
    let both = a + b;
    let n = a.len() as int;
    let stacks = left.union(right);
    assert forall|i: int, k: Seq<usize>|
        0 <= i < both.len() && #[trigger] is_entry(both[i], k) implies (i < n && is_entry(a[i], k)
        && left.contains(k)) || (i >= n && is_entry(b[i - n], k) && right.contains(k)) by {
        if i < n {
            assert(is_entry(a[i], k));
        } else {
            assert(is_entry(b[i - n], k));
        }
    }
    assert forall|i: int, p: Seq<usize>|
        0 <= i < both.len() && #[trigger] is_hidden(both[i], Some(p)) implies (i < n && is_hidden(
        a[i],
        Some(p),
    ) && left.contains(p)) || (i >= n && is_hidden(b[i - n], Some(p)) && right.contains(p)) by {
        lemma_hidden_from(a, b, m, threshold, left, right, i, p);
    }
    assert forall|p: Seq<usize>| left.contains(p) implies !(#[trigger] right.contains(p)) by {}
    assert forall|i: int| 0 <= i < both.len() implies (#[trigger] both[i] matches Line::Hidden {
        parent,
        calls,
        ..
    } ==> (parent matches Some(p) && stacks.contains(p) && calls > 0 && calls == hidden_below(
        m,
        threshold,
        p,
    ))) by {
        if i < n {
            assert(both[i] == a[i]);
        } else {
            assert(both[i] == b[i - n]);
        }
    }
    assert forall|p: Seq<usize>| #[trigger]
        stacks.contains(p) && hidden_below(m, threshold, p) > 0 implies exists|i: int|
        0 <= i < both.len() && is_hidden(#[trigger] both[i], Some(p)) by {
        if left.contains(p) {
            let i = choose|i: int| 0 <= i < a.len() && is_hidden(#[trigger] a[i], Some(p));
            assert(both[i] == a[i]);
        } else {
            let i = choose|i: int| 0 <= i < b.len() && is_hidden(#[trigger] b[i], Some(p));
            assert(both[i + n] == b[i]);
        }
    }
}

/// The lines of a stack that is shown: its own, those below it, and the one for hidden calls.
spec fn block(entry: Line, group: Seq<Line>, last: Seq<Line>) -> Seq<Line> {
    seq![entry] + (group + last)
}

/// Which part of a block a line is from.
proof fn lemma_block_entries(
    top: Seq<usize>,
    entry: Line,
    group: Seq<Line>,
    last: Seq<Line>,
    inside: Set<Seq<usize>>,
)
    requires
        is_entry(entry, top),
        entries_in(group, inside),
        last.len() <= 1,
        last.len() == 1 ==> last[0] is Hidden,
    ensures
        forall|i: int, k: Seq<usize>|
            0 <= i < block(entry, group, last).len() && #[trigger] is_entry(
                block(entry, group, last)[i],
                k,
            ) ==> i == 0 && k == top || 1 <= i <= group.len() && is_entry(group[i - 1], k)
                && inside.contains(k),
        entries_in(block(entry, group, last), inside.insert(top)),
{
    let lines = block(entry, group, last);
    assert forall|i: int, k: Seq<usize>|
        0 <= i < lines.len() && #[trigger] is_entry(lines[i], k) implies i == 0 && k == top || 1
        <= i <= group.len() && is_entry(group[i - 1], k) && inside.contains(k) by {
        if i == 0 {
            assert(lines[i] == entry);
        } else if i <= group.len() {
            assert(lines[i] == group[i - 1]);
            assert(is_entry(group[i - 1], k));
        } else {
            assert(lines[i] == last[0]);
        }
    }
}

/// The entries of a block stand in order.
proof fn lemma_ordered_block(
    m: Map<Seq<usize>, Tally>,
    top: Seq<usize>,
    entry: Line,
    group: Seq<Line>,
    last: Seq<Line>,
    inside: Set<Seq<usize>>,
)
    requires
        m.contains_key(top),
        is_entry(entry, top),
        entries_in(group, inside),
        last.len() <= 1,
        last.len() == 1 ==> last[0] is Hidden,
        forall|k: Seq<usize>| #[trigger]
            inside.contains(k) ==> under(m, top).remove(top).contains_key(k),
        ordered(group, under(m, top).remove(top)),
    ensures
        ordered(block(entry, group, last), m),
{
    let lines = block(entry, group, last);
    lemma_block_entries(top, entry, group, last, inside);
    assert forall|i: int, j: int, a: Seq<usize>, b: Seq<usize>|
        0 <= i < j < lines.len() && #[trigger] is_entry(lines[i], a) && #[trigger] is_entry(
            lines[j],
            b,
        ) implies comes_before(m, a, b) by {
        assert(is_entry(group[j - 1], b) && inside.contains(b));
        assert(under(m, top).remove(top).contains_key(b));
        if i > 0 {
            assert(is_entry(group[i - 1], a));
            lemma_before_below(m, top, a, b);
        }
    }
}

/// The entries of a block have their margins.
proof fn lemma_margins_block(
    m: Map<Seq<usize>, Tally>,
    top: Seq<usize>,
    entry: Line,
    group: Seq<Line>,
    last: Seq<Line>,
    inside: Set<Seq<usize>>,
    prefix: Seq<char>,
)
    requires
        topmost(m, top),
        is_entry(entry, top),
        entry->Entry_margin == prefix + mark(m, top),
        entries_in(group, inside),
        last.len() <= 1,
        last.len() == 1 ==> last[0] is Hidden,
        forall|k: Seq<usize>| #[trigger]
            inside.contains(k) ==> under(m, top).remove(top).contains_key(k),
        margins(group, under(m, top).remove(top), entry->Entry_margin),
    ensures
        margins(block(entry, group, last), m, prefix),
{
    let lines = block(entry, group, last);
    let below = under(m, top).remove(top);
    lemma_block_entries(top, entry, group, last, inside);
    assert(lines[0] == entry);
    assert forall|i: int, k: Seq<usize>|
        0 <= i < lines.len() && #[trigger] is_entry(lines[i], k) && topmost(m, k) implies lines[
        i]->Entry_margin == prefix + mark(m, k) by {
        if i > 0 {
            assert(below.contains_key(k));
        }
    }
    assert forall|i: int, j: int, p: Seq<usize>, k: Seq<usize>|
        0 <= i < lines.len() && 0 <= j < lines.len() && #[trigger] is_entry(lines[j], p)
            && #[trigger] is_entry(lines[i], k) && right_above(m, p, k) implies lines[
        i]->Entry_margin == lines[j]->Entry_margin + mark(m, k) by {
        if i == 0 {
            assert(p == top);
        }
        assert(inside.contains(k));
        assert(below.contains_key(k));
        assert(lines[i] == group[i - 1]);
        lemma_mark_below(m, top, k);
        if j == 0 {
            assert forall|s: Seq<usize>| #[trigger]
                below.contains_key(s) && begins(s, k) implies s == k by {
                if s != k {
                    assert(begins(s, top));
                    lemma_begins_antisymmetric(s, top);
                }
            }
            assert(topmost(below, k));
        } else {
            assert(lines[j] == group[j - 1]);
            assert(below.contains_key(p));
            assert(right_above(below, p, k));
        }
    }
}

/// The lines for hidden calls of a block are right.
#[verifier::rlimit(60)]
proof fn lemma_hidden_block(
    m: Map<Seq<usize>, Tally>,
    threshold: Threshold,
    top: Seq<usize>,
    entry: Line,
    group: Seq<Line>,
    inside: Set<Seq<usize>>,
)
    requires
        m.contains_key(top),
        is_entry(entry, top),
        entries_in(group, inside),
        forall|k: Seq<usize>| #[trigger]
            inside.contains(k) ==> under(m, top).remove(top).contains_key(k),
        hidden_lines(group, under(m, top).remove(top), threshold, inside),
    ensures
        hidden_lines(
            block(
                entry,
                group,
                last_line(under(m, top).remove(top), threshold, Some(top), entry->Entry_margin),
            ),
            m,
            threshold,
            inside.insert(top),
        ),
{
    let below = under(m, top).remove(top);
    let last = last_line(below, threshold, Some(top), entry->Entry_margin);
    let lines = block(entry, group, last);
    let stacks = inside.insert(top);
    let g = group.len() as int;
    lemma_block_entries(top, entry, group, last, inside);
    assert(lines[0] == entry);
    assert forall|p: Seq<usize>| #[trigger] inside.contains(p) implies hidden_below(
        below,
        threshold,
        p,
    ) == hidden_below(m, threshold, p) && begins(top, p) && p != top && !begins(p, top) by {
        lemma_below_below(m, top, p);
        if begins(p, top) {
            lemma_begins_antisymmetric(p, top);
        }
    }
    assert forall|i: int, p: Seq<usize>|
        0 <= i < lines.len() && #[trigger] is_hidden(lines[i], Some(p)) implies (1 <= i <= g
        && is_hidden(group[i - 1], Some(p)) && inside.contains(p)) || (i == g + 1 && p == top) by {
        if 1 <= i <= g {
            assert(lines[i] == group[i - 1]);
        } else if i > g {
            assert(lines[i] == last[0]);
        }
    }
    assert forall|i: int| 0 <= i < lines.len() implies (#[trigger] lines[i] matches Line::Hidden {
        parent,
        calls,
        ..
    } ==> (parent matches Some(p) && stacks.contains(p) && calls > 0 && calls == hidden_below(
        m,
        threshold,
        p,
    ))) by {
        if 1 <= i <= g {
            assert(lines[i] == group[i - 1]);
        } else if i > g {
            assert(lines[i] == last[0]);
        }
    }
    assert forall|p: Seq<usize>| #[trigger]
        stacks.contains(p) && hidden_below(m, threshold, p) > 0 implies exists|i: int|
        0 <= i < lines.len() && is_hidden(#[trigger] lines[i], Some(p)) by {
        if p == top {
            assert(is_hidden(lines[g + 1], Some(p)));
        } else {
            assert(inside.contains(p));
            let i = choose|i: int| 0 <= i < g && is_hidden(#[trigger] group[i], Some(p));
            assert(lines[i + 1] == group[i]);
        }
    }
}

/// The stacks under different topmost stacks are unrelated, and come in the order of those.
proof fn lemma_tops_apart(
    m: Map<Seq<usize>, Tally>,
    n: nat,
    x: Seq<usize>,
    y: Seq<usize>,
)
    requires
        m.dom().finite(),
        0 < n <= ranked(m).len(),
        begun(ranked(m), (n - 1) as nat).contains(x),
        begins(ranked(m)[n - 1], y),
    ensures
        comes_before(m, x, y),
        !begins(x, y),
        !begins(y, x),
{
    let order = ranked(m);
    let top = order[n - 1];
    let i = choose|i: int| 0 <= i < n - 1 && begins(#[trigger] order[i], x);
    lemma_ranked(m);
    assert(tops(m).contains(order[i]) && tops(m).contains(top));
    assert(order[i] != order[n - 1]);
    lemma_tops_side_by_side(m, order[i], top);
    assert(outranks(m, order[i], order[n - 1]));
    lemma_not_both(m, order[i], top);
    assert(side_by_side(m, order[i], top));
    if begins(x, y) {
        lemma_begins_transitive(order[i], x, y);
        lemma_begins_nested(order[i], top, y);
    }
    if begins(y, x) {
        lemma_begins_transitive(top, y, x);
        lemma_begins_nested(order[i], top, x);
    }
}

/// The lines of the first topmost stacks stand in order, with their margins, and with their lines
/// for hidden calls.
pub proof fn lemma_layout(
    m: Map<Seq<usize>, Tally>,
    threshold: Threshold,
    prefix: Seq<char>,
    n: nat,
)
    requires
        m.dom().finite(),
        n <= ranked(m).len(),
    ensures
        ordered(lines_first(m, threshold, prefix, n), m),
        margins(lines_first(m, threshold, prefix, n), m, prefix),
        hidden_lines(
            lines_first(m, threshold, prefix, n),
            m,
            threshold,
            shown_first(m, threshold, n),
        ),
    decreases m.dom().len(), n,
{
    let order = ranked(m);
    if n == 0 {
        assert(shown_first(m, threshold, n) =~= Set::empty());
    } else {
        let top = order[n - 1];
        let inner = inner_prefix(prefix, n, order.len());
        let below = under(m, top).remove(top);
        let before = lines_first(m, threshold, prefix, (n - 1) as nat);
        let known = shown_first(m, threshold, (n - 1) as nat);
        lemma_layout(m, threshold, prefix, (n - 1) as nat);
        lemma_lines_list_first(m, threshold, prefix, (n - 1) as nat);
        lemma_fewer_below(m, n);
        lemma_ranked(m);
        assert(tops(m).contains(top));
        assert forall|k: Seq<usize>| #[trigger] begun(order, n).contains(k) <==> begins(top, k)
            || begun(order, (n - 1) as nat).contains(k) by {
            if begun(order, n).contains(k) {
                let i = choose|i: int| 0 <= i < n && begins(#[trigger] order[i], k);
                assert(begins(order[i], k));
            }
            if begins(top, k) {
                assert(begins(order[n - 1], k));
            }
            if begun(order, (n - 1) as nat).contains(k) {
                let i = choose|i: int| 0 <= i < n - 1 && begins(#[trigger] order[i], k);
                assert(begins(order[i], k));
            }
        }
        if threshold.hides(m[top].0) {
            assert(before + Seq::<Line>::empty() =~= before);
            assert(shown_first(m, threshold, n) =~= known);
        } else {
            let entry = Line::Entry { stack: top, sums: m[top], margin: inner };
            let len = ranked(below).len();
            let group = lines_first(below, threshold, inner, len);
            let last = last_line(below, threshold, Some(top), inner);
            let inside = shown_first(below, threshold, len);
            let here = inside.insert(top);
            lemma_layout(below, threshold, inner, len);
            lemma_lines_list_first(below, threshold, inner, len);
            lemma_all_begun(below, threshold);
            lemma_mark_top(m, n);
            assert(inner =~= prefix + mark(m, top));
            assert(entries_in(group, inside));
            assert(entries_in(before, known));
            lemma_block_entries(top, entry, group, last, inside);
            lemma_ordered_block(m, top, entry, group, last, inside);
            lemma_margins_block(m, top, entry, group, last, inside, prefix);
            lemma_hidden_block(m, threshold, top, entry, group, inside);
            let lines = block(entry, group, last);
            assert forall|k: Seq<usize>| #[trigger] here.contains(k) <==> shown(m, threshold, k)
                && begins(top, k) by {
                lemma_shown_below(m, threshold, top, k);
            }
            assert forall|x: Seq<usize>, y: Seq<usize>| #[trigger]
                known.contains(x) && #[trigger] here.contains(y) implies comes_before(m, x, y)
                && !begins(x, y) && !begins(y, x) by {
                lemma_tops_apart(m, n, x, y);
            }
            lemma_ordered_join(before, lines, m, known, here);
            lemma_margins_join(before, lines, m, prefix, known, here);
            lemma_hidden_join(before, lines, m, threshold, known, here);
            assert(shown_first(m, threshold, n) =~= known.union(here));
            assert(lines_of(below, threshold, Some(top), inner) == group + last);
            assert(lines_first(m, threshold, prefix, n) == before + (seq![entry] + lines_of(
                below,
                threshold,
                Some(top),
                inner,
            )));
        }
    }
}

/// Every stack that is shown is under one of the topmost stacks.
proof fn lemma_all_begun(m: Map<Seq<usize>, Tally>, threshold: Threshold)
    requires
        m.dom().finite(),
    ensures
        shown_first(m, threshold, ranked(m).len()) == shown_stacks(m, threshold),
{
    lemma_ranked(m);
    assert forall|k: Seq<usize>| shown(m, threshold, k) implies begun(
        ranked(m),
        ranked(m).len(),
    ).contains(k) by {
        let top = lemma_top_of(m, k);
        assert(tops(m).contains(top));
        assert(ranked(m).contains(top));
    }
    assert(shown_first(m, threshold, ranked(m).len()) =~= shown_stacks(m, threshold));
}

} // verus!
