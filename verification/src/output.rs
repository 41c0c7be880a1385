//! Writing text, to whatever takes it.
use vstd::prelude::*;

verus! {

/// A text could not be written.
#[derive(Clone, Copy, Debug, PartialEq, Eq)]
pub struct WriteError;

/// Something that text can be written to.
pub trait Writer: Sized {
    /// What is known of writing `text`: the writer is left as `after`, and it succeeds or not.
    open spec fn writes(before: Self, text: Seq<char>, after: Self, ok: bool) -> bool {
        true
    }

    /// Writers of this kind hold the text that was written to them, and never fail.
    open spec fn keeps_text() -> bool {
        false
    }

    /// The text that a writer holds, if writers of its kind do.
    open spec fn held(self) -> Seq<char> {
        seq![]
    }

    /// Writes `text`.
    fn write_str(&mut self, text: &str) -> (result: Result<(), WriteError>)
        ensures
            Self::writes(*old(self), text@, *final(self), result is Ok),
            Self::keeps_text() ==> result is Ok && final(self).held() == old(self).held() + text@,
    ;
}

/// What comes of writing `text`: the writer is left as `after`, and it succeeds or not. A writer
/// that holds its text then holds `text` behind what it held before.
pub open spec fn wrote<W: Writer>(before: W, text: Seq<char>, after: W, ok: bool) -> bool {
    &&& W::writes(before, text, after, ok)
    &&& W::keeps_text() ==> ok && after.held() == before.held() + text
}

impl Writer for String {
    open spec fn writes(before: Self, text: Seq<char>, after: Self, ok: bool) -> bool {
        ok && after@ == before@ + text
    }

    open spec fn keeps_text() -> bool {
        true
    }

    open spec fn held(self) -> Seq<char> {
        self@
    }

    fn write_str(&mut self, text: &str) -> (result: Result<(), WriteError>) {
        self.append(text);
        Ok(())
    }
}

/// `trail` has what becomes of a writer while texts are written to it; the step `i` of it is that
/// the text `i` is written. It goes well, unless it is the last of a trail that does not.
pub open spec fn takes_step<W: Writer>(
    trail: Seq<W>,
    texts: Seq<Seq<char>>,
    ok: bool,
    i: int,
) -> bool {
    wrote(trail[i], texts[i], trail[i + 1], ok || i < trail.len() - 2)
}

/// `trail` leads from `before` to `after` by writing all of `texts`, or those up to the first that
/// could not be written.
pub open spec fn is_trail<W: Writer>(
    before: W,
    texts: Seq<Seq<char>>,
    after: W,
    ok: bool,
    trail: Seq<W>,
) -> bool {
    &&& 1 <= trail.len() <= texts.len() + 1
    &&& trail[0] == before
    &&& trail.last() == after
    &&& if ok {
        trail.len() == texts.len() + 1
    } else {
        trail.len() >= 2
    }
    &&& forall|i: int| 0 <= i < trail.len() - 1 ==> #[trigger] takes_step(trail, texts, ok, i)
}

/// What comes of writing some texts one after the other, up to the first that could not be
/// written: the writer is left as `after`, and it succeeds or not.
#[verifier::opaque]
pub open spec fn writes_all<W: Writer>(
    before: W,
    texts: Seq<Seq<char>>,
    after: W,
    ok: bool,
) -> bool {
    exists|trail: Seq<W>| is_trail(before, texts, after, ok, trail)
}

/// The texts one after the other.
pub open spec fn joined(texts: Seq<Seq<char>>) -> Seq<char>
    decreases texts.len(),
{
    if texts.len() == 0 {
        seq![]
    } else {
        joined(texts.drop_last()) + texts.last()
    }
}

/// Texts that are put together read like the ones and then the others.
pub proof fn lemma_joined(a: Seq<Seq<char>>, b: Seq<Seq<char>>)
    ensures
        joined(a + b) == joined(a) + joined(b),
    decreases b.len(),
{
    if b.len() == 0 {
        assert(a + b =~= a);
        assert(joined(a + b) =~= joined(a) + joined(b));
    } else {
        lemma_joined(a, b.drop_last());
        assert((a + b).drop_last() =~= a + b.drop_last());
        assert(joined(a + b) =~= joined(a) + joined(b));
    }
}

/// Nothing is done to write no text.
pub proof fn lemma_writes_none<W: Writer>(f: W)
    ensures
        writes_all(f, Seq::empty(), f, true),
{
    reveal(writes_all);
    assert(is_trail(f, Seq::empty(), f, true, seq![f]));
}

/// A single text is written.
pub proof fn lemma_writes_one<W: Writer>(before: W, text: Seq<char>, after: W, ok: bool)
    requires
        wrote(before, text, after, ok),
    ensures
        writes_all(before, seq![text], after, ok),
{
    reveal(writes_all);
    let trail = seq![before, after];
    assert(takes_step(trail, seq![text], ok, 0));
    assert(is_trail(before, seq![text], after, ok, trail));
}

/// More texts are written where those before them were.
pub proof fn lemma_writes_join<W: Writer>(
    before: W,
    texts: Seq<Seq<char>>,
    mid: W,
    more: Seq<Seq<char>>,
    after: W,
    ok: bool,
)
    requires
        writes_all(before, texts, mid, true),
        writes_all(mid, more, after, ok),
    ensures
        writes_all(before, texts + more, after, ok),
{
    reveal(writes_all);
    let first = choose|trail: Seq<W>| is_trail(before, texts, mid, true, trail);
    let second = choose|trail: Seq<W>| is_trail(mid, more, after, ok, trail);
    let trail = first + second.drop_first();
    let n = texts.len() as int;
    assert(trail[n] == mid);
    assert forall|i: int| 0 <= i < trail.len() - 1 implies #[trigger] takes_step(
        trail,
        texts + more,
        ok,
        i,
    ) by {
        if i < n {
            assert(takes_step(first, texts, true, i));
        } else {
            assert(takes_step(second, more, ok, i - n));
        }
    }
    assert(is_trail(before, texts + more, after, ok, trail));
}

/// After a text that could not be written, no more are.
pub proof fn lemma_writes_stop<W: Writer>(
    before: W,
    texts: Seq<Seq<char>>,
    all: Seq<Seq<char>>,
    after: W,
)
    requires
        writes_all(before, texts, after, false),
        texts.is_prefix_of(all),
    ensures
        writes_all(before, all, after, false),
{
    reveal(writes_all);
    let trail = choose|trail: Seq<W>| is_trail(before, texts, after, false, trail);
    assert forall|i: int| 0 <= i < trail.len() - 1 implies #[trigger] takes_step(
        trail,
        all,
        false,
        i,
    ) by {
        assert(takes_step(trail, texts, false, i));
        assert(texts[i] == all[i]);
    }
    assert(is_trail(before, all, after, false, trail));
}

/// On a trail of a writer that holds its text, every step adds its text.
proof fn lemma_trail_kept<W: Writer>(
    before: W,
    texts: Seq<Seq<char>>,
    after: W,
    ok: bool,
    trail: Seq<W>,
    n: int,
)
    requires
        W::keeps_text(),
        is_trail(before, texts, after, ok, trail),
        0 <= n < trail.len(),
    ensures
        trail[n].held() == before.held() + joined(texts.take(n)),
        n == trail.len() - 1 ==> ok,
    decreases n,
{
    if n == 0 {
        assert(trail[n].held() =~= before.held() + joined(texts.take(n)));
    } else {
        lemma_trail_kept(before, texts, after, ok, trail, n - 1);
        assert(takes_step(trail, texts, ok, n - 1));
        assert(texts.take(n).drop_last() =~= texts.take(n - 1));
        assert(trail[n].held() =~= before.held() + joined(texts.take(n)));
    }
}

/// A writer that holds its text holds all that was written, one text behind the other.
pub proof fn lemma_texts_kept<W: Writer>(before: W, texts: Seq<Seq<char>>, after: W, ok: bool)
    requires
        W::keeps_text(),
        writes_all(before, texts, after, ok),
    ensures
        ok,
        after.held() == before.held() + joined(texts),
{
    reveal(writes_all);
    let trail = choose|trail: Seq<W>| is_trail(before, texts, after, ok, trail);
    lemma_trail_kept(before, texts, after, ok, trail, trail.len() - 1);
    assert(texts.take(texts.len() as int) =~= texts);
}

/// Writes the text `n` of `all`, those before it having been written.
pub(crate) fn write_next<W: Writer>(
    f: &mut W,
    text: &str,
    Ghost(start): Ghost<W>,
    Ghost(all): Ghost<Seq<Seq<char>>>,
    Ghost(n): Ghost<int>,
) -> (result: Result<(), WriteError>)
    requires
        0 <= n < all.len(),
        all[n] == text@,
        writes_all(start, all.take(n), *old(f), true),
    ensures
        result is Ok ==> writes_all(start, all.take(n + 1), *final(f), true),
        result is Err ==> writes_all(start, all, *final(f), false),
{
    let result = f.write_str(text);
    proof {
        lemma_writes_one(*old(f), text@, *f, result is Ok);
        lemma_writes_join(start, all.take(n), *old(f), seq![text@], *f, result is Ok);
        assert(all.take(n) + seq![text@] =~= all.take(n + 1));
        if result is Err {
            lemma_writes_stop(start, all.take(n + 1), all, *f);
        }
    }
    result
}

} // verus!
