//! What the calls that name frames, write texts and decide on requests give back.
use vstd::prelude::*;

use crate::allocator::{captured, push_frame, Plan, ProfAllocator};
use crate::calls::times;
use crate::output::{
    is_trail, joined, lemma_writes_join, lemma_writes_none, lemma_writes_one, lemma_writes_stop,
    takes_step, writes_all, wrote, WriteError, Writer,
};
use crate::profile::Profile;
use crate::stats::{CallStack, CallStackStats};
use crate::summary_calls::{amounts_to, counts_amount_to_sums};
use crate::text::{
    decimal, describe_frame, digit, found, frame_text, grouped, profile_dir, profile_file,
    profile_pattern, ProfileFiles, Symbol,
};

verus! {

/// The text for a symbol: its name, file, line and column, with nothing or zero for what is not
/// known.
pub open spec fn symbol_reads(symbol: Symbol, text: Seq<char>) -> bool {
    exists|name: Seq<char>, file: Seq<char>, line: nat, column: nat|
        {
            &&& name == (match symbol.name {
                Some(name) => name@,
                None => ""@,
            })
            &&& file == (match symbol.filename {
                Some(file) => file@,
                None => ""@,
            })
            &&& line == (match symbol.lineno {
                Some(line) => line as nat,
                None => 0nat,
            })
            &&& column == (match symbol.colno {
                Some(column) => column as nat,
                None => 0nat,
            })
            &&& text == #[trigger] (name + " (in "@ + file + ","@ + decimal(line) + ":"@
                + decimal(column) + ")"@)
        }
}

/// The text for a frame with these symbols: that of the last of them, or the address.
pub open spec fn frame_reads(frame: usize, symbols: Seq<Symbol>, text: Seq<char>) -> bool {
    if symbols.len() == 0 {
        text == decimal(frame as nat)
    } else {
        symbol_reads(symbols[symbols.len() - 1], text)
    }
}

/// What a symbol is written as.
proof fn lemma_symbol_reads(symbol: Symbol)
    ensures
        symbol_reads(symbol, symbol.spec_text()),
{
    reveal_strlit("");
    assert(""@ =~= Seq::<char>::empty());
    let name = match symbol.name {
        Some(name) => name@,
        None => ""@,
    };
    let file = match symbol.filename {
        Some(file) => file@,
        None => ""@,
    };
    let line = match symbol.lineno {
        Some(line) => line as nat,
        None => 0nat,
    };
    let column = match symbol.colno {
        Some(column) => column as nat,
        None => 0nat,
    };
    assert(symbol.spec_text() == name + " (in "@ + file + ","@ + decimal(line) + ":"@ + decimal(
        column,
    ) + ")"@);
}

/// A symbol reads as its name, file, line and column.
pub proof fn symbols_are_written(symbol: Symbol, text: String)
    requires
        call_ensures(Symbol::text, (&symbol,), text),
    ensures
        symbol_reads(symbol, text@),
{
    lemma_symbol_reads(symbol);
}

/// A frame is described by the last of its symbols, or by its address.
pub proof fn frames_are_described(frame: usize, symbols: Vec<Symbol>, text: String)
    requires
        call_ensures(describe_frame, (frame, &symbols), text),
    ensures
        frame_reads(frame, symbols@, text@),
{
    if symbols@.len() > 0 {
        lemma_symbol_reads(symbols@[symbols@.len() - 1]);
    }
}

/// A profile without names is made ready to be stored: each frame of its stacks, and no other, is
/// named by the symbols that were found at that frame. A profile with names is left as it is.
pub proof fn frames_are_named_by_their_symbols(
    p: &mut Profile,
    stored: bool,
    frame: usize,
)
    requires
        call_ensures(Profile::name_frames, (p,), stored),
    ensures
        stored <==> forall|f: usize| !(#[trigger] old(p)@.symbols.contains_key(f)),
        final(p)@.callstacks == old(p)@.callstacks,
        !stored ==> final(p)@.symbols == old(p)@.symbols,
        stored ==> (final(p)@.symbols.contains_key(frame) <==> exists|s: Seq<usize>, at: int|
            #[trigger]
            old(p)@.callstacks.contains_key(s) && 0 <= at < s.len() && #[trigger] s[at] == frame),
        stored && final(p)@.symbols.contains_key(frame) ==> exists|symbols: Seq<Symbol>| #[trigger]
            found(frame, symbols) && frame_reads(frame, symbols, final(p)@.symbols[frame]),
{
    let stacks = old(p)@.callstacks;
    if stored {
        assert forall|f: usize| !(#[trigger] old(p)@.symbols.contains_key(f)) by {
            assert(!old(p)@.symbols.dom().contains(f));
        }
        if final(p)@.symbols.contains_key(frame) {
            assert(final(p)@.symbols.dom().contains(frame));
            let s = choose|s: Seq<usize>| #[trigger] stacks.contains_key(s) && s.contains(frame);
            let at = choose|at: int| 0 <= at < s.len() && s[at] == frame;
            assert(stacks.contains_key(s) && 0 <= at < s.len() && s[at] == frame);
            let symbols = choose|symbols: Seq<Symbol>|
                found(frame, symbols) && final(p)@.symbols[frame]
                    == #[trigger] frame_text(frame, symbols);
            if symbols.len() > 0 {
                lemma_symbol_reads(symbols[symbols.len() - 1]);
            }
            assert(found(frame, symbols));
        }
        if exists|s: Seq<usize>, at: int| #[trigger]
            stacks.contains_key(s) && 0 <= at < s.len() && #[trigger] s[at] == frame {
            let (s, at) = choose|s: Seq<usize>, at: int| #[trigger]
                stacks.contains_key(s) && 0 <= at < s.len() && #[trigger] s[at] == frame;
            assert(s.contains(frame));
            assert(final(p)@.symbols.dom().contains(frame));
        }
    } else {
        let f = old(p)@.symbols.dom().choose();
        assert(old(p)@.symbols.contains_key(f));
    }
}

/// A frame is given a name only if it has none, and nothing else changes.
pub proof fn one_frame_is_named(p: &mut Profile, frame: usize, name: String, other: usize)
    requires
        call_ensures(Profile::name_frame, (p, frame, name), ()),
    ensures
        final(p)@.callstacks == old(p)@.callstacks,
        final(p)@.symbols.contains_key(other) <==> old(p)@.symbols.contains_key(other) || other
            == frame,
        old(p)@.symbols.contains_key(other) ==> final(p)@.symbols[other] == old(p)@.symbols[other],
        !old(p)@.symbols.contains_key(frame) ==> final(p)@.symbols[frame] == name@,
{
}

/// A frame is shown by its name, or by its address where it has none.
pub proof fn frames_are_shown_by_name(p: Profile, frame: usize, name: String)
    requires
        call_ensures(Profile::resolve_symbol, (&p, frame), name),
    ensures
        p@.symbols.contains_key(frame) ==> name@ == p@.symbols[frame],
        !p@.symbols.contains_key(frame) ==> name@ == decimal(frame as nat),
{
}

/// A request is recorded under the stack that was captured for it, whole and in its order: the
/// count for that stack and the size of the request is raised by one, and no other.
pub proof fn requests_are_recorded_where_they_came_from(
    callstack: &mut CallStack,
    p: &mut Profile,
    size: usize,
    recorded: bool,
    s: Seq<usize>,
    z: usize,
)
    requires
        call_ensures(ProfAllocator::malloc_record, (callstack, p, size), recorded),
    ensures
        captured(final(callstack)@),
        final(callstack)@.len() <= 128,
        recorded <==> times(old(p)@.callstacks, final(callstack)@, size) < usize::MAX,
        recorded ==> times(final(p)@.callstacks, s, z) == times(old(p)@.callstacks, s, z) + (if s
            == final(callstack)@ && z == size {
            1nat
        } else {
            0nat
        }),
        recorded ==> (final(p)@.callstacks.contains_key(s) <==> old(p)@.callstacks.contains_key(s)
            || s == final(callstack)@),
        final(p)@.symbols == old(p)@.symbols,
        !recorded ==> final(p)@.callstacks == old(p)@.callstacks,
{
}

/// Frames are added behind those that are there, up to 128.
pub proof fn frames_are_added(callstack: &mut CallStack, frame: usize, more: bool)
    requires
        call_ensures(push_frame, (callstack, frame), more),
    ensures
        final(callstack)@.len() == old(callstack)@.len() + 1,
        forall|i: int|
            0 <= i < old(callstack)@.len() ==> final(callstack)@[i] == old(callstack)@[i],
        final(callstack)@[old(callstack)@.len() as int] == frame,
        more <==> final(callstack)@.len() < 128,
{
}

/// A request is recorded exactly if the thread's flag can be read and is down. The flag is then up
/// until the request ends, and after that as it was.
pub proof fn requests_are_recorded_once(
    nested: Option<bool>,
    step: (Plan, Option<bool>),
    flag: Option<bool>,
)
    requires
        call_ensures(ProfAllocator::start, (nested,), step),
        call_ensures(ProfAllocator::finish, (step.0, step.1), flag),
    ensures
        step.0 == Plan::Record <==> nested == Some(false),
        step.0 == Plan::Record ==> step.1 == Some(true),
        step.0 == Plan::Forward ==> step.1 == nested,
        flag == nested,
{
}

/// The directory of a process, and the files and the pattern in a directory.
pub proof fn paths_are_made_of_ids(
    process: u32,
    dir: &str,
    thread: usize,
    dir_path: String,
    file: String,
    pattern: String,
)
    requires
        call_ensures(profile_dir, (process,), dir_path),
        call_ensures(profile_file, (dir, thread), file),
        call_ensures(profile_pattern, (dir,), pattern),
    ensures
        dir_path@ == "malloc_freq."@ + decimal(process as nat),
        file@ == dir@ + "/malloc_freq."@ + decimal(thread as nat),
        pattern@ == dir@ + "/malloc_freq.*"@,
{
}

/// Files are handed out one after the other, each once, until there are no more numbers.
pub proof fn files_are_handed_out_once(
    files: &mut ProfileFiles,
    dir: &str,
    file: Option<String>,
)
    requires
        call_ensures(ProfileFiles::next_file, (files, dir), file),
    ensures
        file is None <==> old(files).handed_out == usize::MAX,
        file matches Some(path) ==> path@ == dir@ + "/malloc_freq."@ + decimal(
            old(files).handed_out as nat,
        ) && final(files).handed_out == old(files).handed_out + 1,
        file is None ==> final(files).handed_out == old(files).handed_out,
{
}

/// The digits of a number: those of its tenth part, and one more.
pub proof fn digits_are_decimal(n: nat, d: nat)
    requires
        d < 10,
    ensures
        n > 0 ==> decimal(10 * n + d) == decimal(n).push(digit(d)),
        decimal(d) == seq![digit(d)],
        digit(d) as nat == 48 + d,
{
    if n > 0 {
        assert((10 * n + d) / 10 == n);
        assert((10 * n + d) % 10 == d);
    }
}

/// A number in groups: its thousands, a comma, and three digits.
pub proof fn groups_have_three_digits(n: nat, a: nat, b: nat, c: nat)
    requires
        a < 10,
        b < 10,
        c < 10,
    ensures
        n > 0 ==> grouped(1000 * n + 100 * a + 10 * b + c) == grouped(n) + seq![
            ',',
            digit(a),
            digit(b),
            digit(c),
        ],
        grouped(100 * a + 10 * b + c) == decimal(100 * a + 10 * b + c),
{
    let all = 1000 * n + 100 * a + 10 * b + c;
    assert(all / 1000 == n && all / 100 % 10 == a && all / 10 % 10 == b && all % 10 == c) by {
        assert(all / 100 == 10 * n + a);
        assert(all / 10 == 100 * n + 10 * a + b);
    }
}

/// The totals of statistics are written in one piece: the calls and the bytes, in groups.
pub proof fn totals_are_written<W: Writer>(
    stats: CallStackStats,
    f: &mut W,
    result: Result<(), WriteError>,
    sizes: Seq<usize>,
    calls: nat,
    bytes: nat,
)
    requires
        call_ensures(CallStackStats::format_totals::<W>, (&stats, f), result),
        amounts_to(stats, sizes, calls, bytes),
    ensures
        wrote(
            *old(f),
            grouped(calls) + " calls, "@ + grouped(bytes) + "B"@,
            *final(f),
            result is Ok,
        ),
{
    if let CallStackStats::Detailed(counts) = stats {
        counts_amount_to_sums(counts@, sizes);
    }
}

/// Texts are joined one behind the other.
pub proof fn texts_are_joined(texts: Seq<Seq<char>>, text: Seq<char>)
    ensures
        joined(Seq::empty()) == Seq::<char>::empty(),
        joined(texts.push(text)) == joined(texts) + text,
{
    assert(texts.push(text).drop_last() =~= texts);
}

/// Nothing is done to write no texts. To write one more, those before it are written first; it is
/// written if they all could be, and else nothing more is done.
pub proof fn texts_are_written_in_turn<W: Writer>(
    before: W,
    texts: Seq<Seq<char>>,
    text: Seq<char>,
    after: W,
    ok: bool,
)
    ensures
        writes_all(before, Seq::empty(), after, ok) <==> ok && after == before,
        writes_all(before, texts.push(text), after, ok) <==> exists|mid: W, sofar: bool| #[trigger]
            writes_all(before, texts, mid, sofar) && (if sofar {
                W::writes(mid, text, after, ok) && (W::keeps_text() ==> ok && after.held()
                    == mid.held() + text)
            } else {
                !ok && after == mid
            }),
{
    reveal(writes_all);
    let none = Seq::<Seq<char>>::empty();
    if writes_all(before, none, after, ok) {
        let trail = choose|trail: Seq<W>| is_trail(before, none, after, ok, trail);
        assert(trail.len() == 1);
    }
    if ok && after == before {
        lemma_writes_none(before);
    }
    let more = texts.push(text);
    if writes_all(before, more, after, ok) {
        let trail = choose|trail: Seq<W>| is_trail(before, more, after, ok, trail);
        if trail.len() == more.len() + 1 {
            let shorter = trail.drop_last();
            let mid = shorter.last();
            let n = texts.len() as int;
            assert(takes_step(trail, more, ok, n));
            assert forall|i: int| 0 <= i < shorter.len() - 1 implies #[trigger] takes_step(
                shorter,
                texts,
                true,
                i,
            ) by {
                assert(takes_step(trail, more, ok, i));
            }
            assert(is_trail(before, texts, mid, true, shorter));
            assert(writes_all(before, texts, mid, true));
        } else {
            assert forall|i: int| 0 <= i < trail.len() - 1 implies #[trigger] takes_step(
                trail,
                texts,
                false,
                i,
            ) by {
                assert(takes_step(trail, more, ok, i));
            }
            assert(is_trail(before, texts, after, false, trail));
            assert(writes_all(before, texts, after, false));
        }
    }
    if exists|mid: W, sofar: bool| #[trigger]
        writes_all(before, texts, mid, sofar) && (if sofar {
            W::writes(mid, text, after, ok) && (W::keeps_text() ==> ok && after.held()
                == mid.held() + text)
        } else {
            !ok && after == mid
        }) {
        let (mid, sofar) = choose|mid: W, sofar: bool| #[trigger]
            writes_all(before, texts, mid, sofar) && (if sofar {
                W::writes(mid, text, after, ok) && (W::keeps_text() ==> ok && after.held()
                    == mid.held() + text)
            } else {
                !ok && after == mid
            });
        if sofar {
            lemma_writes_one(mid, text, after, ok);
            lemma_writes_join(before, texts, mid, seq![text], after, ok);
            assert(texts + seq![text] =~= more);
        } else {
            lemma_writes_stop(before, texts, more, after);
        }
    }
}

/// What is written to a string is put behind what it held, and always can be.
pub proof fn strings_take_all_text(f: &mut String, text: &str, result: Result<(), WriteError>)
    requires
        call_ensures(<String as Writer>::write_str, (f, text), result),
    ensures
        result is Ok,
        final(f)@ == old(f)@ + text@,
        String::keeps_text(),
        old(f).held() == old(f)@,
{
}

} // verus!
