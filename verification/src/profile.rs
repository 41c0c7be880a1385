//! Malloc frequency profiles.
use std::collections::hash_map::Entry;
use std::collections::{HashMap, HashSet};

use radix_trie::Trie;
use vstd::prelude::*;

use crate::stacks::{
    entry_keys, first_of, lemma_entries_all, lemma_first_next, lemma_precedes_asymmetric, precedes,
};
use crate::stats::{AllocCounts, CallStack};
use crate::text::{describe_frame, find_symbols, found_symbols_are_kept, may_name};
use crate::trie::{counts_at, counts_entries, counts_mut, counts_of, insert_counts, new_counts};

verus! {

broadcast use vstd::std_specs::hash::group_hash_axioms;

/// Malloc frequency profile.
#[derive(Debug)]
pub struct Profile {
    /// For each call stack, the number of allocations of each size.
    pub callstacks: Trie<CallStack, AllocCounts>,
    /// The names of frame addresses.
    pub symbols: HashMap<usize, String>,
}

/// What a profile holds.
#[verifier::ext_equal]
pub struct ProfileView {
    /// For each recorded call stack, the number of allocations of each size.
    pub callstacks: Map<Seq<usize>, Map<usize, usize>>,
    /// The names of frame addresses.
    pub symbols: Map<usize, Seq<char>>,
}

impl View for Profile {
    type V = ProfileView;

    open spec fn view(&self) -> ProfileView {
        ProfileView { callstacks: counts_of(self.callstacks), symbols: names(self.symbols@) }
    }
}

/// The names, as sequences of characters.
pub open spec fn names(symbols: Map<usize, String>) -> Map<usize, Seq<char>> {
    Map::new(|frame: usize| symbols.contains_key(frame), |frame: usize| symbols[frame]@)
}

/// A profile in which nothing was recorded.
pub open spec fn empty_profile() -> ProfileView {
    ProfileView { callstacks: Map::empty(), symbols: Map::empty() }
}

/// The number of allocations of one size.
pub open spec fn count(counts: Map<usize, usize>, size: usize) -> nat {
    if counts.contains_key(size) {
        counts[size] as nat
    } else {
        0
    }
}

/// The counts of a call stack; none where it was not recorded.
pub open spec fn counts_for(
    stacks: Map<Seq<usize>, Map<usize, usize>>,
    stack: Seq<usize>,
) -> Map<usize, usize> {
    if stacks.contains_key(stack) {
        stacks[stack]
    } else {
        Map::empty()
    }
}

/// The counts of both.
pub open spec fn merged_counts(a: Map<usize, usize>, b: Map<usize, usize>) -> Map<usize, usize> {
    Map::new(
        |size: usize| a.contains_key(size) || b.contains_key(size),
        |size: usize| (count(a, size) + count(b, size)) as usize,
    )
}

/// The counts of both, for each call stack of either.
pub open spec fn merged_stacks(
    a: Map<Seq<usize>, Map<usize, usize>>,
    b: Map<Seq<usize>, Map<usize, usize>>,
) -> Map<Seq<usize>, Map<usize, usize>> {
    Map::new(
        |stack: Seq<usize>| a.contains_key(stack) || b.contains_key(stack),
        |stack: Seq<usize>| merged_counts(counts_for(a, stack), counts_for(b, stack)),
    )
}

/// The names of `a`, and those of `b` for frames that have none in `a`.
pub open spec fn merged_names(
    a: Map<usize, Seq<char>>,
    b: Map<usize, Seq<char>>,
) -> Map<usize, Seq<char>> {
    Map::new(
        |frame: usize| a.contains_key(frame) || b.contains_key(frame),
        |frame: usize|
            if a.contains_key(frame) {
                a[frame]
            } else {
                b[frame]
            },
    )
}

/// Every recorded stack has finitely many sizes, and there are finitely many stacks.
pub open spec fn finite_counts(stacks: Map<Seq<usize>, Map<usize, usize>>) -> bool {
    &&& stacks.dom().finite()
    &&& forall|s: Seq<usize>| #[trigger] stacks.contains_key(s) ==> stacks[s].dom().finite()
}

/// No sum of two counts is too large for a `usize`.
pub open spec fn counts_mergeable(a: Map<usize, usize>, b: Map<usize, usize>) -> bool {
    forall|size: usize| #[trigger]
        a.contains_key(size) && b.contains_key(size) ==> a[size] + b[size] <= usize::MAX
}

/// No sum of two counts for the same call stack is too large for a `usize`.
pub open spec fn mergeable(
    a: Map<Seq<usize>, Map<usize, usize>>,
    b: Map<Seq<usize>, Map<usize, usize>>,
) -> bool {
    forall|stack: Seq<usize>| #[trigger]
        a.contains_key(stack) && b.contains_key(stack) ==> counts_mergeable(a[stack], b[stack])
}

/// Counts that are merged with none stay as they are.
pub proof fn lemma_merge_no_counts(counts: Map<usize, usize>)
    ensures
        merged_counts(counts, Map::empty()) == counts,
        merged_counts(Map::empty(), counts) == counts,
{
    assert(merged_counts(counts, Map::empty()) =~= counts);
    assert(merged_counts(Map::empty(), counts) =~= counts);
}

impl ProfileView {
    /// With one more allocation of `size` bytes under `stack`.
    pub open spec fn record(self, stack: Seq<usize>, size: usize) -> ProfileView {
        let counts = counts_for(self.callstacks, stack);
        ProfileView {
            callstacks: self.callstacks.insert(
                stack,
                counts.insert(size, (count(counts, size) + 1) as usize),
            ),
            symbols: self.symbols,
        }
    }

    /// With all that `other` holds.
    pub open spec fn merge(self, other: ProfileView) -> ProfileView {
        ProfileView {
            callstacks: merged_stacks(self.callstacks, other.callstacks),
            symbols: merged_names(self.symbols, other.symbols),
        }
    }
}

impl Default for Profile {
    fn default() -> (profile: Self)
        ensures
            profile@ == empty_profile(),
    {
        let profile = Profile { callstacks: new_counts(), symbols: HashMap::new() };
        assert(profile@ =~= empty_profile());
        profile
    }
}

impl Profile {
    /// An empty profile.
    pub fn new() -> (profile: Self)
        ensures
            profile@ == empty_profile(),
    {
        Self::default()
    }

    /// The number of allocations of `size` bytes that were recorded under `callstack`.
    pub fn count(&self, callstack: &CallStack, size: usize) -> (n: usize)
        ensures
            n == count(counts_for(self@.callstacks, callstack@), size),
    {
        match counts_at(&self.callstacks, callstack) {
            Some(counts) => match counts.get(&size) {
                Some(n) => *n,
                None => 0,
            },
            None => 0,
        }
    }

    /// Records a memory allocation of size `size`.
    pub fn record_allocation(&mut self, callstack: &CallStack, size: usize)
        requires
            count(counts_for(old(self)@.callstacks, callstack@), size) < usize::MAX,
        ensures
            final(self)@ == old(self)@.record(callstack@, size),
    {
        match counts_mut(&mut self.callstacks, callstack) {
            Some(counts) => match counts.entry(size) {
                Entry::Occupied(mut oe) => {
                    let n = oe.get_mut();
                    *n = *n + 1;
                },
                Entry::Vacant(ve) => {
                    ve.insert(1);
                },
            },
            None => {
                let mut counts: AllocCounts = HashMap::new();
                counts.insert(size, 1);
                insert_counts(&mut self.callstacks, callstack.clone(), counts);
            },
        }
        assert(self@ =~= old(self)@.record(callstack@, size));
    }

    /// Merges two profiles.
    pub fn merge(&mut self, other: &Profile)
        requires
            mergeable(old(self)@.callstacks, other@.callstacks),
        ensures
            final(self)@ == old(self)@.merge(other@),
    {
        let ghost mine = self@;
        let ghost theirs = other@;
        let entries = counts_entries(&other.callstacks);
        let ghost keys = entry_keys(entries@);
        let n: usize = entries.len();
        proof {
            let none = first_of(theirs.callstacks, keys, 0);
            assert forall|k: Seq<usize>| #[trigger]
                mine.callstacks.contains_key(k) implies merged_stacks(mine.callstacks, none)[k]
                == mine.callstacks[k] by {
                lemma_merge_no_counts(mine.callstacks[k]);
            }
            assert(self@.callstacks =~= merged_stacks(mine.callstacks, none));
        }
        for i in 0..n
            invariant
                n == entries.len(),
                keys.len() == entries@.len(),
                forall|i: int| 0 <= i < keys.len() ==> #[trigger] keys[i] == entries@[i].0@,
                forall|i: int, j: int|
                    0 <= i < j < entries.len() ==> precedes(
                        (#[trigger] entries[i]).0@,
                        (#[trigger] entries[j]).0@,
                    ),
                forall|i: int|
                    0 <= i < entries.len() ==> theirs.callstacks.contains_key(
                        (#[trigger] entries[i]).0@,
                    ) && theirs.callstacks[entries[i].0@] == entries[i].1@,
                mergeable(mine.callstacks, theirs.callstacks),
                self@.symbols == mine.symbols,
                self@.callstacks == merged_stacks(
                    mine.callstacks,
                    first_of(theirs.callstacks, keys, i as int),
                ),
        {
            let (callstack, counts) = entries[i];
            proof {
                let done = first_of(theirs.callstacks, keys, i as int);
                if done.contains_key(callstack@) {
                    let j = choose|j: int| 0 <= j < i && #[trigger] keys[j] == callstack@;
                    assert(keys[j] == entries[j].0@);
                    lemma_precedes_asymmetric(entries[j].0@, entries[i as int].0@);
                }
                assert(keys[i as int] == callstack@);
                lemma_first_next(theirs.callstacks, keys, i as int);
            }
            match counts_mut(&mut self.callstacks, callstack) {
                None => {
                    insert_counts(&mut self.callstacks, callstack.clone(), counts.clone());
                },
                Some(old_counts) => {
                    Self::merge_counts(old_counts, counts);
                },
            }
            proof {
                lemma_merge_no_counts(counts@);
                lemma_merge_no_counts(counts_for(mine.callstacks, callstack@));
                assert(self@.callstacks =~= merged_stacks(
                    mine.callstacks,
                    first_of(theirs.callstacks, keys, i + 1),
                ));
            }
        }
        proof {
            lemma_entries_all(theirs.callstacks, entries@);
        }

        let ghost mut seen = Set::<usize>::empty();
        assert(self@.symbols =~= merged_names(mine.symbols, theirs.symbols.restrict(seen)));
        for (frame, symbol) in it: other.symbols.iter()
            invariant
                theirs == other@,
                forall|i: int|
                    0 <= i < it.seq().len() ==> other.symbols@.contains_key(
                        *(#[trigger] it.seq()[i]).0,
                    ) && other.symbols@[*it.seq()[i].0] == *it.seq()[i].1,
                forall|k: usize| #[trigger]
                    seen.contains(k) <==> exists|i: int|
                        0 <= i < it.index() && *(#[trigger] it.seq()[i]).0 == k,
                self@.callstacks == merged_stacks(mine.callstacks, theirs.callstacks),
                self@.symbols == merged_names(mine.symbols, theirs.symbols.restrict(seen)),
        {
            let ghost before = self.symbols@;
            if let Entry::Vacant(ve) = self.symbols.entry(*frame) {
                ve.insert(symbol.clone());
            }
            proof {
                let known = merged_names(mine.symbols, theirs.symbols.restrict(seen));
                assert(names(before) == known);
                assert(theirs.symbols.contains_key(*frame) && theirs.symbols[*frame] == symbol@);
                assert(names(self.symbols@) =~= if known.contains_key(*frame) {
                    known
                } else {
                    known.insert(*frame, symbol@)
                });
                seen = seen.insert(*frame);
                assert(self@.symbols =~= merged_names(
                    mine.symbols,
                    theirs.symbols.restrict(seen),
                ));
            }
        }
        proof {
            assert(theirs.symbols.restrict(seen) =~= theirs.symbols);
        }
    }

    /// Whether the two profiles can be merged: no sum of two counts is too large.
    pub fn can_merge(&self, other: &Profile) -> (ok: bool)
        ensures
            ok == mergeable(self@.callstacks, other@.callstacks),
    {
        let ghost mine = self@.callstacks;
        let ghost theirs = other@.callstacks;
        let entries = counts_entries(&other.callstacks);
        let n: usize = entries.len();
        for i in 0..n
            invariant
                n == entries.len(),
                mine == self@.callstacks,
                theirs == other@.callstacks,
                forall|i: int|
                    0 <= i < entries.len() ==> theirs.contains_key((#[trigger] entries[i]).0@)
                        && theirs[entries[i].0@] == entries[i].1@,
                forall|j: int|
                    0 <= j < i && mine.contains_key((#[trigger] entries[j]).0@)
                        ==> counts_mergeable(mine[entries[j].0@], theirs[entries[j].0@]),
        {
            let (callstack, counts) = entries[i];
            assert(theirs.contains_key(entries[i as int].0@));
            if let Some(old_counts) = counts_at(&self.callstacks, callstack) {
                if !Self::can_merge_counts(old_counts, counts) {
                    return false;
                }
            }
        }
        proof {
            assert forall|stack: Seq<usize>| #[trigger]
                mine.contains_key(stack) && theirs.contains_key(stack) implies counts_mergeable(
                mine[stack],
                theirs[stack],
            ) by {
                let j = choose|j: int|
                    0 <= j < entries.len() && (#[trigger] entries[j]).0@ == stack;
                assert(entries[j].0@ == stack);
            }
        }
        true
    }

    /// Whether no sum of two counts is too large.
    fn can_merge_counts(this: &AllocCounts, other: &AllocCounts) -> (ok: bool)
        ensures
            ok == counts_mergeable(this@, other@),
    {
        let ghost mut seen = Set::<usize>::empty();
        for (size, cnt) in it: other.iter()
            invariant
                forall|i: int|
                    0 <= i < it.seq().len() ==> other@.contains_key(*(#[trigger] it.seq()[i]).0)
                        && other@[*it.seq()[i].0] == *it.seq()[i].1,
                forall|k: usize| #[trigger]
                    seen.contains(k) <==> exists|i: int|
                        0 <= i < it.index() && *(#[trigger] it.seq()[i]).0 == k,
                forall|k: usize| #[trigger]
                    seen.contains(k) && this@.contains_key(k) ==> this@[k] + other@[k]
                        <= usize::MAX,
        {
            assert(other@.contains_key(*it.seq()[it.index() as int].0));
            if let Some(n) = this.get(size) {
                if *n > usize::MAX - *cnt {
                    assert(this@.contains_key(*size) && this@[*size] + other@[*size] > usize::MAX);
                    return false;
                }
            }
            proof {
                seen = seen.insert(*size);
            }
        }
        proof {
            assert forall|size: usize| #[trigger]
                this@.contains_key(size) && other@.contains_key(size) implies this@[size]
                + other@[size] <= usize::MAX by {
                assert(seen.contains(size));
            }
        }
        true
    }

    /// Adds the counts of `other` to those of `this`.
    fn merge_counts(this: &mut AllocCounts, other: &AllocCounts)
        requires
            counts_mergeable(old(this)@, other@),
        ensures
            final(this)@ == merged_counts(old(this)@, other@),
    {
        let ghost mine = this@;
        let ghost mut seen = Set::<usize>::empty();
        assert(this@ =~= merged_counts(mine, other@.restrict(seen)));
        for (size, cnt) in it: other.iter()
            invariant
                counts_mergeable(mine, other@),
                it.seq().no_duplicates(),
                forall|i: int|
                    0 <= i < it.seq().len() ==> other@.contains_key(*(#[trigger] it.seq()[i]).0)
                        && other@[*it.seq()[i].0] == *it.seq()[i].1,
                forall|k: usize| #[trigger]
                    seen.contains(k) <==> exists|i: int|
                        0 <= i < it.index() && *(#[trigger] it.seq()[i]).0 == k,
                this@ == merged_counts(mine, other@.restrict(seen)),
        {
            proof {
                let at = it.index() as int;
                if seen.contains(*size) {
                    let i = choose|i: int|
                        0 <= i < it.index() && *(#[trigger] it.seq()[i]).0 == *size;
                    assert(it.seq()[i] == it.seq()[at]);
                }
            }
            match this.entry(*size) {
                Entry::Occupied(mut oe) => {
                    let n = oe.get_mut();
                    *n = *n + *cnt;
                },
                Entry::Vacant(ve) => {
                    ve.insert(*cnt);
                },
            }
            proof {
                seen = seen.insert(*size);
                assert(this@ =~= merged_counts(mine, other@.restrict(seen)));
            }
        }
        assert(other@.restrict(seen) =~= other@);
    }

    /// Merges profiles of the threads of one process into one. There is none if, on the way, a
    /// count would be too large.
    pub fn aggregate(profiles: &Vec<Profile>) -> (whole: Option<Profile>)
        ensures
            match whole {
                Some(profile) => aggregable(profiles@, profiles@.len()) && profile@ == aggregated(
                    profiles@,
                    profiles@.len(),
                ),
                None => !aggregable(profiles@, profiles@.len()),
            },
    {
        let mut whole = Profile::new();
        let n: usize = profiles.len();
        for i in 0..n
            invariant
                n == profiles.len(),
                aggregable(profiles@, i as nat),
                whole@ == aggregated(profiles@, i as nat),
        {
            if !whole.can_merge(&profiles[i]) {
                proof {
                    lemma_aggregable_before(profiles@, (i + 1) as nat, n as nat);
                }
                return None;
            }
            whole.merge(&profiles[i]);
        }
        Some(whole)
    }

    /// The frames that are still to be named before the profile is stored: each frame of each
    /// call stack, once. There are none to name in a profile that has names already: it was made
    /// from stored profiles and is not stored again.
    pub fn unnamed_frames(&self) -> (unnamed: Option<Vec<usize>>)
        ensures
            match unnamed {
                Some(frames) => {
                    &&& self@.symbols.dom().is_empty()
                    &&& frames@.no_duplicates()
                    &&& frames@.to_set() == frames_of(self@.callstacks)
                },
                None => !self@.symbols.dom().is_empty(),
            },
    {
        if !self.symbols.is_empty() {
            proof {
                let frame = choose|frame: usize| self.symbols@.contains_key(frame);
                assert(self@.symbols.dom().contains(frame));
            }
            return None;
        }
        assert(self@.symbols.dom() =~= Set::empty());
        let ghost stacks = self@.callstacks;
        let entries = counts_entries(&self.callstacks);
        let mut frames: Vec<usize> = Vec::new();
        let mut seen: HashSet<usize> = HashSet::new();
        let n: usize = entries.len();
        for i in 0..n
            invariant
                n == entries.len(),
                stacks == self@.callstacks,
                forall|i: int|
                    0 <= i < entries.len() ==> stacks.contains_key((#[trigger] entries[i]).0@),
                frames@.no_duplicates(),
                forall|f: usize| #[trigger] seen@.contains(f) <==> frames@.contains(f),
                forall|f: usize| #[trigger] frames@.contains(f) ==> frames_of(stacks).contains(f),
                forall|j: int, f: usize|
                    0 <= j < i && #[trigger] entries[j].0@.contains(f) ==> frames@.contains(f),
        {
            let callstack = entries[i].0;
            let len: usize = callstack.len();
            assert(stacks.contains_key(entries[i as int].0@));
            for at in 0..len
                invariant
                    len == callstack.len(),
                    stacks.contains_key(callstack@),
                    frames@.no_duplicates(),
                    forall|f: usize| #[trigger] seen@.contains(f) <==> frames@.contains(f),
                    forall|f: usize| #[trigger]
                        frames@.contains(f) ==> frames_of(stacks).contains(f),
                    forall|j: int, f: usize|
                        0 <= j < i && #[trigger] entries[j].0@.contains(f) ==> frames@.contains(f),
                    forall|p: int| 0 <= p < at ==> frames@.contains(#[trigger] callstack[p]),
            {
                let frame: usize = callstack[at];
                let ghost before = frames@;
                if seen.insert(frame) {
                    frames.push(frame);
                    proof {
                        assert(callstack@.contains(frame));
                        assert(frames_of(stacks).contains(frame));
                        assert forall|f: usize| #[trigger] frames@.contains(f) <==> before.contains(
                            f,
                        ) || f == frame by {
                            if before.contains(f) {
                                let p = choose|p: int| 0 <= p < before.len() && before[p] == f;
                                assert(frames@[p] == f);
                            }
                            if f == frame {
                                assert(frames@[before.len() as int] == f);
                            }
                        }
                    }
                }
            }
        }
        proof {
            assert forall|f: usize|
                frames_of(stacks).contains(f) implies #[trigger] frames@.contains(f) by {
                let s = choose|s: Seq<usize>| #[trigger] stacks.contains_key(s) && s.contains(f);
                let j = choose|j: int| 0 <= j < entries.len() && (#[trigger] entries[j]).0@ == s;
                assert(entries[j].0@.contains(f));
            }
            assert(frames@.to_set() =~= frames_of(stacks));
        }
        Some(frames)
    }

    /// The text for a frame address of the running program.
    fn resolve(frame: usize) -> (text: String)
        ensures
            may_name(frame, text@),
    {
        let symbols = find_symbols(frame);
        proof {
            found_symbols_are_kept(frame, symbols@);
        }
        describe_frame(frame, &symbols)
    }

    /// Makes a profile of the running program ready to be stored: names all the frames of its
    /// call stacks. Returns whether it is to be stored at all. A profile that has names already
    /// was made from stored ones; it is left as it is and not stored again.
    pub fn name_frames(&mut self) -> (stored: bool)
        ensures
            stored == old(self)@.symbols.dom().is_empty(),
            !stored ==> final(self)@ == old(self)@,
            final(self)@.callstacks == old(self)@.callstacks,
            stored ==> final(self)@.symbols.dom() == frames_of(old(self)@.callstacks),
            stored ==> forall|frame: usize| #[trigger]
                final(self)@.symbols.contains_key(frame) ==> may_name(
                    frame,
                    final(self)@.symbols[frame],
                ),
    {
        let frames = match self.unnamed_frames() {
            Some(frames) => frames,
            None => return false,
        };
        let n: usize = frames.len();
        for i in 0..n
            invariant
                n == frames.len(),
                self@.callstacks == old(self)@.callstacks,
                forall|f: usize| #[trigger]
                    self@.symbols.contains_key(f) <==> exists|j: int|
                        0 <= j < i && #[trigger] frames[j] == f,
                forall|f: usize| #[trigger]
                    self@.symbols.contains_key(f) ==> may_name(f, self@.symbols[f]),
        {
            let ghost before = self@.symbols;
            let name = Self::resolve(frames[i]);
            self.name_frame(frames[i], name);
            proof {
                assert forall|f: usize| #[trigger] self@.symbols.contains_key(f) <==> exists|j: int|
                    0 <= j < i + 1 && #[trigger] frames[j] == f by {
                    if before.contains_key(f) {
                        let j = choose|j: int| 0 <= j < i && #[trigger] frames[j] == f;
                        assert(frames[j] == f);
                    }
                }
            }
        }
        proof {
            assert forall|f: usize| #[trigger] self@.symbols.contains_key(f) <==> frames_of(
                old(self)@.callstacks,
            ).contains(f) by {
                assert(frames@.to_set() == frames_of(old(self)@.callstacks));
                if frames@.to_set().contains(f) {
                    let j = choose|j: int| 0 <= j < frames@.len() && frames@[j] == f;
                    assert(frames[j] == f);
                }
            }
            assert(self@.symbols.dom() =~= frames_of(old(self)@.callstacks));
        }
        true
    }

    /// Names a frame, unless it has a name.
    pub fn name_frame(&mut self, frame: usize, name: String)
        ensures
            final(self)@.callstacks == old(self)@.callstacks,
            final(self)@.symbols == (if old(self)@.symbols.contains_key(frame) {
                old(self)@.symbols
            } else {
                old(self)@.symbols.insert(frame, name@)
            }),
    {
        if let Entry::Vacant(ve) = self.symbols.entry(frame) {
            ve.insert(name);
        }
        assert(self@.symbols =~= if old(self)@.symbols.contains_key(frame) {
            old(self)@.symbols
        } else {
            old(self)@.symbols.insert(frame, name@)
        });
    }
}

/// All the frames of some call stacks.
pub open spec fn frames_of(stacks: Map<Seq<usize>, Map<usize, usize>>) -> Set<usize> {
    Set::new(
        |frame: usize|
            exists|s: Seq<usize>| #[trigger] stacks.contains_key(s) && s.contains(frame),
    )
}

/// The first `n` profiles merged into an empty one, one after the other.
pub open spec fn aggregated(profiles: Seq<Profile>, n: nat) -> ProfileView
    decreases n,
{
    if n == 0 {
        empty_profile()
    } else {
        aggregated(profiles, (n - 1) as nat).merge(profiles[n - 1]@)
    }
}

/// Each of the first `n` profiles can be merged into those before it.
pub open spec fn aggregable(profiles: Seq<Profile>, n: nat) -> bool
    decreases n,
{
    n > 0 ==> {
        &&& aggregable(profiles, (n - 1) as nat)
        &&& mergeable(
            aggregated(profiles, (n - 1) as nat).callstacks,
            profiles[n - 1]@.callstacks,
        )
    }
}

/// Where all the profiles can be merged, the first of them can.
proof fn lemma_aggregable_before(profiles: Seq<Profile>, m: nat, n: nat)
    requires
        m <= n,
    ensures
        aggregable(profiles, n) ==> aggregable(profiles, m),
    decreases n,
{
    if m < n {
        lemma_aggregable_before(profiles, m, (n - 1) as nat);
    }
}

} // verus!
