//! What a call gives back, in terms of what it was given.
//!
//! A law here speaks of a call by `call_ensures`: it holds of whatever the function can return, or
//! leave behind, for the given arguments.
use vstd::prelude::*;

use crate::laws::{aggregate_adds_counts, sum_of_counts};
use crate::profile::{
    aggregable, aggregated, count, counts_for, counts_mergeable, frames_of, mergeable, Profile,
};
use crate::stats::CallStack;
use crate::sums::{lemma_total_empty, lemma_total_remove, total, Tally};

verus! {

/// The sum of some numbers.
pub open spec fn add_all(numbers: Seq<nat>) -> nat
    decreases numbers.len(),
{
    if numbers.len() == 0 {
        0
    } else {
        add_all(numbers.drop_last()) + numbers.last()
    }
}

/// `list` has each of `keys`, once.
pub open spec fn enumerates<K>(list: Seq<K>, keys: Set<K>) -> bool {
    &&& forall|i: int, j: int| 0 <= i < j < list.len() ==> list[i] != list[j]
    &&& forall|i: int| 0 <= i < list.len() ==> keys.contains(#[trigger] list[i])
    &&& forall|k: K| #[trigger]
        keys.contains(k) ==> exists|i: int| 0 <= i < list.len() && #[trigger] list[i] == k
}

/// A total is the sum over the keys, in whatever order.
pub proof fn lemma_total_enumerated<K>(m: Map<K, Tally>, list: Seq<K>)
    requires
        enumerates(list, m.dom()),
    ensures
        m.dom().finite(),
        total(m).0 == add_all(Seq::new(list.len(), |i: int| m[list[i]].0)),
        total(m).1 == add_all(Seq::new(list.len(), |i: int| m[list[i]].1)),
    decreases list.len(),
{
    let calls = Seq::new(list.len(), |i: int| m[list[i]].0);
    let bytes = Seq::new(list.len(), |i: int| m[list[i]].1);
    if list.len() == 0 {
        assert forall|k: K| !m.contains_key(k) by {
            if m.contains_key(k) {
                assert(m.dom().contains(k));
            }
        }
        lemma_total_empty(m);
    } else {
        let k = list.last();
        let shorter = list.drop_last();
        let rest = m.remove(k);
        assert(m.dom().contains(list[list.len() - 1]));
        assert forall|i: int| 0 <= i < shorter.len() implies rest.dom().contains(
            #[trigger] shorter[i],
        ) by {
            assert(m.dom().contains(list[i]));
            assert(list[i] != list[list.len() - 1]);
        }
        assert forall|x: K| #[trigger] rest.dom().contains(x) implies exists|i: int|
            0 <= i < shorter.len() && #[trigger] shorter[i] == x by {
            assert(m.dom().contains(x));
            let i = choose|i: int| 0 <= i < list.len() && #[trigger] list[i] == x;
            assert(shorter[i] == x);
        }
        assert forall|i: int, j: int| 0 <= i < j < shorter.len() implies shorter[i]
            != shorter[j] by {
            assert(list[i] != list[j]);
        }
        lemma_total_enumerated(rest, shorter);
        assert(m.dom() =~= rest.dom().insert(k));
        lemma_total_remove(m, k);
        assert(calls.drop_last() =~= Seq::new(shorter.len(), |i: int| rest[shorter[i]].0)) by {
            assert forall|i: int| 0 <= i < shorter.len() implies m[list[i]] == rest[shorter[i]] by {
                assert(list[i] != list[list.len() - 1]);
            }
        }
        assert(bytes.drop_last() =~= Seq::new(shorter.len(), |i: int| rest[shorter[i]].1)) by {
            assert forall|i: int| 0 <= i < shorter.len() implies m[list[i]] == rest[shorter[i]] by {
                assert(list[i] != list[list.len() - 1]);
            }
        }
    }
}

/// How often an allocation of `size` bytes was recorded under `stack`.
pub open spec fn times(
    stacks: Map<Seq<usize>, Map<usize, usize>>,
    stack: Seq<usize>,
    size: usize,
) -> nat {
    if stacks.contains_key(stack) && stacks[stack].contains_key(size) {
        stacks[stack][size] as nat
    } else {
        0
    }
}

/// A new profile has no stack and no name.
pub proof fn a_new_profile_is_empty(p: Profile)
    requires
        call_ensures(Profile::new, (), p),
    ensures
        forall|s: Seq<usize>| !(#[trigger] p@.callstacks.contains_key(s)),
        forall|frame: usize| !(#[trigger] p@.symbols.contains_key(frame)),
{
}

/// The default profile has no stack and no name.
pub proof fn the_default_profile_is_empty(p: Profile)
    requires
        call_ensures(<Profile as Default>::default, (), p),
    ensures
        forall|s: Seq<usize>| !(#[trigger] p@.callstacks.contains_key(s)),
        forall|frame: usize| !(#[trigger] p@.symbols.contains_key(frame)),
{
}

/// A count is the number of times that an allocation was recorded.
pub proof fn counts_are_read(p: Profile, stack: CallStack, size: usize, n: usize)
    requires
        call_ensures(Profile::count, (&p, &stack, size), n),
    ensures
        n == times(p@.callstacks, stack@, size),
{
}

/// Recording an allocation raises its count by one, and no other.
pub proof fn recording_raises_one_count(
    p: &mut Profile,
    stack: CallStack,
    size: usize,
    s: Seq<usize>,
    z: usize,
)
    requires
        call_ensures(Profile::record_allocation, (p, &stack, size), ()),
        times(old(p)@.callstacks, stack@, size) < usize::MAX,
    ensures
        times(final(p)@.callstacks, s, z) == times(old(p)@.callstacks, s, z) + (if s == stack@ && z
            == size {
            1nat
        } else {
            0nat
        }),
        final(p)@.callstacks.contains_key(s) <==> old(p)@.callstacks.contains_key(s) || s
            == stack@,
        final(p)@.callstacks.contains_key(s) ==> (final(p)@.callstacks[s].contains_key(z) <==> (
        old(p)@.callstacks.contains_key(s) && old(p)@.callstacks[s].contains_key(z)) || (s
            == stack@ && z == size)),
        final(p)@.symbols == old(p)@.symbols,
{
}

/// Two profiles can be merged exactly if no sum of two counts is too large.
pub proof fn merging_is_limited_by_sums(a: Profile, b: Profile, ok: bool)
    requires
        call_ensures(Profile::can_merge, (&a, &b), ok),
    ensures
        ok <==> forall|s: Seq<usize>, z: usize| #[trigger]
            times(a@.callstacks, s, z) + times(b@.callstacks, s, z) <= usize::MAX,
{
    lemma_mergeable_sums(a@.callstacks, b@.callstacks);
}

/// Counts can be merged exactly if no sum of two is too large.
proof fn lemma_mergeable_sums(
    a: Map<Seq<usize>, Map<usize, usize>>,
    b: Map<Seq<usize>, Map<usize, usize>>,
)
    ensures
        mergeable(a, b) <==> forall|s: Seq<usize>, z: usize| #[trigger]
            times(a, s, z) + times(b, s, z) <= usize::MAX,
{
    if mergeable(a, b) {
        assert forall|s: Seq<usize>, z: usize| #[trigger] times(a, s, z) + times(b, s, z)
            <= usize::MAX by {
            if a.contains_key(s) && b.contains_key(s) {
                assert(counts_mergeable(a[s], b[s]));
                if a[s].contains_key(z) && b[s].contains_key(z) {
                    assert(a[s][z] + b[s][z] <= usize::MAX);
                }
            }
        }
    }
    if forall|s: Seq<usize>, z: usize| #[trigger] times(a, s, z) + times(b, s, z) <= usize::MAX {
        assert forall|s: Seq<usize>| #[trigger]
            a.contains_key(s) && b.contains_key(s) implies counts_mergeable(a[s], b[s]) by {
            assert forall|z: usize| #[trigger]
                a[s].contains_key(z) && b[s].contains_key(z) implies a[s][z] + b[s][z]
                <= usize::MAX by {
                assert(times(a, s, z) + times(b, s, z) <= usize::MAX);
            }
        }
    }
}

/// Merging adds up each count, keeps the stacks and sizes of both, and adds the names of frames
/// that had none.
pub proof fn merging_adds_each_count(
    a: &mut Profile,
    b: Profile,
    s: Seq<usize>,
    z: usize,
    frame: usize,
)
    requires
        call_ensures(Profile::merge, (a, &b), ()),
        times(old(a)@.callstacks, s, z) + times(b@.callstacks, s, z) <= usize::MAX,
    ensures
        times(final(a)@.callstacks, s, z) == times(old(a)@.callstacks, s, z) + times(
            b@.callstacks,
            s,
            z,
        ),
        final(a)@.callstacks.contains_key(s) <==> old(a)@.callstacks.contains_key(s)
            || b@.callstacks.contains_key(s),
        final(a)@.callstacks.contains_key(s) ==> (final(a)@.callstacks[s].contains_key(z) <==> (
        old(a)@.callstacks.contains_key(s) && old(a)@.callstacks[s].contains_key(z)) || (
        b@.callstacks.contains_key(s) && b@.callstacks[s].contains_key(z))),
        final(a)@.symbols.contains_key(frame) <==> old(a)@.symbols.contains_key(frame)
            || b@.symbols.contains_key(frame),
        old(a)@.symbols.contains_key(frame) ==> final(a)@.symbols[frame] == old(a)@.symbols[frame],
        !old(a)@.symbols.contains_key(frame) && b@.symbols.contains_key(frame)
            ==> final(a)@.symbols[frame] == b@.symbols[frame],
{
}

/// How often an allocation was recorded in each of the first `n` profiles.
pub open spec fn times_in(profiles: Seq<Profile>, n: nat, s: Seq<usize>, z: usize) -> Seq<nat> {
    Seq::new(n, |i: int| times(profiles[i]@.callstacks, s, z))
}

/// The names of an aggregate: a frame has a name exactly if it has one in some of the profiles,
/// and it is that of the first profile that names it.
pub proof fn aggregate_keeps_the_first_names(profiles: Seq<Profile>, n: nat, frame: usize)
    requires
        n <= profiles.len(),
    ensures
        aggregated(profiles, n).symbols.contains_key(frame) <==> exists|i: int|
            0 <= i < n && (#[trigger] profiles[i])@.symbols.contains_key(frame),
        forall|i: int|
            0 <= i < n && (#[trigger] profiles[i])@.symbols.contains_key(frame) && (forall|j: int|
                0 <= j < i ==> !(#[trigger] profiles[j])@.symbols.contains_key(frame))
                ==> aggregated(profiles, n).symbols[frame] == profiles[i]@.symbols[frame],
    decreases n,
{
    if n > 0 {
        aggregate_keeps_the_first_names(profiles, (n - 1) as nat, frame);
        let last = profiles[n - 1]@;
        if last.symbols.contains_key(frame) {
            assert(profiles[n - 1]@.symbols.contains_key(frame));
        }
        assert forall|i: int|
            0 <= i < n && (#[trigger] profiles[i])@.symbols.contains_key(frame) && (forall|j: int|
                0 <= j < i ==> !(#[trigger] profiles[j])@.symbols.contains_key(
                    frame,
                )) implies aggregated(profiles, n).symbols[frame]
            == profiles[i]@.symbols[frame] by {
            if i < n - 1 {
                assert(aggregated(profiles, (n - 1) as nat).symbols.contains_key(frame));
            } else {
                assert(!aggregated(profiles, (n - 1) as nat).symbols.contains_key(frame));
            }
        }
    }
}

/// An aggregate has the stacks and sizes of all the profiles.
pub proof fn aggregate_keeps_all_stacks(profiles: Seq<Profile>, n: nat, s: Seq<usize>, z: usize)
    requires
        n <= profiles.len(),
    ensures
        aggregated(profiles, n).callstacks.contains_key(s) <==> exists|i: int|
            0 <= i < n && (#[trigger] profiles[i])@.callstacks.contains_key(s),
        aggregated(profiles, n).callstacks.contains_key(s) && aggregated(
            profiles,
            n,
        ).callstacks[s].contains_key(z) <==> exists|i: int|
            0 <= i < n && (#[trigger] profiles[i])@.callstacks.contains_key(s)
                && profiles[i]@.callstacks[s].contains_key(z),
    decreases n,
{
    if n > 0 {
        aggregate_keeps_all_stacks(profiles, (n - 1) as nat, s, z);
        let last = profiles[n - 1]@;
        if last.callstacks.contains_key(s) {
            assert(profiles[n - 1]@.callstacks.contains_key(s));
        }
    }
}

/// The sum of the counts in the profiles.
proof fn lemma_sum_of_times(profiles: Seq<Profile>, n: nat, s: Seq<usize>, z: usize)
    ensures
        sum_of_counts(profiles, n, s, z) == add_all(times_in(profiles, n, s, z)),
    decreases n,
{
    if n > 0 {
        lemma_sum_of_times(profiles, (n - 1) as nat, s, z);
        assert(times_in(profiles, n, s, z).drop_last() =~= times_in(
            profiles,
            (n - 1) as nat,
            s,
            z,
        ));
        assert(count(counts_for(profiles[n - 1]@.callstacks, s), z) == times(
            profiles[n - 1]@.callstacks,
            s,
            z,
        ));
    }
}

/// Profiles can be aggregated exactly if no sum of their counts is too large.
proof fn lemma_aggregable_sums(profiles: Seq<Profile>, n: nat)
    requires
        n <= profiles.len(),
    ensures
        aggregable(profiles, n) <==> forall|s: Seq<usize>, z: usize| #[trigger]
            add_all(times_in(profiles, n, s, z)) <= usize::MAX,
    decreases n,
{
    if n == 0 {
        assert forall|s: Seq<usize>, z: usize| #[trigger]
            add_all(times_in(profiles, n, s, z)) <= usize::MAX by {}
    } else {
        let m = (n - 1) as nat;
        lemma_aggregable_sums(profiles, m);
        lemma_mergeable_sums(aggregated(profiles, m).callstacks, profiles[n - 1]@.callstacks);
        assert forall|s: Seq<usize>, z: usize|
            add_all(#[trigger] times_in(profiles, n, s, z)) == add_all(
                times_in(profiles, m, s, z),
            ) + times(profiles[n - 1]@.callstacks, s, z) by {
            assert(times_in(profiles, n, s, z).drop_last() =~= times_in(profiles, m, s, z));
        }
        if aggregable(profiles, m) {
            assert forall|s: Seq<usize>, z: usize| #[trigger]
                times(aggregated(profiles, m).callstacks, s, z) == add_all(
                    times_in(profiles, m, s, z),
                ) by {
                aggregate_adds_counts(profiles, m, s, z);
                lemma_sum_of_times(profiles, m, s, z);
            }
            if aggregable(profiles, n) {
                assert forall|s: Seq<usize>, z: usize| #[trigger]
                    add_all(times_in(profiles, n, s, z)) <= usize::MAX by {
                    assert(times(aggregated(profiles, m).callstacks, s, z) + times(
                        profiles[n - 1]@.callstacks,
                        s,
                        z,
                    ) <= usize::MAX);
                }
            }
            if forall|s: Seq<usize>, z: usize| #[trigger]
                add_all(times_in(profiles, n, s, z)) <= usize::MAX {
                assert forall|s: Seq<usize>, z: usize| #[trigger]
                    times(aggregated(profiles, m).callstacks, s, z) + times(
                        profiles[n - 1]@.callstacks,
                        s,
                        z,
                    ) <= usize::MAX by {
                    assert(add_all(times_in(profiles, n, s, z)) <= usize::MAX);
                }
            }
        } else {
            let (s, z) = choose|s: Seq<usize>, z: usize|
                add_all(#[trigger] times_in(profiles, m, s, z)) > usize::MAX;
            assert(add_all(times_in(profiles, n, s, z)) > usize::MAX);
        }
    }
}

/// The profiles of all the threads are aggregated, unless a sum of counts is too large. Each
/// count of the whole is the sum of those of the profiles, it has the stacks and sizes of all of
/// them, and it has the name of a frame from the first profile that names it.
pub proof fn aggregating_adds_each_count(
    profiles: Vec<Profile>,
    whole: Option<Profile>,
    s: Seq<usize>,
    z: usize,
    frame: usize,
)
    requires
        call_ensures(Profile::aggregate, (&profiles,), whole),
    ensures
        whole is None <==> exists|t: Seq<usize>, y: usize| #[trigger]
            add_all(times_in(profiles@, profiles@.len(), t, y)) > usize::MAX,
        whole matches Some(p) ==> {
            &&& times(p@.callstacks, s, z) == add_all(times_in(profiles@, profiles@.len(), s, z))
            &&& p@.callstacks.contains_key(s) <==> exists|i: int|
                0 <= i < profiles@.len() && (#[trigger] profiles@[i])@.callstacks.contains_key(s)
            &&& p@.callstacks.contains_key(s) && p@.callstacks[s].contains_key(z) <==> exists|
                i: int,
            |
                0 <= i < profiles@.len() && (#[trigger] profiles@[i])@.callstacks.contains_key(s)
                    && profiles@[i]@.callstacks[s].contains_key(z)
            &&& p@.symbols.contains_key(frame) <==> exists|i: int|
                0 <= i < profiles@.len() && (#[trigger] profiles@[i])@.symbols.contains_key(frame)
            &&& forall|i: int|
                0 <= i < profiles@.len() && (#[trigger] profiles@[i])@.symbols.contains_key(frame)
                    && (forall|j: int|
                    0 <= j < i ==> !(#[trigger] profiles@[j])@.symbols.contains_key(frame))
                    ==> p@.symbols[frame] == profiles@[i]@.symbols[frame]
        },
{
    let n = profiles@.len();
    lemma_aggregable_sums(profiles@, n);
    if whole is None {
        assert(!aggregable(profiles@, n));
    } else {
        aggregate_adds_counts(profiles@, n, s, z);
        lemma_sum_of_times(profiles@, n, s, z);
        aggregate_keeps_all_stacks(profiles@, n, s, z);
        aggregate_keeps_the_first_names(profiles@, n, frame);
    }
}

/// The frames that are to be named are those that stand in a recorded stack, each once; there are
/// none to name once there are names.
pub proof fn all_frames_are_to_be_named(p: Profile, unnamed: Option<Vec<usize>>, frame: usize)
    requires
        call_ensures(Profile::unnamed_frames, (&p,), unnamed),
    ensures
        unnamed is Some <==> forall|f: usize| !(#[trigger] p@.symbols.contains_key(f)),
        unnamed matches Some(frames) ==> {
            &&& forall|i: int, j: int| 0 <= i < j < frames@.len() ==> frames@[i] != frames@[j]
            &&& (exists|i: int| 0 <= i < frames@.len() && #[trigger] frames@[i] == frame)
                <==> exists|s: Seq<usize>, at: int| #[trigger]
                p@.callstacks.contains_key(s) && 0 <= at < s.len() && #[trigger] s[at] == frame
        },
{
    if unnamed is None {
        let f = p@.symbols.dom().choose();
        assert(p@.symbols.contains_key(f));
    }
    if let Some(frames) = unnamed {
        assert forall|f: usize| !(#[trigger] p@.symbols.contains_key(f)) by {
            assert(!p@.symbols.dom().contains(f));
        }
        assert(frames@.to_set() == frames_of(p@.callstacks));
        if exists|i: int| 0 <= i < frames@.len() && #[trigger] frames@[i] == frame {
            assert(frames@.contains(frame));
            assert(frames@.to_set().contains(frame));
            let s = choose|s: Seq<usize>| #[trigger]
                p@.callstacks.contains_key(s) && s.contains(frame);
            let at = choose|at: int| 0 <= at < s.len() && s[at] == frame;
            assert(p@.callstacks.contains_key(s) && 0 <= at < s.len() && s[at] == frame);
        }
        if exists|s: Seq<usize>, at: int| #[trigger]
            p@.callstacks.contains_key(s) && 0 <= at < s.len() && #[trigger] s[at] == frame {
            let (s, at) = choose|s: Seq<usize>, at: int| #[trigger]
                p@.callstacks.contains_key(s) && 0 <= at < s.len() && #[trigger] s[at] == frame;
            assert(s.contains(frame));
            assert(frames_of(p@.callstacks).contains(frame));
            assert(frames@.to_set().contains(frame));
            let i = choose|i: int| 0 <= i < frames@.len() && frames@[i] == frame;
            assert(frames@[i] == frame);
        }
    }
}

} // verus!
