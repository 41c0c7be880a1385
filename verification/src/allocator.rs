//! What a profiling allocator does with a request for memory.
use vstd::prelude::*;

use crate::profile::{count, counts_for, Profile};
use crate::stats::CallStack;

verus! {

/// The largest number of frames of a call stack that are recorded.
pub const MAX_BACKTRACE: usize = 128;

/// Decides which allocations are recorded, and records them.
///
/// Recording an allocation takes memory itself, so that the allocator is called again before the
/// first call has returned. A flag for each thread tells such nested calls from those of the
/// program; they are not recorded. While a thread is being destroyed its flag cannot be read, and
/// nothing is recorded.
pub struct ProfAllocator;

/// What is done with a request for memory.
#[derive(Clone, Copy, Debug, PartialEq, Eq, Structural)]
pub enum Plan {
    /// It is handed on to the system allocator.
    Forward,
    /// It is recorded, and then handed on to the system allocator.
    Record,
}

/// The first step of a request: the plan, and the flag after it.
pub open spec fn started(nested: Option<bool>) -> (Plan, Option<bool>) {
    if nested == Some(false) {
        (Plan::Record, Some(true))
    } else {
        (Plan::Forward, nested)
    }
}

/// The flag after the last step of a request.
pub open spec fn finished(plan: Plan, nested: Option<bool>) -> Option<bool> {
    match (plan, nested) {
        (Plan::Record, Some(_)) => Some(false),
        _ => nested,
    }
}

impl ProfAllocator {
    /// Takes up a request, given the thread's flag if it can be read. The request is recorded
    /// exactly if the flag is down, and the flag is then up.
    pub fn start(nested: Option<bool>) -> (step: (Plan, Option<bool>))
        ensures
            step == started(nested),
    {
        match nested {
            Some(false) => (Plan::Record, Some(true)),
            _ => (Plan::Forward, nested),
        }
    }

    /// Ends a request. One that was recorded takes the flag down again.
    pub fn finish(plan: Plan, nested: Option<bool>) -> (flag: Option<bool>)
        ensures
            flag == finished(plan, nested),
    {
        match (plan, nested) {
            (Plan::Record, Some(_)) => Some(false),
            _ => nested,
        }
    }

    /// Records a request for `size` bytes in the profile, under the call stack of the caller,
    /// which is left in `callstack`. Nothing is recorded if the count for that call stack and size
    /// cannot be raised any more.
    pub fn malloc_record(
        callstack: &mut CallStack,
        profile: &mut Profile,
        size: usize,
    ) -> (recorded: bool)
        ensures
            captured(final(callstack)@),
            final(callstack)@.len() <= MAX_BACKTRACE,
            recorded == (count(
                counts_for(old(profile)@.callstacks, final(callstack)@),
                size,
            ) < usize::MAX),
            recorded ==> final(profile)@ == old(profile)@.record(final(callstack)@, size),
            !recorded ==> *final(profile) == *old(profile),
    {
        let mut room: CallStack = Vec::new();
        std::mem::swap(callstack, &mut room);
        room.clear();
        *callstack = capture(room);
        if profile.count(callstack, size) == usize::MAX {
            return false;
        }
        profile.record_allocation(callstack, size);
        true
    }
}

/// Adds a frame to a call stack. Returns whether there is room for another.
pub fn push_frame(callstack: &mut CallStack, frame: usize) -> (more: bool)
    ensures
        final(callstack)@ == old(callstack)@.push(frame),
        more == (final(callstack)@.len() < MAX_BACKTRACE),
{
    callstack.push(frame);
    callstack.len() < MAX_BACKTRACE
}

/// `backtrace::trace`, which hands the frames of the current call stack to [`push_frame`], the
/// innermost first, until that returns `false`. They are put into the empty stack `room`. Nothing
/// is stated of which frames they are: they are those of the running program.
#[verifier::external_body]
pub(crate) fn capture(room: CallStack) -> (callstack: CallStack)
    requires
        room@.len() == 0,
    ensures
        callstack@.len() <= MAX_BACKTRACE,
{
    let mut callstack = room;
    backtrace::trace(|frame| push_frame(&mut callstack, frame.ip() as usize));
    callstack
}

/// `frames` are the frames of the running program, as a capture of its call stack gave them.
pub closed spec fn captured(frames: Seq<usize>) -> bool {
    exists|room: CallStack, callstack: CallStack|
        room@.len() == 0 && #[trigger] call_ensures(capture, (room,), callstack) && callstack@
            == frames
}

/// Frames that were captured are all that a capture gave, in its order, and nothing else.
pub(crate) proof fn captured_frames_are_kept(frames: Seq<usize>)
    ensures
        captured(frames) <==> exists|room: CallStack, callstack: CallStack|
            room@.len() == 0 && #[trigger] call_ensures(capture, (room,), callstack)
                && frames.len() == callstack@.len() && forall|i: int|
                0 <= i < frames.len() ==> frames[i] == callstack@[i],
{
    if exists|room: CallStack, callstack: CallStack|
        room@.len() == 0 && #[trigger] call_ensures(capture, (room,), callstack) && frames.len()
            == callstack@.len() && forall|i: int|
            0 <= i < frames.len() ==> frames[i] == callstack@[i] {
        let (room, callstack) = choose|room: CallStack, callstack: CallStack|
            room@.len() == 0 && #[trigger] call_ensures(capture, (room,), callstack)
                && frames.len() == callstack@.len() && forall|i: int|
                0 <= i < frames.len() ==> frames[i] == callstack@[i];
        assert(frames =~= callstack@);
    }
}

} // verus!
