use malloc_freq::allocator::{push_frame, MAX_BACKTRACE};
use malloc_freq::{Plan, ProfAllocator, Profile};

#[test]
fn a_request_of_the_program_is_recorded() {
    assert_eq!(ProfAllocator::start(Some(false)), (Plan::Record, Some(true)));
    assert_eq!(ProfAllocator::finish(Plan::Record, Some(true)), Some(false));
}

#[test]
fn a_nested_request_is_handed_on() {
    assert_eq!(ProfAllocator::start(Some(true)), (Plan::Forward, Some(true)));
    assert_eq!(ProfAllocator::finish(Plan::Forward, Some(true)), Some(true));
}

#[test]
fn nothing_is_recorded_while_a_thread_is_destroyed() {
    assert_eq!(ProfAllocator::start(None), (Plan::Forward, None));
    assert_eq!(ProfAllocator::finish(Plan::Forward, None), None);
}

#[test]
fn the_flag_is_restored() {
    for nested in [None, Some(false), Some(true)] {
        let (plan, flag) = ProfAllocator::start(nested);
        let (inner_plan, inner_flag) = ProfAllocator::start(flag);
        assert_eq!(inner_plan, Plan::Forward);
        assert_eq!(ProfAllocator::finish(inner_plan, inner_flag), flag);
        assert_eq!(ProfAllocator::finish(plan, flag), nested);
    }
}

#[test]
fn frames_are_added_up_to_the_limit() {
    let mut stack = Vec::new();
    for frame in 0..MAX_BACKTRACE - 1 {
        assert!(push_frame(&mut stack, frame));
    }
    assert!(!push_frame(&mut stack, 7));
    assert_eq!(stack.len(), 128);
    assert_eq!(stack[127], 7);
}

#[test]
fn an_allocation_is_recorded_under_its_call_stack() {
    let mut profile = Profile::new();
    let mut stack = vec![1, 2, 3];
    assert!(ProfAllocator::malloc_record(&mut stack, &mut profile, 24));
    assert!(!stack.is_empty());
    assert!(stack.len() <= MAX_BACKTRACE);
    assert_ne!(stack, vec![1, 2, 3]);
    assert_eq!(profile.count(&stack, 24), 1);
    assert_eq!(profile.count(&stack, 23), 0);
}

fn deep(n: usize, stack: &mut Vec<usize>, profile: &mut Profile) -> usize {
    if n == 0 {
        assert!(ProfAllocator::malloc_record(stack, profile, 1));
        return 0;
    }
    let next: fn(usize, &mut Vec<usize>, &mut Profile) -> usize = std::hint::black_box(deep);
    let below = next(n - 1, stack, profile);
    std::hint::black_box(below) + 1
}

#[test]
fn deep_call_stacks_are_cut_off() {
    let mut profile = Profile::new();
    let mut stack = Vec::new();
    assert_eq!(deep(300, &mut stack, &mut profile), 300);
    assert_eq!(stack.len(), 128);
    assert_eq!(profile.count(&stack, 1), 1);
}

#[test]
fn the_frames_of_the_running_program_have_names() {
    let mut profile = Profile::new();
    let mut stack = Vec::new();
    ProfAllocator::malloc_record(&mut stack, &mut profile, 8);
    assert!(profile.name_frames());
    for frame in stack.iter() {
        assert!(profile.symbols.contains_key(frame));
    }
    assert!(profile.symbols.values().any(|name| name.contains(" (in ") && name.ends_with(")")));
}
