use std::collections::HashMap;

use malloc_freq::{AllocCounts, CallStackStats, Profile};
use radix_trie::{Trie, TrieCommon};

fn recorded(allocations: &[(&[usize], usize)]) -> Profile {
    let mut profile = Profile::new();
    for (stack, size) in allocations {
        profile.record_allocation(&stack.to_vec(), *size);
    }
    profile
}

fn entries(profile: &Profile) -> Vec<(Vec<usize>, Vec<(usize, usize)>)> {
    profile
        .callstacks
        .iter()
        .map(|(stack, counts)| {
            let mut counts: Vec<(usize, usize)> = counts.iter().map(|(s, c)| (*s, *c)).collect();
            counts.sort();
            (stack.clone(), counts)
        })
        .collect()
}

fn summary(profile: &Profile) -> Vec<(Vec<usize>, usize, usize)> {
    profile
        .summarize()
        .iter()
        .map(|(stack, stats)| match stats.summarize() {
            CallStackStats::Summary(calls, bytes) => (stack.clone(), calls, bytes),
            CallStackStats::Detailed(_) => panic!("not a summary"),
        })
        .collect()
}

fn full(stack: Vec<usize>, size: usize) -> Profile {
    let mut callstacks = Trie::new();
    let counts: AllocCounts = vec![(size, usize::MAX)].into_iter().collect();
    callstacks.insert(stack, counts);
    Profile { callstacks, symbols: HashMap::new() }
}

#[test]
fn new_profile_is_empty() {
    let profile = Profile::new();
    assert!(entries(&profile).is_empty());
    assert!(profile.symbols.is_empty());
    assert_eq!(profile.count(&vec![1], 8), 0);
    assert!(entries(&Profile::default()).is_empty());
}

#[test]
fn allocations_are_counted_by_stack_and_size() {
    let profile = recorded(&[(&[1, 2], 8), (&[1, 2], 8), (&[1, 2], 16), (&[3], 8), (&[1], 8)]);
    assert_eq!(profile.count(&vec![1, 2], 8), 2);
    assert_eq!(profile.count(&vec![1, 2], 16), 1);
    assert_eq!(profile.count(&vec![1, 2], 24), 0);
    assert_eq!(profile.count(&vec![2, 1], 8), 0);
    assert_eq!(
        entries(&profile),
        vec![
            (vec![1], vec![(8, 1)]),
            (vec![1, 2], vec![(8, 2), (16, 1)]),
            (vec![3], vec![(8, 1)]),
        ]
    );
}

#[test]
fn stacks_are_walked_in_the_order_of_their_frames() {
    let profile = recorded(&[(&[256, 1], 1), (&[2], 1), (&[256], 1), (&[1 << 40], 1), (&[17], 1)]);
    let stacks: Vec<Vec<usize>> = entries(&profile).into_iter().map(|(stack, _)| stack).collect();
    assert_eq!(stacks, vec![vec![2], vec![17], vec![256], vec![256, 1], vec![1 << 40]]);
}

#[test]
fn recording_in_any_order_gives_the_same() {
    let a = recorded(&[(&[1, 2], 8), (&[1, 2], 16), (&[3], 8)]);
    let b = recorded(&[(&[3], 8), (&[1, 2], 16), (&[1, 2], 8)]);
    assert_eq!(entries(&a), entries(&b));
}

#[test]
fn merging_adds_counts() {
    let mut a = recorded(&[(&[1, 2], 8), (&[1, 2], 16)]);
    let b = recorded(&[(&[1, 2], 8), (&[1, 2], 8), (&[1, 2], 24), (&[7], 1)]);
    assert!(a.can_merge(&b));
    a.merge(&b);
    assert_eq!(
        entries(&a),
        vec![(vec![1, 2], vec![(8, 3), (16, 1), (24, 1)]), (vec![7], vec![(1, 1)])]
    );
}

#[test]
fn merging_keeps_the_names_that_are_there() {
    let mut a = Profile::new();
    a.name_frame(1, String::from("one"));
    let mut b = Profile::new();
    b.name_frame(1, String::from("uno"));
    b.name_frame(2, String::from("dos"));
    a.merge(&b);
    assert_eq!(a.resolve_symbol(1), "one");
    assert_eq!(a.resolve_symbol(2), "dos");
    assert_eq!(a.resolve_symbol(30), "30");
    a.name_frame(2, String::from("two"));
    assert_eq!(a.resolve_symbol(2), "dos");
}

#[test]
fn merging_names_commutes_where_they_agree() {
    let named = |names: &[(usize, &str)]| {
        let mut profile = Profile::new();
        for (frame, name) in names {
            profile.name_frame(*frame, String::from(*name));
        }
        profile
    };
    let mut forth = named(&[(1, "one"), (2, "two")]);
    forth.merge(&named(&[(2, "two"), (3, "three")]));
    let mut back = named(&[(2, "two"), (3, "three")]);
    back.merge(&named(&[(1, "one"), (2, "two")]));
    assert_eq!(forth.symbols, back.symbols);
    assert_eq!(forth.symbols.len(), 3);
}

#[test]
fn merging_with_an_empty_profile_changes_nothing() {
    let p = recorded(&[(&[1, 2], 8), (&[3], 16)]);
    let mut left = Profile::new();
    left.merge(&p);
    assert_eq!(entries(&left), entries(&p));
    left.merge(&Profile::new());
    assert_eq!(entries(&left), entries(&p));
}

#[test]
fn merging_commutes_and_associates() {
    let a = recorded(&[(&[1, 2], 8), (&[3], 16)]);
    let b = recorded(&[(&[1, 2], 8), (&[1], 4)]);
    let c = recorded(&[(&[3], 16), (&[1], 4), (&[9, 9], 1)]);
    let merged = |x: &Profile, y: &Profile| {
        let mut whole = Profile::new();
        whole.merge(x);
        whole.merge(y);
        whole
    };
    assert_eq!(entries(&merged(&a, &b)), entries(&merged(&b, &a)));
    let left = merged(&merged(&a, &b), &c);
    let right = merged(&a, &merged(&b, &c));
    assert_eq!(entries(&left), entries(&right));
    assert_eq!(left.count(&vec![1, 2], 8), 2);
    assert_eq!(left.count(&vec![3], 16), 2);
}

#[test]
fn recording_before_or_after_a_merge_is_the_same() {
    let b = recorded(&[(&[1, 2], 8), (&[3], 16)]);
    let mut before = recorded(&[(&[1, 2], 8)]);
    before.record_allocation(&vec![3], 16);
    before.merge(&b);
    let mut after = recorded(&[(&[1, 2], 8)]);
    after.merge(&b);
    after.record_allocation(&vec![3], 16);
    assert_eq!(entries(&before), entries(&after));
}

#[test]
fn counts_that_are_too_large_cannot_be_merged() {
    let a = full(vec![1], 8);
    assert!(!a.can_merge(&recorded(&[(&[1], 8)])));
    assert!(a.can_merge(&recorded(&[(&[1], 16), (&[2], 8)])));
    assert!(Profile::aggregate(&vec![full(vec![1], 8), recorded(&[(&[1], 8)])]).is_none());
}

#[test]
fn profiles_are_aggregated() {
    assert!(entries(&Profile::aggregate(&Vec::new()).unwrap()).is_empty());
    let mut named = recorded(&[(&[1], 8)]);
    named.name_frame(1, String::from("one"));
    let whole = Profile::aggregate(&vec![
        recorded(&[(&[1], 8), (&[2], 8)]),
        named,
        recorded(&[(&[2], 8)]),
    ])
    .unwrap();
    assert_eq!(entries(&whole), vec![(vec![1], vec![(8, 2)]), (vec![2], vec![(8, 2)])]);
    assert_eq!(whole.resolve_symbol(1), "one");
    assert_eq!(summary(&whole), vec![(vec![1], 2, 16), (vec![2], 2, 16)]);
}

#[test]
fn profiles_are_aggregated_in_any_order() {
    let a = || recorded(&[(&[1], 8), (&[2, 3], 8)]);
    let b = || recorded(&[(&[2, 3], 8), (&[2, 3], 9)]);
    let c = || recorded(&[(&[1], 8)]);
    let forth = Profile::aggregate(&vec![a(), b(), c()]).unwrap();
    let back = Profile::aggregate(&vec![c(), b(), a()]).unwrap();
    assert_eq!(entries(&forth), entries(&back));
    assert_eq!(forth.count(&vec![2, 3], 8), 2);
}

#[test]
fn a_summary_has_all_but_the_longest_beginnings() {
    let profile = recorded(&[(&[1, 2, 3, 4], 10), (&[1, 2, 3, 4], 10), (&[1, 2, 3, 4], 100)]);
    assert_eq!(
        summary(&profile),
        vec![(vec![1], 3, 120), (vec![1, 2], 3, 120), (vec![1, 2, 3, 4], 3, 120)]
    );
}

#[test]
fn a_summary_adds_up_what_is_under_each_stack() {
    let profile = recorded(&[
        (&[1, 2, 3, 4], 10),
        (&[1, 2, 5], 8),
        (&[1, 2], 1),
        (&[1, 2], 1),
        (&[16, 2, 3], 7),
        (&[17], 5),
    ]);
    assert_eq!(
        summary(&profile),
        vec![
            (vec![1], 4, 20),
            (vec![1, 2], 4, 20),
            (vec![1, 2, 3, 4], 1, 10),
            (vec![1, 2, 5], 1, 8),
            (vec![16], 1, 7),
            (vec![16, 2, 3], 1, 7),
            (vec![17], 1, 5),
        ]
    );
}

fn details(profile: &Profile) -> Vec<(Vec<usize>, Option<Vec<(usize, usize)>>)> {
    profile
        .summarize()
        .iter()
        .map(|(stack, stats)| match stats {
            CallStackStats::Detailed(counts) => {
                let mut counts: Vec<(usize, usize)> =
                    counts.iter().map(|(s, c)| (*s, *c)).collect();
                counts.sort();
                (stack.clone(), Some(counts))
            }
            CallStackStats::Summary(..) => (stack.clone(), None),
        })
        .collect()
}

#[test]
fn a_summary_keeps_the_sizes_where_nothing_lies_below() {
    let profile = recorded(&[(&[1], 4), (&[1, 2, 3], 8), (&[1, 2, 3], 8)]);
    assert_eq!(details(&profile), vec![(vec![1], None), (vec![1, 2, 3], Some(vec![(8, 2)]))]);
    assert_eq!(summary(&profile), vec![(vec![1], 3, 20), (vec![1, 2, 3], 2, 16)]);
    let profile = recorded(&[
        (&[1, 2, 3, 4], 1),
        (&[1, 2, 3, 4], 3),
        (&[1, 2, 5], 8),
        (&[16, 2, 3], 7),
        (&[17], 5),
    ]);
    assert_eq!(
        details(&profile),
        vec![
            (vec![1], None),
            (vec![1, 2], None),
            (vec![1, 2, 3, 4], Some(vec![(1, 1), (3, 1)])),
            (vec![1, 2, 5], Some(vec![(8, 1)])),
            (vec![16], None),
            (vec![16, 2, 3], Some(vec![(7, 1)])),
            (vec![17], Some(vec![(5, 1)])),
        ]
    );
}

#[test]
fn short_stacks_are_summarized() {
    let profile = recorded(&[(&[9], 3), (&[5, 6], 4)]);
    assert_eq!(summary(&profile), vec![(vec![5, 6], 1, 4), (vec![9], 1, 3)]);
}

#[test]
fn what_cannot_be_summarized() {
    assert!(Profile::new().is_summable());
    assert!(!Profile::new().is_reportable());
    assert!(recorded(&[(&[1], 8)]).is_reportable());
    assert!(!recorded(&[(&[], 8)]).is_summable());
    assert!(!recorded(&[(&[], 8)]).is_reportable());
    assert!(full(vec![1], 1).is_summable());
    assert!(!full(vec![1], 2).is_summable());
    let mut two = full(vec![1], 1);
    two.record_allocation(&vec![2], 0);
    assert!(!two.is_summable());
    let mut bytes = recorded(&[(&[1], usize::MAX)]);
    assert!(bytes.is_summable());
    bytes.record_allocation(&vec![2], 1);
    assert!(!bytes.is_summable());
}

#[test]
fn frames_are_named_once_each() {
    let profile = recorded(&[(&[7, 8], 1), (&[7, 9, 7], 1)]);
    let mut frames = profile.unnamed_frames().unwrap();
    frames.sort();
    assert_eq!(frames, vec![7, 8, 9]);
    assert!(Profile::new().unnamed_frames().unwrap().is_empty());
    let mut named = recorded(&[(&[7], 1)]);
    named.name_frame(1, String::from("one"));
    assert!(named.unnamed_frames().is_none());
}

#[test]
fn a_profile_is_made_ready_once() {
    let mut profile = recorded(&[(&[0, 1], 1)]);
    assert!(profile.name_frames());
    assert_eq!(profile.symbols.len(), 2);
    assert_eq!(profile.resolve_symbol(0), "0");
    assert!(!profile.name_frames());
    assert_eq!(profile.count(&vec![0, 1], 1), 1);
    assert!(Profile::new().name_frames());
}
