use malloc_freq::text::{
    describe_frame, profile_dir, profile_file, profile_pattern, ProfileFiles, Symbol,
};

#[test]
fn a_symbol_is_described() {
    let symbol = Symbol {
        name: Some(String::from("main")),
        filename: Some(String::from("src/main.rs")),
        lineno: Some(12),
        colno: Some(5),
    };
    assert_eq!(symbol.text(), "main (in src/main.rs,12:5)");
}

#[test]
fn what_is_not_known_of_a_symbol_is_empty_or_zero() {
    let symbol = Symbol { name: None, filename: None, lineno: None, colno: None };
    assert_eq!(symbol.text(), " (in ,0:0)");
}

#[test]
fn a_frame_is_described_by_its_last_symbol() {
    let inner = Symbol {
        name: Some(String::from("inlined")),
        filename: None,
        lineno: Some(1),
        colno: None,
    };
    let outer = Symbol {
        name: Some(String::from("caller")),
        filename: Some(String::from("a.rs")),
        lineno: Some(20),
        colno: Some(3),
    };
    assert_eq!(describe_frame(4096, &vec![inner, outer]), "caller (in a.rs,20:3)");
}

#[test]
fn a_frame_without_symbols_is_its_address() {
    assert_eq!(describe_frame(4096, &Vec::new()), "4096");
    assert_eq!(describe_frame(0, &Vec::new()), "0");
}

#[test]
fn paths_of_profiles() {
    let dir = profile_dir(4711);
    assert_eq!(dir, "malloc_freq.4711");
    assert_eq!(profile_file(&dir, 140001), "malloc_freq.4711/malloc_freq.140001");
    assert_eq!(profile_pattern(&dir), "malloc_freq.4711/malloc_freq.*");
}

#[test]
fn threads_and_processes_have_their_own_paths() {
    let ids = [0usize, 1, 9, 10, 11, 99, 100, 101, 140001, usize::MAX];
    for (i, a) in ids.iter().enumerate() {
        for b in &ids[i + 1..] {
            assert_ne!(profile_file("dir", *a), profile_file("dir", *b));
        }
    }
    assert_ne!(profile_dir(1), profile_dir(10));
    assert_ne!(profile_dir(u32::MAX), profile_dir(u32::MAX - 1));
}

#[test]
fn every_thread_has_a_file_of_its_own() {
    let mut files = ProfileFiles { handed_out: 0 };
    let mut seen = vec![];
    for i in 0..25 {
        let file = files.next_file("malloc_freq.7").unwrap();
        assert_eq!(file, format!("malloc_freq.7/malloc_freq.{}", i));
        assert!(!seen.contains(&file));
        seen.push(file);
    }
    assert_eq!(files.handed_out, 25);
    let mut last = ProfileFiles { handed_out: usize::MAX };
    assert!(last.next_file("d").is_none());
    assert_eq!(last.handed_out, usize::MAX);
}
