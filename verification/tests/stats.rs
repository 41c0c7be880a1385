use malloc_freq::{AllocCounts, CallStackStats, WriteError, Writer};

fn counts(pairs: &[(usize, usize)]) -> AllocCounts {
    pairs.iter().cloned().collect()
}

fn parts(stats: &CallStackStats) -> (usize, usize) {
    match stats {
        CallStackStats::Summary(calls, bytes) => (*calls, *bytes),
        CallStackStats::Detailed(_) => panic!("not a summary"),
    }
}

#[test]
fn new_stats_are_zero() {
    assert_eq!(parts(&CallStackStats::new()), (0, 0));
}

#[test]
fn details_are_summed_up() {
    let stats = CallStackStats::Detailed(counts(&[(10, 2), (100, 1), (0, 7)]));
    assert_eq!(parts(&stats.summarize()), (10, 120));
    assert_eq!(stats.num_calls(), 10);
}

#[test]
fn a_summary_is_its_own_summary() {
    let stats = CallStackStats::Summary(3, 40);
    assert_eq!(parts(&stats.summarize()), (3, 40));
    assert_eq!(stats.num_calls(), 3);
    assert_eq!(parts(&stats.clone()), (3, 40));
}

#[test]
fn merging_adds_calls_and_bytes() {
    let mut stats = CallStackStats::Detailed(counts(&[(8, 1)]));
    stats.merge(&CallStackStats::Summary(4, 100));
    assert_eq!(parts(&stats), (5, 108));
    stats.merge(&CallStackStats::Detailed(counts(&[(1, 1), (2, 2)])));
    assert_eq!(parts(&stats), (8, 113));
}

#[test]
fn totals_have_groups_of_digits() {
    let mut text = String::from("x");
    CallStackStats::Summary(1234567, 1000).format_totals(&mut text).unwrap();
    assert_eq!(text, "x1,234,567 calls, 1,000B");
    let mut text = String::new();
    CallStackStats::Summary(0, 999).format_totals(&mut text).unwrap();
    assert_eq!(text, "0 calls, 999B");
    let mut text = String::new();
    CallStackStats::Detailed(counts(&[(512, 2)])).format_totals(&mut text).unwrap();
    assert_eq!(text, "2 calls, 1,024B");
    let mut text = String::new();
    CallStackStats::Summary(usize::MAX, 100020003).format_totals(&mut text).unwrap();
    assert_eq!(text, "18,446,744,073,709,551,615 calls, 100,020,003B");
}

#[test]
fn grouping_adds_nothing_but_commas() {
    for n in [0usize, 9, 10, 999, 1000, 1001, 12345, 999999, 1000000, 123456789012] {
        let mut text = String::new();
        CallStackStats::Summary(n, 0).format_totals(&mut text).unwrap();
        let plain: String = text.chars().filter(|c| *c != ',').collect();
        assert_eq!(plain, format!("{} calls 0B", n));
    }
}

struct Pieces(Vec<String>, bool);

impl Writer for Pieces {
    fn write_str(&mut self, text: &str) -> Result<(), WriteError> {
        self.0.push(text.to_string());
        if self.1 {
            Ok(())
        } else {
            Err(WriteError)
        }
    }
}

#[test]
fn totals_are_written_in_one_piece() {
    let detailed = CallStackStats::Detailed(counts(&[(512, 2), (1, 1)]));
    for stats in [detailed.summarize(), detailed] {
        let mut good = Pieces(vec![], true);
        assert_eq!(stats.format_totals(&mut good), Ok(()));
        assert_eq!(good.0, ["3 calls, 1,025B"]);
        let mut bad = Pieces(vec![], false);
        assert_eq!(stats.format_totals(&mut bad), Err(WriteError));
        assert_eq!(bad.0, ["3 calls, 1,025B"]);
    }
}
