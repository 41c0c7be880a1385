use malloc_freq::{Profile, WriteError, Writer};
use radix_trie::TrieCommon;

fn sample() -> Profile {
    let mut profile = Profile::new();
    profile.record_allocation(&vec![1, 2, 3, 4], 10);
    profile.record_allocation(&vec![1, 2, 3, 4], 10);
    profile.record_allocation(&vec![1, 2, 3, 4], 1000000);
    profile.record_allocation(&vec![1, 2, 5], 8);
    profile.name_frame(4, String::from("grow (in vec.rs,7:1)"));
    profile
}

fn with_threshold(profile: &Profile, threshold: f64) -> String {
    let mut text = String::new();
    profile
        .fmt_with_threshold(
            |calls, total| 100.0 * (calls as f64) / (total as f64) < threshold,
            &threshold.to_string(),
            &mut text,
        )
        .unwrap();
    text
}

#[test]
fn every_entry_is_shown() {
    let expected = "\n  ->4 calls, 1,000,028B: 1\
                    \n    ->4 calls, 1,000,028B: 2\
                    \n     |->3 calls, 1,000,020B: grow (in vec.rs,7:1)\
                    \n      ->1 calls, 8B: 5";
    assert_eq!(sample().to_string(), expected);
    assert_eq!(with_threshold(&sample(), 0.0), expected);
    assert_eq!(with_threshold(&sample(), 25.0), expected);
}

#[test]
fn small_entries_are_left_out() {
    assert_eq!(
        with_threshold(&sample(), 30.5),
        "\n  ->4 calls, 1,000,028B: 1\
         \n    ->4 calls, 1,000,028B: 2\
         \n     |->3 calls, 1,000,020B: grow (in vec.rs,7:1)\
         \n      ->1 calls in places below mf_print threshold (30.5%)"
    );
    assert_eq!(
        with_threshold(&sample(), 80.0),
        "\n  ->4 calls, 1,000,028B: 1\
         \n    ->4 calls, 1,000,028B: 2\
         \n      ->4 calls in places below mf_print threshold (80%)"
    );
}

#[test]
fn nothing_is_shown_below_a_hidden_entry() {
    assert_eq!(
        with_threshold(&sample(), 101.0),
        "\n  ->4 calls in places below mf_print threshold (101%)"
    );
}

#[test]
fn most_calls_come_first_and_ties_keep_their_order() {
    let mut profile = Profile::new();
    for stack in [[1, 256], [1, 3], [1, 7], [1, 7], [1, 17]] {
        profile.record_allocation(&stack.to_vec(), 1);
    }
    assert_eq!(
        profile.to_string(),
        "\n |->2 calls, 2B: 7\
         \n |->1 calls, 1B: 3\
         \n |->1 calls, 1B: 17\
         \n  ->1 calls, 1B: 256"
    );
}

#[test]
fn thresholds_are_held_against_all_calls() {
    let mut profile = Profile::new();
    profile.record_allocation(&vec![1], 8);
    for _ in 0..99 {
        profile.record_allocation(&vec![2], 8);
    }
    profile.name_frame(1, String::from("a"));
    profile.name_frame(2, String::from("b"));
    assert_eq!(
        with_threshold(&profile, 50.0),
        "\n |->99 calls, 792B: b\
         \n  ->1 calls in places below mf_print threshold (50%)"
    );
    assert_eq!(
        with_threshold(&profile, 1.0),
        "\n |->99 calls, 792B: b\
         \n  ->1 calls, 8B: a"
    );
    assert_eq!(
        with_threshold(&profile, 1.5),
        "\n |->99 calls, 792B: b\
         \n  ->1 calls in places below mf_print threshold (1.5%)"
    );
    assert_eq!(
        with_threshold(&profile, 99.5),
        "\n  ->100 calls in places below mf_print threshold (99.5%)"
    );
}

fn entries(text: &str) -> Vec<String> {
    text.lines()
        .filter(|line| line.contains(": "))
        .map(|line| line.split("->").last().unwrap().to_string())
        .collect()
}

fn branching() -> Profile {
    let mut profile = Profile::new();
    for (stack, times) in [
        (vec![1, 2, 3, 4], 1),
        (vec![1, 2, 3, 5], 2),
        (vec![1, 6, 7], 4),
        (vec![8], 5),
        (vec![9, 10, 11], 8),
    ] {
        for _ in 0..times {
            profile.record_allocation(&stack, 1);
        }
    }
    profile
}

#[test]
fn higher_thresholds_show_less() {
    let profile = branching();
    let thresholds = [0.0, 5.0, 10.0, 15.0, 20.0, 25.0, 35.0, 40.0, 41.0];
    let mut numbers = vec![];
    for pair in thresholds.windows(2) {
        let low = entries(&with_threshold(&profile, pair[0]));
        let high = entries(&with_threshold(&profile, pair[1]));
        assert!(high.iter().all(|entry| low.contains(entry)));
        numbers.push(high.len());
    }
    assert_eq!(numbers, vec![8, 7, 6, 5, 4, 3, 2, 0]);
}

#[test]
fn every_stack_has_one_line_without_threshold() {
    let profile = branching();
    let text = with_threshold(&profile, 0.0);
    assert_eq!(text, profile.to_string());
    assert_eq!(
        text,
        "\n |->8 calls, 8B: 9\
         \n |  ->8 calls, 8B: 11\
         \n |->7 calls, 7B: 1\
         \n | |->4 calls, 4B: 7\
         \n |  ->3 calls, 3B: 2\
         \n |   |->2 calls, 2B: 5\
         \n |    ->1 calls, 1B: 4\
         \n  ->5 calls, 5B: 8"
    );
    assert_eq!(entries(&text).len(), profile.summarize().len());
}

#[test]
fn many_entries_are_sorted() {
    let mut profile = Profile::new();
    let mut expected = vec![];
    for frame in 1..200 {
        let times = frame * 7 % 13 + 1;
        for _ in 0..times {
            profile.record_allocation(&vec![frame], 0);
        }
        expected.push((times, frame));
    }
    expected.sort_by(|a, b| b.0.cmp(&a.0));
    let expected: Vec<String> =
        expected.iter().map(|(times, frame)| format!("{} calls, 0B: {}", times, frame)).collect();
    assert_eq!(entries(&profile.to_string()), expected);
}

#[test]
fn a_report_is_added_to_what_is_there() {
    let mut profile = Profile::new();
    profile.record_allocation(&vec![12345], 2);
    let mut text = String::from("report");
    assert_eq!(profile.fmt_with_threshold(|_, _| false, "0", &mut text), Ok(()));
    assert_eq!(text, "report\n  ->1 calls, 2B: 12345");
}

#[test]
fn a_recorded_stack_in_the_middle_has_its_own_calls() {
    let mut profile = Profile::new();
    profile.record_allocation(&vec![1, 2], 5);
    profile.record_allocation(&vec![1, 2, 3, 4], 6);
    assert_eq!(
        profile.to_string(),
        "\n  ->2 calls, 11B: 1\
         \n    ->2 calls, 11B: 2\
         \n      ->1 calls, 6B: 4"
    );
}

// Takes a number of pieces and then fails.
struct Limited {
    pieces: Vec<String>,
    room: usize,
}

impl Writer for Limited {
    fn write_str(&mut self, text: &str) -> Result<(), WriteError> {
        if self.pieces.len() == self.room {
            return Err(WriteError);
        }
        self.pieces.push(text.to_string());
        Ok(())
    }
}

#[test]
fn a_report_ends_at_the_first_piece_that_fails() {
    let profile = branching();
    let below = |calls: usize, total: usize| 100 * calls < 20 * total;
    let mut whole = String::new();
    profile.fmt_with_threshold(below, "20", &mut whole).unwrap();
    let mut enough = Limited { pieces: vec![], room: usize::MAX };
    assert_eq!(profile.fmt_with_threshold(below, "20", &mut enough), Ok(()));
    assert_eq!(enough.pieces.concat(), whole);
    assert_eq!(&enough.pieces[..6], ["\n", " |", "->", "8 calls, 8B", ": ", "9"]);
    let number = enough.pieces.len();
    for room in 0..number {
        let mut limited = Limited { pieces: vec![], room };
        assert_eq!(profile.fmt_with_threshold(below, "20", &mut limited), Err(WriteError));
        assert_eq!(limited.pieces[..], enough.pieces[..room]);
    }
    let mut exact = Limited { pieces: vec![], room: number };
    assert_eq!(profile.fmt_with_threshold(below, "20", &mut exact), Ok(()));
}
