use window_match::same_sum::{all_same_sum_tuples, same_sum_tuples, Span, SumMatch, WIN_SIZE};

fn m(window_start: usize, window_len: usize, start: usize, len: usize) -> SumMatch {
    SumMatch {
        window: Span { start: window_start, len: window_len },
        candidate: Span { start, len },
    }
}

#[test]
fn longest_candidate_wins_over_later_single() {
    let data = [1, 1, 1, 1, 1, 2, 3, 5];
    let r = all_same_sum_tuples(&data);
    assert_eq!(r, vec![m(0, 5, 5, 2)]);
    assert_eq!(r[0].window.slice_of(&data), &[1, 1, 1, 1, 1][..]);
    assert_eq!(r[0].candidate.slice_of(&data), &[2, 3][..]);
}

#[test]
fn later_candidate_wins_tie() {
    let data = [1, 1, 1, 1, 1, 5, 9, 5];
    let r = all_same_sum_tuples(&data);
    assert_eq!(r, vec![m(0, 5, 7, 1), m(1, 5, 6, 1)]);
}

#[test]
fn longer_later_candidate_wins() {
    let data = [1, 1, 1, 1, 1, 5, 2, 3];
    assert_eq!(all_same_sum_tuples(&data), vec![m(0, 5, 6, 2)]);
}

#[test]
fn zero_window_takes_longest_zero_run() {
    let data = [0, 0, 0, 0, 0, 0, 0];
    assert_eq!(all_same_sum_tuples(&data), vec![m(0, 5, 5, 2), m(1, 5, 6, 1)]);
}

#[test]
fn large_element_stops_the_running_sum() {
    let data = [1, 1, 1, 1, 1, 2, 9, 3];
    assert_eq!(all_same_sum_tuples(&data), vec![]);
}

#[test]
fn input_shorter_than_window_gives_nothing() {
    assert_eq!(all_same_sum_tuples(&[1, 2, 3]), vec![]);
    assert_eq!(all_same_sum_tuples(&[]), vec![]);
}

#[test]
fn input_of_one_window_gives_nothing() {
    assert_eq!(all_same_sum_tuples(&[1, 1, 1, 1, 1]), vec![]);
}

#[test]
fn zero_window_size_gives_nothing() {
    assert_eq!(same_sum_tuples(&[0, 0, 0, 1, 1], 0), vec![]);
}

#[test]
fn other_window_size() {
    let data = [2, 1, 3, 3, 0, 1, 2];
    assert_eq!(
        same_sum_tuples(&data, 2),
        vec![m(0, 2, 4, 3), m(1, 2, 3, 3), m(3, 2, 5, 2)]
    );
}

#[test]
fn large_values_do_not_overflow() {
    let big = u32::MAX;
    let data = [big, big, big, big, big, big, big, big, big, big, big];
    let r = all_same_sum_tuples(&data);
    assert_eq!(r, vec![m(0, 5, 6, 5), m(1, 5, 6, 5)]);
}

#[test]
fn repeated_runs_agree() {
    let data = [3, 0, 2, 1, 4, 1, 2, 3, 0, 5, 1, 1, 4, 0, 6];
    assert_eq!(all_same_sum_tuples(&data), all_same_sum_tuples(&data));
}

#[test]
fn matches_are_ordered_and_exact() {
    let data = [3, 0, 2, 1, 4, 1, 2, 3, 0, 5, 1, 1, 4, 0, 6, 2, 2, 1, 0, 3];
    let r = all_same_sum_tuples(&data);
    assert!(!r.is_empty());
    for pair in r.windows(2) {
        assert!(pair[0].window.start < pair[1].window.start);
    }
    for x in &r {
        assert_eq!(x.window.len, WIN_SIZE);
        assert!(x.candidate.start >= x.window.start + WIN_SIZE);
        let ws: u64 = x.window.slice_of(&data).iter().map(|&v| v as u64).sum();
        let cs: u64 = x.candidate.slice_of(&data).iter().map(|&v| v as u64).sum();
        assert_eq!(ws, cs);
    }
}
