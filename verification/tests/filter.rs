use fuzz::filter::{score_bits, score_key, Filter};

fn key(score: f64) -> u64 {
    score_key(score.to_bits())
}

fn score_of(k: u64) -> f64 {
    f64::from_bits(score_bits(k))
}

#[test]
fn calculate_top_lines_should_round_up() {
    assert_eq!(Filter::calculate_top_lines(10, 100), 10);
    assert_eq!(Filter::calculate_top_lines(1, 100), 1);
    assert_eq!(Filter::calculate_top_lines(50, 3), 2);
    assert_eq!(Filter::calculate_top_lines(25, 7), 2);
    assert_eq!(Filter::calculate_top_lines(100, 5), 5);
}

#[test]
fn calculate_top_lines_should_never_return_zero() {
    assert_eq!(Filter::calculate_top_lines(0, 100), 1);
    assert_eq!(Filter::calculate_top_lines(0, 0), 1);
    assert_eq!(Filter::calculate_top_lines(50, 0), 1);
}

#[test]
fn sort_results_should_sort_by_score_descending() {
    let mut results = vec![
        (1, key(10.5), "low".to_string()),
        (2, key(50.0), "high".to_string()),
        (3, key(25.0), "medium".to_string()),
    ];
    Filter::sort_results(&mut results);
    assert_eq!(results[0].1, key(50.0));
    assert_eq!(results[1].1, key(25.0));
    assert_eq!(results[2].1, key(10.5));
}

#[test]
fn apply_should_return_only_top_percent_results() {
    let mut results = vec![
        (1, key(10.0), "low".to_string()),
        (2, key(50.0), "high".to_string()),
        (3, key(30.0), "medium".to_string()),
        (4, key(20.0), "lower".to_string()),
    ];
    Filter::apply(50, &mut results);
    assert_eq!(results.len(), 2);
    assert_eq!(results[0].1, key(50.0));
    assert_eq!(results[1].1, key(30.0));
}

#[test]
fn apply_should_sort_before_truncating() {
    let mut results = vec![
        (1, key(10.0), "low".to_string()),
        (2, key(90.0), "highest".to_string()),
        (3, key(50.0), "medium".to_string()),
    ];
    Filter::apply(33, &mut results);
    assert_eq!(results.len(), 1);
    assert_eq!(results[0].1, key(90.0));
}

#[test]
fn apply_should_keep_at_least_one_result() {
    let mut results = vec![(1, key(10.0), "only".to_string())];
    Filter::apply(0, &mut results);
    assert_eq!(results.len(), 1);
    assert_eq!(results[0].1, key(10.0));
}

#[test]
fn apply_should_handle_empty_results() {
    let mut results: Vec<(usize, u64, String)> = vec![];
    Filter::apply(50, &mut results);
    assert!(results.is_empty());
}

#[test]
fn sort_keeps_order_of_equal_scores() {
    let mut results = vec![
        (1, key(5.0), "a".to_string()),
        (2, key(7.0), "b".to_string()),
        (3, key(5.0), "c".to_string()),
        (4, key(7.0), "d".to_string()),
        (5, key(5.0), "e".to_string()),
    ];
    Filter::sort_results(&mut results);
    let order: Vec<usize> = results.iter().map(|r| r.0).collect();
    assert_eq!(order, vec![2, 4, 1, 3, 5]);
}

#[test]
fn sort_orders_negative_scores_below_positive_ones() {
    let mut results = vec![
        (1, key(-3.5), "a".to_string()),
        (2, key(0.0), "b".to_string()),
        (3, key(-0.25), "c".to_string()),
        (4, key(12.75), "d".to_string()),
        (5, key(-100.0), "e".to_string()),
    ];
    Filter::sort_results(&mut results);
    let order: Vec<usize> = results.iter().map(|r| r.0).collect();
    assert_eq!(order, vec![4, 2, 3, 1, 5]);
}

#[test]
fn sorting_twice_changes_nothing() {
    let mut results = vec![
        (1, key(1.0), "a".to_string()),
        (2, key(3.0), "b".to_string()),
        (3, key(1.0), "c".to_string()),
    ];
    Filter::sort_results(&mut results);
    let once = results.clone();
    Filter::sort_results(&mut results);
    assert_eq!(results, once);
}

#[test]
fn apply_keeps_the_best_lines() {
    let mut results: Vec<(usize, u64, String)> =
        (0..10).map(|i| (i + 1, key(((i * 7) % 10) as f64), format!("line {}", i))).collect();
    Filter::apply(30, &mut results);
    let scores: Vec<f64> = results.iter().map(|r| score_of(r.1)).collect();
    assert_eq!(scores, vec![9.0, 8.0, 7.0]);
}

#[test]
fn top_lines_rounds_up_and_stays_within_the_lines() {
    assert_eq!(Filter::calculate_top_lines(1, 1), 1);
    assert_eq!(Filter::calculate_top_lines(99, 3), 3);
    assert_eq!(Filter::calculate_top_lines(34, 3), 2);
    assert_eq!(Filter::calculate_top_lines(33, 3), 1);
    assert_eq!(Filter::calculate_top_lines(100, 1000), 1000);
    for top in 1..=100u8 {
        for lines in 1..50usize {
            let kept = Filter::calculate_top_lines(top, lines);
            assert!(kept >= 1 && kept <= lines);
            assert!(kept * 100 >= top as usize * lines);
        }
    }
}

#[test]
fn score_keys_follow_score_order_and_come_back() {
    let scores = [-1e300, -2.5, -1e-310, 0.0, 1e-310, 0.1, 1.0, 336.543, 1e300];
    for w in scores.windows(2) {
        assert!(key(w[0]) < key(w[1]));
    }
    for s in scores {
        assert_eq!(score_of(key(s)).to_bits(), s.to_bits());
    }
    assert_eq!(key(-0.0), key(0.0));
    assert_eq!(score_of(key(-0.0)).to_bits(), 0.0f64.to_bits());
}
