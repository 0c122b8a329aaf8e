use patterns::{count_frequency, generate_pattern};

#[test]
fn test_count() {
    let strings = vec![
        "LALALA", "XOXOXO", "GCGCGC", "HHHCCC", "BBBMMM", "EGONUH", "HHRGOE",
    ];
    let patterns: Vec<_> = strings
        .iter()
        .map(|string| generate_pattern(string).unwrap())
        .collect();
    let counts = count_frequency(&patterns);
    assert_eq!(counts, 5);
}

#[test]
fn empty_batch_counts_nothing() {
    let patterns: Vec<Vec<u8>> = Vec::new();
    assert_eq!(count_frequency(&patterns), 0);
}

#[test]
fn single_pattern_counts_nothing() {
    assert_eq!(count_frequency(&[vec![0, 1, 0]]), 0);
}

#[test]
fn patterns_that_occur_once_count_nothing() {
    let patterns = vec![vec![0], vec![0, 0], vec![0, 1], vec![0, 1, 2], vec![]];
    assert_eq!(count_frequency(&patterns), 0);
}

#[test]
fn pattern_that_occurs_twice_counts_twice() {
    assert_eq!(count_frequency(&[vec![0, 1], vec![0, 1]]), 2);
    assert_eq!(count_frequency(&[vec![0, 1], vec![0, 0], vec![0, 1]]), 2);
}

#[test]
fn pattern_that_occurs_three_times_counts_three_times() {
    let patterns = vec![vec![0, 1, 0], vec![0, 1, 0], vec![0, 1, 0]];
    assert_eq!(count_frequency(&patterns), 3);
    let with_single = vec![vec![0, 1, 0], vec![0, 0, 0], vec![0, 1, 0], vec![0, 1, 0]];
    assert_eq!(count_frequency(&with_single), 3);
}

#[test]
fn single_occurrence_changes_nothing() {
    let without = vec![vec![0, 1], vec![0, 1], vec![0, 0, 1], vec![0, 0, 1]];
    let mut with = without.clone();
    with.insert(2, vec![0, 1, 2, 3]);
    assert_eq!(count_frequency(&without), 4);
    assert_eq!(count_frequency(&with), 4);
}

#[test]
fn several_recurring_patterns_add_up() {
    let patterns = vec![
        vec![0],
        vec![0, 1],
        vec![0],
        vec![0, 1, 2],
        vec![0, 1],
        vec![0],
        vec![0, 0],
        vec![0],
    ];
    assert_eq!(count_frequency(&patterns), 6);
}

#[test]
fn empty_patterns_recur_like_others() {
    assert_eq!(count_frequency(&[vec![], vec![]]), 2);
    assert_eq!(count_frequency(&[vec![], vec![0], vec![]]), 2);
}

#[test]
fn pattern_and_its_prefix_differ() {
    let patterns = vec![vec![0, 0, 1, 0, 0], vec![0, 0, 1, 0, 0, 0], vec![0, 0, 1, 0, 0]];
    assert_eq!(count_frequency(&patterns), 2);
}

#[test]
fn patterns_are_compared_by_what_they_hold() {
    let first: Vec<u8> = vec![3, 1, 4, 1, 5];
    let mut second: Vec<u8> = Vec::with_capacity(64);
    second.extend_from_slice(&[3, 1, 4]);
    second.push(1);
    second.push(5);
    assert_eq!(count_frequency(&[first, second]), 2);
    assert_eq!(count_frequency(&[vec![1, 0], vec![0, 1]]), 0);
    assert_eq!(count_frequency(&[vec![0], vec![0, 0]]), 0);
}

#[test]
fn order_of_the_batch_does_not_matter() {
    let a = vec![0u8, 1, 0];
    let b = vec![0u8, 0, 1];
    let c = vec![0u8, 1, 2];
    let orders = vec![
        vec![a.clone(), a.clone(), b.clone(), c.clone(), b.clone(), a.clone()],
        vec![c.clone(), b.clone(), a.clone(), a.clone(), a.clone(), b.clone()],
        vec![b.clone(), a.clone(), b.clone(), a.clone(), c.clone(), a.clone()],
        vec![a.clone(), b.clone(), c.clone(), a.clone(), b.clone(), a.clone()],
    ];
    for order in &orders {
        assert_eq!(count_frequency(order), 5);
    }
    let mut reversed = orders[0].clone();
    reversed.reverse();
    assert_eq!(count_frequency(&reversed), count_frequency(&orders[0]));
}

#[test]
fn every_entry_of_a_uniform_batch_counts() {
    let patterns: Vec<Vec<u8>> = (0..1000).map(|_| vec![0, 1, 1, 0]).collect();
    assert_eq!(count_frequency(&patterns), 1000);
}

#[test]
fn many_distinct_patterns_count_nothing() {
    let patterns: Vec<Vec<u8>> = (0..300u32)
        .map(|n| vec![(n % 128) as u8, (n / 128) as u8])
        .collect();
    assert_eq!(count_frequency(&patterns), 0);
    let mut doubled = patterns.clone();
    doubled.extend(patterns);
    assert_eq!(count_frequency(&doubled), 600);
}

#[test]
fn counting_twice_gives_the_same() {
    let patterns = vec![vec![0, 1], vec![0, 0], vec![0, 1], vec![0, 0], vec![0]];
    assert_eq!(count_frequency(&patterns), 4);
    assert_eq!(count_frequency(&patterns), count_frequency(&patterns));
}
