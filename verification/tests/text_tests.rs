use patterns::{
    count_frequency, gather_patterns, generate_pattern, text_to_patterns, AlphabetRangeError,
    LineError,
};

#[test]
fn text_is_read_line_by_line() {
    assert_eq!(
        text_to_patterns("ABAB\nHHH\nXYZ"),
        Ok(vec![vec![0, 1, 0, 1], vec![0, 0, 0], vec![0, 1, 2]])
    );
}

#[test]
fn last_line_feed_ends_no_further_line() {
    assert_eq!(text_to_patterns("AB\nCC\n"), Ok(vec![vec![0, 1], vec![0, 0]]));
    assert_eq!(text_to_patterns("AB\nCC"), Ok(vec![vec![0, 1], vec![0, 0]]));
}

#[test]
fn empty_text_has_no_lines() {
    assert_eq!(text_to_patterns(""), Ok(vec![]));
}

#[test]
fn empty_lines_have_empty_patterns() {
    assert_eq!(text_to_patterns("\n"), Ok(vec![vec![]]));
    assert_eq!(text_to_patterns("\n\n"), Ok(vec![vec![], vec![]]));
    assert_eq!(text_to_patterns("A\n\nB"), Ok(vec![vec![0], vec![], vec![0]]));
}

#[test]
fn carriage_return_before_line_feed_is_no_symbol() {
    assert_eq!(text_to_patterns("AB\r\nCC\r\n"), Ok(vec![vec![0, 1], vec![0, 0]]));
    assert_eq!(text_to_patterns("AB\r"), Ok(vec![vec![0, 1]]));
    assert_eq!(text_to_patterns("\r\n"), Ok(vec![vec![]]));
}

#[test]
fn other_carriage_returns_are_symbols() {
    assert_eq!(text_to_patterns("A\rB\n"), Ok(vec![vec![0, 1, 2]]));
    assert_eq!(text_to_patterns("A\r\r\n"), Ok(vec![vec![0, 1]]));
    assert_eq!(text_to_patterns("\rA"), Ok(vec![vec![0, 1]]));
}

#[test]
fn first_bad_line_of_a_text_is_reported() {
    assert_eq!(
        text_to_patterns("AB\nC\u{e9}\nD\u{fc}"),
        Err(LineError { line: 1, error: AlphabetRangeError { index: 1, byte: 0xc3 } })
    );
    assert_eq!(
        text_to_patterns("\u{e9}"),
        Err(LineError { line: 0, error: AlphabetRangeError { index: 0, byte: 0xc3 } })
    );
}

#[test]
fn bad_line_after_empty_lines_is_numbered_with_them() {
    assert_eq!(
        text_to_patterns("\n\r\nAAB\u{20ac}\n"),
        Err(LineError { line: 2, error: AlphabetRangeError { index: 3, byte: 0xe2 } })
    );
}

#[test]
fn outcomes_give_their_patterns_in_order() {
    let outcomes = vec![Ok(vec![0, 1, 0, 1, 0, 1]), Ok(vec![]), Ok(vec![0, 0, 1, 2, 3, 4])];
    assert_eq!(
        gather_patterns(outcomes),
        Ok(vec![vec![0, 1, 0, 1, 0, 1], vec![], vec![0, 0, 1, 2, 3, 4]])
    );
    assert_eq!(gather_patterns(Vec::new()), Ok(vec![]));
}

#[test]
fn first_failed_outcome_fails_the_batch() {
    let first = AlphabetRangeError { index: 0, byte: 0xc3 };
    let second = AlphabetRangeError { index: 1, byte: 0xe2 };
    assert_eq!(
        gather_patterns(vec![Ok(vec![0, 1]), Err(first), Ok(vec![0]), Err(second)]),
        Err(LineError { line: 1, error: first })
    );
    assert_eq!(
        gather_patterns(vec![Ok(vec![0, 1]), Ok(vec![0]), Err(second)]),
        Err(LineError { line: 2, error: second })
    );
    assert_eq!(gather_patterns(vec![Err(second)]), Err(LineError { line: 0, error: second }));
}

#[test]
fn outcomes_of_lines_are_gathered() {
    let lines = ["AB", "\u{e9}", "CD", "E\u{e9}"];
    let outcomes: Vec<_> = lines.iter().map(|line| generate_pattern(line)).collect();
    assert_eq!(
        gather_patterns(outcomes),
        Err(LineError { line: 1, error: AlphabetRangeError { index: 0, byte: 0xc3 } })
    );
    let good: Vec<_> = ["A\nB", "CC"].iter().map(|line| generate_pattern(line)).collect();
    assert_eq!(gather_patterns(good), Ok(vec![vec![0, 1, 2], vec![0, 0]]));
}

#[test]
fn text_gives_what_its_lines_give() {
    let text = "LALALA\r\nHHRGOE\n\nXYZZY";
    let lines = ["LALALA", "HHRGOE", "", "XYZZY"];
    let expected: Vec<Vec<u8>> =
        lines.iter().map(|line| generate_pattern(line).unwrap()).collect();
    assert_eq!(text_to_patterns(text), Ok(expected));
}

#[test]
fn text_of_friendly_lines_is_counted() {
    let text = "LALALA\nXOXOXO\nGCGCGC\nHHHCCC\nBBBMMM\nEGONUH\nHHRGOE\n";
    let patterns = text_to_patterns(text).unwrap();
    assert_eq!(patterns.len(), 7);
    assert_eq!(count_frequency(&patterns), 5);
}

#[test]
fn long_text_keeps_the_order_of_its_lines() {
    let mut text = String::new();
    let mut expected: Vec<Vec<u8>> = Vec::new();
    for n in 0..2000usize {
        let length = n % 7;
        for k in 0..length {
            text.push(if k % 2 == 0 { 'A' } else { 'B' });
        }
        if n % 3 == 0 {
            text.push('\r');
        }
        text.push('\n');
        expected.push((0..length).map(|k| (k % 2) as u8).collect());
    }
    assert_eq!(text_to_patterns(&text), Ok(expected));
}
