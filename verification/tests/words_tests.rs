use schmimmdee::words::create_word_counts;

#[test]
fn word_counts_basic_text() {
    let counts = create_word_counts("Hello hello world");
    assert_eq!(counts.len(), 2);
    assert_eq!(counts[0].0, "hello");
    assert_eq!(counts[0].1, 2);
    assert_eq!(counts[1].0, "world");
    assert_eq!(counts[1].1, 1);
}

#[test]
fn word_counts_empty_and_whitespace_only() {
    assert!(create_word_counts("").is_empty());
    assert!(create_word_counts("   \t\n  ").is_empty());
}

#[test]
fn word_counts_lowercases_before_counting() {
    let counts = create_word_counts("AbC abc ABC");
    assert_eq!(counts.len(), 1);
    assert_eq!(counts[0].0, "abc");
    assert_eq!(counts[0].1, 3);
}

#[test]
fn word_counts_keeps_first_occurrence_order() {
    let counts = create_word_counts("b a c a b b");
    let keys: Vec<&str> = counts.iter().map(|(w, _)| w.as_str()).collect();
    assert_eq!(keys, ["b", "a", "c"]);
    let values: Vec<u32> = counts.iter().map(|&(_, c)| c).collect();
    assert_eq!(values, [3, 2, 1]);
}

#[test]
fn word_counts_splits_on_mixed_whitespace() {
    let counts = create_word_counts("one\ttwo\nthree  two");
    assert_eq!(counts.len(), 3);
    assert_eq!(counts[0], ("one".to_string(), 1));
    assert_eq!(counts[1], ("two".to_string(), 2));
    assert_eq!(counts[2], ("three".to_string(), 1));
}
