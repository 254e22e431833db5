use schmimmdee::search::simd_contains_pattern;
use schmimmdee::search::simd_find_str;

#[test]
fn find_locates_word_and_misses_absent_one() {
    assert_eq!(simd_find_str("hello world", "world"), Some(6));
    assert_eq!(simd_find_str("hello world", "xyz"), None);
}

#[test]
fn contains_empty_needle_in_any_haystack() {
    assert!(simd_contains_pattern(b"", b""));
    assert!(simd_contains_pattern(b"abc", b""));
}

#[test]
fn find_empty_needle_is_offset_zero() {
    assert_eq!(simd_find_str("", ""), Some(0));
    assert_eq!(simd_find_str("abc", ""), Some(0));
}

#[test]
fn contains_rejects_needle_longer_than_haystack() {
    assert!(!simd_contains_pattern(b"ab", b"abc"));
    assert_eq!(simd_find_str("ab", "abc"), None);
}

#[test]
fn single_byte_needle_in_chunk_and_in_tail() {
    let haystack = b"0123456789abcdefXtail";
    assert!(simd_contains_pattern(haystack, b"5"));
    assert!(simd_contains_pattern(haystack, b"l"));
    assert!(!simd_contains_pattern(haystack, b"z"));
    let text = "0123456789abcdefXtail";
    assert_eq!(simd_find_str(text, "5"), Some(5));
    assert_eq!(simd_find_str(text, "l"), Some(20));
    assert_eq!(simd_find_str(text, "z"), None);
}

#[test]
fn multi_byte_match_spanning_chunk_boundary() {
    let text = "aaaaaaaaaaaaaabcdefgh";
    assert_eq!(simd_find_str(text, "bcd"), Some(14));
    assert!(simd_contains_pattern(text.as_bytes(), b"bcd"));
}

#[test]
fn match_found_only_in_remainder_is_returned() {
    let text = "0123456789abcdefXYq";
    assert_eq!(simd_find_str(text, "Yq"), Some(17));
    assert!(simd_contains_pattern(text.as_bytes(), b"Yq"));
}

#[test]
fn find_returns_first_of_several_occurrences() {
    let text = "xxabxxxxxxxxxxxxxxabxxab";
    assert_eq!(simd_find_str(text, "ab"), Some(2));
}

#[test]
fn search_agrees_with_std_substring_search() {
    let haystacks = [
        "",
        "a",
        "path of exile, avx-512, banana",
        "the quick brown fox jumps over the lazy dog",
        "aaaaaaaaaaaaaaaaaaaaaaaaaaaaaaab",
    ];
    let needles = ["", "a", "ab", "fox", "banana", "lazy dog", "dogs", "aaab"];
    for haystack in haystacks {
        for needle in needles {
            assert_eq!(
                simd_contains_pattern(haystack.as_bytes(), needle.as_bytes()),
                haystack.contains(needle),
                "contains mismatch for {haystack:?} / {needle:?}"
            );
            assert_eq!(
                simd_find_str(haystack, needle),
                haystack.find(needle),
                "find mismatch for {haystack:?} / {needle:?}"
            );
        }
    }
}

#[test]
fn first_byte_prune_requires_full_confirmation() {
    let text = "abxabyabz";
    assert_eq!(simd_find_str(text, "abz"), Some(6));
    assert!(simd_contains_pattern(text.as_bytes(), b"abz"));
    assert!(!simd_contains_pattern(text.as_bytes(), b"abw"));
}
