use stock_watch::occurrences::{count_occurrences, matches_at};

#[test]
fn pattern_absent_counts_zero() {
    assert_eq!(count_occurrences(b"in stock", b"OUT_OF_STOCK"), 0);
}

#[test]
fn single_occurrence_counts_one() {
    assert_eq!(count_occurrences(b"<b>OUT_OF_STOCK</b>", b"OUT_OF_STOCK"), 1);
}

#[test]
fn overlapping_candidates_count_once() {
    // "aa" stands at index 0 and at index 1 of "aaa"; the scan resumes
    // behind the first, so the second is not counted.
    assert_eq!(count_occurrences(b"aaa", b"aa"), 1);
}

#[test]
fn adjacent_occurrences_are_all_counted() {
    assert_eq!(count_occurrences(b"aaaa", b"aa"), 2);
    assert_eq!(count_occurrences(b"aaaaa", b"aa"), 2);
    assert_eq!(count_occurrences(b"abababab", b"abab"), 2);
}

#[test]
fn scan_takes_the_leftmost_occurrence() {
    // Of "aba" at 0 and at 2 only the left one is counted; "aba" at 4 follows.
    assert_eq!(count_occurrences(b"abababa", b"aba"), 2);
}

#[test]
fn matching_is_case_sensitive() {
    assert_eq!(count_occurrences(b"Out_Of_Stock out_of_stock", b"OUT_OF_STOCK"), 0);
    assert_eq!(count_occurrences(b"Wycofany wycofany WYCOFANY", b"Wycofany"), 1);
}

#[test]
fn pattern_is_literal_not_a_regular_expression() {
    assert_eq!(count_occurrences(b"abc", b"a.c"), 0);
    assert_eq!(count_occurrences(b"a.c a.c", b"a.c"), 2);
    assert_eq!(count_occurrences(b"{\"items_ids\":[]}", b"[]"), 1);
}

#[test]
fn empty_pattern_is_counted_nowhere() {
    assert_eq!(count_occurrences(b"abc", b""), 0);
    assert_eq!(count_occurrences(b"", b""), 0);
}

#[test]
fn pattern_longer_than_content_counts_zero() {
    assert_eq!(count_occurrences(b"ab", b"abc"), 0);
    assert_eq!(count_occurrences(b"", b"a"), 0);
}

#[test]
fn content_equal_to_pattern_counts_one() {
    assert_eq!(count_occurrences(b"UNPUBLISHED", b"UNPUBLISHED"), 1);
}

#[test]
fn occurrence_at_the_very_end_is_counted() {
    assert_eq!(count_occurrences(b"xxab", b"ab"), 1);
    assert_eq!(count_occurrences(b"abxxab", b"ab"), 2);
}

#[test]
fn multi_byte_text_is_matched_byte_for_byte() {
    let content = "Produkt niedostępny. Inny produkt też niedostępny.";
    assert_eq!(count_occurrences(content.as_bytes(), "niedostępny".as_bytes()), 2);
    assert_eq!(count_occurrences(content.as_bytes(), "niedostepny".as_bytes()), 0);
}

#[test]
fn count_agrees_with_the_disjoint_matches_of_the_standard_library() {
    let cases = [
        ("aaa", "aa"),
        ("aaaaaaa", "aaa"),
        ("abcabcabc", "bca"),
        ("status: \"9\" status: \"9\"", "status: \"9\""),
        ("", "x"),
        ("mississippi", "issi"),
        ("mississippi", "ss"),
    ];
    for (content, pattern) in cases {
        assert_eq!(
            count_occurrences(content.as_bytes(), pattern.as_bytes()),
            content.matches(pattern).count()
        );
    }
}

#[test]
fn matches_at_compares_the_window() {
    assert!(matches_at(b"hello", b"ell", 1));
    assert!(!matches_at(b"hello", b"ell", 0));
    assert!(matches_at(b"hello", b"", 5));
    assert!(matches_at(b"hello", b"hello", 0));
}

#[test]
fn matches_at_finds_nothing_beyond_the_end() {
    assert!(!matches_at(b"hello", b"lo!", 3));
    assert!(!matches_at(b"hello", b"hello!", 0));
    assert!(!matches_at(b"hello", b"o", 5));
    assert!(!matches_at(b"hello", b"", 6));
    assert!(!matches_at(b"hello", b"h", usize::MAX));
    assert!(!matches_at(b"", b"a", 0));
    assert!(matches_at(b"", b"", 0));
}
