//! The fingerprint-based shared-substring search: window fingerprint sets,
//! pairwise overlap, the bisection over candidate lengths, and the
//! forbidden-fingerprint filter.

use string_processing::dev::convert_multiple_to_hashset;
use string_processing::dev::convert_to_hashset;
use string_processing::dev::find_second_to_longest;
use string_processing::dev::overlapping_hash;
use string_processing::filter::filter_forbidden_hash_multiple;
use string_processing::filter::filter_forbidden_hash_single;
use string_processing::filter::remove_substrings;
use string_processing::optimizer::SearchRange;
use string_processing::optimizer::length_and_hash_of_shared_substring;
use string_processing::optimizer::overlapping_hash_for_search_range;

#[test]
fn fingerprint_set_sizes() {
    let text = "abab".to_string();
    let set = convert_to_hashset(&text, 2);
    assert_eq!(set.len(), 2);

    let empty = convert_to_hashset(&text, 0);
    assert!(empty.is_empty());

    let too_wide = convert_to_hashset(&text, 5);
    assert!(too_wide.is_empty());
}

#[test]
fn fingerprint_sets_per_item() {
    let items = vec!["abcd".to_string(), "xy".to_string(), String::new()];
    let sets = convert_multiple_to_hashset(items.as_slice(), 3);
    assert_eq!(sets.len(), 3);
    assert_eq!(sets[0].len(), 2);
    assert!(sets[1].is_empty());
    assert!(sets[2].is_empty());
}

#[test]
fn overlapping_hash_finds_common_window() {
    let items = vec!["aaaa".to_string(), "zaaaa".to_string()];
    let sets = convert_multiple_to_hashset(items.as_slice(), 4);
    let common = overlapping_hash(sets);
    assert!(common.is_some());
}

#[test]
fn overlapping_hash_disjoint_sets() {
    let items = vec!["aaaa".to_string(), "bbbb".to_string()];
    let sets = convert_multiple_to_hashset(items.as_slice(), 3);
    assert!(overlapping_hash(sets).is_none());
}

#[test]
fn second_to_longest_length() {
    let items = vec!["aaaaa".to_string(), "bb".to_string(), "cccc".to_string()];
    assert_eq!(find_second_to_longest(items.as_slice()), 4);

    let ties = vec!["aaaaa".to_string(), "bbbbb".to_string()];
    assert_eq!(find_second_to_longest(ties.as_slice()), 5);

    let single = vec!["aaaaa".to_string()];
    assert_eq!(find_second_to_longest(single.as_slice()), 0);

    let none: Vec<String> = vec![];
    assert_eq!(find_second_to_longest(none.as_slice()), 0);
}

#[test]
fn search_range_bisection_steps() {
    let mut range = SearchRange::from_maximum(2, 10);
    assert_eq!(range.low, 2);
    assert_eq!(range.high, 11);
    assert_eq!(range.midpoint(), 6);
    assert!(!range.is_finished());

    range.update(true);
    assert_eq!(range.low, 6);
    assert_eq!(range.best_estimate, Some(6));

    range.update(false);
    assert_eq!(range.high, 8);
    assert_eq!(range.best_estimate, Some(6));
}

#[test]
fn search_range_from_collection_uses_second_longest() {
    let items = vec!["aaaaaaaa".to_string(), "bbbbbb".to_string()];
    let range = SearchRange::from_collection(2, items.as_slice());
    assert_eq!(range.low, 2);
    assert_eq!(range.high, 6);
    assert_eq!(range.best_estimate, None);
}

#[test]
fn probe_search_range_for_overlap() {
    let items = vec!["shared words here".to_string(), "shared words there".to_string()];
    let range = SearchRange::from_maximum(4, 8);
    let hit = overlapping_hash_for_search_range(items.as_slice(), &range);
    assert!(hit.is_some());
}

#[test]
fn shared_substring_found_and_bounded() {
    let items = vec!["aaaaaaa".to_string(), "aaaaaaa".to_string()];
    let found = length_and_hash_of_shared_substring(2, None, items.as_slice());
    let (size, _) = found.unwrap();
    assert!(size >= 2);
    assert!(size <= 7);
}

#[test]
fn no_shared_substring_found() {
    let items = vec!["abc".to_string(), "xyz".to_string()];
    assert!(length_and_hash_of_shared_substring(2, None, items.as_slice()).is_none());
}

#[test]
fn filter_single_degenerate_widths() {
    let text = "hello".to_string();
    assert_eq!(filter_forbidden_hash_single(&text, 0, 42), Some("hello".to_string()));
    assert_eq!(filter_forbidden_hash_single(&text, 9, 42), Some("hello".to_string()));
}

#[test]
fn filter_single_deletes_matching_spans() {
    // obtain the fingerprint of "aaaa" from an overlap of two texts
    let items = vec!["aaaa".to_string(), "zaaaa".to_string()];
    let sets = convert_multiple_to_hashset(items.as_slice(), 4);
    let forbidden = overlapping_hash(sets).unwrap();

    let text = "xxaaaayy".to_string();
    let filtered = filter_forbidden_hash_single(&text, 4, forbidden);
    assert_eq!(filtered, Some("xxyy".to_string()));

    let untouched = "xxbbbbyy".to_string();
    assert_eq!(filter_forbidden_hash_single(&untouched, 4, forbidden), Some(untouched.clone()));
}

#[test]
fn filter_multiple_keeps_order() {
    let items = vec!["aaaa".to_string(), "zaaaa".to_string()];
    let sets = convert_multiple_to_hashset(items.as_slice(), 4);
    let forbidden = overlapping_hash(sets).unwrap();

    let batch = vec!["xxaaaayy".to_string(), "nothing".to_string()];
    let filtered = filter_forbidden_hash_multiple(batch, 4, forbidden).unwrap();
    assert_eq!(filtered, vec!["xxyy".to_string(), "nothing".to_string()]);
}

#[test]
fn filter_single_reports_conversion_failure() {
    // "αaaa" and "ѱaaa" share exactly one 4-byte window: the low byte of the
    // multibyte character followed by "aaa"
    let items = vec!["αaaa".to_string(), "ѱaaa".to_string()];
    let sets = convert_multiple_to_hashset(items.as_slice(), 4);
    let forbidden = overlapping_hash(sets).unwrap();

    // deleting that window out of "αaaaz" strands the character's leading
    // byte, so the remainder is no longer valid UTF-8
    let text = "αaaaz".to_string();
    assert_eq!(filter_forbidden_hash_single(&text, 4, forbidden), None);

    let batch = vec!["plain".to_string(), text];
    assert_eq!(filter_forbidden_hash_multiple(batch, 4, forbidden), None);
}

#[test]
fn remove_substrings_without_overlap() {
    let strings = vec!["aaaaaaaaaa".to_string(), "bbbbbbbbbb".to_string()];
    let result = remove_substrings(strings.clone(), 3).unwrap();
    assert_eq!(result, strings);
}

#[test]
fn remove_substrings_with_overlap() {
    let strings = vec!["ccccc_SHARED_SPAN_TEXT".to_string(), "ddddd_SHARED_SPAN_TEXT".to_string()];
    let result = remove_substrings(strings.clone(), 4).unwrap();
    assert_eq!(result.len(), 2);
    assert!(result[0].len() < strings[0].len());
    assert!(result[1].len() < strings[1].len());
}
