//! The single-pass corpus deduplication: supervisors, the two-set duplicate
//! scan, and the batch transform end to end.

use std::collections::HashSet;

use string_processing::string_filter_rolling_hash::DeleteRange;
use string_processing::string_filter_rolling_hash::StringSupervisor;
use string_processing::string_filter_rolling_hash::clean_list_of_strings_single_pass;
use string_processing::string_filter_rolling_hash::track_first_and_second_occurrence_of_substring;

#[test]
fn clean_two_simple_strings_no_overlap() {
    let sub_string = "";
    let string_a = "aaaaaaaa";
    let string_b = "bbbbbbb";
    let strings: Vec<String> =
        vec![string_a.to_string() + sub_string, string_b.to_string() + sub_string];
    let clean_strings = clean_list_of_strings_single_pass(strings, 3);
    assert_eq!(clean_strings, vec![string_a.to_string(), string_b.to_string()]);
    println!("{:?}", clean_strings)
}

#[test]
fn clean_two_simple_strings_with_overlap() {
    let sub_string = "cccccd";
    let string_a = "aaaaaaaa";
    let string_b = "bbbbbbb";

    let mut sub_string_owned = sub_string.to_string();

    let byte_offsets: Vec<usize> = sub_string_owned.char_indices().map(|(i, _)| i).collect();

    sub_string_owned.drain(0..5);
    println!("{:?}", byte_offsets);

    let _ = (string_a, string_b);
}

#[test]
fn hash_vec_length_equals_none() {
    let string = "cccccc".to_string();
    let string_supervisor: StringSupervisor = StringSupervisor::from_string(string, 7);
    assert_eq!(string_supervisor.hash_vec.len(), 0);
}

#[test]
fn hash_vec_length_equals_one() {
    let string = "cccccc".to_string();
    let string_supervisor: StringSupervisor = StringSupervisor::from_string(string, 6);
    assert_eq!(string_supervisor.hash_vec.len(), 1);
}

#[test]
fn hash_vec_length_equals_two() {
    let string = "cccccc".to_string();
    let string_supervisor: StringSupervisor = StringSupervisor::from_string(string, 5);
    assert_eq!(string_supervisor.hash_vec.len(), 2);
}

#[test]
fn counting_occurrences_first_only() {
    let string_supervisor = StringSupervisor::from_string("hell".to_string(), 3);
    let mut first_set: HashSet<u64> = HashSet::new();
    let mut second_set: HashSet<u64> = HashSet::new();

    track_first_and_second_occurrence_of_substring(
        &mut first_set,
        &mut second_set,
        &string_supervisor,
    );
    assert_eq!(first_set, string_supervisor.complete_hashset);
    assert_ne!(second_set, first_set);
}

#[test]
fn counting_occurrences_first_and_second() {
    let example_string = "hell";
    let string_supervisor_1 = StringSupervisor::from_string(example_string.to_string(), 3);
    let string_supervisor_2 = StringSupervisor::from_string(example_string.to_string(), 3);
    let mut first_set: HashSet<u64> = HashSet::new();
    let mut second_set: HashSet<u64> = HashSet::new();

    track_first_and_second_occurrence_of_substring(
        &mut first_set,
        &mut second_set,
        &string_supervisor_1,
    );
    track_first_and_second_occurrence_of_substring(
        &mut first_set,
        &mut second_set,
        &string_supervisor_2,
    );

    assert_eq!(first_set, string_supervisor_1.complete_hashset);
    assert_eq!(second_set, first_set);
}

#[test]
fn debug2() {
    let string_supervisor = StringSupervisor::from_string("hell".to_string(), 3);
    assert_eq!(string_supervisor.hash_vec.len(), 2);
    println!("{:?}", string_supervisor);
}

#[test]
fn shared_prefix_window_removed() {
    let strings = vec!["xxxxxaaaa".to_string(), "xxxxxbbbb".to_string()];
    let cleaned = clean_list_of_strings_single_pass(strings, 5);
    assert_eq!(cleaned, vec!["aaaa".to_string(), "bbbb".to_string()]);
}

#[test]
fn single_document_unchanged() {
    for minimum_size in [0usize, 1, 2, 5, 100] {
        let strings = vec!["the only document".to_string()];
        let cleaned = clean_list_of_strings_single_pass(strings, minimum_size);
        assert_eq!(cleaned, vec!["the only document".to_string()]);
    }
}

#[test]
fn non_reducible_document_unchanged() {
    let strings = vec!["ab".to_string()];
    let cleaned = clean_list_of_strings_single_pass(strings, 5);
    assert_eq!(cleaned, vec!["ab".to_string()]);
}

#[test]
fn zero_minimum_size_unchanged() {
    let strings = vec!["same text".to_string(), "same text".to_string()];
    let cleaned = clean_list_of_strings_single_pass(strings.clone(), 0);
    assert_eq!(cleaned, strings);
}

#[test]
fn empty_corpus() {
    let strings: Vec<String> = vec![];
    let cleaned = clean_list_of_strings_single_pass(strings, 3);
    assert_eq!(cleaned, Vec::<String>::new());
}

#[test]
fn empty_document_passes_through() {
    let strings = vec![String::new(), "shared shared".to_string()];
    let cleaned = clean_list_of_strings_single_pass(strings, 3);
    assert_eq!(cleaned[0], "");
    assert_eq!(cleaned.len(), 2);
}

#[test]
fn multibyte_documents() {
    let strings = vec!["ααααβββ".to_string(), "ααααγγγ".to_string()];
    let cleaned = clean_list_of_strings_single_pass(strings, 4);
    assert_eq!(cleaned, vec!["βββ".to_string(), "γγγ".to_string()]);
}

#[test]
fn overlapping_duplicate_windows_merge() {
    // both documents hold the run "zzzzz"; its two length-4 windows overlap
    // and must be deleted once, not twice
    let strings = vec!["xxzzzzzyy".to_string(), "qqzzzzzww".to_string()];
    let cleaned = clean_list_of_strings_single_pass(strings, 4);
    assert_eq!(cleaned, vec!["xxyy".to_string(), "qqww".to_string()]);
}

#[test]
fn second_pass_changes_nothing_here() {
    let strings = vec!["xxxxxaaaa".to_string(), "xxxxxbbbb".to_string()];
    let once = clean_list_of_strings_single_pass(strings, 5);
    let twice = clean_list_of_strings_single_pass(once.clone(), 5);
    assert_eq!(once, twice);
}

#[test]
fn larger_threshold_removes_less() {
    let strings = vec!["xxxxxaaaa".to_string(), "xxxxxbbbb".to_string()];
    let narrow = clean_list_of_strings_single_pass(strings.clone(), 5);
    let wide = clean_list_of_strings_single_pass(strings, 6);
    for (w, n) in wide.iter().zip(narrow.iter()) {
        assert!(w.chars().count() >= n.chars().count());
    }
    assert_eq!(wide, vec!["xxxxxaaaa".to_string(), "xxxxxbbbb".to_string()]);
}

#[test]
fn duplicate_windows_collapse_in_hash_set() {
    let sv = StringSupervisor::from_string("aaaa".to_string(), 2);
    assert_eq!(sv.hash_vec.len(), 3);
    assert_eq!(sv.hash_vec[0], sv.hash_vec[1]);
    assert_eq!(sv.complete_hashset.len(), 1);
    assert_eq!(sv.distinct_hash_list.len(), 1);
}

#[test]
fn rolling_hash_moves_with_window() {
    let sv = StringSupervisor::from_string("abc".to_string(), 2);
    assert_eq!(sv.hash_vec.len(), 2);
    assert_ne!(sv.hash_vec[0], sv.hash_vec[1]);
}

#[test]
fn window_as_wide_as_the_document() {
    let strings = vec!["xxxxx".to_string(), "xxxxx".to_string()];
    let cleaned = clean_list_of_strings_single_pass(strings, 5);
    assert_eq!(cleaned, vec![String::new(), String::new()]);
}

#[test]
fn delete_range_holds_its_bounds() {
    let range = DeleteRange::new(2, 7);
    assert_eq!(range.start, 2);
    assert_eq!(range.end, 7);
}

#[test]
fn filter_range_merges_and_filters() {
    let mut sv_a = StringSupervisor::from_string("xxzzzzzyy".to_string(), 4);
    let sv_b = StringSupervisor::from_string("qqzzzzzww".to_string(), 4);
    let mut first: HashSet<u64> = HashSet::new();
    let mut second: HashSet<u64> = HashSet::new();
    track_first_and_second_occurrence_of_substring(&mut first, &mut second, &sv_a);
    track_first_and_second_occurrence_of_substring(&mut first, &mut second, &sv_b);

    let mask = sv_a.is_duplicate_mask(&second);
    assert_eq!(mask, vec![false, false, true, true, false, false]);

    let ranges = sv_a.filter_range(&second);
    assert_eq!(ranges.len(), 1);
    assert_eq!(ranges[0].start, 2);
    assert_eq!(ranges[0].end, 7);

    sv_a.filter_string_from_hashset(&second);
    assert_eq!(sv_a.base_string, "xxyy".to_string());
}
