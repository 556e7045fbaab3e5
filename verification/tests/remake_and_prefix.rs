//! The character-comparison variant and the prefix trimmer.

use string_processing::prefix_removal::remove_shared_prefix;
use string_processing::remake::clean_vector_of_strings;
use string_processing::remake::get_largest_overlapping_sub_string;
use string_processing::remake::remove_overlap_from_left_string;

#[test]
fn first_test() {
    let shared = "xxxxxxx";
    let string_a = shared.to_string() + "aaaa";
    let string_b = shared.to_string() + "bbbb";

    let output = get_largest_overlapping_sub_string(&string_a, &string_b, 3);
    println!("{}", output);
}

#[test]
fn second_test() {
    let shared = "xxx";
    let string_a = shared.to_string() + "aaaa" + shared;
    let string_b = shared.to_string() + "bbbb";
    let output = remove_overlap_from_left_string(string_a, &string_b, 3);
    println!("{}", output);
}

#[test]
fn third_test() {
    let shared = "xxx";
    let vec = vec![
        shared.to_string() + "aaa" + shared,
        "bbb".to_string() + shared,
        "ccc".to_string() + shared,
    ];
    let output_vec = clean_vector_of_strings(vec, 2);
    println!("{:?}", output_vec);
}

#[test]
fn prefix_removal() {
    let string_vec: Vec<String> = vec![
        "aaaaaaaacccc".to_owned(),
        "aaaaaaaabbbb".to_owned(),
        "aaaaaaaaddddd".to_owned(),
    ];
    let clean_string = remove_shared_prefix(string_vec, 4);
    assert_eq!(
        vec!["cccc".to_owned(), "bbbb".to_owned(), "aaaaaaaaddddd".to_owned()],
        clean_string
    );
}

#[test]
fn largest_overlap_is_the_shared_run() {
    let string_a = "xxxxxxxaaaa".to_string();
    let string_b = "xxxxxxxbbbb".to_string();
    let output = get_largest_overlapping_sub_string(&string_a, &string_b, 3);
    assert_eq!(output, "xxxxxxx".to_string());
}

#[test]
fn no_overlap_returns_empty() {
    let string_a = "aaaa".to_string();
    let string_b = "bbbb".to_string();
    let output = get_largest_overlapping_sub_string(&string_a, &string_b, 2);
    assert_eq!(output, String::new());
}

#[test]
fn overlap_cut_from_left_string() {
    let string_a = "xxxaaaaxxx".to_string();
    let string_b = "xxxbbbb".to_string();
    let output = remove_overlap_from_left_string(string_a, &string_b, 3);
    assert_eq!(output, "aaaa".to_string());
}

#[test]
fn left_string_without_overlap_unchanged() {
    let string_a = "aaaaaa".to_string();
    let string_b = "bbbbbb".to_string();
    let output = remove_overlap_from_left_string(string_a.clone(), &string_b, 3);
    assert_eq!(output, string_a);
}

#[test]
fn clean_vector_single_unchanged() {
    let vec = vec!["only one".to_string()];
    let output = clean_vector_of_strings(vec.clone(), 2);
    assert_eq!(output, vec);
}

#[test]
fn prefix_removal_without_shared_prefix() {
    let string_vec = vec!["abcdef".to_string(), "uvwxyz".to_string()];
    let output = remove_shared_prefix(string_vec.clone(), 3);
    assert_eq!(output, string_vec);
}

#[test]
fn prefix_removal_multibyte() {
    let string_vec = vec!["ααααcccc".to_string(), "ααααbbbb".to_string()];
    let output = remove_shared_prefix(string_vec, 4);
    assert_eq!(output[1], "ααααbbbb".to_string());
    assert!(output[0].ends_with("cccc"));
    assert!(output[0].chars().count() < 8);
}
