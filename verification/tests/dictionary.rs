use vigenere::dictionary::{check_attempt, filter_dictionary, get_dictionary, group_by_length};

#[test]
fn check_attempt_finds_a_first_word() {
    let dict = vec![vec![2, 0, 19], vec![3, 14, 6]];
    assert!(check_attempt(&vec![3, 14, 6, 18, 0], &dict));
    assert!(check_attempt(&vec![2, 0, 19], &dict));
    assert!(!check_attempt(&vec![2, 0, 18, 3, 14, 6], &dict));
    assert!(!check_attempt(&vec![3, 14, 7], &dict));
}

#[test]
fn check_attempt_reads_as_many_letters_as_the_first_word_has() {
    let dict = vec![vec![2, 0], vec![3, 14, 6]];
    assert!(check_attempt(&vec![3, 14, 0], &dict));
    assert!(check_attempt(&vec![2, 0], &dict));
    assert!(!check_attempt(&vec![3, 15, 6], &dict));
    let dict = vec![vec![], vec![5]];
    assert!(check_attempt(&vec![], &dict));
    assert!(check_attempt(&vec![9, 9], &dict));
}

#[test]
fn filter_dictionary_keeps_one_length() {
    let dict: Vec<String> =
        ["a", "to", "be", "cat", "on", "house"].iter().map(|w| w.to_string()).collect();
    assert_eq!(filter_dictionary(&dict, 2), vec!["to", "be", "on"]);
    assert_eq!(filter_dictionary(&dict, 5), vec!["house"]);
    assert_eq!(filter_dictionary(&dict, 4), Vec::<String>::new());
    assert_eq!(filter_dictionary(&vec![], 1), Vec::<String>::new());
}

#[test]
fn filter_dictionary_counts_bytes() {
    let dict: Vec<String> = ["caf\u{e9}", "cafes", "cafe"].iter().map(|w| w.to_string()).collect();
    assert_eq!(filter_dictionary(&dict, 5), vec!["caf\u{e9}", "cafes"]);
    assert_eq!(filter_dictionary(&dict, 4), vec!["cafe"]);
}

#[test]
fn get_dictionary_splits_at_white_space() {
    assert_eq!(get_dictionary("one two\nthree"), vec!["one", "two", "three"]);
    assert_eq!(get_dictionary("  lead\t\ttrail \r\n"), vec!["lead", "trail"]);
    assert_eq!(get_dictionary(""), Vec::<String>::new());
    assert_eq!(get_dictionary(" \n\t "), Vec::<String>::new());
    assert_eq!(get_dictionary("single"), vec!["single"]);
    assert_eq!(get_dictionary("a\u{a0}b\u{2003}c"), vec!["a", "b", "c"]);
    assert_eq!(get_dictionary("it's x-ray"), vec!["it's", "x-ray"]);
}

#[test]
fn group_by_length_sorts_the_words() {
    let dict = vec![vec![1], vec![2, 3], vec![4], vec![5, 6, 7, 8], vec![9, 10]];
    let groups = group_by_length(&dict);
    let expected: Vec<Vec<Vec<u8>>> = vec![
        vec![],
        vec![vec![1], vec![4]],
        vec![vec![2, 3], vec![9, 10]],
        vec![],
        vec![vec![5, 6, 7, 8]],
    ];
    assert_eq!(groups, expected);
}

#[test]
fn group_by_length_has_three_groups_at_least() {
    let no_word: Vec<Vec<Vec<u8>>> = vec![vec![], vec![], vec![]];
    assert_eq!(group_by_length(&vec![]), no_word);
    let one_word: Vec<Vec<Vec<u8>>> = vec![vec![], vec![vec![7]], vec![]];
    assert_eq!(group_by_length(&vec![vec![7]]), one_word);
    let one_empty_word: Vec<Vec<Vec<u8>>> = vec![vec![vec![]], vec![], vec![]];
    assert_eq!(group_by_length(&vec![vec![]]), one_empty_word);
    assert_eq!(group_by_length(&vec![vec![1, 2, 3]]).len(), 4);
    assert_eq!(group_by_length(&vec![vec![0; 9], vec![1]]).len(), 10);
}

#[test]
fn check_attempt_without_words_finds_nothing() {
    assert!(!check_attempt(&vec![1, 2, 3], &vec![]));
    assert!(!check_attempt(&vec![], &vec![]));
}

#[test]
fn check_attempt_needs_as_many_letters_as_the_first_word_has() {
    let dict = vec![vec![2, 0, 19], vec![3, 14, 6]];
    assert!(!check_attempt(&vec![2, 0], &dict));
    assert!(!check_attempt(&vec![], &dict));
    let dict = vec![vec![2, 0, 19], vec![3, 14], vec![3, 14, 6]];
    assert!(!check_attempt(&vec![3, 14], &dict));
    assert!(check_attempt(&vec![3, 14, 6], &dict));
    assert!(!check_attempt(&vec![3, 14, 7], &dict));
}
