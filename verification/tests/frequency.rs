use vigenere::frequency::{count_dict_letters, count_letters};

#[test]
fn count_letters_counts_each_letter() {
    let table = count_letters(&vec![0, 1, 0, 25, 0, 1]);
    assert_eq!(table.len(), 26);
    assert_eq!(table[0], 3);
    assert_eq!(table[1], 2);
    assert_eq!(table[25], 1);
    assert_eq!(table.iter().sum::<usize>(), 6);
    assert_eq!(table[2], 0);
}

#[test]
fn count_letters_of_nothing() {
    assert_eq!(count_letters(&vec![]), vec![0; 26]);
}

#[test]
fn count_dict_letters_adds_up_the_words() {
    let table = count_dict_letters(&vec![vec![2, 0, 19], vec![], vec![2, 0, 17], vec![0]]);
    assert_eq!(table.len(), 26);
    assert_eq!(table[0], 3);
    assert_eq!(table[2], 2);
    assert_eq!(table[17], 1);
    assert_eq!(table[19], 1);
    assert_eq!(table.iter().sum::<u128>(), 7);
}

#[test]
fn count_dict_letters_of_nothing() {
    assert_eq!(count_dict_letters(&vec![]), vec![0; 26]);
}
