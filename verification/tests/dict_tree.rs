use vigenere::dict_tree::DictTree;

#[test]
fn tree_holds_the_starts_of_its_words() {
    let tree = DictTree::new(&vec![vec![2, 0, 19], vec![2, 0, 17], vec![3, 14, 6]]);
    assert!(tree.contains(&vec![2]));
    assert!(tree.contains(&vec![2, 0]));
    assert!(tree.contains(&vec![2, 0, 19]));
    assert!(tree.contains(&vec![2, 0, 17]));
    assert!(tree.contains(&vec![3, 14, 6]));
    assert!(tree.contains(&vec![3, 14]));
}

#[test]
fn tree_holds_nothing_else() {
    let tree = DictTree::new(&vec![vec![2, 0, 19], vec![2, 0, 17], vec![3, 14, 6]]);
    assert!(!tree.contains(&vec![0]));
    assert!(!tree.contains(&vec![2, 1]));
    assert!(!tree.contains(&vec![2, 0, 18]));
    assert!(!tree.contains(&vec![2, 0, 19, 0]));
    assert!(!tree.contains(&vec![3, 14, 6, 18]));
    assert!(!tree.contains(&vec![19]));
    assert!(!tree.contains(&vec![25, 25]));
}

#[test]
fn empty_tree_holds_nothing() {
    let tree = DictTree::new(&vec![]);
    for letter in 0..26u8 {
        assert!(!tree.contains(&vec![letter]));
    }
    let tree = DictTree::new(&vec![vec![]]);
    for letter in 0..26u8 {
        assert!(!tree.contains(&vec![letter]));
    }
}

#[test]
fn tree_takes_every_letter() {
    let word: Vec<u8> = (0..26).collect();
    let tree = DictTree::new(&vec![word.clone(), vec![25, 0]]);
    for length in 1..=26 {
        assert!(tree.contains(&word[..length].to_vec()));
    }
    assert!(tree.contains(&vec![25]));
    assert!(tree.contains(&vec![25, 0]));
    assert!(!tree.contains(&vec![25, 1]));
}

#[test]
fn tree_takes_a_word_twice() {
    let tree = DictTree::new(&vec![vec![1, 2], vec![1, 2], vec![1]]);
    assert!(tree.contains(&vec![1]));
    assert!(tree.contains(&vec![1, 2]));
    assert!(!tree.contains(&vec![1, 2, 3]));
}

#[test]
fn tree_has_no_path_for_what_is_no_letter() {
    let tree = DictTree::new(&vec![vec![2, 0, 19]]);
    assert!(!tree.contains(&vec![26]));
    assert!(!tree.contains(&vec![255]));
    assert!(!tree.contains(&vec![2, 26]));
    assert!(!tree.contains(&vec![2, 0, 19, 200]));
    assert!(!tree.contains(&vec![7, 200]));
}
