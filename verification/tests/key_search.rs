use vigenere::attempt_order::AttemptOrder;
use vigenere::cipher::{choose_key, decrypt_str, encrypt_str, stride};
use vigenere::codec::{decode, encode};
use vigenere::dict_tree::DictTree;
use vigenere::dictionary::check_attempt;
use vigenere::frequency::count_letters;
use vigenere::search::{find_key, searchable};

/// Ranks the key letters of one position: first those under which more of
/// the letters of `part` decrypt to one of the most common letters.
fn ranked_key_letters(part: &Vec<u8>) -> Vec<u8> {
    let table = count_letters(part);
    let common = [4usize, 19, 0];
    let mut letters: Vec<u8> = (0..26).collect();
    letters.sort_by_key(|key| {
        let hits: usize = common.iter().map(|plain| table[(plain + *key as usize) % 26]).sum();
        usize::MAX - hits
    });
    letters
}

/// Ranks the true key letter at `rank` and the other letters around it.
fn ranked_with(letter: u8, rank: usize) -> Vec<u8> {
    let mut ranked: Vec<u8> = (0..26).filter(|other| *other != letter).collect();
    ranked.insert(rank, letter);
    ranked
}

#[test]
fn find_key_returns_the_first_key_that_fits() {
    let plaintext = encode(&"attack at dawn and retreat at dusk".to_string());
    let key = encode(&"key".to_string());
    let ciphertext = encrypt_str(&plaintext, &key);
    let first_words = vec![encode(&"attack".to_string()), encode(&"defend".to_string())];
    let best_keys = vec![ranked_with(key[0], 0), ranked_with(key[1], 2), ranked_with(key[2], 0)];

    assert!(searchable(&ciphertext, &best_keys));
    let (found, attempt) = find_key(&ciphertext, &best_keys, &first_words).unwrap();
    assert_eq!(decode(&found), "key");
    assert_eq!(decode(&attempt), "attackatdawnandretreatatdusk");
}

#[test]
fn find_key_tries_in_the_order_of_the_generator() {
    let plaintext = encode(&"attack at dawn".to_string());
    let key = encode(&"key".to_string());
    let ciphertext = encrypt_str(&plaintext, &key);
    let first_words = vec![encode(&"attack".to_string())];
    let best_keys = vec![ranked_with(key[0], 3), ranked_with(key[1], 0), ranked_with(key[2], 1)];

    let mut order = AttemptOrder::new(3, 26);
    let mut expected = None;
    while let Some(combination) = order.next() {
        let candidate = choose_key(&best_keys, &combination);
        let attempt = decrypt_str(&ciphertext, &candidate);
        if check_attempt(&attempt, &first_words) {
            expected = Some((combination, candidate, attempt));
            break;
        }
    }
    let (combination, candidate, attempt) = expected.unwrap();
    assert_eq!(combination, vec![3, 0, 1]);
    assert_eq!(find_key(&ciphertext, &best_keys, &first_words), Some((candidate, attempt)));
}

#[test]
fn find_key_with_counted_letters() {
    let plaintext = encode(
        &"the enemy retreats at the eastern gate as the tide enters the estuary at ten".to_string(),
    );
    let key = encode(&"sea".to_string());
    let ciphertext = encrypt_str(&plaintext, &key);
    let first_words = vec![encode(&"the".to_string())];

    let mut best_keys: Vec<Vec<u8>> = Vec::new();
    for position in 0..key.len() {
        best_keys.push(ranked_key_letters(&stride(&ciphertext, key.len(), position)));
    }

    let (found, _) = find_key(&ciphertext, &best_keys, &first_words).unwrap();
    assert_eq!(decode(&found), "sea");
}

#[test]
fn find_key_finds_nothing_where_no_key_fits() {
    let ciphertext = vec![1, 2, 3, 4];
    let best_keys = vec![ranked_with(0, 0)];
    let first_words = vec![vec![0, 0, 0, 0]];
    assert_eq!(find_key(&ciphertext, &best_keys, &first_words), None);
    assert_eq!(find_key(&ciphertext, &best_keys, &vec![]), None);
}

#[test]
fn find_key_misses_a_key_that_the_order_leaves_out() {
    let plaintext = encode(&"zz".to_string());
    let ciphertext = encrypt_str(&plaintext, &vec![25, 25]);
    let best_keys = vec![ranked_with(25, 25), ranked_with(25, 25)];
    let first_words = vec![plaintext.clone()];
    let mut order = AttemptOrder::new(2, 26);
    let mut tried = false;
    while let Some(combination) = order.next() {
        tried = tried || combination == vec![25, 25];
    }
    assert!(!tried);
    assert_eq!(find_key(&ciphertext, &best_keys, &first_words), None);
}

#[test]
fn find_key_of_an_empty_ciphertext() {
    let first_words = vec![Vec::<u8>::new()];
    assert_eq!(find_key(&vec![], &vec![], &first_words), Some((vec![], vec![])));
    assert_eq!(find_key(&vec![], &vec![], &vec![vec![1]]), None);
}

#[test]
fn searchable_tells_what_find_key_needs() {
    let ranked: Vec<u8> = (0..26).collect();
    assert!(searchable(&vec![1, 2, 3], &vec![ranked.clone()]));
    assert!(searchable(&vec![], &vec![]));
    assert!(searchable(&vec![25], &vec![ranked.clone(); 13]));
    assert!(!searchable(&vec![25], &vec![ranked.clone(); 14]));
    assert!(!searchable(&vec![26], &vec![ranked.clone()]));
    assert!(!searchable(&vec![1], &vec![]));
    assert!(!searchable(&vec![1], &vec![vec![0, 1, 2]]));
    let mut beyond = ranked.clone();
    beyond[3] = 26;
    assert!(!searchable(&vec![1], &vec![ranked, beyond]));
}

#[test]
fn tree_agrees_with_check_attempt() {
    let first_words = vec![encode(&"attack".to_string()), encode(&"defend".to_string())];
    let tree = DictTree::new(&first_words);
    for text in ["attack", "defend", "attach", "retire"] {
        let attempt = encode(&text.to_string());
        assert_eq!(tree.contains(&attempt), check_attempt(&attempt, &first_words));
    }
}
