use vigenere::attempt_order::AttemptOrder;

fn drain(key_length: usize, num_letters: usize) -> Vec<Vec<usize>> {
    let mut order = AttemptOrder::new(key_length, num_letters);
    let mut all = Vec::new();
    while let Some(combination) = order.next() {
        all.push(combination);
    }
    assert_eq!(order.next(), None);
    all
}

fn weight(combination: &Vec<usize>) -> usize {
    combination.iter().filter(|entry| **entry != 0).count()
}

fn binomial(n: u64, k: u64) -> u64 {
    if k > n {
        return 0;
    }
    let mut result = 1;
    for i in 0..k {
        result = result * (n - i) / (i + 1);
    }
    result
}

fn has_duplicates(all: &Vec<Vec<usize>>) -> bool {
    for i in 0..all.len() {
        for j in (i + 1)..all.len() {
            if all[i] == all[j] {
                return true;
            }
        }
    }
    false
}

#[test]
fn two_positions_three_letters_in_order() {
    let all = drain(2, 3);
    let expected: Vec<Vec<usize>> = vec![
        vec![0, 0],
        vec![1, 0],
        vec![0, 1],
        vec![2, 0],
        vec![0, 2],
        vec![1, 1],
        vec![1, 2],
        vec![1, 1],
        vec![2, 1],
    ];
    assert_eq!(all, expected);
}

#[test]
fn level_one_of_two_positions_three_letters() {
    let all = drain(2, 3);
    assert_eq!(all[1..5].to_vec(), vec![vec![1, 0], vec![0, 1], vec![2, 0], vec![0, 2]]);
}

#[test]
fn count_is_letters_to_the_power_of_length() {
    assert_eq!(drain(2, 4).len(), 16);
    assert_eq!(drain(3, 3).len(), 27);
    assert_eq!(drain(4, 2).len(), 16);
    assert_eq!(drain(1, 26).len(), 26);
    assert_eq!(drain(3, 5).len(), 125);
}

#[test]
fn every_vector_has_the_key_length_and_stays_in_the_alphabet() {
    for (key_length, num_letters) in [(2usize, 4usize), (3, 3), (4, 2), (1, 7), (3, 5)] {
        for combination in drain(key_length, num_letters) {
            assert_eq!(combination.len(), key_length);
            assert!(combination.iter().all(|entry| *entry < num_letters));
        }
    }
}

#[test]
fn one_position_covers_every_vector_once() {
    let all = drain(1, 5);
    assert_eq!(all, vec![vec![0], vec![1], vec![2], vec![3], vec![4]]);
    assert!(!has_duplicates(&all));
}

#[test]
fn two_positions_two_letters_cover_every_vector_once() {
    let all = drain(2, 2);
    assert_eq!(all, vec![vec![0, 0], vec![1, 0], vec![0, 1], vec![1, 1]]);
    assert!(!has_duplicates(&all));
    for first in 0..2usize {
        for second in 0..2usize {
            assert!(all.contains(&vec![first, second]));
        }
    }
}

#[test]
fn higher_levels_repeat_vectors() {
    let all = drain(2, 4);
    assert_eq!(
        all[7..].to_vec(),
        vec![
            vec![1, 1],
            vec![1, 2],
            vec![1, 3],
            vec![1, 1],
            vec![2, 1],
            vec![3, 1],
            vec![2, 1],
            vec![2, 2],
            vec![2, 3],
        ]
    );
    assert!(has_duplicates(&all));
}

#[test]
fn weight_never_falls_and_rises_by_one() {
    for (key_length, num_letters) in [(2usize, 3usize), (3, 4), (4, 3), (5, 2)] {
        let all = drain(key_length, num_letters);
        for pair in all.windows(2) {
            let before = weight(&pair[0]);
            let after = weight(&pair[1]);
            assert!(after == before || after == before + 1);
        }
        assert_eq!(weight(&all[0]), 0);
        assert_eq!(weight(&all[all.len() - 1]), key_length);
    }
}

#[test]
fn first_vector_is_the_baseline() {
    for (key_length, num_letters) in [(0usize, 0usize), (0, 5), (1, 2), (3, 1), (4, 0), (7, 26)] {
        let mut order = AttemptOrder::new(key_length, num_letters);
        assert_eq!(order.next(), Some(vec![0; key_length]));
    }
}

#[test]
fn each_level_has_its_size() {
    for (key_length, num_letters) in [(3u64, 4u64), (4, 3), (5, 2), (2, 6)] {
        let all = drain(key_length as usize, num_letters as usize);
        for level in 0..=key_length {
            let produced = all.iter().filter(|c| weight(c) as u64 == level).count() as u64;
            let expected = binomial(key_length, level) * (num_letters - 1).pow(level as u32);
            assert_eq!(produced, expected);
        }
    }
    let all = drain(3, 4);
    let sizes: Vec<usize> =
        (0..=3).map(|level| all.iter().filter(|c| weight(c) == level).count()).collect();
    assert_eq!(sizes, vec![1, 9, 27, 27]);
}

#[test]
fn last_vector_of_short_keys_and_small_alphabets_is_the_topmost() {
    assert_eq!(drain(1, 4).last(), Some(&vec![3]));
    assert_eq!(drain(1, 26).last(), Some(&vec![25]));
    assert_eq!(drain(3, 2).last(), Some(&vec![1, 1, 1]));
    assert_eq!(drain(5, 2).last(), Some(&vec![1, 1, 1, 1, 1]));
    assert_eq!(drain(4, 1).last(), Some(&vec![0, 0, 0, 0]));
    assert_eq!(drain(0, 9).last(), Some(&vec![]));
}

#[test]
fn last_vector_of_two_positions_three_letters() {
    assert_eq!(drain(2, 3).last(), Some(&vec![2, 1]));
    assert_eq!(drain(3, 3).last(), Some(&vec![1, 2, 2]));
}

#[test]
fn nothing_follows_the_last_vector() {
    let mut order = AttemptOrder::new(2, 2);
    for _ in 0..4 {
        assert!(order.next().is_some());
    }
    for _ in 0..5 {
        assert_eq!(order.next(), None);
    }
}

#[test]
fn equal_generators_give_equal_sequences() {
    let mut first = AttemptOrder::new(4, 5);
    let mut second = AttemptOrder::new(4, 5);
    for _ in 0..700 {
        assert_eq!(first.next(), second.next());
    }
}

#[test]
fn empty_key_has_one_empty_vector() {
    for num_letters in [0usize, 1, 2, 26] {
        let all = drain(0, num_letters);
        assert_eq!(all, vec![Vec::<usize>::new()]);
    }
}

#[test]
fn alphabet_without_alternatives_has_the_baseline_alone() {
    assert_eq!(drain(3, 1), vec![vec![0, 0, 0]]);
    assert_eq!(drain(3, 0), vec![vec![0, 0, 0]]);
    assert_eq!(drain(1, 1), vec![vec![0]]);
}

#[test]
fn two_letters_on_three_positions() {
    let all = drain(3, 2);
    assert_eq!(
        all,
        vec![
            vec![0, 0, 0],
            vec![1, 0, 0],
            vec![0, 1, 0],
            vec![0, 0, 1],
            vec![1, 1, 0],
            vec![1, 0, 1],
            vec![1, 1, 0],
            vec![1, 1, 1],
        ]
    );
}

#[test]
fn decode_reads_the_digits_of_the_index() {
    assert_eq!(AttemptOrder::decode(2, 3, 0, 0), vec![0, 0]);
    assert_eq!(AttemptOrder::decode(2, 3, 1, 3), vec![0, 2]);
    assert_eq!(AttemptOrder::decode(2, 3, 2, 3), vec![2, 1]);
    assert_eq!(AttemptOrder::decode(3, 26, 2, 100), vec![1, 0, 1]);
    assert_eq!(AttemptOrder::decode(3, 26, 2, 57), vec![0, 1, 4]);
    assert_eq!(AttemptOrder::decode(3, 26, 1, 74), vec![0, 0, 25]);
    assert_eq!(AttemptOrder::decode(3, 26, 3, 0), vec![1, 1, 1]);
    assert_eq!(AttemptOrder::decode(0, 26, 0, 0), Vec::<usize>::new());
    assert_eq!(AttemptOrder::decode(4, 0, 0, 0), vec![0, 0, 0, 0]);
}

#[test]
fn decode_wraps_the_first_digit() {
    assert_eq!(AttemptOrder::decode(2, 3, 2, 8), AttemptOrder::decode(2, 3, 2, 0));
    assert_eq!(AttemptOrder::decode(2, 3, 1, 4), AttemptOrder::decode(2, 3, 1, 0));
}

#[test]
fn generator_follows_decode() {
    let key_length = 3;
    let num_letters = 4;
    let mut order = AttemptOrder::new(key_length, num_letters);
    let sizes = [1u64, 9, 27, 27];
    for (level, size) in sizes.iter().enumerate() {
        for index in 0..*size {
            assert_eq!(
                order.next(),
                Some(AttemptOrder::decode(key_length, num_letters, level, index))
            );
        }
    }
    assert_eq!(order.next(), None);
}

#[test]
fn seven_positions_over_the_alphabet() {
    let mut order = AttemptOrder::new(7, 26);
    assert_eq!(order.next(), Some(vec![0, 0, 0, 0, 0, 0, 0]));
    assert_eq!(order.next(), Some(vec![1, 0, 0, 0, 0, 0, 0]));
    assert_eq!(order.next(), Some(vec![0, 1, 0, 0, 0, 0, 0]));
    for _ in 3..8 {
        order.next();
    }
    assert_eq!(order.next(), Some(vec![2, 0, 0, 0, 0, 0, 0]));
    for _ in 9..175 {
        order.next();
    }
    assert_eq!(order.next(), Some(vec![0, 0, 0, 0, 0, 0, 25]));
    assert_eq!(order.next(), Some(vec![1, 1, 0, 0, 0, 0, 0]));
    assert_eq!(order.next(), Some(vec![1, 0, 1, 0, 0, 0, 0]));
}

#[test]
fn supports_tells_whether_the_count_fits() {
    assert!(AttemptOrder::supports(7, 26));
    assert!(AttemptOrder::supports(13, 26));
    assert!(!AttemptOrder::supports(14, 26));
    assert!(AttemptOrder::supports(63, 2));
    assert!(!AttemptOrder::supports(64, 2));
    assert!(AttemptOrder::supports(1, usize::MAX));
    assert!(!AttemptOrder::supports(2, usize::MAX));
    assert!(AttemptOrder::supports(usize::MAX, 1));
    assert!(AttemptOrder::supports(usize::MAX, 0));
    assert!(AttemptOrder::supports(0, usize::MAX));
    assert!(!AttemptOrder::supports(usize::MAX, 2));
}

#[test]
fn try_new_refuses_what_does_not_fit() {
    assert!(AttemptOrder::try_new(64, 2).is_none());
    assert!(AttemptOrder::try_new(14, 26).is_none());
    let mut order = AttemptOrder::try_new(2, 3).unwrap();
    assert_eq!(order.next(), Some(vec![0, 0]));
    assert_eq!(order.next(), Some(vec![1, 0]));
}

#[test]
fn widest_supported_binary_key_starts() {
    let mut order = AttemptOrder::new(63, 2);
    assert_eq!(order.next(), Some(vec![0; 63]));
    for position in 0..63 {
        let mut expected = vec![0; 63];
        expected[position] = 1;
        assert_eq!(order.next(), Some(expected));
    }
    let mut expected = vec![0; 63];
    expected[0] = 1;
    expected[1] = 1;
    assert_eq!(order.next(), Some(expected));
}

/// The vector of an index, by the digit rule with the divisors written out.
fn by_digits(key_length: u128, num_letters: u128, level: u128, index: u128) -> Vec<usize> {
    let values = num_letters - 1;
    let mut open: Vec<usize> = (0..key_length as usize).collect();
    let mut vector = vec![0usize; key_length as usize];
    for slot in 1..=level {
        let rows = key_length - slot + 1;
        let mut divisor = 1u128;
        for later in (slot + 1)..=level {
            divisor *= (key_length - later + 1) * values;
        }
        let digit = (index / divisor) % (rows * values);
        let position = open.remove((digit % rows) as usize);
        vector[position] = (digit / rows) as usize + 1;
    }
    vector
}

#[test]
fn decode_follows_the_digit_rule() {
    for (key_length, num_letters) in [(1u128, 2u128), (2, 3), (3, 4), (4, 3), (5, 2), (3, 26)] {
        for level in 1..=key_length {
            let mut radices = 1u128;
            for slot in 1..=level {
                radices *= (key_length - slot + 1) * (num_letters - 1);
            }
            let step = 1 + radices / 500;
            let mut index = 0;
            while index < radices + 3 {
                assert_eq!(
                    AttemptOrder::decode(
                        key_length as usize,
                        num_letters as usize,
                        level as usize,
                        index as u64
                    ),
                    by_digits(key_length, num_letters, level, index)
                );
                index += step;
            }
        }
    }
}

#[test]
fn decode_of_the_largest_index() {
    assert_eq!(
        AttemptOrder::decode(3, 26, 3, u64::MAX),
        by_digits(3, 26, 3, u64::MAX as u128)
    );
    assert_eq!(
        AttemptOrder::decode(13, 26, 13, u64::MAX),
        by_digits(13, 26, 13, u64::MAX as u128)
    );
}
