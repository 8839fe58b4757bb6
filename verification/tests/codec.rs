use vigenere::codec::{
    all_codes, all_or_nothing, chars_of, decode, decode_char, decode_str, encode, encode_char,
    encode_str, strip_message,
};

#[test]
fn encode_char_knows_both_cases() {
    assert_eq!(encode_char(&'a'), Some(0));
    assert_eq!(encode_char(&'z'), Some(25));
    assert_eq!(encode_char(&'A'), Some(0));
    assert_eq!(encode_char(&'Z'), Some(25));
    assert_eq!(encode_char(&'m'), Some(12));
    assert_eq!(encode_char(&'M'), Some(12));
}

#[test]
fn encode_char_refuses_what_is_no_letter() {
    assert_eq!(encode_char(&'0'), None);
    assert_eq!(encode_char(&'9'), None);
    assert_eq!(encode_char(&' '), None);
    assert_eq!(encode_char(&'`'), None);
    assert_eq!(encode_char(&'{'), None);
    assert_eq!(encode_char(&'@'), None);
    assert_eq!(encode_char(&'['), None);
    assert_eq!(encode_char(&'\u{e9}'), None);
    assert_eq!(encode_char(&'\u{212a}'), None);
}

#[test]
fn decode_char_gives_lower_case() {
    assert_eq!(decode_char(&0), Some('a'));
    assert_eq!(decode_char(&25), Some('z'));
    assert_eq!(decode_char(&7), Some('h'));
}

#[test]
fn decode_char_refuses_other_numbers() {
    assert_eq!(decode_char(&26), None);
    assert_eq!(decode_char(&100), None);
    assert_eq!(decode_char(&246), None);
    assert_eq!(decode_char(&255), None);
}

#[test]
fn decode_char_undoes_encode_char() {
    for letter in 'a'..='z' {
        let code = encode_char(&letter).unwrap();
        assert_eq!(decode_char(&code), Some(letter));
    }
}

#[test]
fn chars_of_keeps_every_character() {
    assert_eq!(chars_of("ab c"), vec!['a', 'b', ' ', 'c']);
    assert_eq!(chars_of(""), Vec::<char>::new());
    assert_eq!(chars_of("\u{e9}x"), vec!['\u{e9}', 'x']);
}

#[test]
fn encode_str_marks_what_is_no_letter() {
    assert_eq!(
        encode_str(&"aB c".to_string()),
        vec![Some(0), Some(1), None, Some(2)]
    );
    assert_eq!(encode_str(&String::new()), Vec::<Option<u8>>::new());
}

#[test]
fn all_or_nothing_needs_every_entry() {
    assert_eq!(all_or_nothing(&vec![Some(1), Some(2), Some(3)]), Some(vec![1, 2, 3]));
    assert_eq!(all_or_nothing(&vec![Some(1), None, Some(3)]), None);
    assert_eq!(all_or_nothing(&vec![None]), None);
    assert_eq!(all_or_nothing(&vec![]), Some(vec![]));
}

#[test]
fn decode_str_needs_every_number_in_range() {
    assert_eq!(decode_str(&vec![7, 4, 11, 11, 14]), Some("hello".to_string()));
    assert_eq!(decode_str(&vec![7, 4, 26]), None);
    assert_eq!(decode_str(&vec![]), Some(String::new()));
}

#[test]
fn decode_gives_the_letters() {
    assert_eq!(decode(&vec![22, 14, 17, 11, 3]), "world");
    assert_eq!(decode(&vec![]), "");
}

#[test]
fn strip_message_keeps_lower_case_letters() {
    assert_eq!(strip_message(&"Hello, World!".to_string()), "helloworld");
    assert_eq!(strip_message(&"ABC".to_string()), "abc");
    assert_eq!(strip_message(&"123 456".to_string()), "");
    assert_eq!(strip_message(&"caf\u{e9}".to_string()), "caf");
}

#[test]
fn strip_message_keeps_letters_that_lower_case_brings() {
    assert_eq!(strip_message(&"\u{212a}".to_string()), "k");
    assert_eq!(strip_message(&"\u{130}".to_string()), "i");
}

#[test]
fn encode_leaves_out_what_is_no_letter() {
    assert_eq!(encode(&"Hello".to_string()), vec![7, 4, 11, 11, 14]);
    assert_eq!(encode(&"a-b c!".to_string()), vec![0, 1, 2]);
    assert_eq!(encode(&"".to_string()), Vec::<u8>::new());
    assert_eq!(
        encode(&"VVVLZWWPBWHZDKBTXLDCGOTGTGRWAQWZSDHEMXLBELUMO".to_string()).len(),
        45
    );
}

#[test]
fn decode_undoes_encode() {
    let text = "thequickbrownfox".to_string();
    assert_eq!(decode(&encode(&text)), text);
}

#[test]
fn all_codes_tells_letter_codes_from_other_numbers() {
    assert!(all_codes(&vec![0, 25, 13]));
    assert!(all_codes(&vec![]));
    assert!(!all_codes(&vec![0, 26]));
    assert!(!all_codes(&vec![255]));
}
