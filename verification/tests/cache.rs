use std::io::{Error, ErrorKind, Read};

use vigenere::cache::{checked, dict_from_json, dict_to_json, CacheError};

struct Unreadable;

impl Read for Unreadable {
    fn read(&mut self, _buffer: &mut [u8]) -> std::io::Result<usize> {
        Err(Error::new(ErrorKind::Other, "unreadable"))
    }
}

#[test]
fn dict_to_json_writes_nested_lists() {
    assert_eq!(dict_to_json(&vec![vec![1, 2], vec![3]]), Ok("[[1,2],[3]]".to_string()));
    assert_eq!(dict_to_json(&vec![]), Ok("[]".to_string()));
    assert_eq!(dict_to_json(&vec![vec![], vec![255]]), Ok("[[],[255]]".to_string()));
}

#[test]
fn dict_from_json_reads_nested_lists() {
    assert_eq!(dict_from_json(&b"[[1,2],[3]]".to_vec()), Ok(vec![vec![1, 2], vec![3]]));
    assert_eq!(dict_from_json(&b" [ [ 7 ] , [ ] ] ".to_vec()), Ok(vec![vec![7], vec![]]));
    assert_eq!(dict_from_json(&b"[]".to_vec()), Ok(vec![]));
}

#[test]
fn dict_from_json_undoes_dict_to_json() {
    let dict = vec![vec![2, 0, 19], vec![], vec![3, 14, 6]];
    let text = dict_to_json(&dict).unwrap();
    assert_eq!(dict_from_json(&text.into_bytes()), Ok(dict));
}

#[test]
fn dict_from_json_tells_the_kind_of_error() {
    assert_eq!(dict_from_json(&b"[[1,2".to_vec()), Err(CacheError::Eof));
    assert_eq!(dict_from_json(&b"".to_vec()), Err(CacheError::Eof));
    assert_eq!(dict_from_json(&b"x".to_vec()), Err(CacheError::Syntax));
    assert_eq!(dict_from_json(&b"[[1,2]] []".to_vec()), Err(CacheError::Syntax));
    assert_eq!(dict_from_json(&b"[[300]]".to_vec()), Err(CacheError::Data));
    assert_eq!(dict_from_json(&b"[1,2]".to_vec()), Err(CacheError::Data));
    assert_eq!(dict_from_json(&b"{\"a\": 1}".to_vec()), Err(CacheError::Data));
}

#[test]
fn checked_hands_on_a_value() {
    assert_eq!(checked(Ok::<u8, serde_json::Error>(7)), Ok(7));
    assert_eq!(
        checked(Ok::<String, serde_json::Error>("text".to_string())),
        Ok("text".to_string())
    );
}

#[test]
fn checked_replaces_an_error_by_its_kind() {
    let syntax = serde_json::from_str::<u8>("?").unwrap_err();
    assert_eq!(checked(Err::<u8, serde_json::Error>(syntax)), Err(CacheError::Syntax));
    let data = serde_json::from_str::<u8>("\"seven\"").unwrap_err();
    assert_eq!(checked(Err::<u8, serde_json::Error>(data)), Err(CacheError::Data));
    let eof = serde_json::from_str::<u8>("").unwrap_err();
    assert_eq!(checked(Err::<u8, serde_json::Error>(eof)), Err(CacheError::Eof));
}

#[test]
fn checked_tells_a_failure_to_read() {
    let io = serde_json::from_reader::<Unreadable, u8>(Unreadable).unwrap_err();
    assert_eq!(checked(Err::<u8, serde_json::Error>(io)), Err(CacheError::Io));
}

#[test]
fn dict_to_json_writes_every_byte() {
    let dict: Vec<Vec<u8>> = vec![(0..=255).collect(), vec![], vec![0; 1000]];
    let text = dict_to_json(&dict);
    assert!(text.is_ok());
    assert_eq!(dict_from_json(&text.unwrap().into_bytes()), Ok(dict));
}
