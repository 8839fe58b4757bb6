//! Word lists as JSON text, the form in which they are kept between runs.

use vstd::prelude::*;
use crate::dictionary::word_views;

verus! {

/// Why a word list could not be turned into JSON or read back from it.
#[derive(Debug, Clone, Copy, PartialEq, Eq)]
pub enum CacheError {
    /// Bytes could not be read or written.
    Io,
    /// The text is not JSON.
    Syntax,
    /// The text is JSON, but not a list of lists of small numbers.
    Data,
    /// The text ends too early.
    Eof,
}

/// The error type of the JSON library.
#[verifier::external_type_specification]
#[verifier::external_body]
pub struct ExJsonError(serde_json::Error);

/// The JSON text of a word list, as `serde_json::to_string` writes it.
pub uninterp spec fn json_text(dict: Seq<Seq<u8>>) -> Seq<char>;

/// The word list that JSON text holds, as `serde_json::from_slice` reads it,
/// and nothing where it does not read as a word list.
pub uninterp spec fn json_words(data: Seq<u8>) -> Option<Seq<Seq<u8>>>;

/// `serde_json::to_string`: serialises the value as a string of JSON. The
/// contract says that it succeeds on a word list, and gives the text that
/// it returns the name `json_text`. Its documentation names two ways to
/// fail: the value's way of serialising itself fails, or a map has a key
/// that is no string. A list of lists of bytes has no map, and serde
/// serialises a `Vec` and a `u8` by handing on what the serialiser returns,
/// whose only errors are those of its writer; the writer here is a
/// `Vec<u8>`, which takes every write by appending it.
#[verifier::external_body]
fn to_json(dict: &Vec<Vec<u8>>) -> (outcome: Result<String, serde_json::Error>)
    ensures
        outcome is Ok,
        outcome matches Ok(text) ==> text@ == json_text(word_views(dict@)),
{
    serde_json::to_string(dict)
}

/// `serde_json::from_slice`: deserialises a value from bytes of JSON text.
/// The contract gives what it returns for a word list the name
/// `json_words`: the list where it succeeds, nothing where it fails.
#[verifier::external_body]
fn from_json(data: &Vec<u8>) -> (outcome: Result<Vec<Vec<u8>>, serde_json::Error>)
    ensures
        outcome matches Ok(dict) ==> json_words(data@) == Some(word_views(dict@)),
        outcome is Err ==> json_words(data@) is None,
{
    serde_json::from_slice(data.as_slice())
}

/// `serde_json::Error::classify`: sorts the error into one of four
/// categories. The contract states nothing of the category.
#[verifier::external_body]
fn error_kind(error: &serde_json::Error) -> CacheError {
    match error.classify() {
        serde_json::error::Category::Io => CacheError::Io,
        serde_json::error::Category::Syntax => CacheError::Syntax,
        serde_json::error::Category::Data => CacheError::Data,
        serde_json::error::Category::Eof => CacheError::Eof,
    }
}

/// Hands on what the JSON library returned, with its error replaced by the
/// kind of the error.
pub fn checked<T>(outcome: Result<T, serde_json::Error>) -> (result: Result<T, CacheError>)
    ensures
        outcome matches Ok(value) ==> result == Ok::<T, CacheError>(value),
        outcome is Err ==> result is Err,
{
    match outcome {
        Ok(value) => Ok(value),
        Err(error) => Err(error_kind(&error)),
    }
}

/// Writes a word list as JSON text. A word list can always be written.
pub fn dict_to_json(dict: &Vec<Vec<u8>>) -> (result: Result<String, CacheError>)
    ensures
        result is Ok,
        result matches Ok(text) ==> text@ == json_text(word_views(dict@)),
{
    checked(to_json(dict))
}

/// Reads a word list from JSON text: the list where the text holds one, and
/// an error where it does not.
pub fn dict_from_json(data: &Vec<u8>) -> (result: Result<Vec<Vec<u8>>, CacheError>)
    ensures
        result is Ok <==> json_words(data@) is Some,
        result matches Ok(dict) ==> json_words(data@) == Some(word_views(dict@)),
{
    checked(from_json(data))
}

} // verus!
