//! Letters as numbers: `a` to `z` are the codes 0 to 25, whatever the case.

use vstd::prelude::*;
use vstd::std_specs::iter::IteratorSpec;

verus! {

/// The number of letters, and so of codes.
pub const LETTERS: u8 = 26;

/// Whether every entry of `text` is the code of a letter.
pub open spec fn is_encoded(text: Seq<u8>) -> bool {
    forall|i: int| 0 <= i < text.len() ==> (#[trigger] text[i]) < LETTERS
}

/// The code of `letter`: its place in the alphabet where it is one of the 26
/// letters, in lower or upper case, and nothing otherwise.
pub open spec fn letter_code(letter: char) -> Option<u8> {
    if 'a' <= letter <= 'z' {
        Some((letter as int - 'a' as int) as u8)
    } else if 'A' <= letter <= 'Z' {
        Some((letter as int - 'A' as int) as u8)
    } else {
        None
    }
}

/// The lower-case letter that `code` stands for.
pub open spec fn code_letter(code: u8) -> char {
    ('a' as int + code as int) as char
}

/// Whether `letter` is one of `a` to `z`.
pub open spec fn is_lower_letter(letter: char) -> bool {
    'a' <= letter <= 'z'
}

/// The lower-case form of `text`, as `str::to_lowercase` gives it.
pub uninterp spec fn lowercase(text: Seq<char>) -> Seq<char>;

/// The codes of the letters that are left of `text` once it is in lower
/// case and everything but `a` to `z` is stripped out.
pub open spec fn encoding(text: Seq<char>) -> Seq<u8> {
    lowercase(text).filter(|letter: char| is_lower_letter(letter)).map_values(
        |letter: char| letter_code(letter)->0,
    )
}

/// The letter of a code has that code again.
pub proof fn lemma_letter_of_code(code: u8)
    requires
        code < LETTERS,
    ensures
        is_lower_letter(code_letter(code)),
        letter_code(code_letter(code)) == Some(code),
{
}

/// Encodes a character as a number 0 to 25 when it is one of `a` to `z` or
/// `A` to `Z`, and as nothing otherwise.
pub fn encode_char(message: &char) -> (code: Option<u8>)
    ensures
        code == letter_code(*message),
        code matches Some(number) ==> number < LETTERS,
{
    let letter = *message;
    if 'a' <= letter && letter <= 'z' {
        Some((letter as u32 - 'a' as u32) as u8)
    } else if 'A' <= letter && letter <= 'Z' {
        Some((letter as u32 - 'A' as u32) as u8)
    } else {
        None
    }
}

/// Decodes a number 0 to 25 as a character `a` to `z`, and any other number
/// as nothing.
pub fn decode_char(code: &u8) -> (letter: Option<char>)
    ensures
        *code < LETTERS ==> letter == Some(code_letter(*code)),
        *code >= LETTERS ==> letter is None,
{
    if *code < LETTERS {
        Some((97u8 + *code) as char)
    } else {
        None
    }
}

/// Tells whether every entry of the text is a letter code.
pub fn all_codes(text: &Vec<u8>) -> (all: bool)
    ensures
        all == is_encoded(text@),
{
    let mut i: usize = 0;
    while i < text.len()
        invariant
            i <= text.len(),
            is_encoded(text@.take(i as int)),
        decreases text.len() - i,
    {
        if text[i] >= LETTERS {
            return false;
        }
        i += 1;
        assert forall|k: int| 0 <= k < i implies (#[trigger] text@.take(i as int)[k]) < LETTERS by {
            assert(k < i - 1 ==> text@.take(i as int)[k] == text@.take(i - 1)[k]);
        }
    }
    assert(text@.take(i as int) =~= text@);
    true
}

/// `str::to_lowercase`: returns the lower-case equivalent of the text as a
/// new string. The contract gives the result the name `lowercase` and states
/// nothing more of it.
#[verifier::external_body]
fn to_lowercase(message: &String) -> (lowered: String)
    ensures
        lowered@ == lowercase(message@),
{
    message.to_lowercase()
}

/// `String::push`: appends the character to the end of the string.
#[verifier::external_body]
pub(crate) fn push_char(text: &mut String, letter: char)
    ensures
        final(text)@ == old(text)@.push(letter),
{
    text.push(letter)
}

/// The characters of `text`, in order.
pub fn chars_of(text: &str) -> (letters: Vec<char>)
    ensures
        letters@ == text@,
{
    let mut letters: Vec<char> = Vec::new();
    let mut rest = text.chars();
    let ghost mut seen: int = 0;
    proof {
        vstd::string::axiom_spec_iter(text);
    }
    loop
        invariant
            0 <= seen <= text@.len(),
            rest.remaining() == text@.skip(seen),
            letters@ == text@.take(seen),
        ensures
            letters@ == text@,
        decreases text@.len() - seen,
    {
        let ghost before = rest;
        match rest.next() {
            Some(letter) => {
                proof {
                    vstd::string::next_postcondition(&before, &rest, Some(letter));
                    seen = seen + 1;
                }
                letters.push(letter);
            },
            None => {
                proof {
                    vstd::string::next_postcondition(&before, &rest, None);
                }
                break ;
            },
        }
    }
    letters
}

/// Encodes each character of the message as `encode_char` does.
pub fn encode_str(message: &String) -> (codes: Vec<Option<u8>>)
    ensures
        codes@ == message@.map_values(|letter: char| letter_code(letter)),
{
    let letters = chars_of(message.as_str());
    let mut codes: Vec<Option<u8>> = Vec::new();
    let mut i: usize = 0;
    while i < letters.len()
        invariant
            i <= letters.len(),
            letters@ == message@,
            codes@ == message@.take(i as int).map_values(|letter: char| letter_code(letter)),
        decreases letters.len() - i,
    {
        let code = encode_char(&letters[i]);
        codes.push(code);
        i += 1;
    }
    codes
}

/// Turns the options inside out: the numbers where every entry holds one,
/// and nothing where any entry holds none.
pub fn all_or_nothing(input: &Vec<Option<u8>>) -> (output: Option<Vec<u8>>)
    ensures
        output is Some <==> forall|i: int| 0 <= i < input.len() ==> input[i] is Some,
        output matches Some(numbers) ==> numbers@ == input@.map_values(
            |entry: Option<u8>| entry->0,
        ),
{
    let mut numbers: Vec<u8> = Vec::new();
    let mut i: usize = 0;
    while i < input.len()
        invariant
            i <= input.len(),
            forall|k: int| 0 <= k < i ==> input[k] is Some,
            numbers@ == input@.take(i as int).map_values(|entry: Option<u8>| entry->0),
        decreases input.len() - i,
    {
        match input[i] {
            Some(number) => {
                numbers.push(number);
            },
            None => {
                return None;
            },
        }
        i += 1;
    }
    Some(numbers)
}

/// Decodes numbers 0 to 25 as a lower-case string, and gives nothing where
/// any number is out of that range.
pub fn decode_str(code: &Vec<u8>) -> (text: Option<String>)
    ensures
        text is Some <==> is_encoded(code@),
        text matches Some(letters) ==> letters@ == code@.map_values(
            |number: u8| code_letter(number),
        ),
{
    let mut letters = String::new();
    let mut i: usize = 0;
    while i < code.len()
        invariant
            i <= code.len(),
            is_encoded(code@.take(i as int)),
            letters@ == code@.take(i as int).map_values(|number: u8| code_letter(number)),
        decreases code.len() - i,
    {
        match decode_char(&code[i]) {
            Some(letter) => {
                push_char(&mut letters, letter);
            },
            None => {
                return None;
            },
        }
        i += 1;
    }
    assert(code@.take(i as int) =~= code@);
    Some(letters)
}

/// Decodes numbers 0 to 25 as a lower-case string.
pub fn decode(code: &Vec<u8>) -> (text: String)
    requires
        is_encoded(code@),
    ensures
        text@ == code@.map_values(|number: u8| code_letter(number)),
{
    match decode_str(code) {
        Some(text) => text,
        None => String::new(),
    }
}

/// Makes all characters lower case, then strips out those that are not one
/// of `a` to `z`.
pub fn strip_message(message: &String) -> (stripped: String)
    ensures
        stripped@ == lowercase(message@).filter(|letter: char| is_lower_letter(letter)),
{
    let lowered = to_lowercase(message);
    let letters = chars_of(lowered.as_str());
    let mut stripped = String::new();
    let mut i: usize = 0;
    assert(letters@.take(0).filter(|letter: char| is_lower_letter(letter)) =~= Seq::empty()) by {
        reveal(Seq::filter);
    }
    while i < letters.len()
        invariant
            i <= letters.len(),
            letters@ == lowercase(message@),
            stripped@ == letters@.take(i as int).filter(|letter: char| is_lower_letter(letter)),
        decreases letters.len() - i,
    {
        let letter = letters[i];
        proof {
            reveal(Seq::filter);
            assert(letters@.take(i + 1).drop_last() =~= letters@.take(i as int));
        }
        if 'a' <= letter && letter <= 'z' {
            push_char(&mut stripped, letter);
        }
        i += 1;
    }
    assert(letters@.take(i as int) =~= letters@);
    stripped
}

/// Encodes the letters of a message as numbers 0 to 25, whatever their case,
/// and leaves everything else out.
pub fn encode(message: &String) -> (codes: Vec<u8>)
    ensures
        codes@ == encoding(message@),
        is_encoded(codes@),
{
    let stripped = strip_message(message);
    let encoded = encode_str(&stripped);
    proof {
        assert forall|i: int| 0 <= i < encoded.len() implies encoded[i] is Some && encoded[i]->0
            < LETTERS by {
            lowercase(message@).lemma_filter_pred(|letter: char| is_lower_letter(letter), i);
        }
    }
    match all_or_nothing(&encoded) {
        Some(codes) => codes,
        None => Vec::new(),
    }
}

} // verus!
