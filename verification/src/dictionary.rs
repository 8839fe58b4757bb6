//! Word lists: reading the words out of a text, keeping those of one
//! length, sorting them by length, and holding a decryption attempt against
//! the words that a plaintext may start with.

use vstd::prelude::*;
use vstd::utf8::encode_utf8;
use crate::codec::{chars_of, push_char};

verus! {

/// Whether `attempt` starts with the first letters of one of the words of
/// `first_word_dict`, as many letters as the first of the words has.
pub open spec fn matches_word(attempt: Seq<u8>, first_word_dict: Seq<Vec<u8>>) -> bool {
    exists|i: int|
        0 <= i < first_word_dict.len() && starts_alike(
            attempt,
            (#[trigger] first_word_dict[i])@,
            first_word_dict[0]@.len(),
        )
}

/// Whether `attempt` and `word` both have `length` letters or more and
/// agree in the first `length` of them.
pub open spec fn starts_alike(attempt: Seq<u8>, word: Seq<u8>, length: nat) -> bool {
    &&& length <= attempt.len()
    &&& length <= word.len()
    &&& attempt.take(length as int) == word.take(length as int)
}

/// Checks if an attempted decryption is a possible solution: if it starts
/// with one of the words that the plaintext may start with.
pub fn check_attempt(attempt: &Vec<u8>, first_word_dict: &Vec<Vec<u8>>) -> (possible: bool)
    ensures
        possible == matches_word(attempt@, first_word_dict@),
{
    if first_word_dict.len() == 0 {
        return false;
    }
    let first_word_length = first_word_dict[0].len();
    if attempt.len() < first_word_length {
        return false;
    }
    let mut w: usize = 0;
    while w < first_word_dict.len()
        invariant
            w <= first_word_dict.len(),
            first_word_dict.len() > 0,
            first_word_length == first_word_dict[0]@.len(),
            first_word_length <= attempt.len(),
            forall|k: int|
                0 <= k < w ==> !starts_alike(
                    attempt@,
                    (#[trigger] first_word_dict[k])@,
                    first_word_length as nat,
                ),
        decreases first_word_dict.len() - w,
    {
        let word = &first_word_dict[w];
        let mut word_possible = word.len() >= first_word_length;
        let mut i: usize = 0;
        while word_possible && i < first_word_length
            invariant
                i <= first_word_length,
                first_word_length <= attempt.len(),
                word_possible ==> first_word_length <= word.len(),
                word_possible ==> word@.take(i as int) == attempt@.take(i as int),
                !word_possible ==> !starts_alike(attempt@, word@, first_word_length as nat),
            decreases first_word_length - i + if word_possible { 1nat } else { 0nat },
        {
            let letter = word[i];
            if letter != attempt[i] {
                word_possible = false;
                assert(word@.take(first_word_length as int)[i as int] != attempt@.take(
                    first_word_length as int,
                )[i as int]);
            } else {
                proof {
                    let longer = word@.take(i + 1);
                    let other = attempt@.take(i + 1);
                    assert forall|k: int| 0 <= k < longer.len() implies longer[k] == other[k] by {
                        assert(k < i ==> longer[k] == word@.take(i as int)[k]);
                    }
                }
                i += 1;
            }
        }
        if word_possible {
            return true;
        }
        w += 1;
    }
    false
}

/// The number of bytes that `word` takes as text, as `str::len` gives it.
pub open spec fn byte_length(word: Seq<char>) -> usize {
    encode_utf8(word).len() as usize
}

/// Filters a dictionary to only include the words that take `length` bytes.
pub fn filter_dictionary(dict: &Vec<String>, length: usize) -> (kept: Vec<String>)
    ensures
        kept@ == dict@.filter(|word: String| byte_length(word@) == length),
{
    let mut kept: Vec<String> = Vec::new();
    let mut i: usize = 0;
    assert(dict@.take(0).filter(|word: String| byte_length(word@) == length) =~= Seq::empty())
        by {
        reveal(Seq::filter);
    }
    while i < dict.len()
        invariant
            i <= dict.len(),
            kept@ == dict@.take(i as int).filter(|word: String| byte_length(word@) == length),
        decreases dict.len() - i,
    {
        proof {
            reveal(Seq::filter);
            assert(dict@.take(i + 1).drop_last() =~= dict@.take(i as int));
        }
        if dict[i].as_str().len() == length {
            kept.push(dict[i].clone());
        }
        i += 1;
    }
    assert(dict@.take(i as int) =~= dict@);
    kept
}

/// Whether `letter` is white space, as `char::is_whitespace` tells it.
pub uninterp spec fn white_space(letter: char) -> bool;

/// `char::is_whitespace`: tells whether the character is white space as
/// Unicode defines it. The contract gives the answer the name `white_space`
/// and states nothing more of it.
#[verifier::external_body]
fn is_whitespace(letter: char) -> (space: bool)
    ensures
        space == white_space(letter),
{
    letter.is_whitespace()
}

/// The words that end within `text`, and the letters of the word that
/// `text` ends in, if it ends in one.
pub open spec fn scanned(text: Seq<char>) -> (Seq<Seq<char>>, Seq<char>)
    decreases text.len(),
{
    if text.len() == 0 {
        (Seq::empty(), Seq::empty())
    } else {
        let (found, run) = scanned(text.drop_last());
        if !white_space(text.last()) {
            (found, run.push(text.last()))
        } else if run.len() > 0 {
            (found.push(run), Seq::empty())
        } else {
            (found, run)
        }
    }
}

/// The words of `text`: its longest runs of letters that are not white
/// space, in order.
pub open spec fn words(text: Seq<char>) -> Seq<Seq<char>> {
    let (found, run) = scanned(text);
    if run.len() > 0 {
        found.push(run)
    } else {
        found
    }
}

/// The texts of `strings`, in order.
pub open spec fn texts(strings: Seq<String>) -> Seq<Seq<char>> {
    strings.map_values(|string: String| string@)
}

/// Reads the words of a dictionary out of its text, where white space
/// separates them.
pub fn get_dictionary(text: &str) -> (dict: Vec<String>)
    ensures
        texts(dict@) == words(text@),
{
    let letters = chars_of(text);
    let mut dict: Vec<String> = Vec::new();
    let mut run = String::new();
    let mut i: usize = 0;
    while i < letters.len()
        invariant
            i <= letters.len(),
            letters@ == text@,
            (texts(dict@), run@) == scanned(text@.take(i as int)),
        decreases letters.len() - i,
    {
        let letter = letters[i];
        proof {
            assert(text@.take(i + 1).drop_last() =~= text@.take(i as int));
        }
        if !is_whitespace(letter) {
            push_char(&mut run, letter);
        } else if !run.as_str().is_empty() {
            dict.push(run);
            run = String::new();
        }
        i += 1;
    }
    assert(text@.take(i as int) =~= text@);
    if !run.as_str().is_empty() {
        dict.push(run);
    }
    dict
}

/// The words of `dict`, as sequences of letters.
pub open spec fn word_views(dict: Seq<Vec<u8>>) -> Seq<Seq<u8>> {
    dict.map_values(|word: Vec<u8>| word@)
}

/// The number of groups that the words of `dict` are sorted into by length:
/// one for each length up to that of the longest word, and three at the
/// least.
pub open spec fn group_count(dict: Seq<Vec<u8>>) -> nat
    decreases dict.len(),
{
    if dict.len() == 0 {
        3
    } else {
        let before = group_count(dict.drop_last());
        if dict.last()@.len() >= before {
            dict.last()@.len() + 1
        } else {
            before
        }
    }
}

/// The words of `dict` that have `length` letters, in order.
pub open spec fn words_of_length(dict: Seq<Vec<u8>>, length: int) -> Seq<Seq<u8>> {
    word_views(dict).filter(|word: Seq<u8>| word.len() == length)
}

/// Sorts the words of a dictionary by their length: the group at index `n`
/// of the result holds the words of `n` letters, in their order in `dict`.
pub fn group_by_length(dict: &Vec<Vec<u8>>) -> (groups: Vec<Vec<Vec<u8>>>)
    requires
        forall|i: int| 0 <= i < dict.len() ==> (#[trigger] dict[i])@.len() < usize::MAX,
    ensures
        groups@.len() == group_count(dict@),
        forall|length: int|
            0 <= length < groups@.len() ==> word_views((#[trigger] groups@[length])@)
                == words_of_length(dict@, length),
{
    let mut groups: Vec<Vec<Vec<u8>>> = Vec::new();
    groups.push(Vec::new());
    groups.push(Vec::new());
    groups.push(Vec::new());
    let mut i: usize = 0;
    proof {
        reveal(Seq::filter);
        assert forall|length: int| 0 <= length < groups@.len() implies word_views(
            (#[trigger] groups@[length])@,
        ) == words_of_length(dict@.take(0), length) by {
            assert(groups@[length]@.len() == 0);
        }
    }
    while i < dict.len()
        invariant
            i <= dict.len(),
            forall|k: int| 0 <= k < dict.len() ==> (#[trigger] dict[k])@.len() < usize::MAX,
            groups@.len() == group_count(dict@.take(i as int)),
            forall|length: int|
                0 <= length < groups@.len() ==> word_views((#[trigger] groups@[length])@)
                    == words_of_length(dict@.take(i as int), length),
        decreases dict.len() - i,
    {
        let word = &dict[i];
        let len = word.len();
        let ghost done = dict@.take(i as int);
        let ghost more = dict@.take(i + 1);
        proof {
            reveal(Seq::filter);
            assert(more.drop_last() =~= done);
            assert(word_views(more).drop_last() =~= word_views(done));
        }
        while groups.len() <= len
            invariant
                len < usize::MAX,
                groups@.len() >= group_count(done),
                groups@.len() > group_count(done) ==> groups@.len() <= len + 1,
                forall|length: int|
                    0 <= length < groups@.len() ==> word_views((#[trigger] groups@[length])@)
                        == words_of_length(done, length),
            decreases len + 1 - groups.len(),
        {
            proof {
                lemma_no_longer_words(done, groups@.len() as int);
            }
            let ghost before = groups@;
            groups.push(Vec::new());
            assert forall|length: int| 0 <= length < groups@.len() implies word_views(
                (#[trigger] groups@[length])@,
            ) == words_of_length(done, length) by {
                assert(length < before.len() ==> groups@[length] == before[length]);
            }
        }
        let ghost before = groups@;
        let copy = word.clone();
        groups[len].push(copy);
        proof {
            assert forall|length: int| 0 <= length < groups@.len() implies word_views(
                (#[trigger] groups@[length])@,
            ) == words_of_length(more, length) by {
                assert(length != len ==> groups@[length] == before[length]);
            }
        }
        i += 1;
    }
    assert(dict@.take(i as int) =~= dict@);
    groups
}

/// A dictionary has no word as long as the number of its groups, or longer.
pub proof fn lemma_no_longer_words(dict: Seq<Vec<u8>>, length: int)
    requires
        length >= group_count(dict),
    ensures
        words_of_length(dict, length) == Seq::<Seq<u8>>::empty(),
    decreases dict.len(),
{
    reveal(Seq::filter);
    if dict.len() > 0 {
        lemma_no_longer_words(dict.drop_last(), length);
        assert(word_views(dict).drop_last() =~= word_views(dict.drop_last()));
    }
}

} // verus!
