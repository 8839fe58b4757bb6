//! How often each letter occurs in a text or in the words of a dictionary.

use vstd::prelude::*;
use crate::codec::{is_encoded, LETTERS};
use crate::dict_tree::is_encoded_dict;

verus! {

/// How many entries of `text` are `letter`.
pub open spec fn occurrences(text: Seq<u8>, letter: u8) -> nat
    decreases text.len(),
{
    if text.len() == 0 {
        0
    } else {
        occurrences(text.drop_last(), letter) + if text.last() == letter {
            1nat
        } else {
            0nat
        }
    }
}

/// How many letters of the words of `dict` are `letter`.
pub open spec fn dict_occurrences(dict: Seq<Vec<u8>>, letter: u8) -> nat
    decreases dict.len(),
{
    if dict.len() == 0 {
        0
    } else {
        dict_occurrences(dict.drop_last(), letter) + occurrences(dict.last()@, letter)
    }
}

/// A letter occurs in a text no more often than the text has entries.
pub proof fn lemma_occurrences_bound(text: Seq<u8>, letter: u8)
    ensures
        occurrences(text, letter) <= text.len(),
    decreases text.len(),
{
    if text.len() > 0 {
        lemma_occurrences_bound(text.drop_last(), letter);
    }
}

/// Counts how often each letter occurs in the text: the entry at index
/// `letter` of the table is the number of its occurrences.
pub fn count_letters(string: &Vec<u8>) -> (table: Vec<usize>)
    requires
        is_encoded(string@),
    ensures
        table@.len() == LETTERS,
        forall|letter: u8|
            letter < LETTERS ==> (#[trigger] table@[letter as int]) == occurrences(
                string@,
                letter,
            ),
{
    let mut table: Vec<usize> = Vec::new();
    let mut l: u8 = 0;
    while l < LETTERS
        invariant
            l <= LETTERS,
            table@.len() == l,
            forall|k: int| 0 <= k < l ==> table@[k] == 0,
        decreases LETTERS - l,
    {
        table.push(0);
        l += 1;
    }
    let mut i: usize = 0;
    while i < string.len()
        invariant
            i <= string.len(),
            is_encoded(string@),
            table@.len() == LETTERS,
            forall|letter: u8|
                letter < LETTERS ==> (#[trigger] table@[letter as int]) == occurrences(
                    string@.take(i as int),
                    letter,
                ),
        decreases string.len() - i,
    {
        let index = string[i] as usize;
        proof {
            assert(string@.take(i + 1).drop_last() =~= string@.take(i as int));
            lemma_occurrences_bound(string@.take(i as int), string[i as int]);
        }
        let count = table[index] + 1;
        table.set(index, count);
        i += 1;
    }
    assert(string@.take(i as int) =~= string@);
    table
}

/// Counts how often each letter occurs in the words of the dictionary: the
/// entry at index `letter` of the table is the number of its occurrences.
pub fn count_dict_letters(dict: &Vec<Vec<u8>>) -> (table: Vec<u128>)
    requires
        is_encoded_dict(dict@),
    ensures
        table@.len() == LETTERS,
        forall|letter: u8|
            letter < LETTERS ==> (#[trigger] table@[letter as int]) == dict_occurrences(
                dict@,
                letter,
            ),
{
    let mut table: Vec<u128> = Vec::new();
    let mut l: u8 = 0;
    while l < LETTERS
        invariant
            l <= LETTERS,
            table@.len() == l,
            forall|k: int| 0 <= k < l ==> table@[k] == 0,
        decreases LETTERS - l,
    {
        table.push(0);
        l += 1;
    }
    let mut w: usize = 0;
    while w < dict.len()
        invariant
            w <= dict.len(),
            is_encoded_dict(dict@),
            table@.len() == LETTERS,
            forall|letter: u8|
                letter < LETTERS ==> (#[trigger] table@[letter as int]) == dict_occurrences(
                    dict@.take(w as int),
                    letter,
                ),
            forall|letter: u8|
                letter < LETTERS ==> (#[trigger] table@[letter as int]) <= w * usize::MAX,
        decreases dict.len() - w,
    {
        let counts = count_letters(&dict[w]);
        proof {
            assert(dict@.take(w + 1).drop_last() =~= dict@.take(w as int));
            assert(w * usize::MAX + usize::MAX == (w + 1) * usize::MAX) by (nonlinear_arith);
            assert((w + 1) * usize::MAX <= u128::MAX) by (nonlinear_arith)
                requires
                    w + 1 <= 0x1_0000_0000_0000_0000,
                    usize::MAX <= 0xffff_ffff_ffff_ffff,
                    u128::MAX == 0xffff_ffff_ffff_ffff_ffff_ffff_ffff_ffff,
            ;
        }
        let mut l: u8 = 0;
        let ghost before = table@;
        while l < LETTERS
            invariant
                l <= LETTERS,
                w < dict.len(),
                table@.len() == LETTERS,
                before.len() == LETTERS,
                counts@.len() == LETTERS,
                (w + 1) * usize::MAX <= u128::MAX,
                w * usize::MAX + usize::MAX == (w + 1) * usize::MAX,
                forall|letter: u8|
                    letter < LETTERS ==> (#[trigger] before[letter as int]) <= w * usize::MAX,
                forall|letter: u8|
                    letter < l ==> (#[trigger] table@[letter as int]) == before[letter as int]
                        + counts@[letter as int],
                forall|letter: u8|
                    l <= letter < LETTERS ==> (#[trigger] table@[letter as int])
                        == before[letter as int],
            decreases LETTERS - l,
        {
            let sum = table[l as usize] + counts[l as usize] as u128;
            table.set(l as usize, sum);
            l += 1;
        }
        w += 1;
    }
    assert(dict@.take(w as int) =~= dict@);
    table
}

} // verus!
