//! The repeating-key substitution cipher on letter codes, and the pieces of
//! a key search that work on its texts.

use vstd::prelude::*;
use crate::codec::{is_encoded, LETTERS};

verus! {

/// The code that `input` becomes under the key letter `key`.
pub open spec fn shifted(input: u8, key: u8) -> u8 {
    ((input + key) % (LETTERS as int)) as u8
}

/// The code that became `input` under the key letter `key`.
pub open spec fn unshifted(input: u8, key: u8) -> u8 {
    ((input + LETTERS - key) % (LETTERS as int)) as u8
}

/// Whether each letter of `input`, added to the key letter that falls on it,
/// stays within a byte.
pub open spec fn can_encrypt(input: Seq<u8>, key: Seq<u8>) -> bool {
    input.len() > 0 ==> {
        &&& key.len() > 0
        &&& forall|i: int|
            0 <= i < input.len() ==> (#[trigger] input[i]) + key[i % (key.len() as int)]
                <= u8::MAX
    }
}

/// Whether each letter of `input`, raised by the number of letters, stays
/// within a byte and is no less than the key letter that falls on it.
pub open spec fn can_decrypt(input: Seq<u8>, key: Seq<u8>) -> bool {
    input.len() > 0 ==> {
        &&& key.len() > 0
        &&& forall|i: int|
            0 <= i < input.len() ==> {
                &&& key[i % (key.len() as int)] <= (#[trigger] input[i]) + LETTERS
                &&& input[i] + LETTERS <= u8::MAX
            }
    }
}

/// The text `input` encrypted under the repeated key `key`.
pub open spec fn encrypted(input: Seq<u8>, key: Seq<u8>) -> Seq<u8> {
    Seq::new(input.len(), |i: int| shifted(input[i], key[i % (key.len() as int)]))
}

/// The text `input` decrypted under the repeated key `key`.
pub open spec fn decrypted(input: Seq<u8>, key: Seq<u8>) -> Seq<u8> {
    Seq::new(input.len(), |i: int| unshifted(input[i], key[i % (key.len() as int)]))
}

/// Decrypting under the key that a text of letter codes was encrypted
/// under gives the text back.
pub proof fn lemma_decrypt_undoes_encrypt(input: Seq<u8>, key: Seq<u8>)
    requires
        is_encoded(input),
        is_encoded(key),
        input.len() > 0 ==> key.len() > 0,
    ensures
        can_encrypt(input, key),
        can_decrypt(encrypted(input, key), key),
        decrypted(encrypted(input, key), key) == input,
{
    let cipher = encrypted(input, key);
    assert forall|i: int| 0 <= i < input.len() implies (#[trigger] input[i]) < LETTERS && key[i
        % (key.len() as int)] < LETTERS by {
        vstd::arithmetic::div_mod::lemma_mod_pos_bound(i, key.len() as int);
    }
    assert forall|i: int| 0 <= i < cipher.len() implies unshifted(
        #[trigger] cipher[i],
        key[i % (key.len() as int)],
    ) == input[i] by {
        assert(input[i] < LETTERS);
    }
}

/// Encrypts one letter.
pub fn encrypt_char(input: &u8, key: &u8) -> (output: u8)
    requires
        *input + *key <= u8::MAX,
    ensures
        output == shifted(*input, *key),
        output < LETTERS,
{
    (*input + *key) % LETTERS
}

/// Decrypts one letter.
pub fn decrypt_char(input: &u8, key: &u8) -> (output: u8)
    requires
        *key <= *input + LETTERS <= u8::MAX,
    ensures
        output == unshifted(*input, *key),
        output < LETTERS,
{
    (*input + LETTERS - *key) % LETTERS
}

/// Encrypts a text, letter by letter, under the key repeated along it.
pub fn encrypt_str(input: &Vec<u8>, key: &Vec<u8>) -> (output: Vec<u8>)
    requires
        can_encrypt(input@, key@),
    ensures
        output@ == encrypted(input@, key@),
{
    let mut output: Vec<u8> = Vec::new();
    let mut i: usize = 0;
    while i < input.len()
        invariant
            i <= input.len(),
            can_encrypt(input@, key@),
            output@ == encrypted(input@, key@).take(i as int),
        decreases input.len() - i,
    {
        let letter = encrypt_char(&input[i], &key[i % key.len()]);
        output.push(letter);
        i += 1;
    }
    output
}

/// Decrypts a text, letter by letter, under the key repeated along it.
pub fn decrypt_str(input: &Vec<u8>, key: &Vec<u8>) -> (output: Vec<u8>)
    requires
        can_decrypt(input@, key@),
    ensures
        output@ == decrypted(input@, key@),
{
    let mut output: Vec<u8> = Vec::new();
    let mut i: usize = 0;
    while i < input.len()
        invariant
            i <= input.len(),
            can_decrypt(input@, key@),
            output@ == decrypted(input@, key@).take(i as int),
        decreases input.len() - i,
    {
        let letter = decrypt_char(&input[i], &key[i % key.len()]);
        output.push(letter);
        i += 1;
    }
    output
}

/// How many letters of a text of `length` letters fall on the places
/// `offset`, `offset + stride`, `offset + 2 * stride` and so on.
pub open spec fn stride_count(length: nat, stride: nat, offset: nat) -> nat {
    if offset >= length {
        0
    } else {
        ((length - offset + stride - 1) / (stride as int)) as nat
    }
}

/// The letters of `input` on which one key letter falls: those at the
/// places `offset`, `offset + stride`, `offset + 2 * stride` and so on.
pub open spec fn strided(input: Seq<u8>, stride: nat, offset: nat) -> Seq<u8> {
    Seq::new(stride_count(input.len(), stride, offset), |k: int| input[offset + k * stride])
}

/// Strides over a text and returns the letters that one letter of a
/// repeating key falls on.
pub fn stride(input: &Vec<u8>, step: usize, offset: usize) -> (output: Vec<u8>)
    requires
        step > 0,
    ensures
        output@ == strided(input@, step as nat, offset as nat),
{
    let mut output: Vec<u8> = Vec::new();
    let length = input.len();
    let mut i = offset;
    let ghost mut taken: nat = 0;
    let ghost count = stride_count(length as nat, step as nat, offset as nat);
    proof {
        lemma_stride_count(length as nat, step as nat, offset as nat, 0);
        assert(0 * step == 0) by (nonlinear_arith);
    }
    while i < length
        invariant_except_break
            i == offset + taken * step,
            i >= length ==> taken == count,
        invariant
            step > 0,
            length == input.len(),
            count == stride_count(length as nat, step as nat, offset as nat),
            output@.len() == taken,
            taken <= count,
            forall|k: int| 0 <= k < taken ==> #[trigger] output@[k] == input@[offset + k * step],
        ensures
            taken == count,
        decreases length - i,
    {
        output.push(input[i]);
        proof {
            lemma_stride_count(length as nat, step as nat, offset as nat, taken);
            lemma_stride_count(length as nat, step as nat, offset as nat, taken + 1);
            assert((taken + 1) * step == taken * step + step) by (nonlinear_arith);
            taken = taken + 1;
        }
        if step >= length - i {
            break ;
        }
        i += step;
    }
    output
}

/// The place `offset + taken * stride` lies in the text exactly while fewer
/// than `stride_count` letters have been taken.
pub proof fn lemma_stride_count(length: nat, stride: nat, offset: nat, taken: nat)
    requires
        stride > 0,
    ensures
        offset + taken * stride < length <==> taken < stride_count(length, stride, offset),
{
    if offset >= length {
        assert(taken * stride >= 0) by (nonlinear_arith);
    } else {
        let span = (length - offset + stride - 1) as int;
        let count = span / (stride as int);
        vstd::arithmetic::div_mod::lemma_fundamental_div_mod(span, stride as int);
        vstd::arithmetic::div_mod::lemma_mod_pos_bound(span, stride as int);
        assert(offset + taken * stride < length <==> taken < count) by (nonlinear_arith)
            requires
                span == stride * count + span % (stride as int),
                0 <= span % (stride as int) < stride,
                span == length - offset + stride - 1,
                stride > 0,
                offset < length,
        ;
    }
}

/// Whether `combination` picks, for each position of the key, one of the
/// letters that `best_keys` ranks for that position.
pub open spec fn can_choose(best_keys: Seq<Vec<u8>>, combination: Seq<usize>) -> bool {
    &&& combination.len() <= best_keys.len()
    &&& forall|i: int|
        0 <= i < combination.len() ==> (#[trigger] combination[i]) < best_keys[i]@.len()
}

/// The key that `combination` picks from the ranked letters: at each
/// position the letter whose rank is the entry of `combination` there.
pub open spec fn chosen_key(best_keys: Seq<Vec<u8>>, combination: Seq<usize>) -> Seq<u8> {
    Seq::new(combination.len(), |i: int| best_keys[i]@[combination[i] as int])
}

/// Gets a key from the ranked key letters and a combination of ranks.
pub fn choose_key(best_keys: &Vec<Vec<u8>>, combination: &Vec<usize>) -> (key: Vec<u8>)
    requires
        can_choose(best_keys@, combination@),
    ensures
        key@ == chosen_key(best_keys@, combination@),
{
    let mut key: Vec<u8> = Vec::new();
    let mut i: usize = 0;
    while i < combination.len()
        invariant
            i <= combination.len(),
            can_choose(best_keys@, combination@),
            key@ == chosen_key(best_keys@, combination@).take(i as int),
        decreases combination.len() - i,
    {
        let key_part = best_keys[i][combination[i]];
        key.push(key_part);
        i += 1;
    }
    key
}

} // verus!
