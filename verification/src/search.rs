//! The key search: candidate keys are tried in the order of the
//! enumeration until one of them decrypts the ciphertext to a text that
//! starts with a word of the dictionary.

use vstd::prelude::*;
use crate::attempt_order::{supported, AttemptOrder};
use crate::cipher::{can_choose, can_decrypt, choose_key, chosen_key, decrypt_str, decrypted};
use crate::codec::{all_codes, is_encoded, LETTERS};
use crate::dict_tree::is_encoded_dict;
use crate::dictionary::{check_attempt, matches_word};
use crate::enumeration::{enumeration, lemma_weight_is_level};
use crate::mutation::within_alphabet;

verus! {

/// Whether a key can be searched for: the ciphertext and the ranked key
/// letters are letter codes, every position of the key has a letter for
/// each rank, a ciphertext that is not empty has a key of at least one
/// position, and the keys of that length can be counted.
pub open spec fn can_search(ciphertext: Seq<u8>, best_keys: Seq<Vec<u8>>) -> bool {
    &&& is_encoded(ciphertext)
    &&& is_encoded_dict(best_keys)
    &&& forall|i: int| 0 <= i < best_keys.len() ==> (#[trigger] best_keys[i])@.len() >= LETTERS
    &&& ciphertext.len() > 0 ==> best_keys.len() > 0
    &&& best_keys.len() <= usize::MAX
    &&& supported(best_keys.len() as usize, LETTERS as usize)
}

/// The combinations of ranks in the order in which the search tries them.
pub open spec fn tried(best_keys: Seq<Vec<u8>>) -> Seq<Seq<usize>> {
    enumeration(best_keys.len() as usize, LETTERS as usize)
}

/// Whether the key that `combination` picks decrypts the ciphertext to a
/// text that starts with a word of the dictionary.
pub open spec fn solves(
    ciphertext: Seq<u8>,
    best_keys: Seq<Vec<u8>>,
    first_word_dict: Seq<Vec<u8>>,
    combination: Seq<usize>,
) -> bool {
    matches_word(decrypted(ciphertext, chosen_key(best_keys, combination)), first_word_dict)
}

/// Whether the combination at `place` of the order of trial is the first
/// that solves.
pub open spec fn is_first_solution(
    ciphertext: Seq<u8>,
    best_keys: Seq<Vec<u8>>,
    first_word_dict: Seq<Vec<u8>>,
    place: int,
) -> bool {
    &&& 0 <= place < tried(best_keys).len()
    &&& solves(ciphertext, best_keys, first_word_dict, tried(best_keys)[place])
    &&& forall|earlier: int|
        0 <= earlier < place ==> !solves(
            ciphertext,
            best_keys,
            first_word_dict,
            #[trigger] tried(best_keys)[earlier],
        )
}

/// Every combination of the enumeration picks a key from the ranked
/// letters, and that key decrypts a ciphertext of letter codes.
pub proof fn lemma_tried_can_be_chosen(ciphertext: Seq<u8>, best_keys: Seq<Vec<u8>>, place: int)
    requires
        can_search(ciphertext, best_keys),
        0 <= place < tried(best_keys).len(),
    ensures
        can_choose(best_keys, tried(best_keys)[place]),
        chosen_key(best_keys, tried(best_keys)[place]).len() == best_keys.len(),
        is_encoded(chosen_key(best_keys, tried(best_keys)[place])),
        can_decrypt(ciphertext, chosen_key(best_keys, tried(best_keys)[place])),
{
    let combination = tried(best_keys)[place];
    let key = chosen_key(best_keys, combination);
    lemma_weight_is_level(best_keys.len() as usize, LETTERS as usize, place as nat);
    assert(within_alphabet(combination, LETTERS as usize));
    assert forall|i: int| 0 <= i < key.len() implies (#[trigger] key[i]) < LETTERS by {
        assert(combination[i] + 1 <= LETTERS);
        assert(is_encoded(best_keys[i]@));
    }
    if ciphertext.len() > 0 {
        assert forall|i: int| 0 <= i < ciphertext.len() implies key[i % (key.len() as int)] <= (
        #[trigger] ciphertext[i]) + LETTERS && ciphertext[i] + LETTERS <= u8::MAX by {
            vstd::arithmetic::div_mod::lemma_mod_pos_bound(i, key.len() as int);
            assert(key[i % (key.len() as int)] < LETTERS);
        }
    }
}

/// Tells whether a key can be searched for.
pub fn searchable(ciphertext: &Vec<u8>, best_keys: &Vec<Vec<u8>>) -> (ready: bool)
    ensures
        ready == can_search(ciphertext@, best_keys@),
{
    if !all_codes(ciphertext) {
        return false;
    }
    if ciphertext.len() > 0 && best_keys.len() == 0 {
        return false;
    }
    if !AttemptOrder::supports(best_keys.len(), LETTERS as usize) {
        return false;
    }
    let mut i: usize = 0;
    while i < best_keys.len()
        invariant
            i <= best_keys.len(),
            forall|k: int|
                0 <= k < i ==> is_encoded((#[trigger] best_keys[k])@) && best_keys[k]@.len()
                    >= LETTERS,
        decreases best_keys.len() - i,
    {
        if best_keys[i].len() < LETTERS as usize || !all_codes(&best_keys[i]) {
            return false;
        }
        i += 1;
    }
    true
}

/// Tries the keys that the combinations of ranks pick, from the most likely
/// on, and returns the first key whose decryption starts with a word of the
/// dictionary, together with that decryption; nothing where no key of the
/// enumeration does.
pub fn find_key(
    ciphertext: &Vec<u8>,
    best_keys: &Vec<Vec<u8>>,
    first_word_dict: &Vec<Vec<u8>>,
) -> (found: Option<(Vec<u8>, Vec<u8>)>)
    requires
        can_search(ciphertext@, best_keys@),
    ensures
        found is None <==> forall|place: int|
            0 <= place < tried(best_keys@).len() ==> !solves(
                ciphertext@,
                best_keys@,
                first_word_dict@,
                #[trigger] tried(best_keys@)[place],
            ),
        found matches Some((key, attempt)) ==> exists|place: int|
            {
                &&& is_first_solution(ciphertext@, best_keys@, first_word_dict@, place)
                &&& key@ == chosen_key(best_keys@, #[trigger] tried(best_keys@)[place])
                &&& attempt@ == decrypted(ciphertext@, key@)
            },
{
    let mut order = AttemptOrder::new(best_keys.len(), LETTERS as usize);
    loop
        invariant
            can_search(ciphertext@, best_keys@),
            order.key_length() == best_keys.len(),
            order.num_letters() == LETTERS,
            order.produced() <= tried(best_keys@).len(),
            forall|earlier: int|
                0 <= earlier < order.produced() ==> !solves(
                    ciphertext@,
                    best_keys@,
                    first_word_dict@,
                    #[trigger] tried(best_keys@)[earlier],
                ),
        decreases tried(best_keys@).len() - order.produced(),
    {
        let ghost place = order.produced() as int;
        match order.next() {
            None => {
                return None;
            },
            Some(combination) => {
                proof {
                    assert(combination@ == tried(best_keys@)[place]);
                    lemma_tried_can_be_chosen(ciphertext@, best_keys@, place);
                }
                let key = choose_key(best_keys, &combination);
                let attempt = decrypt_str(ciphertext, &key);
                if check_attempt(&attempt, first_word_dict) {
                    assert(is_first_solution(ciphertext@, best_keys@, first_word_dict@, place));
                    return Some((key, attempt));
                }
            },
        }
    }
}

} // verus!
