//! The generator of mutation vectors: it hands out every vector of the
//! enumeration once, in order, and holds no more than a cursor into it.

use vstd::prelude::*;
use crate::counting::{
    alternatives,
    binomial,
    lemma_binomial_step,
    lemma_level_size_positive,
    lemma_level_within_total,
    lemma_power_monotonic,
    lemma_power_of_one,
    lemma_total_count,
    level_size,
    level_start,
    power,
    total_count,
};
use crate::enumeration::{enumeration, lemma_enumeration_at, lemma_enumeration_len};
use crate::mutation::{
    all_positions,
    baseline,
    divisor,
    lemma_assigned_position,
    lemma_digit_halves,
    lemma_divisor_step,
    lemma_open_positions,
    lemma_partial_vector_len,
    mutation_vector,
    open_positions,
    partial_vector,
    radix,
    rows,
};

verus! {

/// Whether a generator can be made for a key of `key_length` positions over
/// an alphabet of `num_letters` symbols: the count of all vectors,
/// `num_letters` to the power of `key_length`, has to fit the 64-bit index.
/// An alphabet of fewer than two symbols allows the baseline alone, whatever
/// the key length.
pub open spec fn supported(key_length: usize, num_letters: usize) -> bool {
    num_letters < 2 || power(num_letters as nat, key_length as nat) <= u64::MAX
}

/// A forward-only cursor into the enumeration of the mutation vectors of one
/// key length and alphabet size.
pub struct AttemptOrder {
    key_length: usize,
    num_letters: usize,
    /// The level of the vector that comes next.
    num_changes: usize,
    /// The index of that vector within its level.
    combination_num: u64,
    /// The number of vectors on that level.
    level_total: u64,
    /// Whether every vector has been handed out.
    is_done: bool,
}

impl View for AttemptOrder {
    type V = Seq<Seq<usize>>;

    /// The vectors still to come, the next one first.
    open spec fn view(&self) -> Seq<Seq<usize>> {
        enumeration(self.key_length(), self.num_letters()).skip(self.produced() as int)
    }
}

impl AttemptOrder {
    #[verifier::type_invariant]
    spec fn well_formed(self) -> bool {
        &&& supported(self.key_length, self.num_letters)
        &&& !self.is_done ==> {
            &&& self.num_changes <= self.key_length
            &&& self.num_changes > 0 ==> self.num_letters >= 2
            &&& self.level_total == level_size(
                self.key_length as nat,
                self.num_letters as nat,
                self.num_changes as nat,
            )
            &&& self.combination_num < self.level_total
        }
    }

    /// The key length that the generator was made for.
    pub closed spec fn key_length(self) -> usize {
        self.key_length
    }

    /// The alphabet size that the generator was made for.
    pub closed spec fn num_letters(self) -> usize {
        self.num_letters
    }

    /// The number of vectors handed out so far.
    pub closed spec fn produced(self) -> nat {
        if self.is_done {
            total_count(self.key_length as nat, self.num_letters as nat)
        } else {
            level_start(self.key_length as nat, self.num_letters as nat, self.num_changes as nat)
                + self.combination_num as nat
        }
    }

    /// Tells whether `new` accepts the key length and alphabet size.
    pub fn supports(key_length: usize, num_letters: usize) -> (accepted: bool)
        ensures
            accepted == supported(key_length, num_letters),
    {
        if num_letters < 2 {
            return true;
        }
        let mut count: u64 = 1;
        let mut length: usize = 0;
        while length < key_length
            invariant
                num_letters >= 2,
                length <= key_length,
                count == power(num_letters as nat, length as nat),
            decreases key_length - length,
        {
            match count.checked_mul(num_letters as u64) {
                Some(more) => {
                    assert(num_letters * count == count * num_letters) by (nonlinear_arith);
                    count = more;
                },
                None => {
                    proof {
                        assert(num_letters * count == count * num_letters) by (nonlinear_arith);
                        lemma_power_monotonic(
                            num_letters as nat,
                            (length + 1) as nat,
                            key_length as nat,
                        );
                    }
                    return false;
                },
            }
            length += 1;
        }
        true
    }

    /// Returns a new generator, placed before the first vector.
    pub fn new(key_length: usize, num_letters: usize) -> (order: Self)
        requires
            supported(key_length, num_letters),
        ensures
            order.key_length() == key_length,
            order.num_letters() == num_letters,
            order.produced() == 0,
            order@ == enumeration(key_length, num_letters),
    {
        proof {
            lemma_level_size_positive(key_length as nat, num_letters as nat, 0);
        }
        let order = AttemptOrder {
            key_length,
            num_letters,
            num_changes: 0,
            combination_num: 0,
            level_total: 1,
            is_done: false,
        };
        order
    }

    /// Returns a new generator where the key length and alphabet size are
    /// supported, and nothing where they are not.
    pub fn try_new(key_length: usize, num_letters: usize) -> (order: Option<Self>)
        ensures
            order is Some == supported(key_length, num_letters),
            order matches Some(made) ==> {
                &&& made.key_length() == key_length
                &&& made.num_letters() == num_letters
                &&& made.produced() == 0
                &&& made@ == enumeration(key_length, num_letters)
            },
    {
        if Self::supports(key_length, num_letters) {
            Some(Self::new(key_length, num_letters))
        } else {
            None
        }
    }

    /// The part of the index that the slots up to `change_num` read: the
    /// index divided by the radices of the later slots.
    fn get_part_n(
        key_length: usize,
        num_letters: usize,
        num_changes: usize,
        combination_num: u64,
        change_num: usize,
    ) -> (n: u64)
        requires
            1 <= change_num <= num_changes <= key_length,
            num_letters >= 2,
        ensures
            n == combination_num as int / divisor(
                key_length,
                num_letters,
                num_changes as nat,
                change_num as nat,
            ),
    {
        let mut n = combination_num;
        let mut i = change_num;
        assert(divisor(key_length, num_letters, change_num as nat, change_num as nat) == 1);
        while i < num_changes
            invariant
                1 <= change_num <= i <= num_changes <= key_length,
                num_letters >= 2,
                n == combination_num as int / divisor(
                    key_length,
                    num_letters,
                    i as nat,
                    change_num as nat,
                ),
            decreases num_changes - i,
        {
            proof {
                lemma_divisor_step(
                    key_length,
                    num_letters,
                    (i + 1) as nat,
                    combination_num as nat,
                    change_num as nat,
                );
            }
            n = n / ((key_length - i) as u64) / ((num_letters - 1) as u64);
            i += 1;
        }
        n
    }

    /// The open position, by its place among the open ones, and the value
    /// that slot `change_num` assigns when its part of the index is `n`.
    fn get_combination_part(
        key_length: usize,
        num_letters: usize,
        change_num: usize,
        n: u64,
    ) -> (part: (usize, usize))
        requires
            1 <= change_num <= key_length,
            num_letters >= 2,
        ensures
            part.0 == (n as int % radix(key_length, num_letters, change_num as nat)) % rows(
                key_length,
                change_num as nat,
            ),
            part.1 == (n as int % radix(key_length, num_letters, change_num as nat)) / rows(
                key_length,
                change_num as nat,
            ) + 1,
            part.0 < rows(key_length, change_num as nat),
            1 <= part.1 <= num_letters - 1,
    {
        let rows = key_length - change_num + 1;
        let cols = num_letters - 1;
        proof {
            lemma_digit_halves(n as int, rows as int, cols as int);
            vstd::arithmetic::div_mod::lemma_mod_pos_bound(n as int, rows as int);
            vstd::arithmetic::div_mod::lemma_mod_pos_bound(n as int / rows as int, cols as int);
        }
        let slot = (n % (rows as u64)) as usize;
        let value = ((n / (rows as u64)) % (cols as u64)) as usize + 1;
        (slot, value)
    }

    /// A vector of `key_length` zeros.
    fn zeros(key_length: usize) -> (combination: Vec<usize>)
        ensures
            combination@ == baseline(key_length),
    {
        let mut combination: Vec<usize> = Vec::new();
        let mut i: usize = 0;
        while i < key_length
            invariant
                i <= key_length,
                combination@.len() == i,
                forall|k: int| 0 <= k < i ==> combination@[k] == 0,
            decreases key_length - i,
        {
            combination.push(0);
            i += 1;
        }
        combination
    }

    /// The positions `0` to `key_length - 1`, in order.
    fn positions(key_length: usize) -> (open: Vec<usize>)
        ensures
            open@ == all_positions(key_length),
    {
        let mut open: Vec<usize> = Vec::new();
        let mut i: usize = 0;
        while i < key_length
            invariant
                i <= key_length,
                open@.len() == i,
                forall|k: int| 0 <= k < i ==> open@[k] == k,
            decreases key_length - i,
        {
            open.push(i);
            i += 1;
        }
        open
    }

    /// The mutation vector of index `combination_num` on level
    /// `num_changes`, computed without a generator.
    pub fn decode(
        key_length: usize,
        num_letters: usize,
        num_changes: usize,
        combination_num: u64,
    ) -> (combination: Vec<usize>)
        requires
            num_changes <= key_length,
            num_changes > 0 ==> num_letters >= 2,
        ensures
            combination@ == mutation_vector(
                key_length,
                num_letters,
                num_changes as nat,
                combination_num as nat,
            ),
    {
        let mut combination = Self::zeros(key_length);
        if num_changes == 0 {
            return combination;
        }
        let mut open = Self::positions(key_length);
        let mut filled: usize = 0;
        while filled < num_changes
            invariant
                filled <= num_changes <= key_length,
                num_letters >= 2,
                open@ == open_positions(
                    key_length,
                    num_letters,
                    num_changes as nat,
                    combination_num as nat,
                    (filled + 1) as nat,
                ),
                combination@ == partial_vector(
                    key_length,
                    num_letters,
                    num_changes as nat,
                    combination_num as nat,
                    filled as nat,
                ),
            decreases num_changes - filled,
        {
            let change_num = filled + 1;
            let n = Self::get_part_n(
                key_length,
                num_letters,
                num_changes,
                combination_num,
                change_num,
            );
            let (slot, value) = Self::get_combination_part(key_length, num_letters, change_num, n);
            proof {
                lemma_open_positions(
                    key_length,
                    num_letters,
                    num_changes as nat,
                    combination_num as nat,
                    change_num as nat,
                );
                lemma_assigned_position(
                    key_length,
                    num_letters,
                    num_changes as nat,
                    combination_num as nat,
                    change_num as nat,
                );
                lemma_partial_vector_len(
                    key_length,
                    num_letters,
                    num_changes as nat,
                    combination_num as nat,
                    filled as nat,
                );
            }
            let position = open.remove(slot);
            combination.set(position, value);
            filled += 1;
        }
        combination
    }

    /// The number of vectors on the level above `num_changes`, from the
    /// number on level `num_changes` itself.
    fn next_level_total(
        key_length: usize,
        num_letters: usize,
        num_changes: usize,
        level_total: u64,
    ) -> (above: u64)
        requires
            num_changes < key_length,
            num_letters >= 2,
            level_total == level_size(key_length as nat, num_letters as nat, num_changes as nat),
            level_size(key_length as nat, num_letters as nat, (num_changes + 1) as nat)
                <= u64::MAX,
        ensures
            above == level_size(key_length as nat, num_letters as nat, (num_changes + 1) as nat),
    {
        let remaining = (key_length - num_changes) as u128;
        let chosen = (num_changes + 1) as u128;
        let cols = (num_letters - 1) as u128;
        let ghost b0 = binomial(key_length as nat, num_changes as nat);
        let ghost b1 = binomial(key_length as nat, (num_changes + 1) as nat);
        let ghost p0 = power(alternatives(num_letters as nat), num_changes as nat);
        proof {
            lemma_binomial_step(key_length as nat, num_changes as nat);
            assert(level_total * remaining <= u128::MAX) by (nonlinear_arith)
                requires
                    level_total <= 0xffff_ffff_ffff_ffff,
                    remaining <= 0xffff_ffff_ffff_ffff,
                    0 <= level_total,
                    0 <= remaining,
                    u128::MAX == 0xffff_ffff_ffff_ffff_ffff_ffff_ffff_ffff,
            ;
            assert(level_total * remaining == chosen * (b1 * p0)) by (nonlinear_arith)
                requires
                    level_total == b0 * p0,
                    chosen * b1 == remaining * b0,
            ;
            vstd::arithmetic::div_mod::lemma_div_multiples_vanish((b1 * p0) as int, chosen as int);
            assert(chosen * (b1 * p0) == (b1 * p0) * chosen) by (nonlinear_arith);
            assert((b1 * p0) * cols == b1 * (cols * p0)) by (nonlinear_arith);
        }
        let spread = (level_total as u128) * remaining / chosen;
        let above = spread * cols;
        above as u64
    }

    /// Whether the vector that comes next is the last of its level.
    fn is_last(&self) -> (last: bool)
        requires
            !self.is_done,
        ensures
            last == (self.combination_num + 1 == self.level_total),
    {
        proof {
            use_type_invariant(self);
        }
        self.combination_num == self.level_total - 1
    }

    /// Hands out the next vector of the enumeration, or nothing once every
    /// vector has been handed out.
    pub fn next(&mut self) -> (combination: Option<Vec<usize>>)
        ensures
            final(self).key_length() == old(self).key_length(),
            final(self).num_letters() == old(self).num_letters(),
            old(self).produced() <= enumeration(
                old(self).key_length(),
                old(self).num_letters(),
            ).len(),
            old(self)@.len() == 0 ==> {
                &&& combination is None
                &&& final(self).produced() == old(self).produced()
                &&& final(self)@ == old(self)@
            },
            old(self)@.len() > 0 ==> {
                &&& combination is Some
                &&& combination->0@ == old(self)@.first()
                &&& final(self).produced() == old(self).produced() + 1
                &&& final(self)@ == old(self)@.drop_first()
            },
    {
        proof {
            use_type_invariant(&*self);
            lemma_enumeration_len(self.key_length, self.num_letters);
        }
        if self.is_done {
            return None;
        }
        let key_length = self.key_length;
        let num_letters = self.num_letters;
        let num_changes = self.num_changes;
        let combination_num = self.combination_num;
        let level_total = self.level_total;
        proof {
            lemma_enumeration_at(
                key_length,
                num_letters,
                num_changes as nat,
                combination_num as nat,
            );
            lemma_level_within_total(key_length as nat, num_letters as nat, num_changes as nat);
        }
        let combination = Self::decode(key_length, num_letters, num_changes, combination_num);
        if !self.is_last() {
            *self = AttemptOrder {
                key_length,
                num_letters,
                num_changes,
                combination_num: combination_num + 1,
                level_total,
                is_done: false,
            };
        } else if num_changes == key_length || num_letters < 2 {
            proof {
                if num_changes < key_length {
                    Self::lemma_baseline_alone(key_length, num_letters);
                }
            }
            *self = AttemptOrder {
                key_length,
                num_letters,
                num_changes,
                combination_num,
                level_total,
                is_done: true,
            };
        } else {
            proof {
                lemma_total_count(key_length as nat, num_letters as nat);
                lemma_level_within_total(
                    key_length as nat,
                    num_letters as nat,
                    (num_changes + 1) as nat,
                );
                lemma_level_size_positive(
                    key_length as nat,
                    num_letters as nat,
                    (num_changes + 1) as nat,
                );
            }
            let above = Self::next_level_total(key_length, num_letters, num_changes, level_total);
            *self = AttemptOrder {
                key_length,
                num_letters,
                num_changes: num_changes + 1,
                combination_num: 0,
                level_total: above,
                is_done: false,
            };
        }
        Some(combination)
    }

    /// Generators for the same key length and alphabet size that have handed
    /// out equally many vectors have the same vectors still to come, so that
    /// they hand out the same vectors from then on.
    pub proof fn lemma_same_course(self, other: AttemptOrder)
        requires
            self.key_length() == other.key_length(),
            self.num_letters() == other.num_letters(),
            self.produced() == other.produced(),
        ensures
            self@ == other@,
    {
    }

    /// What a generator has still to hand out is what is left of the
    /// enumeration after the vectors that it has handed out, and the vector
    /// that it hands out after `ahead` more is the one that stands `ahead`
    /// places further in the enumeration.
    pub proof fn lemma_course(self, ahead: int)
        requires
            0 <= ahead,
            self.produced() + ahead < enumeration(self.key_length(), self.num_letters()).len(),
        ensures
            ahead < self@.len(),
            self@[ahead] == enumeration(self.key_length(), self.num_letters())[self.produced()
                + ahead],
    {
    }

    /// An alphabet with no nonzero offset to give allows the baseline alone.
    proof fn lemma_baseline_alone(key_length: usize, num_letters: usize)
        requires
            num_letters < 2,
        ensures
            total_count(key_length as nat, num_letters as nat) == 1,
    {
        lemma_total_count(key_length as nat, num_letters as nat);
        lemma_power_of_one(key_length as nat);
    }
}

} // verus!
