//! The mutation vector that a change level and an index within it stand for.
//!
//! A mutation vector holds one rank offset per key position; zero keeps the
//! most likely letter. The vector of index `index` on level `level` is found
//! by filling `level` assignment slots in turn. Slot `slot` (counted from 1)
//! reads one digit of `index`, written in mixed radix with slot 1 as the most
//! significant digit, and splits it into a choice among the positions still
//! open and a nonzero value for the position chosen.

use vstd::prelude::*;
use vstd::arithmetic::div_mod::{
    lemma_div_denominator,
    lemma_div_pos_is_pos,
    lemma_fundamental_div_mod,
    lemma_mod_pos_bound,
};
use vstd::arithmetic::mul::{lemma_mul_strictly_positive, lemma_mul_is_commutative};
use crate::counting::{alternatives, power};

verus! {

/// The vector with every position at rank offset zero.
pub open spec fn baseline(key_length: usize) -> Seq<usize> {
    Seq::new(key_length as nat, |i: int| 0usize)
}

/// Every position of the key, in natural order.
pub open spec fn all_positions(key_length: usize) -> Seq<usize> {
    Seq::new(key_length as nat, |i: int| i as usize)
}

/// The number of positions still open when slot `slot` is filled.
pub open spec fn rows(key_length: usize, slot: nat) -> int {
    key_length - slot + 1
}

/// The radix of the digit that slot `slot` reads: a choice of an open
/// position and of a nonzero value.
pub open spec fn radix(key_length: usize, num_letters: usize, slot: nat) -> int {
    rows(key_length, slot) * alternatives(num_letters as nat)
}

/// The weight of the digit of slot `slot` in an index of level `level`: the
/// product of the radices of the slots after it.
pub open spec fn divisor(key_length: usize, num_letters: usize, level: nat, slot: nat) -> int
    decreases level,
{
    if level <= slot {
        1
    } else {
        divisor(key_length, num_letters, (level - 1) as nat, slot) * radix(
            key_length,
            num_letters,
            level,
        )
    }
}

/// The digit of `index` that slot `slot` reads.
pub open spec fn digit(
    key_length: usize,
    num_letters: usize,
    level: nat,
    index: nat,
    slot: nat,
) -> int {
    (index as int / divisor(key_length, num_letters, level, slot)) % radix(
        key_length,
        num_letters,
        slot,
    )
}

/// Which of the open positions slot `slot` takes.
pub open spec fn slot_offset(
    key_length: usize,
    num_letters: usize,
    level: nat,
    index: nat,
    slot: nat,
) -> int {
    digit(key_length, num_letters, level, index, slot) % rows(key_length, slot)
}

/// Which of the nonzero values slot `slot` gives, counted from zero.
pub open spec fn value_offset(
    key_length: usize,
    num_letters: usize,
    level: nat,
    index: nat,
    slot: nat,
) -> int {
    digit(key_length, num_letters, level, index, slot) / rows(key_length, slot)
}

/// The positions still open when slot `slot` is filled, in natural order.
pub open spec fn open_positions(
    key_length: usize,
    num_letters: usize,
    level: nat,
    index: nat,
    slot: nat,
) -> Seq<usize>
    decreases slot,
{
    if slot <= 1 {
        all_positions(key_length)
    } else {
        let before = (slot - 1) as nat;
        open_positions(key_length, num_letters, level, index, before).remove(
            slot_offset(key_length, num_letters, level, index, before),
        )
    }
}

/// The position that slot `slot` assigns.
pub open spec fn assigned_position(
    key_length: usize,
    num_letters: usize,
    level: nat,
    index: nat,
    slot: nat,
) -> int {
    open_positions(key_length, num_letters, level, index, slot)[slot_offset(
        key_length,
        num_letters,
        level,
        index,
        slot,
    )] as int
}

/// The value that slot `slot` assigns.
pub open spec fn assigned_value(
    key_length: usize,
    num_letters: usize,
    level: nat,
    index: nat,
    slot: nat,
) -> usize {
    (value_offset(key_length, num_letters, level, index, slot) + 1) as usize
}

/// The vector after the slots `1` to `slots` have been filled.
pub open spec fn partial_vector(
    key_length: usize,
    num_letters: usize,
    level: nat,
    index: nat,
    slots: nat,
) -> Seq<usize>
    decreases slots,
{
    if slots == 0 {
        baseline(key_length)
    } else {
        partial_vector(key_length, num_letters, level, index, (slots - 1) as nat).update(
            assigned_position(key_length, num_letters, level, index, slots),
            assigned_value(key_length, num_letters, level, index, slots),
        )
    }
}

/// The mutation vector of index `index` on level `level`.
pub open spec fn mutation_vector(
    key_length: usize,
    num_letters: usize,
    level: nat,
    index: nat,
) -> Seq<usize> {
    partial_vector(key_length, num_letters, level, index, level)
}

/// Whether `positions` lists positions of the key in strictly rising order.
pub open spec fn rising_positions(key_length: usize, positions: Seq<usize>) -> bool {
    &&& forall|i: int| 0 <= i < positions.len() ==> (#[trigger] positions[i]) < key_length
    &&& forall|i: int, j: int|
        0 <= i < j < positions.len() ==> (#[trigger] positions[i]) < (#[trigger] positions[j])
}

/// The radix of a slot of the key is positive where the alphabet has a
/// nonzero offset to give.
pub proof fn lemma_radix_positive(key_length: usize, num_letters: usize, slot: nat)
    requires
        1 <= slot <= key_length,
        num_letters >= 2,
    ensures
        rows(key_length, slot) >= 1,
        alternatives(num_letters as nat) >= 1,
        radix(key_length, num_letters, slot) >= 1,
{
    lemma_mul_strictly_positive(rows(key_length, slot), alternatives(num_letters as nat) as int);
}

/// The weight of a digit is positive.
pub proof fn lemma_divisor_positive(key_length: usize, num_letters: usize, level: nat, slot: nat)
    requires
        1 <= slot,
        level <= key_length,
        num_letters >= 2,
    ensures
        divisor(key_length, num_letters, level, slot) >= 1,
    decreases level,
{
    if level > slot {
        lemma_divisor_positive(key_length, num_letters, (level - 1) as nat, slot);
        lemma_radix_positive(key_length, num_letters, level);
        lemma_mul_strictly_positive(
            divisor(key_length, num_letters, (level - 1) as nat, slot),
            radix(key_length, num_letters, level),
        );
    }
}

/// A slot chooses among the open positions and among the nonzero values.
pub proof fn lemma_digit_split(
    key_length: usize,
    num_letters: usize,
    level: nat,
    index: nat,
    slot: nat,
)
    requires
        1 <= slot <= level <= key_length,
        num_letters >= 2,
    ensures
        0 <= digit(key_length, num_letters, level, index, slot) < radix(
            key_length,
            num_letters,
            slot,
        ),
        0 <= slot_offset(key_length, num_letters, level, index, slot) < rows(key_length, slot),
        0 <= value_offset(key_length, num_letters, level, index, slot) < alternatives(
            num_letters as nat,
        ),
        1 <= assigned_value(key_length, num_letters, level, index, slot) <= num_letters - 1,
{
    let r = rows(key_length, slot);
    let v = alternatives(num_letters as nat) as int;
    let d = digit(key_length, num_letters, level, index, slot);
    lemma_radix_positive(key_length, num_letters, slot);
    lemma_divisor_positive(key_length, num_letters, level, slot);
    lemma_mod_pos_bound(index as int / divisor(key_length, num_letters, level, slot), r * v);
    lemma_mod_pos_bound(d, r);
    lemma_fundamental_div_mod(d, r);
    lemma_div_pos_is_pos(d, r);
    assert(d / r < v) by (nonlinear_arith)
        requires
            d == r * (d / r) + d % r,
            0 <= d % r,
            d < r * v,
            r >= 1,
    ;
}

/// The open positions of a slot are as many as its rows, and are positions
/// of the key in rising order.
pub proof fn lemma_open_positions(
    key_length: usize,
    num_letters: usize,
    level: nat,
    index: nat,
    slot: nat,
)
    requires
        1 <= slot <= level + 1,
        level <= key_length,
        num_letters >= 2,
    ensures
        open_positions(key_length, num_letters, level, index, slot).len() == rows(
            key_length,
            slot,
        ),
        rising_positions(key_length, open_positions(key_length, num_letters, level, index, slot)),
    decreases slot,
{
    if slot > 1 {
        let before = (slot - 1) as nat;
        lemma_open_positions(key_length, num_letters, level, index, before);
        lemma_digit_split(key_length, num_letters, level, index, before);
    }
}

/// A slot assigns a position of the key.
pub proof fn lemma_assigned_position(
    key_length: usize,
    num_letters: usize,
    level: nat,
    index: nat,
    slot: nat,
)
    requires
        1 <= slot <= level <= key_length,
        num_letters >= 2,
    ensures
        0 <= assigned_position(key_length, num_letters, level, index, slot) < key_length,
{
    lemma_open_positions(key_length, num_letters, level, index, slot);
    lemma_digit_split(key_length, num_letters, level, index, slot);
}

/// Filling slots keeps the length of the vector.
pub proof fn lemma_partial_vector_len(
    key_length: usize,
    num_letters: usize,
    level: nat,
    index: nat,
    slots: nat,
)
    requires
        slots <= level <= key_length,
        num_letters >= 2 || slots == 0,
    ensures
        partial_vector(key_length, num_letters, level, index, slots).len() == key_length,
    decreases slots,
{
    if slots > 0 {
        lemma_partial_vector_len(key_length, num_letters, level, index, (slots - 1) as nat);
        lemma_assigned_position(key_length, num_letters, level, index, slots);
    }
}

/// Dividing by the radices of the later slots one after the other gives the
/// same quotient as dividing by the weight of the digit.
pub proof fn lemma_divisor_step(
    key_length: usize,
    num_letters: usize,
    level: nat,
    index: nat,
    slot: nat,
)
    requires
        1 <= slot < level <= key_length,
        num_letters >= 2,
    ensures
        index as int / divisor(key_length, num_letters, level, slot) == (index as int / divisor(
            key_length,
            num_letters,
            (level - 1) as nat,
            slot,
        )) / rows(key_length, level) / (alternatives(num_letters as nat) as int),
{
    let below = divisor(key_length, num_letters, (level - 1) as nat, slot);
    let r = rows(key_length, level);
    let v = alternatives(num_letters as nat) as int;
    lemma_divisor_positive(key_length, num_letters, (level - 1) as nat, slot);
    lemma_radix_positive(key_length, num_letters, level);
    lemma_div_denominator(index as int, below, r * v);
    lemma_div_denominator(index as int / below, r, v);
}

/// The two halves of a digit, taken from the quotient without forming the
/// radix.
pub proof fn lemma_digit_halves(quotient: int, row_count: int, value_count: int)
    requires
        0 <= quotient,
        1 <= row_count,
        1 <= value_count,
    ensures
        (quotient % (row_count * value_count)) % row_count == quotient % row_count,
        (quotient % (row_count * value_count)) / row_count == (quotient / row_count) % value_count,
{
    vstd::arithmetic::div_mod::lemma_mod_mod(quotient, row_count, value_count);
    vstd::arithmetic::div_mod::lemma_breakdown(quotient, row_count, value_count);
    let high = (quotient / row_count) % value_count;
    let low = quotient % row_count;
    lemma_mod_pos_bound(quotient, row_count);
    lemma_mod_pos_bound(quotient / row_count, value_count);
    lemma_mul_is_commutative(row_count, high);
    vstd::arithmetic::div_mod::lemma_fundamental_div_mod_converse(
        row_count * high + low,
        row_count,
        high,
        low,
    );
}

/// The number of positions at which `vector` deviates from the baseline.
pub open spec fn weight(vector: Seq<usize>) -> nat
    decreases vector.len(),
{
    if vector.len() == 0 {
        0
    } else {
        weight(vector.drop_last()) + if vector.last() != 0 {
            1nat
        } else {
            0nat
        }
    }
}

/// Whether every entry of `vector` is a rank offset into an alphabet of
/// `num_letters` symbols.
pub open spec fn within_alphabet(vector: Seq<usize>, num_letters: usize) -> bool {
    forall|position: int|
        0 <= position < vector.len() ==> (#[trigger] vector[position]) + 1 <= num_letters
}

/// A vector of zeros deviates nowhere.
pub proof fn lemma_weight_of_zeros(vector: Seq<usize>)
    requires
        forall|position: int| 0 <= position < vector.len() ==> vector[position] == 0,
    ensures
        weight(vector) == 0,
    decreases vector.len(),
{
    if vector.len() > 0 {
        lemma_weight_of_zeros(vector.drop_last());
    }
}

/// Giving a nonzero value to a position that held zero adds one deviation.
pub proof fn lemma_weight_of_update(vector: Seq<usize>, position: int, value: usize)
    requires
        0 <= position < vector.len(),
        vector[position] == 0,
        value != 0,
    ensures
        weight(vector.update(position, value)) == weight(vector) + 1,
    decreases vector.len(),
{
    let updated = vector.update(position, value);
    if position == vector.len() - 1 {
        assert(updated.drop_last() =~= vector.drop_last());
    } else {
        assert(updated.drop_last() =~= vector.drop_last().update(position, value));
        lemma_weight_of_update(vector.drop_last(), position, value);
    }
}

/// The positions still open after `slots` slots are those that the vector
/// filled so far leaves at zero.
pub proof fn lemma_open_positions_unassigned(
    key_length: usize,
    num_letters: usize,
    level: nat,
    index: nat,
    slots: nat,
    place: int,
)
    requires
        slots <= level <= key_length,
        num_letters >= 2,
        0 <= place < open_positions(key_length, num_letters, level, index, slots + 1).len(),
    ensures
        open_positions(key_length, num_letters, level, index, slots + 1)[place] < key_length,
        partial_vector(key_length, num_letters, level, index, slots)[open_positions(
            key_length,
            num_letters,
            level,
            index,
            slots + 1,
        )[place] as int] == 0,
    decreases slots,
{
    lemma_open_positions(key_length, num_letters, level, index, slots + 1);
    if slots > 0 {
        // The place came from the open positions of the slot before, where it
        // stood one further on if it stood behind the position that the slot
        // took.
        let before = (slots - 1) as nat;
        let offset = slot_offset(key_length, num_letters, level, index, slots);
        lemma_open_positions(key_length, num_letters, level, index, slots);
        lemma_digit_split(key_length, num_letters, level, index, slots);
        lemma_partial_vector_len(key_length, num_letters, level, index, before);
        let source = if place < offset {
            place
        } else {
            place + 1
        };
        lemma_open_positions_unassigned(key_length, num_letters, level, index, before, source);
    }
}

/// The vector after `slots` slots deviates at `slots` positions, has the
/// length of the key, and holds rank offsets of the alphabet.
pub proof fn lemma_partial_vector_weight(
    key_length: usize,
    num_letters: usize,
    level: nat,
    index: nat,
    slots: nat,
)
    requires
        slots <= level <= key_length,
        num_letters >= 2 || slots == 0,
    ensures
        partial_vector(key_length, num_letters, level, index, slots).len() == key_length,
        weight(partial_vector(key_length, num_letters, level, index, slots)) == slots,
        num_letters >= 1 ==> within_alphabet(
            partial_vector(key_length, num_letters, level, index, slots),
            num_letters,
        ),
    decreases slots,
{
    lemma_partial_vector_len(key_length, num_letters, level, index, slots);
    if slots == 0 {
        lemma_weight_of_zeros(baseline(key_length));
    } else {
        let before = (slots - 1) as nat;
        lemma_partial_vector_weight(key_length, num_letters, level, index, before);
        lemma_open_positions(key_length, num_letters, level, index, slots);
        lemma_digit_split(key_length, num_letters, level, index, slots);
        lemma_open_positions_unassigned(
            key_length,
            num_letters,
            level,
            index,
            before,
            slot_offset(key_length, num_letters, level, index, slots),
        );
        lemma_weight_of_update(
            partial_vector(key_length, num_letters, level, index, before),
            assigned_position(key_length, num_letters, level, index, slots),
            assigned_value(key_length, num_letters, level, index, slots),
        );
    }
}

/// A vector of level `level` deviates at exactly `level` positions.
pub proof fn lemma_mutation_vector_weight(
    key_length: usize,
    num_letters: usize,
    level: nat,
    index: nat,
)
    requires
        level <= key_length,
        num_letters >= 2 || level == 0,
    ensures
        mutation_vector(key_length, num_letters, level, index).len() == key_length,
        weight(mutation_vector(key_length, num_letters, level, index)) == level,
        num_letters >= 1 ==> within_alphabet(
            mutation_vector(key_length, num_letters, level, index),
            num_letters,
        ),
{
    lemma_partial_vector_weight(key_length, num_letters, level, index, level);
}

/// The vector that holds one at each of the first `count` positions and
/// zero at the others.
pub open spec fn leading_ones(key_length: usize, count: nat) -> Seq<usize> {
    Seq::new(
        key_length as nat,
        |position: int|
            if position < count {
                1usize
            } else {
                0usize
            },
    )
}

/// With index zero every slot takes the first open position and the first
/// nonzero value.
pub proof fn lemma_first_index_slots(key_length: usize, num_letters: usize, level: nat, slots: nat)
    requires
        slots <= level <= key_length,
        num_letters >= 2,
    ensures
        open_positions(key_length, num_letters, level, 0, slots + 1) == Seq::new(
            (key_length - slots) as nat,
            |place: int| (place + slots) as usize,
        ),
        partial_vector(key_length, num_letters, level, 0, slots) == leading_ones(
            key_length,
            slots,
        ),
    decreases slots,
{
    if slots > 0 {
        let before = (slots - 1) as nat;
        lemma_first_index_slots(key_length, num_letters, level, before);
        lemma_divisor_positive(key_length, num_letters, level, slots);
        lemma_radix_positive(key_length, num_letters, slots);
        let weight_of_digit = divisor(key_length, num_letters, level, slots);
        let base = radix(key_length, num_letters, slots);
        let row_count = rows(key_length, slots);
        vstd::arithmetic::div_mod::lemma_div_of0(weight_of_digit);
        vstd::arithmetic::div_mod::lemma_small_mod(0, base as nat);
        vstd::arithmetic::div_mod::lemma_small_mod(0, row_count as nat);
        vstd::arithmetic::div_mod::lemma_div_of0(row_count);
        assert(digit(key_length, num_letters, level, 0, slots) == 0);
        assert(assigned_position(key_length, num_letters, level, 0, slots) == before);
        assert(assigned_value(key_length, num_letters, level, 0, slots) == 1);
    }
}

/// The first vector of a level deviates at the first positions of the key,
/// by one rank each.
pub proof fn lemma_first_of_level(key_length: usize, num_letters: usize, level: nat)
    requires
        level <= key_length,
        num_letters >= 2,
    ensures
        mutation_vector(key_length, num_letters, level, 0) == leading_ones(key_length, level),
{
    lemma_first_index_slots(key_length, num_letters, level, level);
}

/// On a key of one position the vector of index `index` on level one holds
/// the rank offset `index + 1`.
pub proof fn lemma_single_position(num_letters: usize, index: nat)
    requires
        num_letters >= 2,
        index + 1 < num_letters,
    ensures
        mutation_vector(1, num_letters, 1, index) == seq![(index + 1) as usize],
{
    let cols = alternatives(num_letters as nat) as int;
    assert(divisor(1, num_letters, 1, 1) == 1);
    assert(radix(1, num_letters, 1) == cols) by (nonlinear_arith)
        requires
            radix(1, num_letters, 1) == 1 * cols,
    ;
    vstd::arithmetic::div_mod::lemma_small_mod(index, cols as nat);
    assert(digit(1, num_letters, 1, index, 1) == index);
    assert(partial_vector(1, num_letters, 1, index, 0) == baseline(1));
}

/// On a key of two positions over two symbols the second vector of level one
/// deviates at the second position.
pub proof fn lemma_second_of_pair()
    ensures
        mutation_vector(2, 2, 1, 1) == seq![0usize, 1usize],
{
    assert(divisor(2, 2, 1, 1) == 1);
    assert(rows(2, 1) == 2);
    assert(radix(2, 2, 1) == 2);
    assert(digit(2, 2, 1, 1, 1) == 1);
    assert(partial_vector(2, 2, 1, 1, 0) == baseline(2));
}

/// What a slot assigns stays: the later slots take other positions.
pub proof fn lemma_assignment_stays(
    key_length: usize,
    num_letters: usize,
    level: nat,
    index: nat,
    slot: nat,
    slots: nat,
)
    requires
        1 <= slot <= slots <= level <= key_length,
        num_letters >= 2,
    ensures
        0 <= assigned_position(key_length, num_letters, level, index, slot) < key_length,
        partial_vector(key_length, num_letters, level, index, slots)[assigned_position(
            key_length,
            num_letters,
            level,
            index,
            slot,
        )] == assigned_value(key_length, num_letters, level, index, slot),
    decreases slots,
{
    let before = (slots - 1) as nat;
    lemma_assigned_position(key_length, num_letters, level, index, slot);
    lemma_assigned_position(key_length, num_letters, level, index, slots);
    lemma_partial_vector_len(key_length, num_letters, level, index, before);
    if slot < slots {
        lemma_assignment_stays(key_length, num_letters, level, index, slot, before);
        lemma_digit_split(key_length, num_letters, level, index, slot);
        lemma_digit_split(key_length, num_letters, level, index, slots);
        lemma_open_positions(key_length, num_letters, level, index, slots);
        lemma_open_positions_unassigned(
            key_length,
            num_letters,
            level,
            index,
            before,
            slot_offset(key_length, num_letters, level, index, slots),
        );
    }
}

/// The weight of the first digit is no less than the number of nonzero
/// values to the power of the number of later slots.
pub proof fn lemma_divisor_at_least(key_length: usize, num_letters: usize, level: nat)
    requires
        1 <= level <= key_length,
        num_letters >= 2,
    ensures
        divisor(key_length, num_letters, level, 1) >= power(
            alternatives(num_letters as nat),
            (level - 1) as nat,
        ),
    decreases level,
{
    if level > 1 {
        let below = (level - 1) as nat;
        lemma_divisor_at_least(key_length, num_letters, below);
        lemma_radix_positive(key_length, num_letters, level);
        let cols = alternatives(num_letters as nat) as int;
        let smaller = power(alternatives(num_letters as nat), (below - 1) as nat);
        let weight_below = divisor(key_length, num_letters, below, 1);
        let row_count = rows(key_length, level);
        assert(weight_below * (row_count * cols) >= cols * smaller) by (nonlinear_arith)
            requires
                weight_below >= smaller,
                smaller >= 0,
                row_count >= 1,
                cols >= 1,
        ;
    }
}

/// On a key of at least two positions the vector of index
/// `(key_length - 1) * (num_letters - 1)` on level two is the first vector
/// of that level once more.
pub proof fn lemma_second_level_repeats(key_length: usize, num_letters: usize)
    requires
        key_length >= 2,
        num_letters >= 2,
    ensures
        mutation_vector(
            key_length,
            num_letters,
            2,
            ((key_length - 1) * (num_letters - 1)) as nat,
        ) == mutation_vector(key_length, num_letters, 2, 0),
{
    let cols = alternatives(num_letters as nat) as int;
    let index = ((key_length - 1) * (num_letters - 1)) as nat;
    let first = radix(key_length, num_letters, 1);
    let second = radix(key_length, num_letters, 2);
    lemma_radix_positive(key_length, num_letters, 1);
    lemma_radix_positive(key_length, num_letters, 2);
    assert(divisor(key_length, num_letters, 1, 1) == 1);
    assert(divisor(key_length, num_letters, 2, 1) == second) by {
        assert(1 * second == second) by (nonlinear_arith);
    }
    assert(divisor(key_length, num_letters, 2, 2) == 1);
    assert(first >= 2) by (nonlinear_arith)
        requires
            first == key_length * cols,
            key_length >= 2,
            cols >= 1,
    ;
    // The first slot reads the digit one: the second position, by one rank.
    vstd::arithmetic::div_mod::lemma_div_by_self(second);
    vstd::arithmetic::div_mod::lemma_small_mod(1, first as nat);
    vstd::arithmetic::div_mod::lemma_small_mod(1, key_length as nat);
    vstd::arithmetic::div_mod::lemma_basic_div(1, key_length as int);
    assert(digit(key_length, num_letters, 2, index, 1) == 1);
    assert(assigned_position(key_length, num_letters, 2, index, 1) == 1);
    // The second slot reads the digit zero: the first position, by one rank.
    vstd::arithmetic::div_mod::lemma_mod_self_0(second);
    vstd::arithmetic::div_mod::lemma_small_mod(0, (key_length - 1) as nat);
    vstd::arithmetic::div_mod::lemma_div_of0(key_length - 1);
    assert(digit(key_length, num_letters, 2, index, 2) == 0);
    assert(assigned_position(key_length, num_letters, 2, index, 2) == 0);
    assert(partial_vector(key_length, num_letters, 2, index, 0) == baseline(key_length));
    assert(partial_vector(key_length, num_letters, 2, index, 1) == baseline(key_length).update(
        1,
        1usize,
    ));
    lemma_first_of_level(key_length, num_letters, 2);
}

} // verus!
