//! The order in which the mutation vectors of a key are tried: level by
//! level, from no deviation to a deviation at every position, and by rising
//! index within each level.

use vstd::prelude::*;
use crate::counting::{
    alternatives,
    binomial,
    lemma_binomial_full,
    lemma_binomial_step,
    lemma_level_size_positive,
    lemma_level_start_monotonic,
    lemma_level_within_total,
    lemma_power_of_one,
    lemma_power_positive,
    lemma_total_count,
    level_size,
    level_start,
    power,
    total_count,
};
use crate::mutation::{
    assigned_position,
    assigned_value,
    baseline,
    digit,
    divisor,
    lemma_assignment_stays,
    lemma_divisor_at_least,
    lemma_first_of_level,
    lemma_mutation_vector_weight,
    lemma_radix_positive,
    lemma_second_level_repeats,
    lemma_second_of_pair,
    lemma_single_position,
    mutation_vector,
    radix,
    rows,
    weight,
    within_alphabet,
};

verus! {

/// The vectors of level `level`, by rising index.
pub open spec fn level_vectors(key_length: usize, num_letters: usize, level: nat) -> Seq<
    Seq<usize>,
> {
    Seq::new(
        level_size(key_length as nat, num_letters as nat, level),
        |index: int| mutation_vector(key_length, num_letters, level, index as nat),
    )
}

/// The vectors of the levels below `level`, lower levels first.
pub open spec fn vectors_below(key_length: usize, num_letters: usize, level: nat) -> Seq<
    Seq<usize>,
>
    decreases level,
{
    if level == 0 {
        Seq::empty()
    } else {
        vectors_below(key_length, num_letters, (level - 1) as nat) + level_vectors(
            key_length,
            num_letters,
            (level - 1) as nat,
        )
    }
}

/// Every vector that is tried for a key of `key_length` positions over an
/// alphabet of `num_letters` symbols, in the order of trial.
pub open spec fn enumeration(key_length: usize, num_letters: usize) -> Seq<Seq<usize>> {
    vectors_below(key_length, num_letters, (key_length + 1) as nat)
}

/// The levels below `level` hold as many vectors as the level's start says.
pub proof fn lemma_vectors_below_len(key_length: usize, num_letters: usize, level: nat)
    ensures
        vectors_below(key_length, num_letters, level).len() == level_start(
            key_length as nat,
            num_letters as nat,
            level,
        ),
    decreases level,
{
    if level > 0 {
        lemma_vectors_below_len(key_length, num_letters, (level - 1) as nat);
    }
}

/// The enumeration is as long as the total of the level sizes.
pub proof fn lemma_enumeration_len(key_length: usize, num_letters: usize)
    ensures
        enumeration(key_length, num_letters).len() == total_count(
            key_length as nat,
            num_letters as nat,
        ),
{
    lemma_vectors_below_len(key_length, num_letters, (key_length + 1) as nat);
}

/// Adding higher levels leaves the vectors of the lower ones in place.
pub proof fn lemma_vectors_below_prefix(
    key_length: usize,
    num_letters: usize,
    low: nat,
    high: nat,
    position: int,
)
    requires
        low <= high,
        0 <= position < level_start(key_length as nat, num_letters as nat, low),
    ensures
        position < vectors_below(key_length, num_letters, high).len(),
        vectors_below(key_length, num_letters, high)[position] == vectors_below(
            key_length,
            num_letters,
            low,
        )[position],
    decreases high,
{
    lemma_vectors_below_len(key_length, num_letters, low);
    lemma_vectors_below_len(key_length, num_letters, high);
    lemma_level_start_monotonic(key_length as nat, num_letters as nat, low, high);
    if low < high {
        let below = (high - 1) as nat;
        lemma_vectors_below_prefix(key_length, num_letters, low, below, position);
        lemma_vectors_below_len(key_length, num_letters, below);
    }
}

/// The vector of index `index` on level `level` stands in the enumeration
/// after all vectors of lower levels and after those of lower index on its
/// own level.
pub proof fn lemma_enumeration_at(key_length: usize, num_letters: usize, level: nat, index: nat)
    requires
        level <= key_length,
        index < level_size(key_length as nat, num_letters as nat, level),
    ensures
        level_start(key_length as nat, num_letters as nat, level) + index < enumeration(
            key_length,
            num_letters,
        ).len(),
        enumeration(key_length, num_letters)[(level_start(
            key_length as nat,
            num_letters as nat,
            level,
        ) + index) as int] == mutation_vector(key_length, num_letters, level, index),
{
    let start = level_start(key_length as nat, num_letters as nat, level);
    lemma_vectors_below_len(key_length, num_letters, level);
    lemma_vectors_below_len(key_length, num_letters, level + 1);
    lemma_vectors_below_prefix(
        key_length,
        num_letters,
        level + 1,
        (key_length + 1) as nat,
        (start + index) as int,
    );
}

/// The enumeration starts with the vector that deviates nowhere.
pub proof fn lemma_baseline_first(key_length: usize, num_letters: usize)
    ensures
        enumeration(key_length, num_letters).len() >= 1,
        enumeration(key_length, num_letters).first() == baseline(key_length),
{
    lemma_level_size_positive(key_length as nat, num_letters as nat, 0);
    lemma_enumeration_at(key_length, num_letters, 0, 0);
}

/// The highest level, up to `level`, that starts at or before `position`.
pub open spec fn level_up_to(key_length: nat, num_letters: nat, position: nat, level: nat) -> nat
    decreases level,
{
    if level == 0 || level_start(key_length, num_letters, level) <= position {
        level
    } else {
        level_up_to(key_length, num_letters, position, (level - 1) as nat)
    }
}

/// The level of the vector at `position` of the enumeration.
pub open spec fn level_of(key_length: usize, num_letters: usize, position: nat) -> nat {
    level_up_to(key_length as nat, num_letters as nat, position, key_length as nat)
}

/// The index, within its level, of the vector at `position` of the
/// enumeration.
pub open spec fn index_of(key_length: usize, num_letters: usize, position: nat) -> nat {
    (position - level_start(
        key_length as nat,
        num_letters as nat,
        level_of(key_length, num_letters, position),
    )) as nat
}

/// The level found for a position that lies below the start of level
/// `level + 1` starts at or before the position, and the next level starts
/// after it.
proof fn lemma_level_up_to(key_length: nat, num_letters: nat, position: nat, level: nat)
    requires
        position < level_start(key_length, num_letters, level + 1),
    ensures
        level_up_to(key_length, num_letters, position, level) <= level,
        level_start(key_length, num_letters, level_up_to(key_length, num_letters, position, level))
            <= position,
        position < level_start(
            key_length,
            num_letters,
            level_up_to(key_length, num_letters, position, level) + 1,
        ),
    decreases level,
{
    if !(level == 0 || level_start(key_length, num_letters, level) <= position) {
        lemma_level_up_to(key_length, num_letters, position, (level - 1) as nat);
    }
}

/// Each position of the enumeration lies on one level of the key, between
/// the start of that level and the start of the next.
pub proof fn lemma_level_of(key_length: usize, num_letters: usize, position: nat)
    requires
        position < enumeration(key_length, num_letters).len(),
    ensures
        level_of(key_length, num_letters, position) <= key_length,
        num_letters >= 2 || level_of(key_length, num_letters, position) == 0,
        level_start(
            key_length as nat,
            num_letters as nat,
            level_of(key_length, num_letters, position),
        ) <= position,
        index_of(key_length, num_letters, position) < level_size(
            key_length as nat,
            num_letters as nat,
            level_of(key_length, num_letters, position),
        ),
        enumeration(key_length, num_letters)[position as int] == mutation_vector(
            key_length,
            num_letters,
            level_of(key_length, num_letters, position),
            index_of(key_length, num_letters, position),
        ),
{
    lemma_enumeration_len(key_length, num_letters);
    lemma_level_up_to(key_length as nat, num_letters as nat, position, key_length as nat);
    let level = level_of(key_length, num_letters, position);
    lemma_level_size_positive(key_length as nat, num_letters as nat, level);
    lemma_enumeration_at(
        key_length,
        num_letters,
        level,
        index_of(key_length, num_letters, position),
    );
}

/// A position between the start of a level and the start of the next lies
/// on that level.
pub proof fn lemma_level_of_unique(
    key_length: usize,
    num_letters: usize,
    position: nat,
    level: nat,
)
    requires
        level_start(key_length as nat, num_letters as nat, level) <= position,
        position < level_start(key_length as nat, num_letters as nat, level) + level_size(
            key_length as nat,
            num_letters as nat,
            level,
        ),
    ensures
        position < enumeration(key_length, num_letters).len(),
        level_of(key_length, num_letters, position) == level,
{
    lemma_enumeration_len(key_length, num_letters);
    lemma_level_size_positive(key_length as nat, num_letters as nat, level);
    lemma_level_within_total(key_length as nat, num_letters as nat, level);
    lemma_level_of(key_length, num_letters, position);
    let found = level_of(key_length, num_letters, position);
    if found < level {
        lemma_level_start_monotonic(key_length as nat, num_letters as nat, found + 1, level);
    } else if found > level {
        lemma_level_start_monotonic(key_length as nat, num_letters as nat, level + 1, found);
    }
}

/// Every vector of the enumeration has the length of the key, holds rank
/// offsets of the alphabet, and deviates from the baseline at as many
/// positions as its level says.
pub proof fn lemma_weight_is_level(key_length: usize, num_letters: usize, position: nat)
    requires
        position < enumeration(key_length, num_letters).len(),
    ensures
        enumeration(key_length, num_letters)[position as int].len() == key_length,
        weight(enumeration(key_length, num_letters)[position as int]) == level_of(
            key_length,
            num_letters,
            position,
        ),
        num_letters >= 1 ==> within_alphabet(
            enumeration(key_length, num_letters)[position as int],
            num_letters,
        ),
{
    lemma_level_of(key_length, num_letters, position);
    lemma_mutation_vector_weight(
        key_length,
        num_letters,
        level_of(key_length, num_letters, position),
        index_of(key_length, num_letters, position),
    );
}

/// From one vector of the enumeration to the next the number of deviations
/// stays or rises by one, and it rises exactly where the next vector is the
/// first of its level.
pub proof fn lemma_weight_rises_by_steps(key_length: usize, num_letters: usize, position: nat)
    requires
        position + 1 < enumeration(key_length, num_letters).len(),
    ensures
        weight(enumeration(key_length, num_letters)[position as int]) <= weight(
            enumeration(key_length, num_letters)[position as int + 1],
        ) <= weight(enumeration(key_length, num_letters)[position as int]) + 1,
        weight(enumeration(key_length, num_letters)[position as int + 1]) == weight(
            enumeration(key_length, num_letters)[position as int],
        ) + 1 <==> index_of(key_length, num_letters, position + 1) == 0,
{
    let here = level_of(key_length, num_letters, position);
    let there = level_of(key_length, num_letters, position + 1);
    lemma_weight_is_level(key_length, num_letters, position);
    lemma_weight_is_level(key_length, num_letters, position + 1);
    lemma_level_of(key_length, num_letters, position);
    lemma_level_of(key_length, num_letters, position + 1);
    let l = key_length as nat;
    let a = num_letters as nat;
    if there < here {
        lemma_level_start_monotonic(l, a, there + 1, here);
    } else if there > here + 1 {
        lemma_level_size_positive(l, a, here + 1);
        assert(level_start(l, a, here + 2) == level_start(l, a, here + 1) + level_size(
            l,
            a,
            here + 1,
        ));
        lemma_level_start_monotonic(l, a, here + 2, there);
    }
}

/// A vector that comes later in the enumeration deviates at no fewer
/// positions.
pub proof fn lemma_weight_never_falls(
    key_length: usize,
    num_letters: usize,
    earlier: nat,
    later: nat,
)
    requires
        earlier <= later < enumeration(key_length, num_letters).len(),
    ensures
        weight(enumeration(key_length, num_letters)[earlier as int]) <= weight(
            enumeration(key_length, num_letters)[later as int],
        ),
{
    let here = level_of(key_length, num_letters, earlier);
    let there = level_of(key_length, num_letters, later);
    lemma_weight_is_level(key_length, num_letters, earlier);
    lemma_weight_is_level(key_length, num_letters, later);
    lemma_level_of(key_length, num_letters, earlier);
    lemma_level_of(key_length, num_letters, later);
    if there < here {
        lemma_level_start_monotonic(key_length as nat, num_letters as nat, there + 1, here);
    }
}

/// The vectors that deviate at `level` positions are those of one run of the
/// enumeration, which starts after the lower levels and is
/// `binomial(key_length, level) * power(num_letters - 1, level)` long.
pub proof fn lemma_level_run(key_length: usize, num_letters: usize, level: nat, position: nat)
    requires
        position < enumeration(key_length, num_letters).len(),
    ensures
        weight(enumeration(key_length, num_letters)[position as int]) == level <==> level_start(
            key_length as nat,
            num_letters as nat,
            level,
        ) <= position < level_start(key_length as nat, num_letters as nat, level) + binomial(
            key_length as nat,
            level,
        ) * power(alternatives(num_letters as nat), level),
{
    lemma_weight_is_level(key_length, num_letters, position);
    lemma_level_of(key_length, num_letters, position);
    if level_start(key_length as nat, num_letters as nat, level) <= position < level_start(
        key_length as nat,
        num_letters as nat,
        level,
    ) + level_size(key_length as nat, num_letters as nat, level) {
        lemma_level_of_unique(key_length, num_letters, position, level);
    }
}

/// The enumeration holds as many vectors as there are vectors of the key's
/// length over the alphabet.
pub proof fn lemma_enumeration_count(key_length: usize, num_letters: usize)
    requires
        num_letters >= 1 || key_length == 0,
    ensures
        enumeration(key_length, num_letters).len() == power(num_letters as nat, key_length as nat),
{
    lemma_enumeration_len(key_length, num_letters);
    lemma_total_count(key_length as nat, num_letters as nat);
}

/// An alphabet of fewer than two symbols leaves the baseline alone to try.
pub proof fn lemma_enumeration_without_alternatives(key_length: usize, num_letters: usize)
    requires
        num_letters < 2,
    ensures
        enumeration(key_length, num_letters) == seq![baseline(key_length)],
{
    lemma_enumeration_len(key_length, num_letters);
    lemma_total_count(key_length as nat, num_letters as nat);
    lemma_power_of_one(key_length as nat);
    lemma_baseline_first(key_length, num_letters);
}

/// A key without positions has the empty vector alone to try.
pub proof fn lemma_enumeration_of_empty_key(num_letters: usize)
    ensures
        enumeration(0, num_letters) == seq![Seq::<usize>::empty()],
{
    lemma_enumeration_len(0, num_letters);
    lemma_total_count(0, num_letters as nat);
    lemma_baseline_first(0, num_letters);
    assert(baseline(0) =~= Seq::<usize>::empty());
}

/// The vector that holds the last rank offset of the alphabet at every
/// position.
pub open spec fn topmost(key_length: usize, num_letters: usize) -> Seq<usize> {
    Seq::new(key_length as nat, |position: int| (num_letters - 1) as usize)
}

/// The last vector of the top level stands last in the enumeration.
proof fn lemma_last_position(key_length: usize, num_letters: usize)
    requires
        num_letters >= 2,
    ensures
        level_size(key_length as nat, num_letters as nat, key_length as nat) >= 1,
        enumeration(key_length, num_letters).last() == mutation_vector(
            key_length,
            num_letters,
            key_length as nat,
            (level_size(key_length as nat, num_letters as nat, key_length as nat) - 1) as nat,
        ),
{
    let l = key_length as nat;
    let a = num_letters as nat;
    lemma_enumeration_len(key_length, num_letters);
    lemma_level_size_positive(l, a, l);
    lemma_enumeration_at(key_length, num_letters, l, (level_size(l, a, l) - 1) as nat);
}

/// Where the key has at most one position or the alphabet at most two
/// symbols, the enumeration ends with the vector that deviates everywhere by
/// the most.
pub proof fn lemma_last_vector(key_length: usize, num_letters: usize)
    requires
        key_length == 0 || (num_letters >= 1 && (key_length == 1 || num_letters <= 2)),
    ensures
        enumeration(key_length, num_letters).len() >= 1,
        enumeration(key_length, num_letters).last() == topmost(key_length, num_letters),
{
    let l = key_length as nat;
    let a = num_letters as nat;
    lemma_baseline_first(key_length, num_letters);
    if key_length == 0 {
        lemma_enumeration_of_empty_key(num_letters);
    } else if num_letters == 1 {
        lemma_enumeration_without_alternatives(key_length, num_letters);
    } else if num_letters == 2 {
        lemma_last_position(key_length, num_letters);
        lemma_binomial_full(l);
        lemma_power_of_one(l);
        assert(level_size(l, a, l) == 1) by (nonlinear_arith)
            requires
                level_size(l, a, l) == binomial(l, l) * power(1, l),
                binomial(l, l) == 1,
                power(1, l) == 1,
        ;
        lemma_first_of_level(key_length, num_letters, l);
    } else {
        lemma_last_position(key_length, num_letters);
        let cols = alternatives(a);
        assert(binomial(1, 1) == 1) by {
            lemma_binomial_full(1);
        }
        assert(power(cols, 1) == cols) by {
            assert(cols * 1 == cols) by (nonlinear_arith);
        }
        assert(level_size(1, a, 1) == cols) by (nonlinear_arith)
            requires
                level_size(1, a, 1) == binomial(1, 1) * power(cols, 1),
                binomial(1, 1) == 1,
                power(cols, 1) == cols,
        ;
        lemma_single_position(num_letters, (cols - 1) as nat);
    }
}

/// Where the key has at most one position, or two positions over two
/// symbols, or the alphabet a single symbol, the enumeration holds every
/// vector of the key's length over the alphabet, and none twice.
pub proof fn lemma_small_enumeration_complete(key_length: usize, num_letters: usize)
    requires
        key_length == 0 || (num_letters >= 1 && (key_length == 1 || num_letters == 1 || (key_length
            == 2 && num_letters == 2))),
    ensures
        forall|i: int, j: int|
            0 <= i < j < enumeration(key_length, num_letters).len() ==> enumeration(
                key_length,
                num_letters,
            )[i] != enumeration(key_length, num_letters)[j],
        forall|vector: Seq<usize>|
            vector.len() == key_length && within_alphabet(vector, num_letters) ==> enumeration(
                key_length,
                num_letters,
            ).contains(vector),
{
    let all = enumeration(key_length, num_letters);
    let l = key_length as nat;
    let a = num_letters as nat;
    lemma_enumeration_len(key_length, num_letters);
    lemma_baseline_first(key_length, num_letters);
    if key_length == 0 || num_letters == 1 {
        if key_length == 0 {
            lemma_enumeration_of_empty_key(num_letters);
        } else {
            lemma_enumeration_without_alternatives(key_length, num_letters);
        }
        assert forall|vector: Seq<usize>|
            vector.len() == key_length && within_alphabet(vector, num_letters) implies all.contains(
            vector,
        ) by {
            assert(all[0] == vector);
        }
    } else if key_length == 1 {
        let cols = alternatives(a);
        lemma_total_count(l, a);
        assert(power(a, 1) == a) by {
            assert(power(a, 0) == 1);
            assert(a * 1 == a) by (nonlinear_arith);
        }
        assert(binomial(1, 1) == 1) by {
            lemma_binomial_full(1);
        }
        assert(power(cols, 1) == cols) by {
            assert(power(cols, 0) == 1);
            assert(cols * 1 == cols) by (nonlinear_arith);
        }
        assert(level_size(1, a, 1) == cols) by (nonlinear_arith)
            requires
                level_size(1, a, 1) == binomial(1, 1) * power(cols, 1),
                binomial(1, 1) == 1,
                power(cols, 1) == cols,
        ;
        lemma_level_size_positive(1, a, 0);
        assert forall|k: int| 0 <= k < all.len() implies #[trigger] all[k] == seq![k as usize] by {
            if k > 0 {
                lemma_enumeration_at(1, num_letters, 1, (k - 1) as nat);
                lemma_single_position(num_letters, (k - 1) as nat);
            }
        }
        assert forall|i: int, j: int| 0 <= i < j < all.len() implies all[i] != all[j] by {
            assert(all[j][0] == j);
        }
        assert forall|vector: Seq<usize>|
            vector.len() == key_length && within_alphabet(vector, num_letters) implies all.contains(
            vector,
        ) by {
            let k = vector[0] as int;
            assert(all[k] =~= vector);
        }
    } else {
        lemma_total_count(2, 2);
        assert(power(2, 2) == 4) by {
            reveal_with_fuel(power, 3);
        }
        assert(binomial(2, 1) == 2 && binomial(2, 2) == 1 && binomial(2, 0) == 1) by {
            reveal_with_fuel(binomial, 4);
        }
        assert(power(1, 1) == 1 && power(1, 2) == 1 && power(1, 0) == 1) by {
            reveal_with_fuel(power, 3);
        }
        assert(level_start(2, 2, 0) == 0);
        lemma_enumeration_at(2, 2, 1, 0);
        lemma_enumeration_at(2, 2, 1, 1);
        lemma_enumeration_at(2, 2, 2, 0);
        lemma_first_of_level(2, 2, 1);
        lemma_first_of_level(2, 2, 2);
        lemma_second_of_pair();
        assert(all[0] =~= seq![0usize, 0usize]);
        assert(all[1] =~= seq![1usize, 0usize]);
        assert(all[2] =~= seq![0usize, 1usize]);
        assert(all[3] =~= seq![1usize, 1usize]);
        assert forall|i: int, j: int| 0 <= i < j < all.len() implies all[i] != all[j] by {
            assert(all[i][0] != all[j][0] || all[i][1] != all[j][1]);
        }
        assert forall|vector: Seq<usize>|
            vector.len() == key_length && within_alphabet(vector, num_letters) implies all.contains(
            vector,
        ) by {
            let k: int = if vector[0] == 0 && vector[1] == 0 {
                0
            } else if vector[0] == 1 && vector[1] == 0 {
                1
            } else if vector[0] == 0 {
                2
            } else {
                3
            };
            assert(all[k] =~= vector);
        }
    }
}

/// Where the key has two positions or more and the alphabet two symbols or
/// more, but for two positions over two symbols, the enumeration holds a
/// vector twice: the first vector of level two comes again on that level.
pub proof fn lemma_enumeration_repeats(key_length: usize, num_letters: usize)
    requires
        key_length >= 2,
        num_letters >= 2,
        !(key_length == 2 && num_letters == 2),
    ensures
        exists|i: int, j: int|
            0 <= i < j < enumeration(key_length, num_letters).len() && enumeration(
                key_length,
                num_letters,
            )[i] == enumeration(key_length, num_letters)[j],
{
    let l = key_length as nat;
    let a = num_letters as nat;
    let cols = alternatives(a);
    let again = ((key_length - 1) * (num_letters - 1)) as nat;
    let pairs = binomial(l, 2);
    lemma_binomial_step(l, 0);
    assert(binomial(l, 1) == l) by (nonlinear_arith)
        requires
            (0 + 1) * binomial(l, 1) == (l - 0) * 1,
    ;
    lemma_binomial_step(l, 1);
    assert(power(cols, 2) == cols * cols) by {
        assert(power(cols, 1) == cols * power(cols, 0));
        assert(cols * (cols * 1) == cols * cols) by (nonlinear_arith);
    }
    assert(l * cols > 2) by (nonlinear_arith)
        requires
            l >= 2,
            cols >= 1,
            !(l == 2 && cols == 1),
    ;
    assert(1 <= again < pairs * (cols * cols)) by (nonlinear_arith)
        requires
            (1 + 1) * pairs == (l - 1) * l,
            again == (l - 1) * cols,
            l >= 2,
            cols >= 1,
            l * cols > 2,
    ;
    lemma_enumeration_at(key_length, num_letters, 2, 0);
    lemma_enumeration_at(key_length, num_letters, 2, again);
    lemma_second_level_repeats(key_length, num_letters);
    let i = level_start(l, a, 2) as int;
    let j = (level_start(l, a, 2) + again) as int;
    assert(0 <= i < j < enumeration(key_length, num_letters).len());
    assert(enumeration(key_length, num_letters)[i] == enumeration(key_length, num_letters)[j]);
}

/// Where the key has two positions or more and the alphabet three symbols
/// or more, the enumeration does not end with the vector that deviates
/// everywhere by the most: the position that the first slot of its last
/// vector takes holds a lower rank offset.
pub proof fn lemma_last_vector_below_topmost(key_length: usize, num_letters: usize)
    requires
        key_length >= 2,
        num_letters >= 3,
    ensures
        enumeration(key_length, num_letters).len() >= 1,
        enumeration(key_length, num_letters).last() != topmost(key_length, num_letters),
{
    let l = key_length as nat;
    let a = num_letters as nat;
    let cols = alternatives(a) as int;
    let size = level_size(l, a, l);
    let index = (size - 1) as nat;
    lemma_baseline_first(key_length, num_letters);
    lemma_last_position(key_length, num_letters);
    lemma_binomial_full(l);
    let most = power(alternatives(a), l);
    let less = power(alternatives(a), (l - 1) as nat);
    assert(size == most) by (nonlinear_arith)
        requires
            size == binomial(l, l) * most,
            binomial(l, l) == 1,
    ;
    lemma_power_positive(alternatives(a), (l - 1) as nat);
    lemma_divisor_at_least(key_length, num_letters, l);
    let weight_of_digit = divisor(key_length, num_letters, l, 1);
    let quotient = index as int / weight_of_digit;
    vstd::arithmetic::div_mod::lemma_div_is_ordered_by_denominator(
        index as int,
        less as int,
        weight_of_digit,
    );
    assert(index as int / (less as int) < cols) by {
        vstd::arithmetic::div_mod::lemma_fundamental_div_mod(index as int, less as int);
        vstd::arithmetic::div_mod::lemma_mod_pos_bound(index as int, less as int);
        let whole = index as int / (less as int);
        assert(whole < cols) by (nonlinear_arith)
            requires
                index == less * whole + index as int % (less as int),
                0 <= index as int % (less as int),
                index < cols * less,
                less >= 1,
        ;
    }
    vstd::arithmetic::div_mod::lemma_div_pos_is_pos(index as int, weight_of_digit);
    lemma_radix_positive(key_length, num_letters, 1);
    let base = radix(key_length, num_letters, 1);
    vstd::arithmetic::div_mod::lemma_mod_decreases(quotient as nat, base as nat);
    let first = digit(key_length, num_letters, l, index, 1);
    assert(0 <= first <= cols - 1) by {
        vstd::arithmetic::div_mod::lemma_mod_pos_bound(quotient, base);
    }
    let row_count = rows(key_length, 1);
    vstd::arithmetic::div_mod::lemma_div_is_ordered_by_denominator(first, 2, row_count);
    assert(assigned_value(key_length, num_letters, l, index, 1) < cols);
    lemma_assignment_stays(key_length, num_letters, l, index, 1, l);
    let position = assigned_position(key_length, num_letters, l, index, 1);
    assert(enumeration(key_length, num_letters).last()[position] < cols);
    assert(topmost(key_length, num_letters)[position] == cols);
}

} // verus!
