//! Binomial coefficients, powers, and the sizes of the enumeration levels.
//!
//! A level holds the mutation vectors with a fixed number of nonzero entries.
//! Level `c` of a key of length `L` over `V` nonzero values has
//! `binomial(L, c) * power(V, c)` vectors, and all levels together have
//! `power(V + 1, L)`.

use vstd::prelude::*;

verus! {

/// `base` multiplied by itself `exp` times.
pub open spec fn power(base: nat, exp: nat) -> nat
    decreases exp,
{
    if exp == 0 {
        1
    } else {
        base * power(base, (exp - 1) as nat)
    }
}

/// The number of `k`-element subsets of an `n`-element set.
pub open spec fn binomial(n: nat, k: nat) -> nat
    decreases n, k,
{
    if k == 0 {
        1
    } else if n == 0 {
        0
    } else {
        binomial((n - 1) as nat, (k - 1) as nat) + binomial((n - 1) as nat, k)
    }
}

/// The number of nonzero rank offsets that an alphabet of `num_letters`
/// symbols leaves to each position: one less than its size, and none for an
/// alphabet too small to deviate in.
pub open spec fn alternatives(num_letters: nat) -> nat {
    if num_letters >= 1 {
        (num_letters - 1) as nat
    } else {
        0
    }
}

/// The number of mutation vectors on level `level`: the ways to choose which
/// positions deviate, times the ways to choose their nonzero values.
pub open spec fn level_size(key_length: nat, num_letters: nat, level: nat) -> nat {
    binomial(key_length, level) * power(alternatives(num_letters), level)
}

/// The number of mutation vectors on the levels below `level`.
pub open spec fn level_start(key_length: nat, num_letters: nat, level: nat) -> nat
    decreases level,
{
    if level == 0 {
        0
    } else {
        level_start(key_length, num_letters, (level - 1) as nat) + level_size(
            key_length,
            num_letters,
            (level - 1) as nat,
        )
    }
}

/// The number of mutation vectors on all levels, `0` to `key_length`.
pub open spec fn total_count(key_length: nat, num_letters: nat) -> nat {
    level_start(key_length, num_letters, key_length + 1)
}

/// A positive base has positive powers.
pub proof fn lemma_power_positive(base: nat, exp: nat)
    requires
        base >= 1,
    ensures
        power(base, exp) >= 1,
    decreases exp,
{
    if exp > 0 {
        lemma_power_positive(base, (exp - 1) as nat);
        let p = power(base, (exp - 1) as nat);
        assert(base * p >= 1) by (nonlinear_arith)
            requires
                base >= 1,
                p >= 1,
        ;
    }
}

/// Zero to a positive power is zero.
pub proof fn lemma_power_of_zero(exp: nat)
    requires
        exp >= 1,
    ensures
        power(0, exp) == 0,
{
    let p = power(0, (exp - 1) as nat);
    assert(0 * p == 0) by (nonlinear_arith);
}

/// One to any power is one.
pub proof fn lemma_power_of_one(exp: nat)
    ensures
        power(1, exp) == 1,
    decreases exp,
{
    if exp > 0 {
        lemma_power_of_one((exp - 1) as nat);
    }
}

/// With a base of at least one, a larger exponent gives no smaller power.
pub proof fn lemma_power_monotonic(base: nat, low: nat, high: nat)
    requires
        base >= 1,
        low <= high,
    ensures
        power(base, low) <= power(base, high),
    decreases high,
{
    if low < high {
        lemma_power_monotonic(base, low, (high - 1) as nat);
        let p = power(base, (high - 1) as nat);
        assert(p <= base * p) by (nonlinear_arith)
            requires
                base >= 1,
        ;
    }
}

/// A set has no subset larger than itself.
pub proof fn lemma_binomial_beyond(n: nat, k: nat)
    requires
        n < k,
    ensures
        binomial(n, k) == 0,
    decreases n,
{
    if n > 0 {
        lemma_binomial_beyond((n - 1) as nat, (k - 1) as nat);
        lemma_binomial_beyond((n - 1) as nat, k);
    }
}

/// Every size up to that of the set has at least one subset.
pub proof fn lemma_binomial_positive(n: nat, k: nat)
    requires
        k <= n,
    ensures
        binomial(n, k) >= 1,
    decreases n,
{
    if k > 0 {
        lemma_binomial_positive((n - 1) as nat, (k - 1) as nat);
    }
}

/// A set has exactly one subset of its own size.
pub proof fn lemma_binomial_full(n: nat)
    ensures
        binomial(n, n) == 1,
    decreases n,
{
    if n > 0 {
        lemma_binomial_full((n - 1) as nat);
        lemma_binomial_beyond((n - 1) as nat, n);
    }
}

/// Extending a `k`-subset by one of the `n - k` other elements reaches each
/// `(k + 1)`-subset `k + 1` times.
pub proof fn lemma_binomial_step(n: nat, k: nat)
    requires
        k <= n,
    ensures
        (k + 1) * binomial(n, k + 1) == (n - k) * binomial(n, k),
    decreases n,
{
    if n == 0 {
        assert((0 + 1) * 0 == (0 - 0) * 1) by (nonlinear_arith);
    } else {
        let m = (n - 1) as nat;
        if k == 0 {
            lemma_binomial_step(m, 0);
            let b = binomial(m, 1);
            assert(b == m) by (nonlinear_arith)
                requires
                    (0 + 1) * b == (m - 0) * 1,
            ;
            assert((0 + 1) * n == (n - 0) * 1) by (nonlinear_arith);
        } else {
            let j = (k - 1) as nat;
            let a = binomial(m, j);
            let b = binomial(m, k);
            let c = binomial(m, k + 1);
            lemma_binomial_step(m, j);
            if k <= m {
                lemma_binomial_step(m, k);
            } else {
                lemma_binomial_beyond(m, k);
                lemma_binomial_beyond(m, k + 1);
            }
            assert((k + 1) * (b + c) == (n - k) * (a + b)) by (nonlinear_arith)
                requires
                    k * b == (m - j) * a,
                    k <= m ==> (k + 1) * c == (m - k) * b,
                    k > m ==> b == 0 && c == 0,
                    j == k - 1,
                    m == n - 1,
                    k <= n,
            ;
        }
    }
}

/// The levels up to `key_length` are not empty where the alphabet has a
/// nonzero offset to give, and only level zero is not empty where it has none.
pub proof fn lemma_level_size_positive(key_length: nat, num_letters: nat, level: nat)
    ensures
        level <= key_length && (num_letters >= 2 || level == 0) ==> level_size(
            key_length,
            num_letters,
            level,
        ) >= 1,
        level > key_length || (num_letters < 2 && level > 0) ==> level_size(
            key_length,
            num_letters,
            level,
        ) == 0,
        level_size(key_length, num_letters, 0) == 1,
{
    let v = alternatives(num_letters);
    let b = binomial(key_length, level);
    let p = power(v, level);
    if level <= key_length && (num_letters >= 2 || level == 0) {
        lemma_binomial_positive(key_length, level);
        if level > 0 {
            lemma_power_positive(v, level);
        }
        assert(b * p >= 1) by (nonlinear_arith)
            requires
                b >= 1,
                p >= 1,
        ;
    } else if level > key_length {
        lemma_binomial_beyond(key_length, level);
        assert(0 * p == 0) by (nonlinear_arith);
    } else {
        lemma_power_of_zero(level);
        assert(b * 0 == 0) by (nonlinear_arith);
    }
    assert(1 * 1 == 1) by (nonlinear_arith);
}

/// A higher level starts no earlier.
pub proof fn lemma_level_start_monotonic(key_length: nat, num_letters: nat, low: nat, high: nat)
    requires
        low <= high,
    ensures
        level_start(key_length, num_letters, low) <= level_start(key_length, num_letters, high),
    decreases high,
{
    if low < high {
        lemma_level_start_monotonic(key_length, num_letters, low, (high - 1) as nat);
    }
}

/// Each level up to `key_length` lies within the total.
pub proof fn lemma_level_within_total(key_length: nat, num_letters: nat, level: nat)
    requires
        level <= key_length,
    ensures
        level_start(key_length, num_letters, level) + level_size(key_length, num_letters, level)
            <= total_count(key_length, num_letters),
{
    lemma_level_start_monotonic(key_length, num_letters, level + 1, key_length + 1);
}

/// The levels of a key one position longer, from those of the key itself:
/// a vector of the longer key either leaves the new position at zero or gives
/// it one of the nonzero values.
proof fn lemma_level_start_longer(key_length: nat, num_letters: nat, level: nat)
    ensures
        level_start(key_length + 1, num_letters, level + 1) == level_start(
            key_length,
            num_letters,
            level + 1,
        ) + alternatives(num_letters) * level_start(key_length, num_letters, level),
    decreases level,
{
    let v = alternatives(num_letters);
    if level == 0 {
        assert(level_start(key_length + 1, num_letters, 0) == 0);
        lemma_level_size_positive(key_length + 1, num_letters, 0);
        lemma_level_size_positive(key_length, num_letters, 0);
        assert(v * 0 == 0) by (nonlinear_arith);
    } else {
        let below = (level - 1) as nat;
        lemma_level_start_longer(key_length, num_letters, below);
        let s_low = level_start(key_length, num_letters, below);
        let b_low = binomial(key_length, below);
        let b_mid = binomial(key_length, level);
        let p_low = power(v, below);
        let p_mid = power(v, level);
        assert((b_low + b_mid) * p_mid + v * s_low == b_mid * p_mid + v * (s_low + b_low * p_low))
            by (nonlinear_arith)
            requires
                p_mid == v * p_low,
        ;
    }
}

/// All levels together hold as many vectors as there are vectors at all:
/// each position takes zero or one of the nonzero values.
pub proof fn lemma_total_count(key_length: nat, num_letters: nat)
    ensures
        total_count(key_length, num_letters) == power(alternatives(num_letters) + 1, key_length),
    decreases key_length,
{
    let v = alternatives(num_letters);
    if key_length == 0 {
        assert(level_start(0, num_letters, 0) == 0);
        lemma_level_size_positive(0, num_letters, 0);
    } else {
        let shorter = (key_length - 1) as nat;
        lemma_total_count(shorter, num_letters);
        lemma_level_start_longer(shorter, num_letters, key_length);
        let t = total_count(shorter, num_letters);
        lemma_level_size_positive(shorter, num_letters, key_length);
        assert(t + v * t == (v + 1) * t) by (nonlinear_arith);
    }
}

} // verus!
