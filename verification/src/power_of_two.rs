//! Powers of two: the facts about them that the transform leans on, and the
//! run-time test for them.

use vstd::prelude::*;
use vstd::arithmetic::power2::is_pow2;

verus! {

/// A power of two above one is even and its half is a power of two.
pub proof fn lemma_half_of_power_of_two(n: nat)
    requires
        is_pow2(n as int),
        n > 1,
    ensures
        n % 2 == 0,
        n / 2 >= 1,
        is_pow2((n / 2) as int),
{
    reveal(is_pow2);
}

/// A power of two is filled exactly by blocks of a smaller power of two.
pub proof fn lemma_blocks_fill(size: nat, block_size: nat)
    requires
        is_pow2(size as int),
        is_pow2(block_size as int),
        block_size <= size,
    ensures
        block_size > 0,
        (size / block_size) * block_size == size,
        is_pow2((size / block_size) as int),
    decreases size,
{
    reveal(is_pow2);
    if block_size == size {
        assert(size / block_size == 1) by (nonlinear_arith)
            requires
                block_size == size,
                size > 0,
        ;
    } else {
        assert(size > 1);
        lemma_half_of_power_of_two(size);
        lemma_power_of_two_below(block_size, size);
        lemma_blocks_fill(size / 2, block_size);
        let q = (size / 2) / block_size;
        assert(size == (2 * q) * block_size) by (nonlinear_arith)
            requires
                q * block_size == size / 2,
                size == 2 * (size / 2),
        ;
        assert(size == block_size * (2 * q) + 0) by (nonlinear_arith)
            requires
                size == (2 * q) * block_size,
        ;
        vstd::arithmetic::div_mod::lemma_fundamental_div_mod_converse(
            size as int,
            block_size as int,
            (2 * q) as int,
            0,
        );
        assert(is_pow2((2 * q) as int));
    }
}

/// A power of two strictly below another is at most half of it.
pub proof fn lemma_power_of_two_below(a: nat, b: nat)
    requires
        is_pow2(a as int),
        is_pow2(b as int),
        a < b,
    ensures
        2 * a <= b,
    decreases a,
{
    reveal(is_pow2);
    if a > 1 {
        lemma_power_of_two_below(a / 2, b / 2);
    }
}

/// A power of two has exactly one bit set.
pub proof fn lemma_single_bit(u: usize)
    requires
        is_pow2(u as int),
    ensures
        u != 0,
        u & ((u - 1) as usize) == 0,
    decreases u,
{
    reveal(is_pow2);
    if u == 1 {
        assert(1usize & 0usize == 0) by (bit_vector);
    } else {
        let v: usize = u / 2;
        lemma_single_bit(v);
        assert(u & ((u - 1) as usize) == 0) by (bit_vector)
            requires
                u % 2 == 0,
                u > 1,
                v == u / 2,
                v & ((v - 1) as usize) == 0,
        ;
    }
}

/// A positive number with exactly one bit set is a power of two.
pub proof fn lemma_single_bit_is_power(u: usize)
    requires
        u != 0,
        u & ((u - 1) as usize) == 0,
    ensures
        is_pow2(u as int),
    decreases u,
{
    reveal(is_pow2);
    if u != 1 {
        let v: usize = u / 2;
        assert(u % 2 == 0 && v != 0 && v & ((v - 1) as usize) == 0) by (bit_vector)
            requires
                u != 0,
                u != 1,
                v == u / 2,
                u & ((u - 1) as usize) == 0,
        ;
        lemma_single_bit_is_power(v);
    }
}

/// Whether `n` is a power of two.
pub fn is_power_of_two(n: usize) -> (yes: bool)
    ensures
        yes == is_pow2(n as int),
{
    if n == 0 {
        proof {
            reveal(is_pow2);
        }
        false
    } else {
        let single = n & (n - 1) == 0;
        proof {
            if single {
                lemma_single_bit_is_power(n);
            }
            if is_pow2(n as int) {
                lemma_single_bit(n);
            }
        }
        single
    }
}

} // verus!
