//! The bit-reversal permutation that puts a sequence into the order the
//! butterfly passes expect.

use vstd::prelude::*;
use vstd::arithmetic::power2::{is_pow2, pow2};
use vstd::arithmetic::div_mod::{lemma_div_denominator, lemma_fundamental_div_mod_converse};
use crate::complex::Complex;
use crate::power_of_two::lemma_half_of_power_of_two;

verus! {

/// The index `i` with its low `log2(n)` bits written in the opposite order,
/// for `n` a power of two. The lowest bit of `i` becomes the highest of the
/// result, with weight `n / 2`; the bits above it are reversed into the
/// remaining `log2(n) - 1` places.
pub open spec fn bit_reverse(i: nat, n: nat) -> nat
    decreases n,
{
    if n <= 1 {
        0
    } else {
        (i % 2) * (n / 2) + bit_reverse(i / 2, n / 2)
    }
}

/// The sequence `s` with its first `n` entries permuted by bit reversal: place
/// `k` holds what `s` has at `bit_reverse(k, n)`. Entries from `n` on are kept.
pub open spec fn bit_reversed<T>(s: Seq<T>, n: nat) -> Seq<T> {
    Seq::new(
        s.len(),
        |k: int|
            if 0 <= k < n {
                s[bit_reverse(k as nat, n) as int]
            } else {
                s[k]
            },
    )
}

/// A reversed index is again an index below `n`.
pub proof fn lemma_bit_reverse_in_range(i: nat, n: nat)
    requires
        is_pow2(n as int),
    ensures
        bit_reverse(i, n) < n,
    decreases n,
{
    reveal(is_pow2);
    if n > 1 {
        lemma_bit_reverse_in_range(i / 2, n / 2);
        let h = n / 2;
        assert((i % 2) * h <= h) by (nonlinear_arith)
            requires
                i % 2 <= 1,
        ;
    }
}

/// The reversal read from the other end: the highest of the `log2(n)` bits of
/// `i` becomes the lowest bit of the result, and the bits below it are reversed
/// into the places above.
pub proof fn lemma_bit_reverse_from_top(i: nat, n: nat)
    requires
        is_pow2(n as int),
        n >= 2,
        i < n,
    ensures
        bit_reverse(i, n) == 2 * bit_reverse(i % (n / 2), n / 2) + i / (n / 2),
    decreases n,
{
    lemma_half_of_power_of_two(n);
    let h = n / 2;
    if h == 1 {
        assert(bit_reverse(i / 2, 1) == 0);
        assert(bit_reverse(i % 1, 1) == 0);
    } else {
        lemma_half_of_power_of_two(h);
        let q = h / 2;
        lemma_bit_reverse_from_top(i / 2, h);
        // The low bit and the upper bits of `i % h` are those of `i`.
        assert((i % h) % 2 == i % 2 && (i % h) / 2 == (i / 2) % q && (i / 2) / q == i / h) by {
            let top = (i / 2) / q;
            let mid = (i / 2) % q;
            vstd::arithmetic::div_mod::lemma_fundamental_div_mod((i / 2) as int, q as int);
            assert(q * top == top * q) by (nonlinear_arith);
            assert(i == top * h + (2 * mid + i % 2)) by (nonlinear_arith)
                requires
                    i / 2 == q * top + mid,
                    h == 2 * q,
                    i == 2 * (i / 2) + i % 2,
            ;
            lemma_fundamental_div_mod_converse(i as int, h as int, top as int, (2 * mid + i % 2) as int);
        }
        assert(2 * ((i % 2) * q) == (i % 2) * h) by (nonlinear_arith)
            requires
                h == 2 * q,
        ;
    }
}

/// Reversing the bits twice gives the index back.
pub proof fn lemma_bit_reverse_twice(i: nat, n: nat)
    requires
        is_pow2(n as int),
        i < n,
    ensures
        bit_reverse(i, n) < n,
        bit_reverse(bit_reverse(i, n), n) == i,
    decreases n,
{
    lemma_bit_reverse_in_range(i, n);
    if n >= 2 {
        lemma_half_of_power_of_two(n);
        let h = n / 2;
        let low = bit_reverse(i / 2, h);
        let r = bit_reverse(i, n);
        lemma_bit_reverse_twice(i / 2, h);
        lemma_bit_reverse_from_top(r, n);
        assert(h * (i % 2) == (i % 2) * h) by (nonlinear_arith);
        lemma_fundamental_div_mod_converse(r as int, h as int, (i % 2) as int, low as int);
    }
}

/// The binary digit of `x` at weight `2^place`.
pub open spec fn digit(x: nat, place: nat) -> nat {
    (x / pow2(place)) % 2
}

/// The reversal mirrors the digits: among the low `bits` digits, the one at
/// `place` in the reversed index is the one at `bits - 1 - place` in the index.
pub proof fn lemma_bit_reverse_mirrors_digits(i: nat, bits: nat, place: nat)
    requires
        place < bits,
    ensures
        digit(bit_reverse(i, pow2(bits)), place) == digit(i, (bits - 1 - place) as nat),
    decreases bits,
{
    let n = pow2(bits);
    let h = pow2((bits - 1) as nat);
    let w = pow2(place);
    vstd::arithmetic::power2::lemma_pow2_unfold(bits);
    vstd::arithmetic::power2::lemma_pow2_pos((bits - 1) as nat);
    vstd::arithmetic::power2::lemma_pow2_pos(place);
    vstd::arithmetic::power2::lemma_pow2((bits - 1) as nat);
    vstd::arithmetic::power2::is_pow2_equiv(h as int);
    let top = i % 2;
    let low = bit_reverse(i / 2, h);
    let rev = bit_reverse(i, n);
    lemma_bit_reverse_in_range(i / 2, h);
    assert(rev == top * h + low);
    if place == bits - 1 {
        // The top digit of the reversal is the lowest digit of the index.
        assert(h * top == top * h) by (nonlinear_arith);
        lemma_fundamental_div_mod_converse(rev as int, h as int, top as int, low as int);
        vstd::arithmetic::power2::lemma2_to64();
    } else {
        // Below the top digit the reversal reads like its lower part, whose
        // digits are those of `i / 2` mirrored.
        let above = (bits - 1 - place) as nat;
        let deep = pow2((above - 1) as nat);
        vstd::arithmetic::power2::lemma_pow2_adds(place, above);
        vstd::arithmetic::power2::lemma_pow2_unfold(above);
        vstd::arithmetic::power2::lemma_pow2_pos((above - 1) as nat);
        assert(h == w * (2 * deep));
        let sunk = top * deep;
        let q = low / w;
        let r = low % w;
        vstd::arithmetic::div_mod::lemma_fundamental_div_mod(low as int, w as int);
        assert(rev == w * (2 * sunk + q) + r) by (nonlinear_arith)
            requires
                rev == top * h + low,
                h == w * (2 * deep),
                sunk == top * deep,
                low == w * q + r,
        ;
        lemma_fundamental_div_mod_converse(rev as int, w as int, (2 * sunk + q) as int, r as int);
        assert(digit(rev, place) == digit(low, place));
        lemma_bit_reverse_mirrors_digits(i / 2, (bits - 1) as nat, place);
        lemma_div_denominator(i as int, 2, deep as int);
    }
}

/// Applying the permutation twice restores the sequence, entry for entry.
pub proof fn lemma_bit_reversed_twice<T>(s: Seq<T>, n: nat)
    requires
        is_pow2(n as int),
        n <= s.len(),
    ensures
        bit_reversed(bit_reversed(s, n), n) == s,
{
    let once = bit_reversed(s, n);
    let twice = bit_reversed(once, n);
    assert forall|k: int| 0 <= k < s.len() implies twice[k] == s[k] by {
        if k < n {
            lemma_bit_reverse_twice(k as nat, n);
        }
    }
    assert(twice =~= s);
}

/// Masking with a power of two `u` keeps one binary digit of `i`, at the
/// weight `u`: the digit that dividing by `u` brings to the lowest place.
proof fn lemma_mask_reads_digit(i: usize, u: usize)
    requires
        is_pow2(u as int),
    ensures
        u > 0,
        (i & u) == u * ((i / u) % 2),
        (i & u) / u == (i / u) % 2,
    decreases u,
{
    reveal(is_pow2);
    if u == 1 {
        assert(i & 1 == i % 2) by (bit_vector);
    } else {
        let v: usize = u / 2;
        let j: usize = i / 2;
        lemma_mask_reads_digit(j, v);
        assert(i & u == 2 * (j & v)) by (bit_vector)
            requires
                u % 2 == 0,
                v == u / 2,
                j == i / 2,
        ;
        lemma_div_denominator(i as int, 2, v as int);
        let bit = (i / u) % 2;
        assert(2 * (v * bit) == u * bit) by (nonlinear_arith)
            requires
                u == 2 * v,
        ;
    }
    let bit = ((i / u) % 2) as int;
    assert((u * bit) / (u as int) == bit) by (nonlinear_arith)
        requires
            u > 0,
    ;
}

/// Computes the bit reversal of `i` within `log2(n)` bits.
///
/// The bits of `i` are taken one at a time from the least significant end,
/// with the weight `u` doubling from one, and each is added to the result at
/// the weight `d`, which halves from `n / 2`.
pub fn reversed_index(i: usize, n: usize) -> (rev: usize)
    requires
        is_pow2(n as int),
    ensures
        rev == bit_reverse(i as nat, n as nat),
        rev < n,
{
    let mut u: usize = 1;
    let mut d: usize = n >> 1;
    let mut rev: usize = 0;
    let ghost q: nat = n as nat;
    proof {
        reveal(is_pow2);
        assert(n >> 1 == n / 2) by (bit_vector);
        lemma_bit_reverse_in_range(i as nat, n as nat);
    }
    while u < n
        invariant
            is_pow2(n as int),
            is_pow2(u as int),
            is_pow2(q as int),
            u * q == n,
            d == q / 2,
            rev + bit_reverse((i / u) as nat, q) == bit_reverse(i as nat, n as nat),
            bit_reverse(i as nat, n as nat) < n,
        decreases n - u,
    {
        proof {
            assert(q > 1) by (nonlinear_arith)
                requires
                    u * q == n,
                    u < n,
                    u >= 0,
            ;
            lemma_half_of_power_of_two(q);
            lemma_mask_reads_digit(i, u);
            assert((2 * u) * (q / 2) == n && 2 * u <= n) by (nonlinear_arith)
                requires
                    u * q == n,
                    q % 2 == 0,
                    q / 2 >= 1,
            ;
            lemma_div_denominator(i as int, u as int, 2);
            assert(is_pow2(2 * u)) by {
                reveal(is_pow2);
            }
            assert(u << 1 == 2 * u) by (bit_vector)
                requires
                    2 * u <= n,
            ;
            assert(d >> 1 == d / 2) by (bit_vector);
            let bit = (i / u) % 2;
            assert(d * bit <= d) by (nonlinear_arith)
                requires
                    0 <= bit <= 1,
            ;
            assert(d * bit == bit * (q / 2)) by (nonlinear_arith)
                requires
                    d == q / 2,
            ;
        }
        rev += d * ((i & u) / u);
        u <<= 1;
        d >>= 1;
        proof {
            q = q / 2;
        }
    }
    proof {
        assert(q == 1) by (nonlinear_arith)
            requires
                u * q == n,
                u >= n,
                q >= 0,
                n > 0,
        ;
    }
    rev
}

/// Permutes the first `n` entries of `array` into bit-reversed order, in place.
///
/// Each index is paired with its reversal and the pair is exchanged once, when
/// the walk reaches the smaller of the two; an index that is its own reversal
/// stays put.
pub fn reverse_bit_sort<T: Copy>(array: &mut [Complex<T>], n: usize)
    requires
        is_pow2(n as int),
        n <= old(array).len(),
    ensures
        final(array)@ == bit_reversed(old(array)@, n as nat),
{
    let ghost before = array@;
    let ghost size = n as nat;
    for i in 0..n
        invariant
            size == n,
            is_pow2(n as int),
            n <= array.len(),
            array@.len() == before.len(),
            forall|k: int| n <= k < before.len() ==> array@[k] == before[k],
            forall|k: int|
                0 <= k < n ==> #[trigger] array@[k] == (if k < i || bit_reverse(k as nat, size) < i {
                    before[bit_reverse(k as nat, size) as int]
                } else {
                    before[k]
                }),
    {
        let rev = reversed_index(i, n);
        let ghost entered = array@;
        if rev >= i {
            let tmp = array[i];
            array[i] = array[rev];
            array[rev] = tmp;
        }
        proof {
            lemma_bit_reverse_twice(i as nat, size);
            assert forall|k: int| 0 <= k < n implies #[trigger] array@[k] == (if k < i + 1
                || bit_reverse(k as nat, size) < i + 1 {
                before[bit_reverse(k as nat, size) as int]
            } else {
                before[k]
            }) by {
                lemma_bit_reverse_twice(k as nat, size);
            }
        }
    }
    proof {
        assert(array@ =~= bit_reversed(before, size));
    }
}

} // verus!
