//! The one-dimensional transform applied to every row of a buffer of rows.

use vstd::prelude::*;
use vstd::arithmetic::power2::is_pow2;
use crate::complex::Complex;
use crate::fft::{
    accepts_butterflies, base_fft_in_place, is_function, lemma_transform_is_function, transformed,
    Butterfly,
};
use crate::layout::{lemma_cell_of_offset, lemma_offset_in_grid};

verus! {

/// Row `r` of a buffer that holds rows of `n` entries one after the other.
pub open spec fn row<T>(s: Seq<T>, n: nat, r: int) -> Seq<T> {
    s.subrange(r * n, r * n + n)
}

/// `after` is `before` with each of its rows of `n` entries transformed in the
/// given direction, with `f` as the butterfly.
pub open spec fn rows_transformed<T, F: Fn(Butterfly, Complex<T>, Complex<T>) -> (Complex<T>, Complex<T>)>(
    f: F,
    before: Seq<Complex<T>>,
    after: Seq<Complex<T>>,
    n: nat,
    inverse: bool,
) -> bool {
    &&& after.len() == before.len()
    &&& forall|r: int|
        0 <= r < before.len() / n ==> transformed(f, #[trigger] row(before, n, r), row(after, n, r), n, inverse)
}

/// Transforms every row of `rows` in place, one after the other.
///
/// The buffer holds whole rows of `n` entries; each is transformed on its own,
/// so no row's result depends on another row.
pub fn transform_rows<T: Copy, F: Fn(Butterfly, Complex<T>, Complex<T>) -> (Complex<T>, Complex<T>)>(
    rows: &mut [Complex<T>],
    n: usize,
    is_inverse: bool,
    butterfly: &F,
)
    requires
        is_pow2(n as int),
        old(rows).len() % n == 0,
        accepts_butterflies(*butterfly, n as nat, is_inverse),
    ensures
        rows_transformed(*butterfly, old(rows)@, final(rows)@, n as nat, is_inverse),
{
    proof {
        reveal(is_pow2);
    }
    let ghost before = rows@;
    let ghost width = n as nat;
    let count: usize = rows.len() / n;
    proof {
        vstd::arithmetic::div_mod::lemma_fundamental_div_mod(rows.len() as int, n as int);
        assert(count * n == n * count) by (nonlinear_arith);
    }
    for r in 0..count
        invariant
            width == n,
            n >= 1,
            is_pow2(n as int),
            accepts_butterflies(*butterfly, n as nat, is_inverse),
            rows@.len() == before.len(),
            rows.len() == count * n,
            count == before.len() / width,
            forall|k: int| r * n <= k < before.len() ==> rows@[k] == before[k],
            forall|q: int|
                0 <= q < r ==> transformed(
                    *butterfly,
                    #[trigger] row(before, width, q),
                    row(rows@, width, q),
                    width,
                    is_inverse,
                ),
    {
        proof {
            lemma_offset_in_grid(width, count as nat, r as int, 0);
        }
        let start: usize = r * n;
        let ghost entered = rows@;
        let (_, tail) = rows.split_at_mut(start);
        let (this, _) = tail.split_at_mut(n);
        let ghost row_before = this@;
        base_fft_in_place(this, n, is_inverse, butterfly);
        proof {
            assert(row_before =~= row(before, width, r as int));
            assert(this@ =~= row(rows@, width, r as int));
            assert forall|q: int| 0 <= q < r implies row(rows@, width, q) == row(entered, width, q) by {
                lemma_offset_in_grid(width, r as nat, q, 0);
                assert(row(rows@, width, q) =~= row(entered, width, q));
            }
            assert((r + 1) * n == r * n + n) by (nonlinear_arith);
        }
    }
}

/// A buffer of whole rows is made of its rows: entry `k` is entry `k % n` of
/// row `k / n`.
pub proof fn lemma_row_entry<T>(s: Seq<T>, n: nat, k: int)
    requires
        n > 0,
        s.len() % n == 0,
        0 <= k < s.len(),
    ensures
        0 <= k / (n as int) < s.len() / n,
        0 <= k % (n as int) < n,
        row(s, n, k / (n as int)).len() == n,
        row(s, n, k / (n as int))[k % (n as int)] == s[k],
{
    let count = s.len() / n;
    vstd::arithmetic::div_mod::lemma_fundamental_div_mod(s.len() as int, n as int);
    assert(count * n == n * count) by (nonlinear_arith);
    lemma_cell_of_offset(n, count, k);
    lemma_offset_in_grid(n, count, k / (n as int), k % (n as int));
}

/// With a butterfly that is a function, a buffer of rows has one transform in
/// each direction.
pub proof fn lemma_rows_transform_is_function<T, F: Fn(Butterfly, Complex<T>, Complex<T>) -> (Complex<T>, Complex<T>)>(
    f: F,
    before: Seq<Complex<T>>,
    first: Seq<Complex<T>>,
    second: Seq<Complex<T>>,
    n: nat,
    inverse: bool,
)
    requires
        is_function(f),
        is_pow2(n as int),
        before.len() % n == 0,
        rows_transformed(f, before, first, n, inverse),
        rows_transformed(f, before, second, n, inverse),
    ensures
        first == second,
{
    assert(n > 0) by {
        reveal(is_pow2);
    }
    assert forall|k: int| 0 <= k < before.len() implies first[k] == second[k] by {
        let r = k / (n as int);
        lemma_row_entry(before, n, k);
        lemma_row_entry(first, n, k);
        lemma_row_entry(second, n, k);
        assert(transformed(f, row(before, n, r), row(first, n, r), n, inverse));
        assert(transformed(f, row(before, n, r), row(second, n, r), n, inverse));
        lemma_transform_is_function(f, row(before, n, r), row(first, n, r), row(second, n, r), n, inverse);
    }
    assert(first =~= second);
}

} // verus!
