//! The two-dimensional transform of a square grid: rows, then columns.

use vstd::prelude::*;
use vstd::arithmetic::power2::is_pow2;
use crate::complex::Complex;
use crate::fft::{accepts_butterflies, is_function, Butterfly};
use crate::rows::{lemma_rows_transform_is_function, rows_transformed, transform_rows};
use crate::transpose::{square_transpose_in_place, transposed};

verus! {

/// `after` is the two-dimensional transform of the `n`-by-`n` grid `before`:
/// every row is transformed, the grid is transposed so that its columns lie as
/// rows, every row is transformed again, and the grid is transposed back.
pub open spec fn grid_transformed<T, F: Fn(Butterfly, Complex<T>, Complex<T>) -> (Complex<T>, Complex<T>)>(
    f: F,
    before: Seq<Complex<T>>,
    after: Seq<Complex<T>>,
    n: nat,
    inverse: bool,
) -> bool {
    exists|by_rows: Seq<Complex<T>>, by_columns: Seq<Complex<T>>|
        {
            &&& rows_transformed(f, before, by_rows, n, inverse)
            &&& #[trigger] rows_transformed(f, transposed(by_rows, n), by_columns, n, inverse)
            &&& after == transposed(by_columns, n)
        }
}

/// A square grid holds whole rows.
pub proof fn lemma_square_holds_rows(n: nat)
    requires
        n > 0,
    ensures
        (n * n) % n == 0,
{
    vstd::arithmetic::div_mod::lemma_mod_multiples_basic(n as int, n as int);
}

/// With a butterfly that is a function, a grid has one two-dimensional
/// transform in each direction.
pub proof fn lemma_grid_transform_is_function<T, F: Fn(Butterfly, Complex<T>, Complex<T>) -> (Complex<T>, Complex<T>)>(
    f: F,
    before: Seq<Complex<T>>,
    first: Seq<Complex<T>>,
    second: Seq<Complex<T>>,
    n: nat,
    inverse: bool,
)
    requires
        is_function(f),
        is_pow2(n as int),
        before.len() == n * n,
        grid_transformed(f, before, first, n, inverse),
        grid_transformed(f, before, second, n, inverse),
    ensures
        first == second,
{
    assert(n > 0) by {
        reveal(is_pow2);
    }
    lemma_square_holds_rows(n);
    let (rows_1, columns_1) = choose|by_rows: Seq<Complex<T>>, by_columns: Seq<Complex<T>>|
        {
            &&& rows_transformed(f, before, by_rows, n, inverse)
            &&& #[trigger] rows_transformed(f, transposed(by_rows, n), by_columns, n, inverse)
            &&& first == transposed(by_columns, n)
        };
    let (rows_2, columns_2) = choose|by_rows: Seq<Complex<T>>, by_columns: Seq<Complex<T>>|
        {
            &&& rows_transformed(f, before, by_rows, n, inverse)
            &&& #[trigger] rows_transformed(f, transposed(by_rows, n), by_columns, n, inverse)
            &&& second == transposed(by_columns, n)
        };
    lemma_rows_transform_is_function(f, before, rows_1, rows_2, n, inverse);
    lemma_rows_transform_is_function(f, transposed(rows_1, n), columns_1, columns_2, n, inverse);
}

/// Transforms the `n`-by-`n` grid in `array` in place, along both axes.
pub fn square_fft_in_place<T: Copy, F: Fn(Butterfly, Complex<T>, Complex<T>) -> (Complex<T>, Complex<T>)>(
    array: &mut [Complex<T>],
    n: usize,
    is_inverse: bool,
    butterfly: &F,
)
    requires
        is_pow2(n as int),
        old(array).len() == n * n,
        accepts_butterflies(*butterfly, n as nat, is_inverse),
    ensures
        grid_transformed(*butterfly, old(array)@, final(array)@, n as nat, is_inverse),
{
    proof {
        reveal(is_pow2);
        lemma_square_holds_rows(n as nat);
    }
    transform_rows(array, n, is_inverse, butterfly);
    let ghost by_rows = array@;
    square_transpose_in_place(array, n);
    transform_rows(array, n, is_inverse, butterfly);
    let ghost by_columns = array@;
    square_transpose_in_place(array, n);
    proof {
        assert(rows_transformed(*butterfly, transposed(by_rows, n as nat), by_columns, n as nat, is_inverse));
    }
}

} // verus!
