//! In-place transpose of a square row-major grid.

use vstd::prelude::*;
use crate::complex::Complex;
use crate::layout::{lemma_cell_of_offset, lemma_offset_div_mod, lemma_offset_in_grid, lemma_offset_injective, offset};

verus! {

/// The buffer `s` with its leading `n`-by-`n` grid transposed: the cell in row
/// `r`, column `c` holds what `s` has in row `c`, column `r`. Whatever follows
/// the grid is kept.
pub open spec fn transposed<T>(s: Seq<T>, n: nat) -> Seq<T> {
    Seq::new(
        s.len(),
        |k: int|
            if 0 <= k < n * n {
                s[offset(n, k % (n as int), k / (n as int))]
            } else {
                s[k]
            },
    )
}

/// Cell `(r, c)` of the transposed grid is cell `(c, r)` of the grid.
pub proof fn lemma_transposed_cell<T>(s: Seq<T>, n: nat, r: int, c: int)
    requires
        n * n <= s.len(),
        0 <= r < n,
        0 <= c < n,
    ensures
        0 <= offset(n, r, c) < n * n,
        0 <= offset(n, c, r) < n * n,
        transposed(s, n)[offset(n, r, c)] == s[offset(n, c, r)],
{
    lemma_offset_in_grid(n, n, r, c);
    lemma_offset_in_grid(n, n, c, r);
    lemma_offset_div_mod(n, r, c);
}

/// Transposing twice gives the buffer back.
pub proof fn lemma_transposed_twice<T>(s: Seq<T>, n: nat)
    requires
        n * n <= s.len(),
    ensures
        transposed(transposed(s, n), n) == s,
{
    let once = transposed(s, n);
    let twice = transposed(once, n);
    assert forall|k: int| 0 <= k < s.len() implies twice[k] == s[k] by {
        if k < n * n {
            lemma_cell_of_offset(n, n, k);
            let r = k / (n as int);
            let c = k % (n as int);
            lemma_transposed_cell(s, n, c, r);
        }
    }
    assert(twice =~= s);
}

/// Transposes the `n`-by-`n` grid at the start of `array` in place.
///
/// Each cell above the diagonal is exchanged with its mirror image below it;
/// the diagonal, and anything stored after the grid, stays where it is.
pub fn square_transpose_in_place<T: Copy>(array: &mut [Complex<T>], n: usize)
    requires
        n * n <= old(array).len(),
    ensures
        final(array)@ == transposed(old(array)@, n as nat),
{
    let ghost before = array@;
    let ghost size = n as nat;
    for i in 0..n
        invariant
            size == n,
            n * n <= array.len(),
            array@.len() == before.len(),
            forall|k: int| n * n <= k < before.len() ==> array@[k] == before[k],
            forall|r: int, c: int|
                0 <= r < n && 0 <= c < n ==> array@[#[trigger] offset(size, r, c)] == (if r < i
                    || c < i {
                    before[offset(size, c, r)]
                } else {
                    before[offset(size, r, c)]
                }),
    {
        for j in (i + 1)..n
            invariant
                size == n,
                i < n,
                n * n <= array.len(),
                array@.len() == before.len(),
                forall|k: int| n * n <= k < before.len() ==> array@[k] == before[k],
                forall|r: int, c: int|
                    0 <= r < n && 0 <= c < n ==> array@[#[trigger] offset(size, r, c)] == (if r < i
                        || c < i || (r == i && c < j) || (c == i && r < j) {
                        before[offset(size, c, r)]
                    } else {
                        before[offset(size, r, c)]
                    }),
        {
            proof {
                lemma_offset_in_grid(size, size, i as int, j as int);
                lemma_offset_in_grid(size, size, j as int, i as int);
            }
            let upper: usize = i * n + j;
            let lower: usize = j * n + i;
            let ghost entered = array@;
            let tmp = array[upper];
            array[upper] = array[lower];
            array[lower] = tmp;
            proof {
                assert forall|r: int, c: int| 0 <= r < n && 0 <= c < n implies array@[#[trigger] offset(
                    size,
                    r,
                    c,
                )] == (if r < i || c < i || (r == i && c < j + 1) || (c == i && r < j + 1) {
                    before[offset(size, c, r)]
                } else {
                    before[offset(size, r, c)]
                }) by {
                    lemma_offset_in_grid(size, size, r, c);
                    if offset(size, r, c) == upper {
                        lemma_offset_injective(size, r, c, i as int, j as int);
                    }
                    if offset(size, r, c) == lower {
                        lemma_offset_injective(size, r, c, j as int, i as int);
                    }
                    assert(array@[offset(size, r, c)] == if offset(size, r, c) == lower {
                        entered[upper as int]
                    } else if offset(size, r, c) == upper {
                        entered[lower as int]
                    } else {
                        entered[offset(size, r, c)]
                    });
                }
            }
        }
    }
    proof {
        assert forall|k: int| 0 <= k < before.len() implies array@[k] == transposed(before, size)[k] by {
            if k < n * n {
                lemma_cell_of_offset(size, size, k);
            }
        }
        assert(array@ =~= transposed(before, size));
    }
}

} // verus!
