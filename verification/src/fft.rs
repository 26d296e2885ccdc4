//! The iterative radix-2 transform: bit reversal followed by butterfly passes
//! over blocks of doubling size.
//!
//! The arithmetic of a butterfly is the caller's: a function that is told where
//! in the transform it stands and is handed the two amplitudes that meet there.
//! What is fixed here is the schedule, that is which amplitudes meet, in which
//! pass, with which twiddle index, and in which pass the result is scaled.

use vstd::prelude::*;
use vstd::arithmetic::power2::{is_pow2, pow2};
use crate::bit_reversal::{bit_reversed, reverse_bit_sort};
use crate::power_of_two::{lemma_blocks_fill, lemma_half_of_power_of_two, lemma_power_of_two_below};
use crate::complex::Complex;
use crate::layout::{lemma_offset_in_grid, offset};

verus! {

/// The place of one butterfly in a transform of `size` points.
///
/// A butterfly function is expected to combine its two inputs `even` and `odd`
/// into `s * (even + odd * e)` and `s * (even - odd * e)`, where `e` is the
/// twiddle factor `exp(sign * 2 * pi * i * index / block_size)` with `sign`
/// negative for the forward and positive for the inverse transform, and where
/// `s` is `1 / size` if [`Butterfly::normalizes`] holds and `1` otherwise.
#[derive(Clone, Copy, Debug, PartialEq, Eq)]
pub struct Butterfly {
    /// Position of the pair within its block, below `block_size / 2`.
    pub index: usize,
    /// Length of the blocks of the current pass.
    pub block_size: usize,
    /// Length of the whole transform.
    pub size: usize,
    /// Whether the transform runs in the inverse direction.
    pub inverse: bool,
}

impl Butterfly {
    /// The butterfly belongs to some pass of some transform: the sizes are
    /// powers of two, the block is at least a pair and fits the transform, and
    /// the index lies in the lower half of the block.
    pub open spec fn wf(self) -> bool {
        &&& is_pow2(self.size as int)
        &&& is_pow2(self.block_size as int)
        &&& 2 <= self.block_size <= self.size
        &&& self.index < self.block_size / 2
    }

    /// Whether this butterfly scales its results by `1 / size`.
    ///
    /// That is the case in the last pass of an inverse transform and nowhere
    /// else, so that each amplitude is normalised exactly once.
    pub open spec fn spec_normalizes(&self) -> bool {
        self.inverse && self.block_size == self.size
    }

    /// Whether this butterfly scales its results by `1 / size`: only in the
    /// last pass of an inverse transform.
    #[verifier::when_used_as_spec(spec_normalizes)]
    pub fn normalizes(&self) -> (scaled: bool)
        ensures
            scaled == self.spec_normalizes(),
    {
        self.inverse && self.block_size == self.size
    }
}

/// The butterfly at position `index` of a block in the pass with blocks of
/// `block_size`, in a transform of `size` points.
pub open spec fn butterfly_at(index: int, block_size: nat, size: nat, inverse: bool) -> Butterfly {
    Butterfly { index: index as usize, block_size: block_size as usize, size: size as usize, inverse }
}

/// `after` is `before` with one pass of butterflies applied to its first `size`
/// entries: in every block of `block_size`, entry `i` of the lower half and
/// entry `i` of the upper half are replaced by what `f` made of them. Entries
/// from `size` on are kept.
pub open spec fn pass_applied<T, F: Fn(Butterfly, Complex<T>, Complex<T>) -> (Complex<T>, Complex<T>)>(
    f: F,
    before: Seq<Complex<T>>,
    after: Seq<Complex<T>>,
    block_size: nat,
    size: nat,
    inverse: bool,
) -> bool {
    &&& after.len() == before.len()
    &&& forall|k: int| size <= k < before.len() ==> after[k] == before[k]
    &&& forall|block: int, i: int|
        0 <= block < size / block_size && 0 <= i < block_size / 2 ==> f.ensures(
            (
                butterfly_at(i, block_size, size, inverse),
                before[#[trigger] offset(block_size, block, i)],
                before[offset(block_size, block, i) + block_size / 2],
            ),
            (after[offset(block_size, block, i)], after[offset(block_size, block, i) + block_size / 2]),
        )
}

/// `f` accepts every butterfly of a transform of `size` points in the given
/// direction, whatever the two amplitudes are.
pub open spec fn accepts_butterflies<T, F: Fn(Butterfly, Complex<T>, Complex<T>) -> (Complex<T>, Complex<T>)>(
    f: F,
    size: nat,
    inverse: bool,
) -> bool {
    forall|b: Butterfly, even: Complex<T>, odd: Complex<T>|
        b.wf() && b.size == size && b.inverse == inverse ==> #[trigger] f.requires((b, even, odd))
}

/// Runs one pass of butterflies over the first `size` entries of `array`.
pub fn butterfly_pass<T: Copy, F: Fn(Butterfly, Complex<T>, Complex<T>) -> (Complex<T>, Complex<T>)>(
    array: &mut [Complex<T>],
    size: usize,
    block_size: usize,
    is_inverse: bool,
    butterfly: &F,
)
    requires
        is_pow2(size as int),
        is_pow2(block_size as int),
        2 <= block_size <= size,
        size <= old(array).len(),
        accepts_butterflies(*butterfly, size as nat, is_inverse),
    ensures
        pass_applied(*butterfly, old(array)@, final(array)@, block_size as nat, size as nat, is_inverse),
{
    let ghost before = array@;
    let ghost bs = block_size as nat;
    let half: usize = block_size / 2;
    let mut j: usize = 0;
    let ghost mut blocks: nat = 0;
    proof {
        lemma_half_of_power_of_two(bs);
        lemma_blocks_fill(size as nat, bs);
    }
    while j < size
        invariant
            bs == block_size,
            is_pow2(size as int),
            is_pow2(block_size as int),
            2 <= block_size <= size,
            half * 2 == block_size,
            size <= array.len(),
            array@.len() == before.len(),
            accepts_butterflies(*butterfly, size as nat, is_inverse),
            j == blocks * bs,
            j <= size,
            (size / block_size) * bs == size,
            forall|k: int| j <= k < before.len() ==> array@[k] == before[k],
            forall|block: int, i: int|
                0 <= block < blocks && 0 <= i < half ==> butterfly.ensures(
                    (
                        butterfly_at(i, bs, size as nat, is_inverse),
                        before[#[trigger] offset(bs, block, i)],
                        before[offset(bs, block, i) + half],
                    ),
                    (array@[offset(bs, block, i)], array@[offset(bs, block, i) + half]),
                ),
        decreases size - j,
    {
        proof {
            assert(blocks < size / block_size && j + block_size <= size) by (nonlinear_arith)
                requires
                    j == blocks * bs,
                    j < size,
                    (size / block_size) * bs == size,
                    bs == block_size,
                    bs > 0,
            ;
        }
        for i in 0..half
            invariant
                bs == block_size,
                is_pow2(size as int),
                is_pow2(block_size as int),
                2 <= block_size <= size,
                half * 2 == block_size,
                size <= array.len(),
                array@.len() == before.len(),
                accepts_butterflies(*butterfly, size as nat, is_inverse),
                j == blocks * bs,
                j + block_size <= size,
                forall|k: int| j + i <= k < j + half ==> array@[k] == before[k],
                forall|k: int| j + half + i <= k < before.len() ==> array@[k] == before[k],
                forall|block: int, i2: int|
                    0 <= block < blocks && 0 <= i2 < half ==> butterfly.ensures(
                        (
                            butterfly_at(i2, bs, size as nat, is_inverse),
                            before[#[trigger] offset(bs, block, i2)],
                            before[offset(bs, block, i2) + half],
                        ),
                        (array@[offset(bs, block, i2)], array@[offset(bs, block, i2) + half]),
                    ),
                forall|i2: int|
                    0 <= i2 < i ==> butterfly.ensures(
                        (
                            butterfly_at(i2, bs, size as nat, is_inverse),
                            before[#[trigger] offset(bs, blocks as int, i2)],
                            before[offset(bs, blocks as int, i2) + half],
                        ),
                        (
                            array@[offset(bs, blocks as int, i2)],
                            array@[offset(bs, blocks as int, i2) + half],
                        ),
                    ),
        {
            let even = array[j + i];
            let odd = array[j + i + half];
            let at = Butterfly { index: i, block_size, size, inverse: is_inverse };
            assert(at == butterfly_at(i as int, bs, size as nat, is_inverse));
            let ghost entered = array@;
            let (low, high) = butterfly(at, even, odd);
            array[j + i] = low;
            array[j + i + half] = high;
            proof {
                assert(offset(bs, blocks as int, i as int) == j + i);
                assert forall|block: int, i2: int| 0 <= block < blocks && 0 <= i2 < half implies {
                    &&& array@[#[trigger] offset(bs, block, i2)] == entered[offset(bs, block, i2)]
                    &&& array@[offset(bs, block, i2) + half] == entered[offset(bs, block, i2) + half]
                } by {
                    lemma_offset_in_grid(bs, blocks, block, i2);
                }
                assert forall|i2: int| 0 <= i2 < i implies {
                    &&& array@[#[trigger] offset(bs, blocks as int, i2)] == entered[offset(
                        bs,
                        blocks as int,
                        i2,
                    )]
                    &&& array@[offset(bs, blocks as int, i2) + half] == entered[offset(
                        bs,
                        blocks as int,
                        i2,
                    ) + half]
                } by {
                    assert(offset(bs, blocks as int, i2) == j + i2);
                }
            }
        }
        j += block_size;
        proof {
            assert((blocks + 1) * bs == blocks * bs + bs) by (nonlinear_arith);
            assert forall|block: int, i: int| 0 <= block < blocks + 1 && 0 <= i < half implies butterfly.ensures(
                (
                    butterfly_at(i, bs, size as nat, is_inverse),
                    before[#[trigger] offset(bs, block, i)],
                    before[offset(bs, block, i) + half],
                ),
                (array@[offset(bs, block, i)], array@[offset(bs, block, i) + half]),
            ) by {
                if block == blocks {
                    assert(offset(bs, blocks as int, i) == offset(bs, block, i));
                }
            }
            blocks = blocks + 1;
        }
    }
    proof {
        assert(blocks == size / block_size) by (nonlinear_arith)
            requires
                j == blocks * bs,
                j == size,
                (size / block_size) * bs == size,
                bs == block_size,
                bs > 0,
        ;
    }
}

/// `stages` is the record of a transform of the first `size` entries of
/// `input`: it starts from the bit-reversed input, and each further stage is
/// the one before it with a pass of butterflies applied, over blocks of 2 in
/// the first pass, of 4 in the second, and of `size` in the last.
pub open spec fn is_transform_record<T, F: Fn(Butterfly, Complex<T>, Complex<T>) -> (Complex<T>, Complex<T>)>(
    f: F,
    stages: Seq<Seq<Complex<T>>>,
    input: Seq<Complex<T>>,
    size: nat,
    inverse: bool,
) -> bool {
    &&& stages.len() >= 1
    &&& pow2((stages.len() - 1) as nat) == size
    &&& stages[0] == bit_reversed(input, size)
    &&& forall|t: int|
        0 <= t < stages.len() - 1 ==> pass_applied(
            f,
            #[trigger] stages[t],
            stages[t + 1],
            pow2((t + 1) as nat),
            size,
            inverse,
        )
}

/// `output` is a transform of the first `size` entries of `input` in the given
/// direction, with `f` as the butterfly: some record of such a transform ends
/// in `output`.
pub open spec fn transformed<T, F: Fn(Butterfly, Complex<T>, Complex<T>) -> (Complex<T>, Complex<T>)>(
    f: F,
    input: Seq<Complex<T>>,
    output: Seq<Complex<T>>,
    size: nat,
    inverse: bool,
) -> bool {
    exists|stages: Seq<Seq<Complex<T>>>|
        is_transform_record(f, stages, input, size, inverse) && #[trigger] stages.last() == output
}

/// Transforms the first `size` entries of `array` in place, forward or inverse.
///
/// The entries are first put into bit-reversed order. Then come `log2(size)`
/// passes of butterflies, over blocks of 2, 4, ... up to `size` entries.
pub fn base_fft_in_place<T: Copy, F: Fn(Butterfly, Complex<T>, Complex<T>) -> (Complex<T>, Complex<T>)>(
    array: &mut [Complex<T>],
    size: usize,
    is_inverse: bool,
    butterfly: &F,
)
    requires
        is_pow2(size as int),
        size <= old(array).len(),
        accepts_butterflies(*butterfly, size as nat, is_inverse),
    ensures
        transformed(*butterfly, old(array)@, final(array)@, size as nat, is_inverse),
        final(array)@.len() == old(array)@.len(),
        forall|k: int| size <= k < old(array)@.len() ==> final(array)@[k] == old(array)@[k],
{
    let ghost before = array@;
    reverse_bit_sort(array, size);
    let ghost mut stages: Seq<Seq<Complex<T>>> = seq![array@];
    let ghost mut passes: nat = 0;
    let mut half: usize = 1;
    proof {
        vstd::arithmetic::power2::lemma2_to64();
        reveal(is_pow2);
    }
    while half < size
        invariant
            is_pow2(size as int),
            is_pow2(half as int),
            half <= size,
            half == pow2(passes),
            size <= array.len(),
            array@.len() == before.len(),
            forall|k: int| size <= k < before.len() ==> array@[k] == before[k],
            accepts_butterflies(*butterfly, size as nat, is_inverse),
            stages.len() == passes + 1,
            stages[0] == bit_reversed(before, size as nat),
            stages.last() == array@,
            forall|t: int|
                0 <= t < stages.len() - 1 ==> pass_applied(
                    *butterfly,
                    #[trigger] stages[t],
                    stages[t + 1],
                    pow2((t + 1) as nat),
                    size as nat,
                    is_inverse,
                ),
        decreases size - half,
    {
        proof {
            lemma_power_of_two_below(half as nat, size as nat);
            vstd::arithmetic::power2::lemma_pow2_unfold(passes + 1);
            assert(half >= 1 && is_pow2(2 * half)) by {
                reveal(is_pow2);
            }
        }
        let block_size: usize = half * 2;
        butterfly_pass(array, size, block_size, is_inverse, butterfly);
        half = block_size;
        proof {
            let earlier = stages;
            stages = stages.push(array@);
            passes = passes + 1;
            assert forall|t: int| 0 <= t < stages.len() - 1 implies pass_applied(
                *butterfly,
                #[trigger] stages[t],
                stages[t + 1],
                pow2((t + 1) as nat),
                size as nat,
                is_inverse,
            ) by {
                if t < earlier.len() - 1 {
                    assert(stages[t] == earlier[t]);
                    assert(stages[t + 1] == earlier[t + 1]);
                }
            }
        }
    }
    proof {
        assert(is_transform_record(*butterfly, stages, before, size as nat, is_inverse));
    }
}

/// The forward transform of the first `size` entries of `array`, in place.
pub fn fft_in_place<T: Copy, F: Fn(Butterfly, Complex<T>, Complex<T>) -> (Complex<T>, Complex<T>)>(
    array: &mut [Complex<T>],
    size: usize,
    butterfly: &F,
)
    requires
        is_pow2(size as int),
        size <= old(array).len(),
        accepts_butterflies(*butterfly, size as nat, false),
    ensures
        transformed(*butterfly, old(array)@, final(array)@, size as nat, false),
        final(array)@.len() == old(array)@.len(),
        forall|k: int| size <= k < old(array)@.len() ==> final(array)@[k] == old(array)@[k],
{
    base_fft_in_place(array, size, false, butterfly);
}

/// The inverse transform of the first `size` entries of `array`, in place.
pub fn ifft_in_place<T: Copy, F: Fn(Butterfly, Complex<T>, Complex<T>) -> (Complex<T>, Complex<T>)>(
    array: &mut [Complex<T>],
    size: usize,
    butterfly: &F,
)
    requires
        is_pow2(size as int),
        size <= old(array).len(),
        accepts_butterflies(*butterfly, size as nat, true),
    ensures
        transformed(*butterfly, old(array)@, final(array)@, size as nat, true),
        final(array)@.len() == old(array)@.len(),
        forall|k: int| size <= k < old(array)@.len() ==> final(array)@[k] == old(array)@[k],
{
    base_fft_in_place(array, size, true, butterfly);
}

/// `f` gives one result for each butterfly and pair of amplitudes.
pub open spec fn is_function<T, F: Fn(Butterfly, Complex<T>, Complex<T>) -> (Complex<T>, Complex<T>)>(
    f: F,
) -> bool {
    forall|
        b: Butterfly,
        even: Complex<T>,
        odd: Complex<T>,
        first: (Complex<T>, Complex<T>),
        second: (Complex<T>, Complex<T>),
    |
        #[trigger] f.ensures((b, even, odd), first) && #[trigger] f.ensures((b, even, odd), second)
            ==> first == second
}

/// The block size of a pass is a power of two between 2 and the transform's
/// size.
pub proof fn lemma_pass_block_size(pass: nat, passes: nat)
    requires
        1 <= pass <= passes,
    ensures
        is_pow2(pow2(pass) as int),
        2 <= pow2(pass) <= pow2(passes),
{
    vstd::arithmetic::power2::lemma_pow2(pass);
    vstd::arithmetic::power2::is_pow2_equiv(pow2(pass) as int);
    vstd::arithmetic::power2::lemma2_to64();
    if 1 < pass {
        vstd::arithmetic::power2::lemma_pow2_strictly_increases(1, pass);
    }
    if pass < passes {
        vstd::arithmetic::power2::lemma_pow2_strictly_increases(pass, passes);
    }
}

/// Among the passes of a transform, the butterflies of the last pass of an
/// inverse transform scale their results, and no others do.
pub proof fn lemma_normalizes_in_last_pass(index: int, pass: nat, passes: nat, inverse: bool)
    requires
        1 <= pass <= passes,
        pow2(passes) <= usize::MAX,
    ensures
        butterfly_at(index, pow2(pass), pow2(passes), inverse).normalizes() <==> inverse && pass
            == passes,
{
    lemma_pass_block_size(pass, passes);
    if pass < passes {
        vstd::arithmetic::power2::lemma_pow2_strictly_increases(pass, passes);
    }
}

/// With a butterfly that is a function, a pass has one result.
pub proof fn lemma_pass_is_function<T, F: Fn(Butterfly, Complex<T>, Complex<T>) -> (Complex<T>, Complex<T>)>(
    f: F,
    before: Seq<Complex<T>>,
    first: Seq<Complex<T>>,
    second: Seq<Complex<T>>,
    block_size: nat,
    size: nat,
    inverse: bool,
)
    requires
        is_function(f),
        is_pow2(size as int),
        is_pow2(block_size as int),
        2 <= block_size <= size <= before.len(),
        pass_applied(f, before, first, block_size, size, inverse),
        pass_applied(f, before, second, block_size, size, inverse),
    ensures
        first == second,
{
    lemma_blocks_fill(size, block_size);
    lemma_half_of_power_of_two(block_size);
    let half = (block_size / 2) as int;
    assert forall|k: int| 0 <= k < before.len() implies first[k] == second[k] by {
        if k < size {
            crate::layout::lemma_cell_of_offset(block_size, size / block_size, k);
            let block = k / (block_size as int);
            let place = k % (block_size as int);
            let i = if place < half {
                place
            } else {
                place - half
            };
            let at = offset(block_size, block, i);
            let args = (butterfly_at(i, block_size, size, inverse), before[at], before[at + half]);
            assert(f.ensures(args, (first[at], first[at + half])));
            assert(f.ensures(args, (second[at], second[at + half])));
        }
    }
    assert(first =~= second);
}

/// Two records of a transform of the same input, with a butterfly that is a
/// function, agree stage by stage.
proof fn lemma_records_agree<T, F: Fn(Butterfly, Complex<T>, Complex<T>) -> (Complex<T>, Complex<T>)>(
    f: F,
    first: Seq<Seq<Complex<T>>>,
    second: Seq<Seq<Complex<T>>>,
    input: Seq<Complex<T>>,
    size: nat,
    inverse: bool,
    t: int,
)
    requires
        is_function(f),
        is_pow2(size as int),
        size <= input.len(),
        is_transform_record(f, first, input, size, inverse),
        is_transform_record(f, second, input, size, inverse),
        0 <= t < first.len(),
        first.len() == second.len(),
    ensures
        first[t] == second[t],
        first[t].len() == input.len(),
    decreases t,
{
    if t > 0 {
        lemma_records_agree(f, first, second, input, size, inverse, t - 1);
        lemma_pass_block_size(t as nat, (first.len() - 1) as nat);
        assert(pass_applied(f, first[t - 1], first[t - 1 + 1], pow2((t - 1 + 1) as nat), size, inverse));
        assert(pass_applied(f, second[t - 1], second[t - 1 + 1], pow2((t - 1 + 1) as nat), size, inverse));
        lemma_pass_is_function(f, first[t - 1], first[t], second[t], pow2(t as nat), size, inverse);
    }
}

/// With a butterfly that is a function, so is the transform: an input has one
/// transform in each direction.
pub proof fn lemma_transform_is_function<T, F: Fn(Butterfly, Complex<T>, Complex<T>) -> (Complex<T>, Complex<T>)>(
    f: F,
    input: Seq<Complex<T>>,
    first: Seq<Complex<T>>,
    second: Seq<Complex<T>>,
    size: nat,
    inverse: bool,
)
    requires
        is_function(f),
        is_pow2(size as int),
        size <= input.len(),
        transformed(f, input, first, size, inverse),
        transformed(f, input, second, size, inverse),
    ensures
        first == second,
{
    let one = choose|stages: Seq<Seq<Complex<T>>>|
        is_transform_record(f, stages, input, size, inverse) && #[trigger] stages.last() == first;
    let two = choose|stages: Seq<Seq<Complex<T>>>|
        is_transform_record(f, stages, input, size, inverse) && #[trigger] stages.last() == second;
    assert(one.len() == two.len()) by {
        let a = (one.len() - 1) as nat;
        let b = (two.len() - 1) as nat;
        if a < b {
            vstd::arithmetic::power2::lemma_pow2_strictly_increases(a, b);
        }
        if b < a {
            vstd::arithmetic::power2::lemma_pow2_strictly_increases(b, a);
        }
    }
    lemma_records_agree(f, one, two, input, size, inverse, one.len() - 1);
}

/// A transform of one point leaves it as it is: there is no pass to run.
pub proof fn lemma_transform_of_one<T, F: Fn(Butterfly, Complex<T>, Complex<T>) -> (Complex<T>, Complex<T>)>(
    f: F,
    input: Seq<Complex<T>>,
    output: Seq<Complex<T>>,
    inverse: bool,
)
    requires
        transformed(f, input, output, 1, inverse),
    ensures
        output == input,
{
    let stages = choose|stages: Seq<Seq<Complex<T>>>|
        is_transform_record(f, stages, input, 1, inverse) && #[trigger] stages.last() == output;
    vstd::arithmetic::power2::lemma2_to64();
    if stages.len() > 1 {
        vstd::arithmetic::power2::lemma_pow2_strictly_increases(0, (stages.len() - 1) as nat);
    }
    assert(bit_reversed(input, 1) =~= input);
}

/// A transform of two points is a single butterfly on the two, with twiddle
/// index zero; in the forward direction it does not scale.
pub proof fn lemma_transform_of_two<T, F: Fn(Butterfly, Complex<T>, Complex<T>) -> (Complex<T>, Complex<T>)>(
    f: F,
    input: Seq<Complex<T>>,
    output: Seq<Complex<T>>,
    inverse: bool,
)
    requires
        input.len() >= 2,
        transformed(f, input, output, 2, inverse),
    ensures
        output.len() == input.len(),
        f.ensures((butterfly_at(0, 2, 2, inverse), input[0], input[1]), (output[0], output[1])),
        butterfly_at(0, 2, 2, inverse).normalizes() == inverse,
        forall|k: int| 2 <= k < input.len() ==> output[k] == input[k],
{
    let stages = choose|stages: Seq<Seq<Complex<T>>>|
        is_transform_record(f, stages, input, 2, inverse) && #[trigger] stages.last() == output;
    vstd::arithmetic::power2::lemma2_to64();
    if stages.len() > 2 {
        vstd::arithmetic::power2::lemma_pow2_strictly_increases(1, (stages.len() - 1) as nat);
    }
    if stages.len() < 2 {
        assert(pow2(0) == 1);
    }
    assert(stages.len() == 2);
    assert(pass_applied(f, stages[0int], stages[0int + 1], pow2(1), 2, inverse));
    assert(crate::bit_reversal::bit_reverse(0, 2) == 0 && crate::bit_reversal::bit_reverse(1, 2) == 1) by {
        reveal_with_fuel(crate::bit_reversal::bit_reverse, 3);
    }
    assert(offset(2, 0, 0) == 0);
}

} // verus!
