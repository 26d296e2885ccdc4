//! Dealing the rows of a grid out to workers and putting their results back.
//!
//! Each worker gets a private copy of its block of rows, so that no two
//! workers ever touch the same memory. A result is written back at the place
//! its partition came from, whatever the order in which the workers finish.

use vstd::prelude::*;
use crate::complex::Complex;
use crate::config::GridConfig;
use crate::fft::{is_function, transformed, Butterfly};
use crate::layout::{lemma_cell_of_offset, lemma_offset_div_mod, lemma_offset_in_grid, offset};
use crate::rows::{lemma_rows_transform_is_function, row, rows_transformed};

verus! {

/// The workers that did not hand back a usable result, by partition index in
/// ascending order.
#[derive(Clone, Debug, PartialEq, Eq)]
pub struct WorkerFailure {
    pub failed: Vec<usize>,
}

/// The buffer `s` with the partition of worker `k` replaced by `rows`.
pub open spec fn with_partition<T>(config: &GridConfig, s: Seq<T>, k: int, rows: Seq<T>) -> Seq<T> {
    s.subrange(0, config.partition_start(k)) + rows + s.subrange(
        config.partition_start(k + 1),
        s.len() as int,
    )
}

/// Worker `k` handed back a buffer, and it has the size of a partition.
pub open spec fn delivered<T>(
    config: &GridConfig,
    results: Seq<Option<Vec<Complex<T>>>>,
    k: int,
) -> bool {
    &&& 0 <= k < results.len()
    &&& results[k] matches Some(rows)
    &&& rows@.len() == config.spec_cells_per_worker()
}

/// The test by which a partition index counts as failed.
pub open spec fn is_missing<T>(config: &GridConfig, results: Seq<Option<Vec<Complex<T>>>>) -> spec_fn(
    usize,
) -> bool {
    |k: usize| !delivered(config, results, k as int)
}

/// The indices below `count`, in ascending order.
pub open spec fn indices(count: nat) -> Seq<usize> {
    Seq::new(count, |k: int| k as usize)
}

/// The partitions among the first `count` whose worker did not deliver, in
/// ascending order.
pub open spec fn failed_among<T>(
    config: &GridConfig,
    results: Seq<Option<Vec<Complex<T>>>>,
    count: nat,
) -> Seq<usize> {
    indices(count).filter(is_missing(config, results))
}

/// The partitions whose worker did not deliver, in ascending order.
pub open spec fn failed_workers<T>(config: &GridConfig, results: Seq<Option<Vec<Complex<T>>>>) -> Seq<
    usize,
> {
    failed_among(config, results, config.spec_workers() as nat)
}

/// The grid made of the delivered partitions, each at its own place: cell `c`
/// comes from the result of the worker whose partition holds `c`.
pub open spec fn merged<T>(config: &GridConfig, results: Seq<Option<Vec<Complex<T>>>>) -> Seq<
    Complex<T>,
> {
    Seq::new(
        config.spec_cells() as nat,
        |c: int|
            results[c / (config.spec_cells_per_worker() as int)].unwrap()@[c % (
            config.spec_cells_per_worker() as int)],
    )
}

/// Looking one partition further either adds its index to the failed ones or
/// leaves them as they are.
pub proof fn lemma_failed_among_step<T>(
    config: &GridConfig,
    results: Seq<Option<Vec<Complex<T>>>>,
    count: nat,
)
    requires
        count < usize::MAX,
    ensures
        failed_among(config, results, count + 1) == if delivered(config, results, count as int) {
            failed_among(config, results, count)
        } else {
            failed_among(config, results, count).push(count as usize)
        },
{
    reveal(Seq::filter);
    assert(indices(count + 1).drop_last() =~= indices(count));
}

/// No partition is reported as failed exactly when every worker delivered.
pub proof fn lemma_none_failed<T>(
    config: &GridConfig,
    results: Seq<Option<Vec<Complex<T>>>>,
    count: nat,
)
    requires
        count <= usize::MAX,
    ensures
        failed_among(config, results, count).len() == 0 <==> forall|k: int|
            0 <= k < count ==> delivered(config, results, k),
    decreases count,
{
    if count == 0 {
        reveal(Seq::filter);
    } else {
        lemma_none_failed(config, results, (count - 1) as nat);
        lemma_failed_among_step(config, results, (count - 1) as nat);
    }
}

/// Copies the partition of worker `th_index` out of the grid into a buffer of
/// its own.
pub fn copy_partition<T: Copy>(config: &GridConfig, array: &[Complex<T>], th_index: usize) -> (rows:
    Vec<Complex<T>>)
    requires
        array.len() == config.spec_cells(),
        th_index < config.spec_workers(),
    ensures
        rows@ == config.partition_of(array@, th_index as int),
{
    proof {
        use_type_invariant(config);
        config.lemma_partition_bounds(th_index as int);
    }
    let len: usize = config.cells_per_worker();
    let start: usize = th_index * len;
    let mut rows: Vec<Complex<T>> = Vec::with_capacity(len);
    for i in 0..len
        invariant
            start + len <= array.len(),
            rows@ == array@.subrange(start as int, start + i),
    {
        rows.push(array[start + i]);
        proof {
            assert(rows@ =~= array@.subrange(start as int, start + i + 1));
        }
    }
    rows
}

/// Writes the rows of worker `th_index` back to the place in the grid that its
/// partition was copied from.
pub fn write_partition<T: Copy>(
    config: &GridConfig,
    array: &mut [Complex<T>],
    th_index: usize,
    rows: &[Complex<T>],
)
    requires
        old(array).len() == config.spec_cells(),
        th_index < config.spec_workers(),
        rows.len() == config.spec_cells_per_worker(),
    ensures
        final(array)@ == with_partition(config, old(array)@, th_index as int, rows@),
{
    proof {
        use_type_invariant(config);
        config.lemma_partition_bounds(th_index as int);
    }
    let ghost before = array@;
    let len: usize = config.cells_per_worker();
    let start: usize = th_index * len;
    for i in 0..len
        invariant
            start + len <= array.len(),
            len == rows.len(),
            array@.len() == before.len(),
            forall|k: int| 0 <= k < start ==> array@[k] == before[k],
            forall|k: int| start <= k < start + i ==> array@[k] == rows@[k - start],
            forall|k: int| start + i <= k < before.len() ==> array@[k] == before[k],
    {
        array[start + i] = rows[i];
    }
    proof {
        assert(array@ =~= with_partition(config, before, th_index as int, rows@));
    }
}

/// Puts the workers' results back into the grid, or reports which workers
/// failed.
///
/// `results` holds one slot per worker, in partition order: the buffer the
/// worker handed back, or nothing. A slot that is missing, empty or of the
/// wrong size counts as a failed worker. If any worker failed, the grid is left
/// as it was and every failed partition is reported. Otherwise each result is
/// written at its partition's place.
pub fn collect_partitions<T: Copy>(
    config: &GridConfig,
    array: &mut [Complex<T>],
    results: &[Option<Vec<Complex<T>>>],
) -> (outcome: Result<(), WorkerFailure>)
    requires
        old(array).len() == config.spec_cells(),
    ensures
        match outcome {
            Ok(_) => {
                &&& forall|k: int| 0 <= k < config.spec_workers() ==> delivered(config, results@, k)
                &&& failed_workers(config, results@).len() == 0
                &&& final(array)@ == merged(config, results@)
            },
            Err(failure) => {
                &&& failure.failed@ == failed_workers(config, results@)
                &&& failure.failed@.len() > 0
                &&& final(array)@ == old(array)@
            },
        },
{
    proof {
        use_type_invariant(config);
        config.lemma_partitions();
    }
    let workers: usize = config.workers();
    let len: usize = config.cells_per_worker();
    let mut failed: Vec<usize> = Vec::new();
    proof {
        reveal(Seq::filter);
        assert(failed@ =~= failed_among(config, results@, 0));
    }
    for k in 0..workers
        invariant
            workers == config.spec_workers(),
            len == config.spec_cells_per_worker(),
            failed@ == failed_among(config, results@, k as nat),
    {
        let ok = k < results.len() && match &results[k] {
            Some(rows) => rows.len() == len,
            None => false,
        };
        proof {
            lemma_failed_among_step(config, results@, k as nat);
        }
        if !ok {
            failed.push(k);
        }
    }
    if failed.len() > 0 {
        return Err(WorkerFailure { failed });
    }
    proof {
        lemma_none_failed(config, results@, workers as nat);
    }
    let ghost before = array@;
    for k in 0..workers
        invariant
            config.wf(),
            workers == config.spec_workers(),
            len == config.spec_cells_per_worker(),
            array@.len() == config.spec_cells(),
            array.len() == config.spec_cells(),
            forall|j: int| 0 <= j < workers ==> delivered(config, results@, j),
            forall|c: int|
                0 <= c < config.partition_start(k as int) ==> array@[c] == merged(config, results@)[c],
    {
        proof {
            config.lemma_partition_bounds(k as int);
            config.lemma_partitions();
            assert(delivered(config, results@, k as int));
        }
        let ghost entered = array@;
        match &results[k] {
            Some(rows) => {
                write_partition(config, array, k, rows.as_slice());
                proof {
                    let start = config.partition_start(k as int);
                    assert forall|c: int| 0 <= c < config.partition_start(k + 1) implies array@[c]
                        == merged(config, results@)[c] by {
                        if c >= start {
                            assert(start == offset(len as nat, k as int, 0));
                            assert(c == offset(len as nat, k as int, c - start));
                            lemma_offset_div_mod(len as nat, k as int, c - start);
                        }
                    }
                }
            },
            None => {},
        }
    }
    proof {
        config.lemma_partitions();
        assert(array@ =~= merged(config, results@));
    }
    Ok(())
}

/// Row `r` of the grid is row `r % rows_per_worker` of the partition of worker
/// `r / rows_per_worker`.
pub proof fn lemma_row_in_partition<T>(config: &GridConfig, s: Seq<T>, r: int)
    requires
        config.wf(),
        s.len() == config.spec_cells(),
        0 <= r < config.spec_size(),
    ensures
        0 <= r / (config.spec_rows_per_worker() as int) < config.spec_workers(),
        0 <= r % (config.spec_rows_per_worker() as int) < config.spec_rows_per_worker(),
        row(s, config.spec_size() as nat, r) == row(
            config.partition_of(s, r / (config.spec_rows_per_worker() as int)),
            config.spec_size() as nat,
            r % (config.spec_rows_per_worker() as int),
        ),
{
    config.lemma_partitions();
    let n = config.spec_size() as nat;
    let share = config.spec_rows_per_worker() as nat;
    let cells = config.spec_cells_per_worker() as int;
    lemma_cell_of_offset(share, config.spec_workers() as nat, r);
    let k = r / (share as int);
    let q = r % (share as int);
    config.lemma_partition_bounds(k);
    lemma_offset_in_grid(n, share, q, 0);
    lemma_offset_in_grid(n, n, r, 0);
    assert(r * n == k * cells + q * n) by (nonlinear_arith)
        requires
            r == k * share + q,
            cells == share * n,
    ;
    assert(row(s, n, r) =~= row(config.partition_of(s, k), n, q));
}

/// A worker's result sits in the merged grid at the place of its partition.
pub proof fn lemma_partition_of_merged<T>(
    config: &GridConfig,
    results: Seq<Option<Vec<Complex<T>>>>,
    k: int,
)
    requires
        config.wf(),
        0 <= k < config.spec_workers(),
        delivered(config, results, k),
    ensures
        config.partition_of(merged(config, results), k) == results[k].unwrap()@,
{
    config.lemma_partitions();
    config.lemma_partition_bounds(k);
    let cells = config.spec_cells_per_worker() as nat;
    let part = config.partition_of(merged(config, results), k);
    assert forall|c: int| 0 <= c < cells implies part[c] == results[k].unwrap()@[c] by {
        assert(config.partition_start(k) + c == offset(cells, k, c));
        lemma_offset_div_mod(cells, k, c);
    }
    assert(part =~= results[k].unwrap()@);
}

/// If every partition of `after` is the row-wise transform of the same
/// partition of `before`, then `after` is the row-wise transform of `before`.
pub proof fn lemma_partitions_cover_rows<T, F: Fn(Butterfly, Complex<T>, Complex<T>) -> (Complex<T>, Complex<T>)>(
    config: &GridConfig,
    f: F,
    before: Seq<Complex<T>>,
    after: Seq<Complex<T>>,
    inverse: bool,
)
    requires
        config.wf(),
        before.len() == config.spec_cells(),
        after.len() == before.len(),
        forall|k: int|
            0 <= k < config.spec_workers() ==> rows_transformed(
                f,
                #[trigger] config.partition_of(before, k),
                config.partition_of(after, k),
                config.spec_size() as nat,
                inverse,
            ),
    ensures
        rows_transformed(f, before, after, config.spec_size() as nat, inverse),
{
    config.lemma_partitions();
    let n = config.spec_size() as nat;
    let share = config.spec_rows_per_worker() as nat;
    assert(before.len() / n == n) by (nonlinear_arith)
        requires
            before.len() == n * n,
            n >= 1,
    ;
    assert forall|r: int| 0 <= r < before.len() / n implies transformed(
        f,
        #[trigger] row(before, n, r),
        row(after, n, r),
        n,
        inverse,
    ) by {
        lemma_row_in_partition(config, before, r);
        lemma_row_in_partition(config, after, r);
        let k = r / (share as int);
        let q = r % (share as int);
        config.lemma_partition_bounds(k);
        let part = config.partition_of(before, k);
        assert(part.len() / n == share) by (nonlinear_arith)
            requires
                part.len() == share * n,
                n >= 1,
        ;
        assert(rows_transformed(f, part, config.partition_of(after, k), n, inverse));
        assert(transformed(f, row(part, n, q), row(config.partition_of(after, k), n, q), n, inverse));
    }
}

/// Transforming the rows partition by partition, each worker on its own copy,
/// and merging the results transforms the rows of the grid.
pub proof fn lemma_parallel_rows_transformed<T, F: Fn(Butterfly, Complex<T>, Complex<T>) -> (Complex<T>, Complex<T>)>(
    config: &GridConfig,
    f: F,
    before: Seq<Complex<T>>,
    results: Seq<Option<Vec<Complex<T>>>>,
    inverse: bool,
)
    requires
        config.wf(),
        before.len() == config.spec_cells(),
        forall|k: int| 0 <= k < config.spec_workers() ==> delivered(config, results, k),
        forall|k: int|
            0 <= k < config.spec_workers() ==> rows_transformed(
                f,
                #[trigger] config.partition_of(before, k),
                results[k].unwrap()@,
                config.spec_size() as nat,
                inverse,
            ),
    ensures
        rows_transformed(f, before, merged(config, results), config.spec_size() as nat, inverse),
{
    let after = merged(config, results);
    assert forall|k: int| 0 <= k < config.spec_workers() implies rows_transformed(
        f,
        #[trigger] config.partition_of(before, k),
        config.partition_of(after, k),
        config.spec_size() as nat,
        inverse,
    ) by {
        let part = config.partition_of(before, k);
        assert(rows_transformed(f, part, results[k].unwrap()@, config.spec_size() as nat, inverse));
        lemma_partition_of_merged(config, results, k);
    }
    lemma_partitions_cover_rows(config, f, before, after, inverse);
}

/// With a butterfly that is a function, the grid merged from the workers'
/// results is the very grid that transforming all rows on one thread gives,
/// however many workers the rows were dealt out to.
pub proof fn lemma_parallel_equals_sequential<T, F: Fn(Butterfly, Complex<T>, Complex<T>) -> (Complex<T>, Complex<T>)>(
    config: &GridConfig,
    f: F,
    before: Seq<Complex<T>>,
    results: Seq<Option<Vec<Complex<T>>>>,
    sequential: Seq<Complex<T>>,
    inverse: bool,
)
    requires
        config.wf(),
        is_function(f),
        before.len() == config.spec_cells(),
        forall|k: int| 0 <= k < config.spec_workers() ==> delivered(config, results, k),
        forall|k: int|
            0 <= k < config.spec_workers() ==> rows_transformed(
                f,
                #[trigger] config.partition_of(before, k),
                results[k].unwrap()@,
                config.spec_size() as nat,
                inverse,
            ),
        rows_transformed(f, before, sequential, config.spec_size() as nat, inverse),
    ensures
        merged(config, results) == sequential,
{
    config.lemma_partitions();
    lemma_parallel_rows_transformed(config, f, before, results, inverse);
    let n = config.spec_size() as nat;
    assert(before.len() % n == 0) by (nonlinear_arith)
        requires
            before.len() == n * n,
            n >= 1,
    ;
    lemma_rows_transform_is_function(f, before, merged(config, results), sequential, n, inverse);
}

/// Writing two different partitions back gives the same grid in either order.
pub proof fn lemma_write_order<T>(
    config: &GridConfig,
    s: Seq<T>,
    a: int,
    rows_a: Seq<T>,
    b: int,
    rows_b: Seq<T>,
)
    requires
        config.wf(),
        s.len() == config.spec_cells(),
        0 <= a < config.spec_workers(),
        0 <= b < config.spec_workers(),
        a != b,
        rows_a.len() == config.spec_cells_per_worker(),
        rows_b.len() == config.spec_cells_per_worker(),
    ensures
        with_partition(config, with_partition(config, s, a, rows_a), b, rows_b) == with_partition(
            config,
            with_partition(config, s, b, rows_b),
            a,
            rows_a,
        ),
{
    config.lemma_partition_bounds(a);
    config.lemma_partition_bounds(b);
    let cells = config.spec_cells_per_worker() as int;
    assert(a < b ==> (a + 1) * cells <= b * cells) by (nonlinear_arith)
        requires
            cells >= 0,
    ;
    assert(b < a ==> (b + 1) * cells <= a * cells) by (nonlinear_arith)
        requires
            cells >= 0,
    ;
    assert(with_partition(config, with_partition(config, s, a, rows_a), b, rows_b) =~= with_partition(
        config,
        with_partition(config, s, b, rows_b),
        a,
        rows_a,
    ));
}

/// Writing a partition back as it was copied out leaves the grid as it was.
pub proof fn lemma_copy_then_write<T>(config: &GridConfig, s: Seq<T>, k: int)
    requires
        config.wf(),
        s.len() == config.spec_cells(),
        0 <= k < config.spec_workers(),
    ensures
        with_partition(config, s, k, config.partition_of(s, k)) == s,
{
    config.lemma_partition_bounds(k);
    assert(with_partition(config, s, k, config.partition_of(s, k)) =~= s);
}

} // verus!
