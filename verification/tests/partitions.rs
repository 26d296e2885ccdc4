use qm2d_split_op::complex::Complex;
use qm2d_split_op::config::{ConfigurationError, GridConfig};
use qm2d_split_op::fft::{fft_in_place, ifft_in_place, Butterfly};
use qm2d_split_op::grid::square_fft_in_place;
use qm2d_split_op::partition::{collect_partitions, copy_partition, write_partition, WorkerFailure};
use qm2d_split_op::rows::transform_rows;
use qm2d_split_op::transpose::square_transpose_in_place;

fn butterfly(
    at: Butterfly,
    even: Complex<f32>,
    odd: Complex<f32>,
) -> (Complex<f32>, Complex<f32>) {
    let sign = if at.inverse { 1.0f64 } else { -1.0f64 };
    let angle = 2.0 * std::f64::consts::PI * (at.index as f64) / (at.block_size as f64);
    let (e_re, e_im) = (angle.cos(), sign * angle.sin());
    let (even_re, even_im) = (even.real as f64, even.imag as f64);
    let (odd_re, odd_im) = (odd.real as f64, odd.imag as f64);
    let turned_re = odd_re * e_re - odd_im * e_im;
    let turned_im = odd_re * e_im + odd_im * e_re;
    let s = if at.normalizes() {
        1.0 / (at.size as f64)
    } else {
        1.0
    };
    (
        Complex::new((s * (even_re + turned_re)) as f32, (s * (even_im + turned_im)) as f32),
        Complex::new((s * (even_re - turned_re)) as f32, (s * (even_im - turned_im)) as f32),
    )
}

fn numbered(count: usize) -> Vec<Complex<f32>> {
    (0..count).map(|k| Complex::new(k as f32, 0.5 * k as f32)).collect()
}

fn noise(count: usize, seed: u64) -> Vec<Complex<f32>> {
    let mut state = seed;
    let mut next = move || {
        state = state
            .wrapping_mul(6364136223846793005)
            .wrapping_add(1442695040888963407);
        ((state >> 40) as f32) / ((1u64 << 24) as f32) * 2.0 - 1.0
    };
    (0..count).map(|_| Complex::new(next(), next())).collect()
}

fn assert_close(found: &[Complex<f32>], expected: &[Complex<f32>], tolerance: f32) {
    assert_eq!(found.len(), expected.len());
    let scale = expected
        .iter()
        .map(|z| z.real.abs().max(z.imag.abs()))
        .fold(1.0f32, f32::max);
    for (k, (a, b)) in found.iter().zip(expected.iter()).enumerate() {
        assert!(
            (a.real - b.real).abs() <= tolerance * scale
                && (a.imag - b.imag).abs() <= tolerance * scale,
            "entry {}: found {:?}, expected {:?}",
            k,
            a,
            b
        );
    }
}

fn config(size: usize, workers: usize) -> GridConfig {
    match GridConfig::new(size, workers) {
        Ok(made) => made,
        Err(reason) => panic!("{} rows for {} workers: {:?}", size, workers, reason),
    }
}

/// Each partition transformed on a copy of its own, handed back in one slot.
fn transformed_partitions(
    grid: &GridConfig,
    array: &[Complex<f32>],
    is_inverse: bool,
) -> Vec<Option<Vec<Complex<f32>>>> {
    (0..grid.workers())
        .map(|k| {
            let mut rows = copy_partition(grid, array, k);
            transform_rows(&mut rows, grid.size(), is_inverse, &butterfly);
            Some(rows)
        })
        .collect()
}

#[test]
fn configuration_accepts_power_of_two_with_dividing_workers() {
    let made = config(8, 4);
    assert_eq!(made.size(), 8);
    assert_eq!(made.workers(), 4);
    assert_eq!(made.rows_per_worker(), 2);
    assert_eq!(made.cells_per_worker(), 16);
    assert_eq!(made.cells(), 64);
}

#[test]
fn configuration_of_the_smallest_grid() {
    let made = config(1, 1);
    assert_eq!(made.size(), 1);
    assert_eq!(made.workers(), 1);
    assert_eq!(made.rows_per_worker(), 1);
    assert_eq!(made.cells_per_worker(), 1);
    assert_eq!(made.cells(), 1);
}

#[test]
fn configuration_with_one_worker_per_row() {
    let made = config(16, 16);
    assert_eq!(made.rows_per_worker(), 1);
    assert_eq!(made.cells_per_worker(), 16);
    assert_eq!(made.cells(), 256);
}

#[test]
fn configuration_rejects_size_that_is_no_power_of_two() {
    for size in [0usize, 3, 6, 12, 100, 1023] {
        assert_eq!(
            GridConfig::new(size, 1).err(),
            Some(ConfigurationError::SizeNotPowerOfTwo)
        );
    }
}

#[test]
fn configuration_rejects_workers_that_do_not_divide() {
    assert_eq!(
        GridConfig::new(8, 3).err(),
        Some(ConfigurationError::WorkersDoNotDivideSize)
    );
    assert_eq!(
        GridConfig::new(8, 16).err(),
        Some(ConfigurationError::WorkersDoNotDivideSize)
    );
    assert_eq!(
        GridConfig::new(8, 0).err(),
        Some(ConfigurationError::WorkersDoNotDivideSize)
    );
    assert_eq!(
        GridConfig::new(1, 2).err(),
        Some(ConfigurationError::WorkersDoNotDivideSize)
    );
}

#[test]
fn configuration_reports_the_size_first() {
    assert_eq!(
        GridConfig::new(6, 0).err(),
        Some(ConfigurationError::SizeNotPowerOfTwo)
    );
    assert_eq!(
        GridConfig::new(6, 4).err(),
        Some(ConfigurationError::SizeNotPowerOfTwo)
    );
}

#[test]
fn configuration_rejects_grid_beyond_the_index_range() {
    let side = 1usize << (usize::BITS / 2);
    assert_eq!(
        GridConfig::new(side, 1).err(),
        Some(ConfigurationError::GridTooLarge)
    );
    assert_eq!(
        GridConfig::new(1usize << (usize::BITS - 1), 2).err(),
        Some(ConfigurationError::GridTooLarge)
    );
    let largest = side / 2;
    let made = config(largest, largest);
    assert_eq!(made.cells(), largest * largest);
    assert_eq!(made.cells_per_worker(), largest);
}

#[test]
fn copy_partition_takes_a_block_of_whole_rows() {
    let grid = config(4, 2);
    let array = numbered(16);
    assert_eq!(copy_partition(&grid, &array, 0), array[0..8].to_vec());
    assert_eq!(copy_partition(&grid, &array, 1), array[8..16].to_vec());
}

#[test]
fn copy_partition_with_one_worker_is_the_grid() {
    let grid = config(4, 1);
    let array = numbered(16);
    assert_eq!(copy_partition(&grid, &array, 0), array);
}

#[test]
fn copy_partition_with_one_row_each() {
    let grid = config(4, 4);
    let array = numbered(16);
    for k in 0..4 {
        assert_eq!(copy_partition(&grid, &array, k), array[4 * k..4 * k + 4].to_vec());
    }
}

#[test]
fn write_partition_replaces_only_its_block() {
    let grid = config(4, 4);
    let mut array = numbered(16);
    let rows = vec![Complex::new(-1.0f32, -1.0); 4];
    write_partition(&grid, &mut array, 2, &rows);
    let mut expected = numbered(16);
    for c in 8..12 {
        expected[c] = Complex::new(-1.0, -1.0);
    }
    assert_eq!(array, expected);
}

#[test]
fn write_partition_after_copy_changes_nothing() {
    let grid = config(8, 2);
    let input = noise(64, 21);
    let mut array = input.clone();
    for k in 0..2 {
        let rows = copy_partition(&grid, &array, k);
        write_partition(&grid, &mut array, k, &rows);
    }
    assert_eq!(array, input);
}

#[test]
fn write_partition_in_either_order() {
    let grid = config(4, 2);
    let first = vec![Complex::new(1.0f32, 0.0); 8];
    let second = vec![Complex::new(2.0f32, 0.0); 8];
    let mut forward = numbered(16);
    write_partition(&grid, &mut forward, 0, &first);
    write_partition(&grid, &mut forward, 1, &second);
    let mut backward = numbered(16);
    write_partition(&grid, &mut backward, 1, &second);
    write_partition(&grid, &mut backward, 0, &first);
    assert_eq!(forward, backward);
    assert_eq!(&forward[..8], &first[..]);
    assert_eq!(&forward[8..], &second[..]);
}

#[test]
fn collect_partitions_merges_every_result_at_its_place() {
    let grid = config(4, 4);
    let mut array = numbered(16);
    let results: Vec<Option<Vec<Complex<f32>>>> = (0..4)
        .map(|k| Some(vec![Complex::new(10.0 * k as f32, 0.0); 4]))
        .collect();
    assert_eq!(collect_partitions(&grid, &mut array, &results), Ok(()));
    for c in 0..16 {
        assert_eq!(array[c], Complex::new(10.0 * (c / 4) as f32, 0.0));
    }
}

#[test]
fn collect_partitions_reports_every_failed_worker() {
    let grid = config(4, 4);
    let input = numbered(16);
    let mut array = input.clone();
    let results = vec![
        Some(vec![Complex::new(0.0f32, 0.0); 4]),
        None,
        Some(vec![Complex::new(2.0f32, 0.0); 4]),
        None,
    ];
    assert_eq!(
        collect_partitions(&grid, &mut array, &results),
        Err(WorkerFailure { failed: vec![1, 3] })
    );
    assert_eq!(array, input);
}

#[test]
fn collect_partitions_reports_a_single_failure() {
    let grid = config(2, 2);
    let input = numbered(4);
    let mut array = input.clone();
    let results = vec![None, Some(vec![Complex::new(1.0f32, 0.0); 2])];
    assert_eq!(
        collect_partitions(&grid, &mut array, &results),
        Err(WorkerFailure { failed: vec![0] })
    );
    assert_eq!(array, input);
}

#[test]
fn collect_partitions_counts_a_result_of_wrong_size_as_failed() {
    let grid = config(4, 2);
    let input = numbered(16);
    let mut array = input.clone();
    let results = vec![
        Some(vec![Complex::new(0.0f32, 0.0); 8]),
        Some(vec![Complex::new(1.0f32, 0.0); 7]),
    ];
    assert_eq!(
        collect_partitions(&grid, &mut array, &results),
        Err(WorkerFailure { failed: vec![1] })
    );
    assert_eq!(array, input);
}

#[test]
fn collect_partitions_counts_a_missing_slot_as_failed() {
    let grid = config(4, 4);
    let input = numbered(16);
    let mut array = input.clone();
    let results = vec![Some(vec![Complex::new(0.0f32, 0.0); 4])];
    assert_eq!(
        collect_partitions(&grid, &mut array, &results),
        Err(WorkerFailure { failed: vec![1, 2, 3] })
    );
    assert_eq!(array, input);
    let nothing: Vec<Option<Vec<Complex<f32>>>> = Vec::new();
    assert_eq!(
        collect_partitions(&grid, &mut array, &nothing),
        Err(WorkerFailure { failed: vec![0, 1, 2, 3] })
    );
}

#[test]
fn transform_rows_transforms_each_row_on_its_own() {
    let input = noise(32, 17);
    let mut rows = input.clone();
    transform_rows(&mut rows, 8, false, &butterfly);
    for r in 0..4 {
        let mut alone = input[8 * r..8 * r + 8].to_vec();
        fft_in_place(&mut alone, 8, &butterfly);
        assert_eq!(&rows[8 * r..8 * r + 8], &alone[..]);
    }
    transform_rows(&mut rows, 8, true, &butterfly);
    assert_close(&rows, &input, 1e-5);
}

#[test]
fn transform_rows_inverse_uses_the_inverse_transform() {
    let input = noise(8, 4);
    let mut rows = input.clone();
    transform_rows(&mut rows, 4, true, &butterfly);
    for r in 0..2 {
        let mut alone = input[4 * r..4 * r + 4].to_vec();
        ifft_in_place(&mut alone, 4, &butterfly);
        assert_eq!(&rows[4 * r..4 * r + 4], &alone[..]);
    }
}

#[test]
fn transform_rows_of_an_empty_buffer() {
    let mut rows: Vec<Complex<f32>> = Vec::new();
    transform_rows(&mut rows, 4, false, &butterfly);
    assert!(rows.is_empty());
}

#[test]
fn partitioned_rows_equal_sequential_rows() {
    let size = 16;
    let input = noise(size * size, 33);
    for is_inverse in [false, true] {
        let mut sequential = input.clone();
        transform_rows(&mut sequential, size, is_inverse, &butterfly);
        for workers in [1usize, 2, 4, 8, 16] {
            let grid = config(size, workers);
            let mut array = input.clone();
            let results = transformed_partitions(&grid, &array, is_inverse);
            assert_eq!(collect_partitions(&grid, &mut array, &results), Ok(()));
            assert_eq!(array, sequential);
        }
    }
}

#[test]
fn partitions_written_in_any_order_give_the_same_grid() {
    let size = 8;
    let grid = config(size, 4);
    let input = noise(size * size, 2);
    let mut sequential = input.clone();
    transform_rows(&mut sequential, size, false, &butterfly);
    let results = transformed_partitions(&grid, &input, false);
    for order in [[0usize, 1, 2, 3], [3, 2, 1, 0], [2, 0, 3, 1]] {
        let mut array = input.clone();
        for k in order {
            match &results[k] {
                Some(rows) => write_partition(&grid, &mut array, k, rows),
                None => panic!("partition {} is missing", k),
            }
        }
        assert_eq!(array, sequential);
    }
}

#[test]
fn grid_transform_of_an_impulse_is_all_ones() {
    let size = 4;
    let mut array = vec![Complex::new(0.0f32, 0.0); size * size];
    array[0] = Complex::new(1.0, 0.0);
    square_fft_in_place(&mut array, size, false, &butterfly);
    assert_close(&array, &vec![Complex::new(1.0f32, 0.0); size * size], 1e-6);
}

#[test]
fn grid_transform_of_a_constant_is_a_single_peak() {
    let size = 8;
    let mut array = vec![Complex::new(0.25f32, -0.5); size * size];
    square_fft_in_place(&mut array, size, false, &butterfly);
    let mut expected = vec![Complex::new(0.0f32, 0.0); size * size];
    expected[0] = Complex::new(16.0, -32.0);
    assert_close(&array, &expected, 1e-6);
}

#[test]
fn grid_transform_is_rows_then_columns() {
    let size = 8;
    let input = noise(size * size, 77);
    let mut whole = input.clone();
    square_fft_in_place(&mut whole, size, false, &butterfly);
    let mut stepwise = input.clone();
    transform_rows(&mut stepwise, size, false, &butterfly);
    square_transpose_in_place(&mut stepwise, size);
    transform_rows(&mut stepwise, size, false, &butterfly);
    square_transpose_in_place(&mut stepwise, size);
    assert_eq!(whole, stepwise);
}

#[test]
fn grid_transform_there_and_back() {
    let size = 16;
    let input = noise(size * size, 5);
    let mut array = input.clone();
    square_fft_in_place(&mut array, size, false, &butterfly);
    assert_ne!(array, input);
    square_fft_in_place(&mut array, size, true, &butterfly);
    assert_close(&array, &input, 1e-5);
}

#[test]
fn grid_transform_of_a_single_cell() {
    let mut array = vec![Complex::new(3.0f32, 4.0)];
    square_fft_in_place(&mut array, 1, false, &butterfly);
    assert_eq!(array, vec![Complex::new(3.0, 4.0)]);
}
