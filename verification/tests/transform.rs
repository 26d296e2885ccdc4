use qm2d_split_op::complex::Complex;
use qm2d_split_op::fft::{base_fft_in_place, butterfly_pass, fft_in_place, ifft_in_place, Butterfly};
use std::cell::RefCell;

/// The butterfly in double precision on single-precision amplitudes.
fn butterfly(
    at: Butterfly,
    even: Complex<f32>,
    odd: Complex<f32>,
) -> (Complex<f32>, Complex<f32>) {
    let sign = if at.inverse { 1.0f64 } else { -1.0f64 };
    let angle = 2.0 * std::f64::consts::PI * (at.index as f64) / (at.block_size as f64);
    let (e_re, e_im) = (angle.cos(), sign * angle.sin());
    let (even_re, even_im) = (even.real as f64, even.imag as f64);
    let (odd_re, odd_im) = (odd.real as f64, odd.imag as f64);
    let turned_re = odd_re * e_re - odd_im * e_im;
    let turned_im = odd_re * e_im + odd_im * e_re;
    let s = if at.normalizes() {
        1.0 / (at.size as f64)
    } else {
        1.0
    };
    (
        Complex::new((s * (even_re + turned_re)) as f32, (s * (even_im + turned_im)) as f32),
        Complex::new((s * (even_re - turned_re)) as f32, (s * (even_im - turned_im)) as f32),
    )
}

fn real_row(values: &[f32]) -> Vec<Complex<f32>> {
    values.iter().map(|&x| Complex::new(x, 0.0)).collect()
}

fn noise(count: usize, seed: u64) -> Vec<Complex<f32>> {
    let mut state = seed;
    let mut next = move || {
        state = state
            .wrapping_mul(6364136223846793005)
            .wrapping_add(1442695040888963407);
        ((state >> 40) as f32) / ((1u64 << 24) as f32) * 2.0 - 1.0
    };
    (0..count).map(|_| Complex::new(next(), next())).collect()
}

fn assert_close(found: &[Complex<f32>], expected: &[Complex<f32>], tolerance: f32) {
    assert_eq!(found.len(), expected.len());
    let scale = expected
        .iter()
        .map(|z| z.real.abs().max(z.imag.abs()))
        .fold(1.0f32, f32::max);
    for (k, (a, b)) in found.iter().zip(expected.iter()).enumerate() {
        assert!(
            (a.real - b.real).abs() <= tolerance * scale
                && (a.imag - b.imag).abs() <= tolerance * scale,
            "entry {}: found {:?}, expected {:?}",
            k,
            a,
            b
        );
    }
}

#[test]
fn forward_of_unit_impulse_is_all_ones() {
    let mut row = real_row(&[1.0, 0.0, 0.0, 0.0]);
    fft_in_place(&mut row, 4, &butterfly);
    assert_close(&row, &real_row(&[1.0, 1.0, 1.0, 1.0]), 1e-6);
}

#[test]
fn forward_of_two_points_is_sum_and_difference() {
    let x0 = Complex::new(1.25f32, -0.5);
    let x1 = Complex::new(0.75f32, 2.0);
    let mut row = vec![x0, x1];
    fft_in_place(&mut row, 2, &butterfly);
    assert_eq!(row[0], Complex::new(x0.real + x1.real, x0.imag + x1.imag));
    assert_eq!(row[1], Complex::new(x0.real - x1.real, x0.imag - x1.imag));
}

#[test]
fn inverse_of_two_points_is_half_of_sum_and_difference() {
    let mut row = vec![Complex::new(3.0f32, 1.0), Complex::new(1.0f32, -1.0)];
    ifft_in_place(&mut row, 2, &butterfly);
    assert_eq!(row, vec![Complex::new(2.0, 0.0), Complex::new(1.0, 1.0)]);
}

#[test]
fn transform_of_one_point_is_the_point() {
    let z = Complex::new(0.3f32, -0.7);
    let mut forward = vec![z];
    fft_in_place(&mut forward, 1, &butterfly);
    assert_eq!(forward, vec![z]);
    let mut inverse = vec![z];
    ifft_in_place(&mut inverse, 1, &butterfly);
    assert_eq!(inverse, vec![z]);
}

#[test]
fn forward_of_constant_is_a_single_peak() {
    for bits in 0..9 {
        let n = 1usize << bits;
        let c = Complex::new(0.5f32, -1.5);
        let mut row = vec![c; n];
        fft_in_place(&mut row, n, &butterfly);
        let mut expected = vec![Complex::new(0.0f32, 0.0); n];
        expected[0] = Complex::new(n as f32 * c.real, n as f32 * c.imag);
        assert_close(&row, &expected, 1e-6);
        ifft_in_place(&mut row, n, &butterfly);
        assert_close(&row, &vec![c; n], 1e-6);
    }
}

#[test]
fn forward_of_a_ramp() {
    let mut row = real_row(&[1.0, 2.0, 3.0, 4.0]);
    fft_in_place(&mut row, 4, &butterfly);
    let expected = vec![
        Complex::new(10.0f32, 0.0),
        Complex::new(-2.0, 2.0),
        Complex::new(-2.0, 0.0),
        Complex::new(-2.0, -2.0),
    ];
    assert_close(&row, &expected, 1e-6);
}

#[test]
fn forward_turns_clockwise_and_inverse_counterclockwise() {
    let mut row = real_row(&[0.0, 1.0, 0.0, 0.0]);
    fft_in_place(&mut row, 4, &butterfly);
    let clockwise = vec![
        Complex::new(1.0f32, 0.0),
        Complex::new(0.0, -1.0),
        Complex::new(-1.0, 0.0),
        Complex::new(0.0, 1.0),
    ];
    assert_close(&row, &clockwise, 1e-6);

    let mut back = real_row(&[0.0, 4.0, 0.0, 0.0]);
    ifft_in_place(&mut back, 4, &butterfly);
    let counterclockwise = vec![
        Complex::new(1.0f32, 0.0),
        Complex::new(0.0, 1.0),
        Complex::new(-1.0, 0.0),
        Complex::new(0.0, -1.0),
    ];
    assert_close(&back, &counterclockwise, 1e-6);
}

#[test]
fn forward_of_eight_points_matches_the_direct_sum() {
    let input = noise(8, 7);
    let mut row = input.clone();
    fft_in_place(&mut row, 8, &butterfly);
    let mut expected = Vec::new();
    for k in 0..8 {
        let (mut re, mut im) = (0.0f64, 0.0f64);
        for (j, x) in input.iter().enumerate() {
            let angle = -2.0 * std::f64::consts::PI * ((k * j) as f64) / 8.0;
            re += x.real as f64 * angle.cos() - x.imag as f64 * angle.sin();
            im += x.real as f64 * angle.sin() + x.imag as f64 * angle.cos();
        }
        expected.push(Complex::new(re as f32, im as f32));
    }
    assert_close(&row, &expected, 1e-6);
}

#[test]
fn inverse_divides_by_the_size_once() {
    let mut row = real_row(&[8.0, 0.0, 0.0, 0.0, 0.0, 0.0, 0.0, 0.0]);
    ifft_in_place(&mut row, 8, &butterfly);
    assert_close(&row, &real_row(&[1.0; 8]), 1e-6);
}

#[test]
fn inverse_of_forward_is_the_input() {
    for bits in 0..11 {
        let n = 1usize << bits;
        let input = noise(n, 11 + bits as u64);
        let mut row = input.clone();
        fft_in_place(&mut row, n, &butterfly);
        if n >= 2 {
            assert_ne!(row, input);
        }
        ifft_in_place(&mut row, n, &butterfly);
        assert_close(&row, &input, 1e-5);
    }
}

#[test]
fn forward_of_inverse_is_the_input() {
    let input = noise(64, 3);
    let mut row = input.clone();
    ifft_in_place(&mut row, 64, &butterfly);
    fft_in_place(&mut row, 64, &butterfly);
    assert_close(&row, &input, 1e-5);
}

#[test]
fn direction_flag_selects_the_transform() {
    let input = noise(16, 5);
    let mut by_flag = input.clone();
    base_fft_in_place(&mut by_flag, 16, false, &butterfly);
    let mut forward = input.clone();
    fft_in_place(&mut forward, 16, &butterfly);
    assert_eq!(by_flag, forward);

    let mut by_flag = input.clone();
    base_fft_in_place(&mut by_flag, 16, true, &butterfly);
    let mut inverse = input.clone();
    ifft_in_place(&mut inverse, 16, &butterfly);
    assert_eq!(by_flag, inverse);
    assert_ne!(forward, inverse);
}

#[test]
fn transform_leaves_the_tail_alone() {
    let input = noise(6, 9);
    let mut row = input.clone();
    fft_in_place(&mut row, 4, &butterfly);
    let mut head = input[..4].to_vec();
    fft_in_place(&mut head, 4, &butterfly);
    assert_eq!(&row[..4], &head[..]);
    assert_eq!(&row[4..], &input[4..]);
}

#[test]
fn normalizes_only_in_the_last_inverse_pass() {
    let last_inverse = Butterfly { index: 0, block_size: 8, size: 8, inverse: true };
    let early_inverse = Butterfly { index: 0, block_size: 4, size: 8, inverse: true };
    let last_forward = Butterfly { index: 0, block_size: 8, size: 8, inverse: false };
    let early_forward = Butterfly { index: 1, block_size: 4, size: 8, inverse: false };
    assert!(last_inverse.normalizes());
    assert!(!early_inverse.normalizes());
    assert!(!last_forward.normalizes());
    assert!(!early_forward.normalizes());
}

#[test]
fn butterflies_of_eight_points_come_in_schedule_order() {
    let seen: RefCell<Vec<(usize, usize, usize, bool)>> = RefCell::new(Vec::new());
    let recording = |at: Butterfly, even: Complex<f32>, odd: Complex<f32>| {
        seen.borrow_mut().push((at.block_size, at.index, at.size, at.inverse));
        (even, odd)
    };
    let mut row = noise(8, 1);
    base_fft_in_place(&mut row, 8, true, &recording);
    let expected = vec![
        (2, 0, 8, true),
        (2, 0, 8, true),
        (2, 0, 8, true),
        (2, 0, 8, true),
        (4, 0, 8, true),
        (4, 1, 8, true),
        (4, 0, 8, true),
        (4, 1, 8, true),
        (8, 0, 8, true),
        (8, 1, 8, true),
        (8, 2, 8, true),
        (8, 3, 8, true),
    ];
    assert_eq!(*seen.borrow(), expected);
}

#[test]
fn butterflies_meet_the_right_pairs() {
    // Amplitudes carry their own position, and the butterfly notes which met.
    let met: RefCell<Vec<(usize, u32, u32)>> = RefCell::new(Vec::new());
    let recording = |at: Butterfly, even: Complex<u32>, odd: Complex<u32>| {
        met.borrow_mut().push((at.block_size, even.real, odd.real));
        (even, odd)
    };
    let mut row: Vec<Complex<u32>> = (0..4u32).map(|k| Complex::new(k, 0)).collect();
    base_fft_in_place(&mut row, 4, false, &recording);
    // After bit reversal the row is 0, 2, 1, 3.
    let expected = vec![(2, 0, 2), (2, 1, 3), (4, 0, 1), (4, 2, 3)];
    assert_eq!(*met.borrow(), expected);
}

#[test]
fn symbolic_butterfly_shows_the_data_flow() {
    // With sum and difference and no twiddle, two points give sum and difference.
    let plain = |_at: Butterfly, even: Complex<i64>, odd: Complex<i64>| {
        (
            Complex::new(even.real + odd.real, even.imag + odd.imag),
            Complex::new(even.real - odd.real, even.imag - odd.imag),
        )
    };
    let mut row = vec![Complex::new(5i64, 1), Complex::new(3i64, -1)];
    fft_in_place(&mut row, 2, &plain);
    assert_eq!(row, vec![Complex::new(8, 0), Complex::new(2, 2)]);

    let mut four: Vec<Complex<i64>> = vec![
        Complex::new(1, 0),
        Complex::new(10, 0),
        Complex::new(100, 0),
        Complex::new(1000, 0),
    ];
    fft_in_place(&mut four, 4, &plain);
    // Reordered to 1, 100, 10, 1000; pairs (1,100) and (10,1000); then halves.
    assert_eq!(
        four.iter().map(|z| z.real).collect::<Vec<i64>>(),
        vec![101 + 1010, -99 + -990, 101 - 1010, -99 - -990]
    );
}

#[test]
fn single_pass_combines_within_blocks() {
    let plain = |_at: Butterfly, even: Complex<i64>, odd: Complex<i64>| {
        (
            Complex::new(even.real + odd.real, 0),
            Complex::new(even.real - odd.real, 0),
        )
    };
    let mut row: Vec<Complex<i64>> = (1..=8i64).map(|k| Complex::new(k, 0)).collect();
    butterfly_pass(&mut row, 8, 4, false, &plain);
    assert_eq!(
        row.iter().map(|z| z.real).collect::<Vec<i64>>(),
        vec![1 + 3, 2 + 4, 1 - 3, 2 - 4, 5 + 7, 6 + 8, 5 - 7, 6 - 8]
    );
}
