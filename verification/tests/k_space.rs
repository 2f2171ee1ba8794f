use sgpe::k_space::{fft_mode_index, fft_mode_indices};
use std::f64::consts::PI;

/// Wave vectors of a length-`n` axis with spacing `d`, from the library's
/// mode ordering: \(k_i = 2\pi\, m(i) / (n d)\).
fn wave_vectors(n: usize, d: f64) -> Vec<f64> {
    fft_mode_indices(n)
        .iter()
        .map(|&m| 2.0 * PI * (m as f64) / (n as f64 * d))
        .collect()
}

fn test_step() -> (usize, f64) {
    let grid_size = 100e-6;
    let n = 64.0;
    (64, 2.0 * grid_size / n)
}

#[test]
fn k_space_correct_shape() {
    let (n, d) = test_step();
    let kx = wave_vectors(n, d);
    let ky = wave_vectors(n, d);
    assert_eq!(kx.len(), 64);
    assert_eq!(ky.len(), 64);
    let k_sq: Vec<Vec<f64>> = kx
        .iter()
        .map(|a| ky.iter().map(|b| a * a + b * b).collect())
        .collect();
    assert_eq!(k_sq.len(), 64);
    assert!(k_sq.iter().all(|row| row.len() == 64));
}

#[test]
fn k_sq_is_nonnegative() {
    let (n, d) = test_step();
    let kx = wave_vectors(n, d);
    let ky = wave_vectors(n, d);
    assert!(kx.iter().all(|a| ky.iter().all(|b| a * a + b * b >= 0.0)));
}

#[test]
fn k_sq_zero_mode_is_zero() {
    let (n, d) = test_step();
    let kx = wave_vectors(n, d);
    let ky = wave_vectors(n, d);
    assert!((kx[0] * kx[0] + ky[0] * ky[0]).abs() < 1e-12);
}

#[test]
fn kx_max_equals_nyquist_frequency() {
    let (n, d) = test_step();
    let kx = wave_vectors(n, d);
    let ky = wave_vectors(n, d);
    let expected_kx_max = PI / d;
    let expected_ky_max = PI / d;
    let kx_max_abs = kx.iter().map(|k| k.abs()).fold(0.0_f64, f64::max);
    let ky_max_abs = ky.iter().map(|k| k.abs()).fold(0.0_f64, f64::max);
    let rel_err_x = (kx_max_abs - expected_kx_max).abs() / expected_kx_max;
    let rel_err_y = (ky_max_abs - expected_ky_max).abs() / expected_ky_max;
    assert!(
        rel_err_x < 1e-10,
        "max |kx| = {:.6e}, expected pi/dx = {:.6e}",
        kx_max_abs,
        expected_kx_max
    );
    assert!(
        rel_err_y < 1e-10,
        "max |ky| = {:.6e}, expected pi/dy = {:.6e}",
        ky_max_abs,
        expected_ky_max
    );
}

#[test]
fn mode_ordering_even_length() {
    assert_eq!(fft_mode_indices(8), vec![0, 1, 2, 3, 4, -3, -2, -1]);
}

#[test]
fn mode_ordering_odd_length() {
    assert_eq!(fft_mode_indices(7), vec![0, 1, 2, 3, -3, -2, -1]);
}

#[test]
fn mode_ordering_trivial_lengths() {
    assert_eq!(fft_mode_indices(0), Vec::<isize>::new());
    assert_eq!(fft_mode_indices(1), vec![0]);
    assert_eq!(fft_mode_indices(2), vec![0, 1]);
}

#[test]
fn single_mode_index_matches_ordering() {
    assert_eq!(fft_mode_index(0, 64), 0);
    assert_eq!(fft_mode_index(32, 64), 32);
    assert_eq!(fft_mode_index(33, 64), -31);
    assert_eq!(fft_mode_index(63, 64), -1);
}

#[test]
fn modes_paired_and_distinct() {
    let n = 10;
    let modes = fft_mode_indices(n);
    for i in 1..n {
        if 2 * i != n {
            assert_eq!(modes[n - i], -modes[i]);
        }
    }
    let mut sorted = modes.clone();
    sorted.sort();
    assert_eq!(sorted, vec![-4, -3, -2, -1, 0, 1, 2, 3, 4, 5]);
}
