use sgpe::projector::Projector;
use std::f64::consts::{LN_2, PI};

fn make_k_space(nx: usize, ny: usize, dx: f64, dy: f64) -> (Vec<f64>, Vec<f64>) {
    let kx = (0..nx)
        .map(|i| {
            let f = i as f64 / (nx as f64 * dx);
            if i > nx / 2 {
                (f - 1.0 / dx) * 2.0 * PI
            } else {
                f * 2.0 * PI
            }
        })
        .collect();
    let ky = (0..ny)
        .map(|i| {
            let f = i as f64 / (ny as f64 * dy);
            if i > ny / 2 {
                (f - 1.0 / dy) * 2.0 * PI
            } else {
                f * 2.0 * PI
            }
        })
        .collect();
    (kx, ky)
}

/// The projector for temperature `t` and chemical potential `mu`: keep the
/// modes with \(k^2 \le 2(\tilde T \ln 2 + \tilde\mu)\).
fn projector(t: f64, mu: f64, kx: &[f64], ky: &[f64]) -> Projector {
    let k_cut_sq = 2.0 * (t * LN_2 + mu);
    Projector::from_mode_filter(kx.len(), ky.len(), |i, j| {
        kx[i] * kx[i] + ky[j] * ky[j] <= k_cut_sq
    })
}

#[test]
fn projector_mask_shape() {
    let (kx, ky) = make_k_space(32, 64, 1.0, 1.0);
    let p = projector(1.0, 1.0, &kx, &ky);
    assert_eq!(p.shape(), (32, 64));
}

#[test]
fn projector_mask_is_binary() {
    let (kx, ky) = make_k_space(32, 32, 1.0, 1.0);
    let p = projector(1.0, 1.0, &kx, &ky);
    let k_cut_sq = 2.0 * (1.0 * LN_2 + 1.0);
    for i in 0..32 {
        for j in 0..32 {
            let inside = kx[i] * kx[i] + ky[j] * ky[j] <= k_cut_sq;
            assert_eq!(p.retains(i, j), inside, "mask value at ({}, {}) wrong", i, j);
        }
    }
}

#[test]
fn projector_k0_is_always_retained() {
    let (kx, ky) = make_k_space(32, 32, 1.0, 1.0);
    // Even with very low cutoff, k=0 must stay.
    let eps_cut = 0.01_f64;
    let p = projector(eps_cut, 0.0, &kx, &ky);
    // The (0,0) mode is the first index in standard FFT ordering.
    assert!(p.retains(0, 0), "k=0 mode must always be retained");
}

#[test]
fn mask_keeps_inside_and_clears_outside() {
    let p = Projector::from_mode_filter(2, 3, |i, j| i + j <= 1);
    let mut spectrum = vec![1.5, 2.5, 3.5, 4.5, 5.5, 6.5];
    p.mask_spectrum(&mut spectrum, |v: f64| v * 0.0);
    assert_eq!(spectrum, vec![1.5, 2.5, 0.0, 4.5, 0.0, 0.0]);
}

#[test]
fn masking_is_idempotent() {
    let (kx, ky) = make_k_space(16, 16, 1.0, 1.0);
    let p = projector(1.0, 1.0, &kx, &ky);
    let mut spectrum: Vec<f64> = (0..256).map(|k| k as f64 + 1.0).collect();
    p.mask_spectrum(&mut spectrum, |v: f64| v * 0.0);
    let once = spectrum.clone();
    p.mask_spectrum(&mut spectrum, |v: f64| v * 0.0);
    assert_eq!(spectrum, once);
    let removed = once.iter().filter(|&&v| v == 0.0).count();
    assert!(removed > 0 && removed < 256);
}

#[test]
fn high_cutoff_keeps_every_mode() {
    let (kx, ky) = make_k_space(8, 8, 1.0, 1.0);
    let p = projector(100.0, 0.0, &kx, &ky);
    let mut spectrum: Vec<i64> = (1..=64).collect();
    let original = spectrum.clone();
    p.mask_spectrum(&mut spectrum, |v: i64| v * 0);
    assert_eq!(spectrum, original);
}

#[test]
fn dropped_modes_are_multiplied_by_zero() {
    let p = Projector::from_mode_filter(1, 4, |_, j| j == 0);
    let mut spectrum = vec![f64::NAN, -2.0, f64::INFINITY, f64::NAN];
    p.mask_spectrum(&mut spectrum, |v: f64| v * 0.0);
    assert!(spectrum[0].is_nan());
    assert_eq!(spectrum[1], 0.0);
    assert!(spectrum[1].is_sign_negative());
    assert!(spectrum[2].is_nan());
    assert!(spectrum[3].is_nan());
}
