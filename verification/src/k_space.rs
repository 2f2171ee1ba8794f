//! Ordering of the Fourier modes on an FFT grid.
//!
//! A discrete Fourier transform of length \(n\) stores the mode with signed
//! frequency index \(m\) at position \(m \bmod n\): the non-negative
//! frequencies \(0, 1, \dots, \lfloor n/2 \rfloor\) come first, followed by
//! the negative ones \(-\lceil n/2 \rceil + 1, \dots, -1\). The wave vector at
//! position \(i\) of an axis with spacing \(\Delta x\) is then
//! \(k_i = 2\pi\, m(i) / (n \Delta x)\).

use vstd::prelude::*;

verus! {

/// Signed frequency index of the mode stored at position `i` of a length-`n`
/// transform: `i` itself up to the Nyquist position `n / 2`, `i - n` after it.
pub open spec fn mode_index(i: int, n: int) -> int {
    if i > n / 2 {
        i - n
    } else {
        i
    }
}

/// Smallest signed frequency index present on a length-`n` axis.
pub open spec fn lowest_mode(n: int) -> int {
    -((n - 1) / 2)
}

/// Position at which a length-`n` transform stores signed frequency `m`.
pub open spec fn mode_position(m: int, n: int) -> int {
    if m >= 0 {
        m
    } else {
        m + n
    }
}

/// Signed frequency index of the mode stored at position `i` of a length-`n`
/// transform axis (the ordering `generate_k_space` uses for \(k_x\) and \(k_y\)).
pub fn fft_mode_index(i: usize, n: usize) -> (m: isize)
    requires
        i < n,
        n <= isize::MAX,
    ensures
        m == mode_index(i as int, n as int),
{
    if i > n / 2 {
        (i as isize) - (n as isize)
    } else {
        i as isize
    }
}

/// The signed frequency indices of all positions of a length-`n` axis, in
/// storage order.
pub fn fft_mode_indices(n: usize) -> (modes: Vec<isize>)
    requires
        n <= isize::MAX,
    ensures
        modes@.len() == n,
        forall|i: int| 0 <= i < n ==> #[trigger] modes@[i] == mode_index(i, n as int),
{
    let mut modes: Vec<isize> = Vec::with_capacity(n);
    let mut i: usize = 0;
    while i < n
        invariant
            i <= n,
            n <= isize::MAX,
            modes@.len() == i,
            forall|k: int| 0 <= k < i ==> #[trigger] modes@[k] == mode_index(k, n as int),
        decreases n - i,
    {
        let m = fft_mode_index(i, n);
        modes.push(m);
        i = i + 1;
    }
    modes
}

/// The zero-frequency mode sits at position 0 of every axis, so
/// \(k_x[0] = k_y[0] = 0\) and \(k^2[0, 0] = 0\).
pub proof fn lemma_zero_mode_first(n: int)
    requires
        n > 0,
    ensures
        mode_index(0, n) == 0,
{
}

/// Every stored mode lies in the band \(\lceil -(n-1)/2 \rceil \le m \le \lfloor n/2 \rfloor\),
/// and the largest magnitude \(\lfloor n/2 \rfloor\) is reached at the Nyquist
/// position \(n/2\): the largest \(|k|\) is \(2\pi \lfloor n/2 \rfloor / (n\Delta x)\),
/// which is \(\pi/\Delta x\) on an even grid.
pub proof fn lemma_modes_within_nyquist_band(i: int, n: int)
    requires
        0 <= i < n,
    ensures
        lowest_mode(n) <= mode_index(i, n) <= n / 2,
        -(n / 2) <= mode_index(i, n),
        mode_index(n / 2, n) == n / 2,
{
}

/// A mode's position and its signed index agree modulo the length: the
/// stored frequency aliases to the position it is stored at.
pub proof fn lemma_mode_congruent_to_position(i: int, n: int)
    requires
        0 <= i < n,
    ensures
        mode_index(i, n) == i || mode_index(i, n) == i - n,
        (i - mode_index(i, n)) % n == 0,
        mode_position(mode_index(i, n), n) == i,
{
    if i > n / 2 {
        assert((n) % n == 0) by (nonlinear_arith)
            requires
                n > 0,
        ;
    } else {
        assert(0int % n == 0) by (nonlinear_arith)
            requires
                n > 0,
        ;
    }
}

/// Distinct positions hold distinct modes.
pub proof fn lemma_modes_distinct(i: int, j: int, n: int)
    requires
        0 <= i < n,
        0 <= j < n,
        i != j,
    ensures
        mode_index(i, n) != mode_index(j, n),
{
}

/// Every signed frequency in the band is stored at exactly one position,
/// namely `mode_position(m, n)`: the axis holds each representable mode once.
pub proof fn lemma_every_band_mode_stored(m: int, n: int)
    requires
        n > 0,
        lowest_mode(n) <= m <= n / 2,
    ensures
        0 <= mode_position(m, n) < n,
        mode_index(mode_position(m, n), n) == m,
        forall|i: int| 0 <= i < n && #[trigger] mode_index(i, n) == m ==> i == mode_position(m, n),
{
}

/// Away from the zero and Nyquist positions, the modes at `i` and `n - i`
/// are opposite: \(k_{n-i} = -k_i\), so \(k^2\) is symmetric about the origin.
pub proof fn lemma_modes_paired(i: int, n: int)
    requires
        0 < i < n,
        2 * i != n,
    ensures
        mode_index(n - i, n) == -mode_index(i, n),
{
}

} // verus!
