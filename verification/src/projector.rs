//! Momentum-cutoff projector for the classical-field (projected) SGPE.
//!
//! The projector keeps the Fourier modes inside the energy cutoff and removes
//! all others after each timestep. Which modes lie inside the cutoff is a
//! property of the wave-vector grid; here the projector stores that decision
//! as a binary mask over the \((n_x, n_y)\) spectrum, in standard layout, and
//! applies it to a transformed field.

use vstd::prelude::*;
use crate::layout::{grid_at, lemma_offset_bound, lemma_offset_split};

verus! {

/// `after` is `before` passed through `mask`: a retained mode is unchanged
/// (it is multiplied by 1) and a dropped mode is whatever `clear` (the
/// multiplication by 0) gives for it.
pub open spec fn is_masking<T, F: Fn(T) -> T>(mask: Seq<bool>, before: Seq<T>, after: Seq<T>, clear: F) -> bool {
    &&& after.len() == before.len()
    &&& forall|k: int|
        0 <= k < before.len() ==> if mask[k] {
            after[k] == before[k]
        } else {
            clear.ensures((before[k],), #[trigger] after[k])
        }
}

/// Clearing a cleared value changes nothing (as multiplying by 0 twice
/// gives the same as multiplying once).
pub open spec fn clears_idempotently<T, F: Fn(T) -> T>(clear: F) -> bool {
    forall|v: T, r: T, r2: T|
        #[trigger] clear.ensures((v,), r) && #[trigger] clear.ensures((r,), r2) ==> r2 == r
}

/// Precomputed Fourier-space mask for the classical-field projector.
///
/// `mask` has \(n_x n_y\) entries in standard layout; entry \((i, j)\) is set
/// exactly when the mode \((k_x[i], k_y[j])\) lies inside the cutoff.
pub struct Projector {
    nx: usize,
    ny: usize,
    mask: Vec<bool>,
}

impl Projector {
    /// Number of modes along axis 0.
    pub closed spec fn rows(&self) -> nat {
        self.nx as nat
    }

    /// Number of modes along axis 1.
    pub closed spec fn cols(&self) -> nat {
        self.ny as nat
    }

    /// The mask in standard layout.
    pub closed spec fn mask(&self) -> Seq<bool> {
        self.mask@
    }

    /// Whether mode \((i, j)\) is retained.
    pub open spec fn keeps(&self, i: int, j: int) -> bool {
        grid_at(self.mask(), self.cols() as int, i, j)
    }

    /// The mask covers the whole \((n_x, n_y)\) spectrum.
    pub open spec fn well_formed(&self) -> bool {
        self.mask().len() == self.rows() * self.cols()
    }

    /// Builds the mask by asking `keep(i, j)` for every mode \((i, j)\) of an
    /// \((n_x, n_y)\) spectrum, in standard-layout order.
    pub fn from_mode_filter<F: Fn(usize, usize) -> bool>(nx: usize, ny: usize, keep: F) -> (p: Projector)
        requires
            nx * ny <= usize::MAX,
            forall|i: usize, j: usize| i < nx && j < ny ==> #[trigger] keep.requires((i, j)),
        ensures
            p.well_formed(),
            p.rows() == nx,
            p.cols() == ny,
            forall|i: int, j: int|
                0 <= i < nx && 0 <= j < ny ==> keep.ensures((i as usize, j as usize), #[trigger] p.keeps(i, j)),
    {
        let mut mask: Vec<bool> = Vec::new();
        let mut i: usize = 0;
        while i < nx
            invariant
                i <= nx,
                nx * ny <= usize::MAX,
                forall|a: usize, b: usize| a < nx && b < ny ==> #[trigger] keep.requires((a, b)),
                mask@.len() == i * ny,
                forall|r: int, c: int|
                    0 <= r < i && 0 <= c < ny ==> keep.ensures((r as usize, c as usize), #[trigger] grid_at(mask@, ny as int, r, c)),
            decreases nx - i,
        {
            let mut j: usize = 0;
            while j < ny
                invariant
                    i < nx,
                    j <= ny,
                    nx * ny <= usize::MAX,
                    forall|a: usize, b: usize| a < nx && b < ny ==> #[trigger] keep.requires((a, b)),
                    mask@.len() == i * ny + j,
                    forall|r: int, c: int|
                        0 <= r < i && 0 <= c < ny ==> keep.ensures((r as usize, c as usize), #[trigger] grid_at(mask@, ny as int, r, c)),
                    forall|c: int| 0 <= c < j ==> keep.ensures((i, c as usize), #[trigger] grid_at(mask@, ny as int, i as int, c)),
                decreases ny - j,
            {
                let ghost before = mask@;
                let kept = keep(i, j);
                mask.push(kept);
                proof {
                    assert forall|r: int, c: int| 0 <= r < i && 0 <= c < ny implies keep.ensures(
                        (r as usize, c as usize),
                        #[trigger] grid_at(mask@, ny as int, r, c),
                    ) by {
                        lemma_offset_bound(r, c, i as int, ny as int);
                        assert(grid_at(mask@, ny as int, r, c) == grid_at(before, ny as int, r, c));
                    }
                    assert forall|c: int| 0 <= c < j + 1 implies keep.ensures(
                        (i, c as usize),
                        #[trigger] grid_at(mask@, ny as int, i as int, c),
                    ) by {
                        if c < j {
                            assert(grid_at(mask@, ny as int, i as int, c) == grid_at(before, ny as int, i as int, c));
                        }
                    }
                }
                j = j + 1;
            }
            assert((i + 1) * ny == i * ny + ny) by (nonlinear_arith);
            i = i + 1;
        }
        Projector { nx, ny, mask }
    }

    /// The shape \((n_x, n_y)\) of the spectrum the mask covers.
    pub fn shape(&self) -> (shape: (usize, usize))
        ensures
            shape.0 == self.rows(),
            shape.1 == self.cols(),
    {
        (self.nx, self.ny)
    }

    /// Whether mode \((i, j)\) is retained by the projector.
    pub fn retains(&self, i: usize, j: usize) -> (kept: bool)
        requires
            self.well_formed(),
            i < self.rows(),
            j < self.cols(),
        ensures
            kept == self.keeps(i as int, j as int),
    {
        let entries = self.mask.len();
        proof {
            lemma_offset_bound(i as int, j as int, self.nx as int, self.ny as int);
            assert(i * self.ny + j < entries);
        }
        self.mask[i * self.ny + j]
    }

    /// Applies the mask to a spectrum in standard layout, as the elementwise
    /// product with the 0/1 mask: a retained mode is multiplied by 1 and so
    /// left as it is, and a dropped mode is replaced by `clear` of it, the
    /// product of the mode with 0.
    pub fn mask_spectrum<T: Copy, F: Fn(T) -> T>(&self, spectrum: &mut [T], clear: F)
        requires
            self.well_formed(),
            old(spectrum)@.len() == self.rows() * self.cols(),
            forall|v: T| #[trigger] clear.requires((v,)),
        ensures
            is_masking(self.mask(), old(spectrum)@, final(spectrum)@, clear),
            forall|i: int, j: int|
                0 <= i < self.rows() && 0 <= j < self.cols() ==> if self.keeps(i, j) {
                    #[trigger] grid_at(final(spectrum)@, self.cols() as int, i, j) == grid_at(
                        old(spectrum)@,
                        self.cols() as int,
                        i,
                        j,
                    )
                } else {
                    clear.ensures(
                        (grid_at(old(spectrum)@, self.cols() as int, i, j),),
                        grid_at(final(spectrum)@, self.cols() as int, i, j),
                    )
                },
    {
        let n = spectrum.len();
        let ghost original = spectrum@;
        let mut k: usize = 0;
        while k < n
            invariant
                n == spectrum@.len(),
                n == original.len(),
                n == self.mask@.len(),
                k <= n,
                forall|v: T| #[trigger] clear.requires((v,)),
                forall|q: int|
                    0 <= q < k ==> if self.mask@[q] {
                        spectrum@[q] == original[q]
                    } else {
                        clear.ensures((original[q],), #[trigger] spectrum@[q])
                    },
                forall|q: int| k <= q < n ==> #[trigger] spectrum@[q] == original[q],
            decreases n - k,
        {
            if !self.mask[k] {
                let cleared = clear(spectrum[k]);
                spectrum[k] = cleared;
            }
            proof {
                assert(self.mask@[k as int] ==> spectrum@[k as int] == original[k as int]);
            }
            k = k + 1;
        }
        proof {
            assert forall|i: int, j: int| 0 <= i < self.rows() && 0 <= j < self.cols() implies if self.keeps(i, j) {
                #[trigger] grid_at(spectrum@, self.cols() as int, i, j) == grid_at(original, self.cols() as int, i, j)
            } else {
                clear.ensures(
                    (grid_at(original, self.cols() as int, i, j),),
                    grid_at(spectrum@, self.cols() as int, i, j),
                )
            } by {
                lemma_offset_bound(i, j, self.nx as int, self.ny as int);
            }
        }
    }
}

/// Projecting twice is projecting once: when clearing a mode is
/// idempotent, a spectrum masked a second time stays as it was.
pub proof fn lemma_projection_idempotent<T, F: Fn(T) -> T>(
    mask: Seq<bool>,
    s: Seq<T>,
    once: Seq<T>,
    twice: Seq<T>,
    clear: F,
)
    requires
        clears_idempotently(clear),
        is_masking(mask, s, once, clear),
        is_masking(mask, once, twice, clear),
    ensures
        twice == once,
{
    assert forall|k: int| 0 <= k < once.len() implies #[trigger] twice[k] == once[k] by {
        if !mask[k] {
            assert(clear.ensures((s[k],), once[k]));
            assert(clear.ensures((once[k],), twice[k]));
        }
    }
    assert(twice =~= once);
}

/// A spectrum that is already band-limited (clearing leaves each dropped
/// mode as it is) passes through the projector unchanged.
pub proof fn lemma_band_limited_unchanged<T, F: Fn(T) -> T>(mask: Seq<bool>, s: Seq<T>, after: Seq<T>, clear: F)
    requires
        is_masking(mask, s, after, clear),
        forall|k: int, r: T| 0 <= k < s.len() && !mask[k] && #[trigger] clear.ensures((s[k],), r) ==> r == s[k],
    ensures
        after == s,
{
    assert forall|k: int| 0 <= k < s.len() implies #[trigger] after[k] == s[k] by {
        if !mask[k] {
            assert(clear.ensures((s[k],), after[k]));
        }
    }
    assert(after =~= s);
}

} // verus!
