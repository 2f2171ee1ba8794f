# sgpe

Simulation of an atomtronic quantum interference device: a 2D Bose–Einstein
condensate in a toroidal trap with two weak-link barriers, evolved with the
stochastic Gross–Pitaevskii equation by an explicit RK4 integrator.

## Layout

- `src/` — the library, verified with Verus:
  - `trap` — trap types and the potential each selects; toroidal parameter checks.
  - `k_space` — FFT mode ordering of the wave-vector axes, with its laws
    (zero mode first, Nyquist band, each mode stored once, \(k_{n-i} = -k_i\)).
  - `layout` — standard (row-major) grid layout: moving columns through the
    scratch buffer of the 2D transform, with round-trip laws.
  - `projector` — the classical-field projector mask and its application
    (idempotent, band-limited spectra unchanged). The mask is stored as
    booleans in standard layout, standing for its 0/1 floating-point entries;
    the `ndarray` fields it is applied to stay with the numerical driver,
    which hands the library their contiguous slices.
  - `evolution` — the stopping rule of the time evolution.
  - `output` — zero-padded snapshot/run names, comma-separated and labelled
    file layouts, and the debug-dump switch.
- `app/` — the numerical driver: floating-point fields, FFTs (`rustfft`),
  potentials, noise (`rand`, `rand_distr`), file I/O and the parallel runs
  (`rayon`).
- `tests/` — tests of the library.
