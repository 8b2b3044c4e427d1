//! Two-dimensional periodic grid on `[0, 2*pi) x [0, 2*pi)`: row-major
//! indexing with the x index varying fastest, `idx = iy * n + ix`.

use vstd::prelude::*;
use crate::flow::grid::{fft_wavenumber, fft_wavenumbers};

verus! {

/// A uniform periodic grid with `n x n` points on `[0, 2*pi)^2`.
pub struct PeriodicGrid2D {
    n: usize,
}

impl PeriodicGrid2D {
    /// Points per side.
    pub closed spec fn side(&self) -> nat {
        self.n as nat
    }

    #[verifier::type_invariant]
    spec fn inv(&self) -> bool {
        2 <= self.n <= isize::MAX / 8
    }

    /// The grid `x_j = y_j = 2*pi*j/n`. At least two points per side; at most
    /// as many as an `f64` coordinate vector can hold.
    pub fn new(n: usize) -> (r: Self)
        requires
            2 <= n <= isize::MAX / 8,
        ensures
            r.side() == n,
    {
        PeriodicGrid2D { n }
    }

    /// Number of points per side.
    pub fn n(&self) -> (r: usize)
        ensures
            r == self.side(),
            2 <= r,
    {
        proof {
            use_type_invariant(self);
        }
        self.n
    }

    /// Total number of points `n * n`.
    pub fn len(&self) -> (r: usize)
        requires
            self.side() * self.side() <= usize::MAX,
        ensures
            r == self.side() * self.side(),
    {
        self.n * self.n
    }

    /// Always false (`n >= 2`).
    pub fn is_empty(&self) -> (r: bool)
        ensures
            r == (self.side() == 0),
    {
        proof {
            use_type_invariant(self);
        }
        false
    }

    /// Row-major flat index, `iy * n + ix` (x fastest).
    pub fn index(&self, ix: usize, iy: usize) -> (r: usize)
        requires
            ix < self.side(),
            iy < self.side(),
            self.side() * self.side() <= usize::MAX,
        ensures
            r == iy * self.side() + ix,
            r < self.side() * self.side(),
    {
        proof {
            lemma_row_major(ix as int, iy as int, self.n as int);
        }
        iy * self.n + ix
    }

    /// Inverse of [`Self::index`]: `(ix, iy)` of a flat index.
    pub fn coords(&self, idx: usize) -> (r: (usize, usize))
        requires
            idx < self.side() * self.side(),
        ensures
            r.0 == (idx as int) % (self.side() as int) && r.1 == (idx as int) / (self.side() as int),
            r.0 < self.side(),
            r.1 < self.side(),
    {
        proof {
            use_type_invariant(self);
            crate::ising::lattice::lemma_index_site(idx as int, self.n as int);
        }
        (idx % self.n, idx / self.n)
    }

    /// Integer wavenumbers in FFT order (`0, 1, ..., n/2-1, -n/2, ..., -1`)
    /// for either axis.
    pub fn wavenumbers(&self) -> (r: Vec<i64>)
        ensures
            r@.len() == self.side(),
            forall|i: int| 0 <= i < self.side() ==> #[trigger] r@[i] == fft_wavenumber(
                i,
                self.side() as int,
            ),
    {
        proof {
            use_type_invariant(self);
        }
        fft_wavenumbers(self.n)
    }
}

proof fn lemma_row_major(ix: int, iy: int, n: int)
    requires
        0 <= ix < n,
        0 <= iy < n,
    ensures
        0 <= iy * n + ix < n * n,
{
    crate::ising::lattice::lemma_site_index(ix, iy, n);
}

/// Flat indexing and coordinates are inverse to each other.
pub proof fn lemma_index_coords_inverse(n: int, ix: int, iy: int, idx: int)
    requires
        2 <= n,
        0 <= ix < n,
        0 <= iy < n,
        0 <= idx < n * n,
    ensures
        (iy * n + ix) % n == ix,
        (iy * n + ix) / n == iy,
        (idx / n) * n + idx % n == idx,
{
    vstd::arithmetic::div_mod::lemma_fundamental_div_mod_converse(iy * n + ix, n, iy, ix);
    crate::ising::lattice::lemma_index_site(idx, n);
    assert(n * iy == iy * n) by (nonlinear_arith);
}

} // verus!
