//! One-dimensional periodic grid on [0, 2*pi): index wrapping.
//!
//! The grid holds exactly `n` points, `x_j = 2*pi*j/n`. Point `0`'s left
//! neighbour is `n-1` and point `n-1`'s right neighbour is `0`.

use vstd::prelude::*;

verus! {

/// A uniform periodic grid with `n` points on `[0, 2*pi)`.
pub struct PeriodicGrid {
    n: usize,
}

impl PeriodicGrid {
    /// Number of points.
    pub closed spec fn size(&self) -> nat {
        self.n as nat
    }

    #[verifier::type_invariant]
    spec fn inv(&self) -> bool {
        2 <= self.n <= isize::MAX / 8
    }

    /// The grid `x_j = 2*pi*j/n`, `j = 0, ..., n-1`. At least two points; at
    /// most as many as an `f64` coordinate vector can hold.
    pub fn new(n: usize) -> (r: Self)
        requires
            2 <= n <= isize::MAX / 8,
        ensures
            r.size() == n,
    {
        PeriodicGrid { n }
    }

    /// Number of grid points.
    pub fn len(&self) -> (r: usize)
        ensures
            r == self.size(),
    {
        self.n
    }

    /// True when the grid has no points (never, since `n >= 2`).
    pub fn is_empty(&self) -> (r: bool)
        ensures
            r == (self.size() == 0),
    {
        proof {
            use_type_invariant(self);
        }
        false
    }

    /// Wrap any integer index into `0..n` (negative indices wrap from the end).
    pub fn wrap(&self, j: isize) -> (r: usize)
        ensures
            r == (j as int) % (self.size() as int),
            r < self.size(),
    {
        proof {
            use_type_invariant(self);
        }
        let n = self.n as isize;
        let t = j % n;
        assert(j < 0 ==> t == -((-(j as int)) % (n as int)));
        assert(j >= 0 ==> t == (j as int) % (n as int));
        let u = t + n;
        let w = u % n;
        proof {
            let m = n as int;
            if j >= 0 {
                vstd::arithmetic::div_mod::lemma_mod_multiples_vanish(1, t as int, m);
                vstd::arithmetic::div_mod::lemma_small_mod(t as nat, m as nat);
            } else {
                let a = -(j as int);
                vstd::arithmetic::div_mod::lemma_fundamental_div_mod(a, m);
                let k = a / m;
                assert(j as int == m * (-k - 1) + u) by (nonlinear_arith)
                    requires
                        a == m * k + a % m,
                        j as int == -a,
                        t == -(a % m),
                        u == t + m,
                ;
                vstd::arithmetic::div_mod::lemma_mod_multiples_vanish(-k - 1, u as int, m);
            }
        }
        w as usize
    }

    /// Left neighbour of `j`; at `j = 0` this wraps to `n-1`.
    pub fn left(&self, j: usize) -> (r: usize)
        requires
            j <= isize::MAX,
        ensures
            r == (j - 1) % (self.size() as int),
            r < self.size(),
    {
        self.wrap(j as isize - 1)
    }

    /// Right neighbour of `j`; at `j = n-1` this wraps to `0`.
    pub fn right(&self, j: usize) -> (r: usize)
        requires
            j < isize::MAX,
        ensures
            r == (j + 1) % (self.size() as int),
            r < self.size(),
    {
        self.wrap(j as isize + 1)
    }
}

/// Stepping right then left (or left then right) returns to the same point.
pub proof fn lemma_left_right_inverse(n: int, j: int)
    requires
        2 <= n,
        0 <= j < n,
    ensures
        ((j + 1) % n - 1) % n == j,
        ((j - 1) % n + 1) % n == j,
{
    if j + 1 < n {
        vstd::arithmetic::div_mod::lemma_small_mod((j + 1) as nat, n as nat);
    } else {
        vstd::arithmetic::div_mod::lemma_mod_self_0(n);
        vstd::arithmetic::div_mod::lemma_mod_multiples_vanish(-1, n - 1, n);
        vstd::arithmetic::div_mod::lemma_small_mod((n - 1) as nat, n as nat);
    }
    vstd::arithmetic::div_mod::lemma_small_mod(j as nat, n as nat);
    if j >= 1 {
        vstd::arithmetic::div_mod::lemma_small_mod((j - 1) as nat, n as nat);
    } else {
        vstd::arithmetic::div_mod::lemma_mod_multiples_vanish(-1, n - 1, n);
        vstd::arithmetic::div_mod::lemma_small_mod((n - 1) as nat, n as nat);
        vstd::arithmetic::div_mod::lemma_mod_self_0(n);
    }
}

/// Integer wavenumber of FFT index `i` on `n` points: `0, 1, ..., n/2-1,
/// -n/2, ..., -1` for even `n` (and `0, ..., (n-1)/2, -(n-1)/2, ..., -1`
/// for odd `n`).
pub open spec fn fft_wavenumber(i: int, n: int) -> int {
    if 2 * i < n {
        i
    } else {
        i - n
    }
}

/// Integer wavenumbers in FFT order.
pub fn fft_wavenumbers(n: usize) -> (r: Vec<i64>)
    requires
        n <= i64::MAX,
    ensures
        r@.len() == n,
        forall|i: int| 0 <= i < n ==> #[trigger] r@[i] == fft_wavenumber(i, n as int),
{
    let mut k: Vec<i64> = Vec::new();
    let mut i: usize = 0;
    while i < n
        invariant
            n <= i64::MAX,
            i <= n,
            k@.len() == i,
            forall|m: int| 0 <= m < i ==> #[trigger] k@[m] == fft_wavenumber(m, n as int),
        decreases n - i,
    {
        if i < n - i {
            k.push(i as i64);
        } else {
            k.push(i as i64 - n as i64);
        }
        i = i + 1;
    }
    k
}

} // verus!
