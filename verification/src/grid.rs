//! The one-dimensional periodic grid on `[0, 2 pi)`: its size, FFT-ordered
//! wavenumbers, Nyquist index and periodic neighbours. Coordinates in `x`
//! are floating point and live with the numerical code; the grid itself is
//! determined by its point count.
use vstd::arithmetic::div_mod::*;
use vstd::prelude::*;

verus! {

/// FFT-ordered wavenumber of index `j` on an `n`-point grid: `j` below
/// `n / 2`, `j - n` from there on.
pub open spec fn fft_wavenumber(j: int, n: int) -> int {
    if j < n / 2 {
        j
    } else {
        j - n
    }
}

/// Index carrying wavenumber `k` in FFT order.
pub open spec fn index_of_wavenumber(k: int, n: int) -> int {
    if k >= 0 {
        k
    } else {
        k + n
    }
}

/// Index of the mode that mirrors index `j`, the one with the opposite wavenumber.
pub open spec fn mirror_index(j: int, n: int) -> int {
    (n - j) % n
}

/// A periodic grid of `n` equally spaced points on `[0, 2 pi)`.
#[derive(Clone, Copy, Debug)]
pub struct PeriodicGrid {
    n: usize,
}

impl PeriodicGrid {
    /// Number of points.
    pub closed spec fn size(&self) -> int {
        self.n as int
    }

    /// At least two points, and an even count so that the Nyquist mode exists.
    pub open spec fn wf(&self) -> bool {
        self.size() >= 2 && self.size() % 2 == 0
    }

    /// A grid of `n` points; `n` must be even and at least two.
    pub fn new(n: usize) -> (grid: Self)
        requires
            n >= 2,
            n % 2 == 0,
        ensures
            grid.size() == n,
            grid.wf(),
    {
        Self { n }
    }

    /// Number of points.
    pub fn n(&self) -> (n: usize)
        ensures
            n == self.size(),
    {
        self.n
    }

    /// Wavenumber of index `j` in FFT order.
    pub fn wavenumber(&self, j: usize) -> (k: i64)
        requires
            j <= isize::MAX,
            self.size() <= isize::MAX,
        ensures
            k == fft_wavenumber(j as int, self.size()),
    {
        let n = self.n as i64;
        let j = j as i64;
        if j < n / 2 {
            j
        } else {
            j - n
        }
    }

    /// All wavenumbers, in FFT order.
    pub fn wavenumbers(&self) -> (ks: Vec<i64>)
        requires
            self.size() <= isize::MAX,
        ensures
            ks@.len() == self.size(),
            forall|j: int| 0 <= j < self.size() ==> #[trigger] ks@[j] == fft_wavenumber(j, self.size()),
    {
        let mut ks: Vec<i64> = Vec::new();
        let mut j: usize = 0;
        while j < self.n
            invariant
                self.size() <= isize::MAX,
                0 <= j <= self.size(),
                ks@.len() == j,
                forall|i: int| 0 <= i < j ==> #[trigger] ks@[i] == fft_wavenumber(i, self.size()),
            decreases self.size() - j,
        {
            ks.push(self.wavenumber(j));
            j += 1;
        }
        ks
    }

    /// Whether `j` is the Nyquist index.
    pub fn is_nyquist(&self, j: usize) -> (nyquist: bool)
        ensures
            nyquist == (j == self.size() / 2),
    {
        j == self.n / 2
    }

    /// The Nyquist index, `n / 2`.
    pub fn nyquist_index(&self) -> (j: usize)
        ensures
            j == self.size() / 2,
    {
        self.n / 2
    }

    /// The periodic left and right neighbours of point `j`, as used by the
    /// centred difference stencil.
    pub fn periodic_neighbours(&self, j: usize) -> (pair: (usize, usize))
        requires
            self.wf(),
            j < self.size(),
            self.size() <= isize::MAX,
        ensures
            pair.0 == (j + self.size() - 1) % self.size(),
            pair.1 == (j + 1) % self.size(),
            pair.0 == (if j == 0 { self.size() - 1 } else { j - 1 }),
            pair.1 == (if j + 1 == self.size() { 0 } else { j + 1 }),
    {
        let n = self.n;
        proof {
            let m = n as int;
            let ji = j as int;
            lemma_fundamental_div_mod_converse(ji + m - 1, m, if ji == 0 { 0 } else { 1 }, if ji
                == 0 { m - 1 } else { ji - 1 });
            lemma_fundamental_div_mod_converse(ji + 1, m, if ji + 1 == m { 1 } else { 0 }, if ji + 1
                == m { 0 } else { ji + 1 });
        }
        ((j + n - 1) % n, (j + 1) % n)
    }
}

/// The wavenumbers of an even grid cover `[-n/2, n/2)`, and each index's
/// wavenumber differs from the index by a multiple of `n` (it is the same
/// Fourier mode).
pub proof fn lemma_wavenumber_range(j: int, n: int)
    requires
        n >= 2,
        n % 2 == 0,
        0 <= j < n,
    ensures
        -(n / 2) <= fft_wavenumber(j, n) < n / 2,
        fft_wavenumber(j, n) == j || fft_wavenumber(j, n) == j - n,
{
}

/// Different indices carry different wavenumbers, and every wavenumber in
/// `[-n/2, n/2)` is carried by some index.
pub proof fn lemma_wavenumber_bijective(n: int)
    requires
        n >= 2,
        n % 2 == 0,
    ensures
        forall|a: int, b: int|
            0 <= a < n && 0 <= b < n && a != b ==> #[trigger] fft_wavenumber(a, n)
                != #[trigger] fft_wavenumber(b, n),
        forall|k: int|
            -(n / 2) <= k < n / 2 ==> 0 <= #[trigger] index_of_wavenumber(k, n) < n
                && fft_wavenumber(index_of_wavenumber(k, n), n) == k,
{
}

/// The Nyquist index is the one index whose wavenumber is `-n/2`.
pub proof fn lemma_nyquist_wavenumber(j: int, n: int)
    requires
        n >= 2,
        n % 2 == 0,
        0 <= j < n,
    ensures
        (fft_wavenumber(j, n) == -(n / 2)) <==> j == n / 2,
{
}

/// Every mode with `|k| < n/2` has its mirror at `(n - j) % n`, carrying
/// wavenumber `-k`.
pub proof fn lemma_mirror_wavenumber(j: int, n: int)
    requires
        n >= 2,
        0 <= j < n,
        -(n / 2) < fft_wavenumber(j, n) < n / 2 || j == 0,
    ensures
        0 <= mirror_index(j, n) < n,
        fft_wavenumber(mirror_index(j, n), n) == -fft_wavenumber(j, n),
        mirror_index(mirror_index(j, n), n) == j,
{
    let m = mirror_index(j, n);
    lemma_fundamental_div_mod_converse(n - j, n, if j == 0 { 1 } else { 0 }, if j == 0 { 0 } else { n - j });
    lemma_fundamental_div_mod_converse(n - m, n, if m == 0 { 1 } else { 0 }, if m == 0 { 0 } else { n - m });
}

} // verus!
