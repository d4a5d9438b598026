//! Index structure of the two-dimensional periodic `[0, 2 pi)^2` grid used by
//! the pseudospectral vorticity solver: row-major flattening (row = y,
//! column = x), FFT-ordered wavenumbers on both axes, the two-thirds
//! dealiasing rule that keeps only `|kx|, |ky| <= floor(n/3)`, and the
//! interleaved `[re, im, re, im, ...]` layout of a spectrum as a state vector.
use crate::grid::{fft_wavenumber, mirror_index, lemma_mirror_wavenumber};
use vstd::arithmetic::div_mod::*;
use vstd::prelude::*;

verus! {

/// Absolute value.
pub open spec fn abs(x: int) -> int {
    if x < 0 {
        -x
    } else {
        x
    }
}

/// Whether the two-thirds rule keeps mode `(iy, ix)` of an `n x n` spectrum.
pub open spec fn dealias_keeps(n: int, iy: int, ix: int) -> bool {
    abs(fft_wavenumber(ix, n)) <= n / 3 && abs(fft_wavenumber(iy, n)) <= n / 3
}

/// The interleaved real sequence `[p0.0, p0.1, p1.0, p1.1, ...]` of a sequence of pairs.
pub open spec fn interleaved<T>(pairs: Seq<(T, T)>) -> Seq<T> {
    Seq::new(
        2 * pairs.len(),
        |i: int|
            if i % 2 == 0 {
                pairs[i / 2].0
            } else {
                pairs[i / 2].1
            },
    )
}

/// The first `count` pairs `(state[2i], state[2i + 1])` of an interleaved sequence.
pub open spec fn paired<T>(state: Seq<T>, count: int) -> Seq<(T, T)> {
    Seq::new(count as nat, |i: int| (state[2 * i], state[2 * i + 1]))
}

/// An `n x n` periodic grid on `[0, 2 pi)^2`, with its dealiasing limit.
#[derive(Clone, Copy, Debug)]
pub struct Grid2d {
    n: usize,
    kmax: usize,
}

impl Grid2d {
    /// Points per side.
    pub closed spec fn side(&self) -> int {
        self.n as int
    }

    /// The largest wavenumber the two-thirds rule keeps.
    pub closed spec fn kmax(&self) -> int {
        self.kmax as int
    }

    /// At least six points per side, and the limit is `floor(n / 3)`.
    pub open spec fn wf(&self) -> bool {
        self.side() >= 6 && self.kmax() == self.side() / 3
    }

    /// A grid of `n x n` points; `n` must be at least six.
    pub fn new(n: usize) -> (grid: Self)
        requires
            n >= 6,
        ensures
            grid.wf(),
            grid.side() == n,
    {
        Self { n, kmax: n / 3 }
    }

    /// Points per side.
    pub fn n(&self) -> (n: usize)
        ensures
            n == self.side(),
    {
        self.n
    }

    /// Total number of points, `n * n`.
    pub fn len(&self) -> (len: usize)
        requires
            self.side() * self.side() <= usize::MAX,
        ensures
            len == self.side() * self.side(),
    {
        self.n * self.n
    }

    /// A grid is never empty.
    pub fn is_empty(&self) -> (empty: bool)
        ensures
            !empty,
    {
        false
    }

    /// The two-thirds limit `floor(n / 3)`.
    pub fn dealias_kmax(&self) -> (kmax: usize)
        ensures
            kmax == self.kmax(),
            self.wf() ==> kmax == self.side() / 3,
    {
        self.kmax
    }

    /// Row-major flat index of row `iy`, column `ix`.
    pub fn flat(&self, iy: usize, ix: usize) -> (index: usize)
        requires
            iy * self.side() + ix <= usize::MAX,
        ensures
            index == iy * self.side() + ix,
    {
        iy * self.n + ix
    }

    /// Wavenumber of column `ix`.
    pub fn kx(&self, ix: usize) -> (k: i64)
        requires
            ix <= i64::MAX,
            self.side() <= i64::MAX,
        ensures
            k == fft_wavenumber(ix as int, self.side()),
    {
        wavenumber(ix, self.n)
    }

    /// Wavenumber of row `iy`.
    pub fn ky(&self, iy: usize) -> (k: i64)
        requires
            iy <= i64::MAX,
            self.side() <= i64::MAX,
        ensures
            k == fft_wavenumber(iy as int, self.side()),
    {
        wavenumber(iy, self.n)
    }

    /// Whether the two-thirds rule keeps mode `(iy, ix)`.
    pub fn keeps(&self, iy: usize, ix: usize) -> (keep: bool)
        requires
            self.wf(),
            iy < self.side(),
            ix < self.side(),
            self.side() <= i64::MAX,
        ensures
            keep == dealias_keeps(self.side(), iy as int, ix as int),
    {
        let kx = self.kx(ix);
        let ky = self.ky(iy);
        let kmax = self.kmax as i64;
        let kx_abs = if kx < 0 { -kx } else { kx };
        let ky_abs = if ky < 0 { -ky } else { ky };
        kx_abs <= kmax && ky_abs <= kmax
    }

    /// The dealiasing mask over the whole spectrum in row-major order: entry
    /// `iy * n + ix` says whether mode `(iy, ix)` is kept.
    pub fn dealias_mask(&self) -> (mask: Vec<bool>)
        requires
            self.wf(),
            self.side() * self.side() <= usize::MAX,
            self.side() <= i64::MAX,
        ensures
            mask@.len() == self.side() * self.side(),
            forall|iy: int, ix: int|
                0 <= iy < self.side() && 0 <= ix < self.side() ==> #[trigger] mask@[iy
                    * self.side() + ix] == dealias_keeps(self.side(), iy, ix),
    {
        let n = self.n;
        let mut mask: Vec<bool> = Vec::new();
        let mut iy: usize = 0;
        while iy < n
            invariant
                self.wf(),
                n == self.side(),
                n * n <= usize::MAX,
                n <= i64::MAX,
                0 <= iy <= n,
                mask@.len() == iy * n,
                forall|a: int, b: int|
                    0 <= a < iy && 0 <= b < n ==> #[trigger] mask@[a * n + b] == dealias_keeps(
                        n as int,
                        a,
                        b,
                    ),
            decreases n - iy,
        {
            proof {
                assert(iy * n + n == (iy + 1) * n) by (nonlinear_arith);
                assert((iy + 1) * n <= n * n) by (nonlinear_arith)
                    requires
                        iy < n,
                ;
            }
            let mut ix: usize = 0;
            while ix < n
                invariant
                    self.wf(),
                    n == self.side(),
                    n <= i64::MAX,
                    0 <= iy < n,
                    0 <= ix <= n,
                    mask@.len() == iy * n + ix,
                    forall|a: int, b: int|
                        (0 <= a < iy && 0 <= b < n) || (a == iy && 0 <= b < ix) ==> #[trigger] mask@[a
                            * n + b] == dealias_keeps(n as int, a, b),
                decreases n - ix,
            {
                let keep = self.keeps(iy, ix);
                proof {
                    assert forall|a: int, b: int|
                        (0 <= a < iy && 0 <= b < n) || (a == iy && 0 <= b < ix + 1) implies #[trigger] mask@.push(
                        keep,
                    )[a * n + b] == dealias_keeps(n as int, a, b) by {
                        if a < iy {
                            assert(a * n + b < iy * n) by (nonlinear_arith)
                                requires
                                    a < iy,
                                    b < n,
                            ;
                        }
                    }
                }
                mask.push(keep);
                ix += 1;
            }
            iy += 1;
        }
        mask
    }
}

/// FFT-ordered wavenumber of index `i` on an `n`-point axis.
fn wavenumber(i: usize, n: usize) -> (k: i64)
    requires
        i <= i64::MAX,
        n <= i64::MAX,
    ensures
        k == fft_wavenumber(i as int, n as int),
{
    if i < n / 2 {
        i as i64
    } else {
        i as i64 - n as i64
    }
}

/// Lays a sequence of pairs out as one interleaved vector
/// `[p0.0, p0.1, p1.0, p1.1, ...]`: the state-vector form of a complex spectrum.
pub fn state_from_pairs<T: Copy>(pairs: &[(T, T)]) -> (state: Vec<T>)
    requires
        2 * pairs@.len() <= usize::MAX,
    ensures
        state@ == interleaved(pairs@),
{
    let mut state: Vec<T> = Vec::new();
    let mut i: usize = 0;
    while i < pairs.len()
        invariant
            0 <= i <= pairs@.len(),
            state@ == interleaved(pairs@.take(i as int)),
        decreases pairs@.len() - i,
    {
        let pair = pairs[i];
        proof {
            let next = interleaved(pairs@.take(i + 1));
            assert(next =~= state@.push(pair.0).push(pair.1)) by {
                assert forall|j: int| 0 <= j < next.len() implies next[j] == state@.push(pair.0).push(
                    pair.1,
                )[j] by {
                    if j < 2 * i {
                        assert(pairs@.take(i + 1)[j / 2] == pairs@.take(i as int)[j / 2]);
                    } else if j == 2 * i {
                        assert(j / 2 == i);
                    } else {
                        assert(j / 2 == i);
                    }
                }
            }
        }
        state.push(pair.0);
        state.push(pair.1);
        i += 1;
    }
    assert(pairs@.take(pairs@.len() as int) =~= pairs@);
    state
}

/// Reads the first `count` pairs `(state[2i], state[2i + 1])` back out of an
/// interleaved state vector.
pub fn pairs_from_state<T: Copy>(state: &[T], count: usize) -> (pairs: Vec<(T, T)>)
    requires
        2 * count <= state@.len(),
    ensures
        pairs@ == paired(state@, count as int),
{
    let mut pairs: Vec<(T, T)> = Vec::new();
    let len = state.len();
    let mut i: usize = 0;
    while i < count
        invariant
            len == state@.len(),
            2 * count <= state@.len(),
            0 <= i <= count,
            pairs@ == paired(state@, i as int),
        decreases count - i,
    {
        pairs.push((state[2 * i], state[2 * i + 1]));
        proof {
            assert(pairs@ =~= paired(state@, i + 1));
        }
        i += 1;
    }
    pairs
}

/// Reading the pairs back out of their interleaved layout gives the pairs.
pub proof fn lemma_pairs_round_trip<T>(pairs: Seq<(T, T)>)
    ensures
        paired(interleaved(pairs), pairs.len() as int) == pairs,
{
    let back = paired(interleaved(pairs), pairs.len() as int);
    assert forall|i: int| 0 <= i < pairs.len() implies back[i] == pairs[i] by {
        assert((2 * i) % 2 == 0 && (2 * i) / 2 == i);
        assert((2 * i + 1) % 2 == 1 && (2 * i + 1) / 2 == i);
    }
    assert(back =~= pairs);
}

/// Interleaving the pairs of an even-length state gives the state back.
pub proof fn lemma_state_round_trip<T>(state: Seq<T>)
    requires
        state.len() % 2 == 0,
    ensures
        interleaved(paired(state, (state.len() / 2) as int)) == state,
{
    let back = interleaved(paired(state, (state.len() / 2) as int));
    assert forall|j: int| 0 <= j < state.len() implies back[j] == state[j] by {
        if j % 2 == 0 {
            assert(2 * (j / 2) == j);
        } else {
            assert(2 * (j / 2) + 1 == j);
        }
    }
    assert(back =~= state);
}

/// Row-major flattening is a bijection between the `n x n` grid and
/// `0 .. n * n`: each flat index lies in range and gives back its row and column.
pub proof fn lemma_flat_bijective(n: int, iy: int, ix: int)
    requires
        n >= 1,
        0 <= iy < n,
        0 <= ix < n,
    ensures
        0 <= iy * n + ix < n * n,
        (iy * n + ix) / n == iy,
        (iy * n + ix) % n == ix,
{
    lemma_fundamental_div_mod_converse(iy * n + ix, n, iy, ix);
    assert(0 <= iy * n + ix < n * n) by (nonlinear_arith)
        requires
            0 <= iy < n,
            0 <= ix < n,
    ;
}

/// The two-thirds rule keeps the limit itself: `n / 3` is kept and
/// `n / 3 + 1` is not, on both axes.
pub proof fn lemma_two_thirds_limit(n: int)
    requires
        n >= 6,
    ensures
        dealias_keeps(n, 0, n / 3),
        !dealias_keeps(n, 0, n / 3 + 1),
        dealias_keeps(n, n / 3, 0),
        !dealias_keeps(n, n / 3 + 1, 0),
{
}

/// The kept set is closed under `k -> -k`: mode `(iy, ix)` is kept exactly
/// when its mirror `(-ky, -kx)` is, so truncating the spectrum of a real
/// field leaves the spectrum of a real field.
pub proof fn lemma_dealias_mirror_symmetric(n: int, iy: int, ix: int)
    requires
        n >= 6,
        0 <= iy < n,
        0 <= ix < n,
    ensures
        dealias_keeps(n, iy, ix) == dealias_keeps(n, mirror_index(iy, n), mirror_index(ix, n)),
{
    if abs(fft_wavenumber(ix, n)) <= n / 3 {
        lemma_mirror_wavenumber(ix, n);
    } else if -(n / 2) < fft_wavenumber(ix, n) || ix == 0 {
        lemma_mirror_wavenumber(ix, n);
    } else {
        lemma_fundamental_div_mod_converse(n - ix, n, 0, n - ix);
    }
    if abs(fft_wavenumber(iy, n)) <= n / 3 {
        lemma_mirror_wavenumber(iy, n);
    } else if -(n / 2) < fft_wavenumber(iy, n) || iy == 0 {
        lemma_mirror_wavenumber(iy, n);
    } else {
        lemma_fundamental_div_mod_converse(n - iy, n, 0, n - iy);
    }
}

} // verus!
