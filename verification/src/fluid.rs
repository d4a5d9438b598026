//! Integer decisions of the Lennard-Jones fluid run: the shape of the
//! triangular starting lattice and the validity of a run's step cadence.
use vstd::prelude::*;

verus! {

/// `rows` is a usable row count for `n` particles: positive, even (so that
/// the alternating row offset closes periodically), and dividing `n`.
pub open spec fn is_row_count(n: int, rows: int) -> bool {
    0 < rows <= n && rows % 2 == 0 && n % rows == 0
}

/// How far an `n / rows` by `rows` arrangement is from square.
pub open spec fn shape_gap(n: int, rows: int) -> int {
    let columns = n / rows;
    if columns >= rows {
        columns - rows
    } else {
        rows - columns
    }
}

/// `rows` is the preferred row count: the most nearly square usable one,
/// and among equally square ones the smallest.
pub open spec fn is_best_row_count(n: int, rows: int) -> bool {
    &&& is_row_count(n, rows)
    &&& forall|r: int|
        #[trigger] is_row_count(n, r) ==> shape_gap(n, rows) < shape_gap(n, r) || (shape_gap(n, rows)
            == shape_gap(n, r) && rows <= r)
}

/// `|a - b|` on unsigned integers.
fn abs_diff(a: usize, b: usize) -> (d: usize)
    ensures
        d == (if a >= b {
            a - b
        } else {
            b - a
        }),
{
    if a >= b {
        a - b
    } else {
        b - a
    }
}

/// Columns and rows of the triangular lattice for `n` particles: the even
/// divisor `rows` of `n` that makes the `n / rows` by `rows` arrangement most
/// nearly square, the smallest such on a tie. `None` when no even row count
/// divides `n`.
pub fn lattice_shape(n: usize) -> (shape: Option<(usize, usize)>)
    ensures
        shape is None <==> forall|r: int| !#[trigger] is_row_count(n as int, r),
        shape matches Some((columns, rows)) ==> is_best_row_count(n as int, rows as int) && columns
            == n / rows && columns * rows == n,
        shape matches Some((columns, rows)) ==> forall|r: int|
            #[trigger] is_row_count(n as int, r) ==> (if columns >= rows {
                columns - rows
            } else {
                rows - columns
            }) <= (if (n as int) / r >= r {
                (n as int) / r - r
            } else {
                r - (n as int) / r
            }),
{
    let mut best: Option<(usize, usize)> = None;
    let mut rows: usize = 0;
    while rows < n
        invariant
            0 <= rows <= n,
            best is None ==> forall|r: int| 0 < r <= rows ==> !#[trigger] is_row_count(n as int, r),
            best matches Some((c, b)) ==> {
                &&& is_row_count(n as int, b as int)
                &&& b <= rows
                &&& c == n / b
                &&& forall|r: int|
                    0 < r <= rows && #[trigger] is_row_count(n as int, r) ==> shape_gap(n as int, b as int)
                        < shape_gap(n as int, r) || (shape_gap(n as int, b as int) == shape_gap(
                        n as int,
                        r,
                    ) && b <= r)
            },
        decreases n - rows,
    {
        rows += 1;
        if rows % 2 == 0 && n % rows == 0 {
            let columns = n / rows;
            let gap = abs_diff(columns, rows);
            match best {
                None => {
                    best = Some((columns, rows));
                },
                Some((c, b)) => {
                    if gap < abs_diff(c, b) {
                        best = Some((columns, rows));
                    }
                },
            }
        }
    }
    proof {
        if let Some((c, b)) = best {
            assert(c * b == n) by {
                vstd::arithmetic::div_mod::lemma_fundamental_div_mod(n as int, b as int);
                vstd::arithmetic::mul::lemma_mul_is_commutative(c as int, b as int);
            }
        }
    }
    best
}

/// The integer part of a run's validity: at least two particles, a positive
/// number of production steps that is a whole number of sampling periods,
/// and positive sampling and rescaling periods.
pub fn cadence_is_valid(n: usize, steps: usize, sample_every: usize, rescale_every: usize) -> (valid:
    bool)
    ensures
        valid == (n >= 2 && steps > 0 && sample_every > 0 && rescale_every > 0 && steps
            % sample_every == 0),
{
    !(n < 2 || steps == 0 || sample_every == 0 || rescale_every == 0 || steps % sample_every != 0)
}

/// The production steps at which a frame is saved: `sample_every`,
/// `2 sample_every`, ..., up to `steps`, in order.
pub fn sample_steps(steps: usize, sample_every: usize) -> (schedule: Vec<usize>)
    requires
        sample_every > 0,
    ensures
        schedule@.len() == steps / sample_every,
        forall|j: int| 0 <= j < schedule@.len() ==> #[trigger] schedule@[j] == (j + 1) * sample_every,
{
    let count = steps / sample_every;
    let mut schedule: Vec<usize> = Vec::new();
    let mut j: usize = 0;
    while j < count
        invariant
            sample_every > 0,
            count == steps / sample_every,
            0 <= j <= count,
            schedule@.len() == j,
            forall|i: int| 0 <= i < j ==> #[trigger] schedule@[i] == (i + 1) * sample_every,
        decreases count - j,
    {
        proof {
            vstd::arithmetic::div_mod::lemma_fundamental_div_mod(steps as int, sample_every as int);
            assert((j + 1) * sample_every <= steps) by (nonlinear_arith)
                requires
                    j + 1 <= count,
                    steps == sample_every * count + steps % sample_every,
                    steps % sample_every >= 0,
                    sample_every > 0,
            ;
        }
        schedule.push((j + 1) * sample_every);
        j += 1;
    }
    schedule
}

/// The preferred row count is the most nearly square one: no usable row
/// count makes `|columns - rows|` smaller.
pub proof fn lemma_best_row_count_is_most_square(n: int, rows: int, r: int)
    requires
        is_best_row_count(n, rows),
        is_row_count(n, r),
    ensures
        (if n / rows >= rows {
            n / rows - rows
        } else {
            rows - n / rows
        }) <= (if n / r >= r {
            n / r - r
        } else {
            r - n / r
        }),
{
}

/// A square number of particles with an even side is laid out as a square:
/// for `n = r * r` with `r` even, the preferred row count is `r`, so the
/// lattice is `r` by `r`.
pub proof fn lemma_square_lattice(r: int, rows: int)
    requires
        r > 0,
        r % 2 == 0,
        is_best_row_count(r * r, rows),
    ensures
        rows == r,
        (r * r) / rows == r,
{
    let n = r * r;
    assert(n % r == 0 && n / r == r) by {
        vstd::arithmetic::div_mod::lemma_fundamental_div_mod_converse(n, r, r, 0);
    }
    assert(r <= n) by (nonlinear_arith)
        requires
            r > 0,
            n == r * r,
    ;
    assert(is_row_count(n, r));
    // the best gap is at most the gap of `r`, which is zero
    let c = n / rows;
    assert(c == rows) by {
        assert(shape_gap(n, rows) <= shape_gap(n, r));
    }
    vstd::arithmetic::div_mod::lemma_fundamental_div_mod(n, rows);
    assert(n == rows * c) by (nonlinear_arith)
        requires
            n == rows * (n / rows) + n % rows,
            n % rows == 0,
            c == n / rows,
    ;
    assert(rows == r) by (nonlinear_arith)
        requires
            rows * rows == r * r,
            rows > 0,
            r > 0,
    ;
}

/// A lattice exists exactly for positive even particle counts.
pub proof fn lemma_lattice_exists(n: int)
    requires
        n >= 0,
    ensures
        (exists|r: int| #[trigger] is_row_count(n, r)) <==> (n > 0 && n % 2 == 0),
{
    if n > 0 && n % 2 == 0 {
        assert(is_row_count(n, n)) by {
            vstd::arithmetic::div_mod::lemma_mod_self_0(n);
        }
    }
    if exists|r: int| #[trigger] is_row_count(n, r) {
        let r = choose|r: int| #[trigger] is_row_count(n, r);
        vstd::arithmetic::div_mod::lemma_fundamental_div_mod(n, r);
        let q = n / r;
        vstd::arithmetic::div_mod::lemma_fundamental_div_mod(r, 2);
        assert(n == 2 * ((r / 2) * q)) by (nonlinear_arith)
            requires
                n == r * q,
                r == 2 * (r / 2),
        ;
    }
}

/// With a valid cadence, the production steps `1 ..= steps` that fall on the
/// sampling period are exactly `sample_every, 2 sample_every, ..., steps`:
/// `steps / sample_every` frames, the `j`-th at step `(j + 1) sample_every`.
pub proof fn lemma_sampled_steps(steps: int, sample_every: int, k: int)
    requires
        steps > 0,
        sample_every > 0,
        steps % sample_every == 0,
        1 <= k <= steps,
    ensures
        (k % sample_every == 0) <==> (exists|j: int|
            0 <= j < steps / sample_every && k == #[trigger] ((j + 1) * sample_every)),
{
    vstd::arithmetic::div_mod::lemma_fundamental_div_mod(k, sample_every);
    vstd::arithmetic::div_mod::lemma_fundamental_div_mod(steps, sample_every);
    if k % sample_every == 0 {
        let j = k / sample_every - 1;
        assert(k == (j + 1) * sample_every) by (nonlinear_arith)
            requires
                k == sample_every * (k / sample_every),
                j == k / sample_every - 1,
        ;
        assert(0 <= j < steps / sample_every) by (nonlinear_arith)
            requires
                k == sample_every * (k / sample_every),
                steps == sample_every * (steps / sample_every),
                1 <= k <= steps,
                sample_every > 0,
                j == k / sample_every - 1,
        ;
    }
    if exists|j: int| 0 <= j < steps / sample_every && k == #[trigger] ((j + 1) * sample_every) {
        let j = choose|j: int| 0 <= j < steps / sample_every && k == #[trigger] ((j + 1) * sample_every);
        vstd::arithmetic::div_mod::lemma_mod_multiples_basic(j + 1, sample_every);
    }
}

} // verus!
