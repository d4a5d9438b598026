//! The two-dimensional Ising model on a periodic `l x l` square lattice with
//! nearest-neighbour coupling `J = 1`, stored row-major as `+1` / `-1` spins.
use rand::rngs::StdRng;
use rand::Rng;
use crate::text::str_equal;
use vstd::arithmetic::div_mod::*;
use vstd::prelude::*;

verus! {

// ---------------------------------------------------------------------------
// Lattice geometry
// ---------------------------------------------------------------------------

/// Flat row-major position of site `(row, col)` after wrapping both
/// coordinates onto the periodic `l x l` lattice.
pub open spec fn site_of(l: int, row: int, col: int) -> int {
    (row % l) * l + col % l
}

/// The neighbour one column to the right of flat site `p`.
pub open spec fn right_of(l: int, p: int) -> int {
    site_of(l, p / l, p % l + 1)
}

/// The neighbour one column to the left of flat site `p`.
pub open spec fn left_of(l: int, p: int) -> int {
    site_of(l, p / l, p % l + l - 1)
}

/// The neighbour one row below flat site `p`.
pub open spec fn below(l: int, p: int) -> int {
    site_of(l, p / l + 1, p % l)
}

/// The neighbour one row above flat site `p`.
pub open spec fn above(l: int, p: int) -> int {
    site_of(l, p / l + l - 1, p % l)
}

/// Reduces a coordinate in `[0, 2l)` onto `[0, l)`.
pub open spec fn wrap_once(l: int, x: int) -> int {
    if x < l {
        x
    } else {
        x - l
    }
}

// ---------------------------------------------------------------------------
// Spin configurations and their observables
// ---------------------------------------------------------------------------

/// A configuration of an `l x l` lattice: one `+1` or `-1` spin per site.
pub open spec fn valid_spins(l: int, s: Seq<i8>) -> bool {
    &&& l >= 0
    &&& s.len() == l * l
    &&& forall|i: int| 0 <= i < s.len() ==> (#[trigger] s[i] == 1 || s[i] == -1)
}

/// Sum of the four nearest-neighbour spins of site `p`.
pub open spec fn neighbour_sum(l: int, s: Seq<i8>, p: int) -> int {
    s[below(l, p)] + s[above(l, p)] + s[right_of(l, p)] + s[left_of(l, p)]
}

/// Energy change caused by reversing the spin at `p`: `2 s_p * sum of neighbours`.
pub open spec fn flip_cost(l: int, s: Seq<i8>, p: int) -> int {
    2 * s[p] * neighbour_sum(l, s, p)
}

/// The configuration with the spin at `p` reversed.
pub open spec fn flip_at(s: Seq<i8>, p: int) -> Seq<i8> {
    s.update(p, (-s[p]) as i8)
}

/// The two bonds owned by site `p`: to its lower and to its right neighbour.
pub open spec fn bond_energy(l: int, s: Seq<i8>, p: int) -> int {
    s[p] * (s[below(l, p)] + s[right_of(l, p)])
}

/// `f(0) + f(1) + ... + f(n - 1)`.
pub open spec fn sum_over(f: spec_fn(int) -> int, n: int) -> int
    decreases n,
{
    if n <= 0 {
        0
    } else {
        sum_over(f, n - 1) + f(n - 1)
    }
}

/// Bond term of each site, as a function of the site.
pub open spec fn bond_terms(l: int, s: Seq<i8>) -> spec_fn(int) -> int {
    |p: int| bond_energy(l, s, p)
}

/// Spin value of each site, as a function of the site.
pub open spec fn spin_terms(s: Seq<i8>) -> spec_fn(int) -> int {
    |p: int| s[p] as int
}

/// Total energy `E = -sum_p s_p (s_below(p) + s_right(p))`, each bond counted once.
pub open spec fn lattice_energy(l: int, s: Seq<i8>) -> int {
    -sum_over(bond_terms(l, s), l * l)
}

/// Total magnetization `M = sum_p s_p`.
pub open spec fn lattice_magnetization(s: Seq<i8>) -> int {
    sum_over(spin_terms(s), s.len() as int)
}

// ---------------------------------------------------------------------------
// Lemmas on the geometry
// ---------------------------------------------------------------------------

/// A site given by coordinates in `[0, 2l)` lies on the lattice, and its
/// row and column are the wrapped coordinates.
pub proof fn lemma_site_coords(l: int, row: int, col: int)
    requires
        l >= 1,
        0 <= row < 2 * l,
        0 <= col < 2 * l,
    ensures
        row % l == wrap_once(l, row),
        col % l == wrap_once(l, col),
        0 <= site_of(l, row, col) < l * l,
        site_of(l, row, col) / l == wrap_once(l, row),
        site_of(l, row, col) % l == wrap_once(l, col),
{
    let rr = wrap_once(l, row);
    let cc = wrap_once(l, col);
    lemma_fundamental_div_mod_converse(row, l, if row < l { 0 } else { 1 }, rr);
    lemma_fundamental_div_mod_converse(col, l, if col < l { 0 } else { 1 }, cc);
    lemma_fundamental_div_mod_converse(rr * l + cc, l, rr, cc);
    assert(0 <= rr * l + cc < l * l) by (nonlinear_arith)
        requires
            0 <= rr < l,
            0 <= cc < l,
    ;
}

/// Every flat site splits into a row and a column inside the lattice.
pub proof fn lemma_coords(l: int, p: int)
    requires
        l >= 1,
        0 <= p < l * l,
    ensures
        0 <= p / l < l,
        0 <= p % l < l,
        site_of(l, p / l, p % l) == p,
{
    lemma_fundamental_div_mod(p, l);
    let q = p / l;
    let r = p % l;
    assert(0 <= r < l);
    assert(0 <= q < l) by (nonlinear_arith)
        requires
            p == l * q + r,
            0 <= r < l,
            0 <= p < l * l,
    ;
    lemma_site_coords(l, q, r);
    assert(q * l == l * q) by (nonlinear_arith);
}

/// Two lattice sites with the same row and column are the same site.
pub proof fn lemma_same_coords(l: int, p: int, q: int)
    requires
        l >= 1,
        0 <= p < l * l,
        0 <= q < l * l,
        p / l == q / l,
        p % l == q % l,
    ensures
        p == q,
{
    lemma_coords(l, p);
    lemma_coords(l, q);
}

/// The four neighbours of a site on a lattice of side at least two: they lie
/// on the lattice, stepping back undoes stepping forth, and none of the
/// sites whose bonds reach `p` coincide.
pub proof fn lemma_neighbours(l: int, p: int)
    requires
        l >= 2,
        0 <= p < l * l,
    ensures
        0 <= right_of(l, p) < l * l,
        0 <= left_of(l, p) < l * l,
        0 <= below(l, p) < l * l,
        0 <= above(l, p) < l * l,
        left_of(l, right_of(l, p)) == p,
        right_of(l, left_of(l, p)) == p,
        above(l, below(l, p)) == p,
        below(l, above(l, p)) == p,
        right_of(l, p) != p,
        left_of(l, p) != p,
        below(l, p) != p,
        above(l, p) != p,
        left_of(l, p) != above(l, p),
        below(l, left_of(l, p)) != p,
        right_of(l, above(l, p)) != p,
{
    lemma_coords(l, p);
    let r = p / l;
    let c = p % l;
    lemma_site_coords(l, r, c + 1);
    lemma_site_coords(l, r, c + l - 1);
    lemma_site_coords(l, r + 1, c);
    lemma_site_coords(l, r + l - 1, c);
    let rt = right_of(l, p);
    let lf = left_of(l, p);
    let bl = below(l, p);
    let ab = above(l, p);
    // stepping back
    lemma_site_coords(l, r, wrap_once(l, c + 1) + l - 1);
    lemma_site_coords(l, r, wrap_once(l, c + l - 1) + 1);
    lemma_site_coords(l, wrap_once(l, r + 1) + l - 1, c);
    lemma_site_coords(l, wrap_once(l, r + l - 1) + 1, c);
    lemma_same_coords(l, left_of(l, rt), p);
    lemma_same_coords(l, right_of(l, lf), p);
    lemma_same_coords(l, above(l, bl), p);
    lemma_same_coords(l, below(l, ab), p);
    // the diagonal neighbours
    lemma_site_coords(l, r + 1, wrap_once(l, c + l - 1));
    lemma_site_coords(l, wrap_once(l, r + l - 1), c + 1);
}

// ---------------------------------------------------------------------------
// Lemmas on sums
// ---------------------------------------------------------------------------

/// Two sums whose terms agree outside three distinct positions differ by
/// the differences at those positions that fall in range.
pub proof fn lemma_sum_differs_at_three(
    f: spec_fn(int) -> int,
    g: spec_fn(int) -> int,
    n: int,
    a: int,
    b: int,
    c: int,
)
    requires
        a != b,
        b != c,
        a != c,
        forall|x: int| 0 <= x < n && x != a && x != b && x != c ==> #[trigger] f(x) == g(x),
    ensures
        sum_over(g, n) - sum_over(f, n) == (if 0 <= a < n {
            g(a) - f(a)
        } else {
            0
        }) + (if 0 <= b < n {
            g(b) - f(b)
        } else {
            0
        }) + (if 0 <= c < n {
            g(c) - f(c)
        } else {
            0
        }),
    decreases n,
{
    if n > 0 {
        lemma_sum_differs_at_three(f, g, n - 1, a, b, c);
    }
}

/// A sum of `n` equal terms `v` is `n v`.
pub proof fn lemma_sum_constant(f: spec_fn(int) -> int, n: int, v: int)
    requires
        n >= 0,
        forall|x: int| 0 <= x < n ==> #[trigger] f(x) == v,
    ensures
        sum_over(f, n) == n * v,
    decreases n,
{
    if n > 0 {
        lemma_sum_constant(f, n - 1, v);
        assert((n - 1) * v + v == n * v) by (nonlinear_arith);
    } else {
        assert(n * v == 0) by (nonlinear_arith)
            requires
                n == 0,
        ;
    }
}

// ---------------------------------------------------------------------------
// Laws of the model
// ---------------------------------------------------------------------------

/// Outside the flipped site and the two sites whose bonds reach it, every
/// bond term is unchanged by the flip.
proof fn lemma_flip_bonds_elsewhere(l: int, s: Seq<i8>, p: int)
    requires
        l >= 2,
        valid_spins(l, s),
        0 <= p < l * l,
    ensures
        forall|x: int|
            0 <= x < l * l && x != p && x != left_of(l, p) && x != above(l, p)
                ==> #[trigger] bond_terms(l, s)(x) == bond_terms(l, flip_at(s, p))(x),
{
    let t = flip_at(s, p);
    lemma_neighbours(l, p);
    assert forall|x: int|
        0 <= x < l * l && x != p && x != left_of(l, p) && x != above(l, p) implies #[trigger] bond_terms(
        l,
        s,
    )(x) == bond_terms(l, t)(x) by {
        lemma_neighbours(l, x);
        assert(below(l, x) != p);
        assert(right_of(l, x) != p);
        assert(t[x] == s[x]);
        assert(t[below(l, x)] == s[below(l, x)]);
        assert(t[right_of(l, x)] == s[right_of(l, x)]);
    }
}

/// Reversing one spin changes the total energy by exactly the local cost
/// `2 s_p (sum of its four neighbours)`: the quantity the Metropolis rule
/// tests is the true energy difference of the move.
pub proof fn lemma_flip_energy_change(l: int, s: Seq<i8>, p: int)
    requires
        l >= 2,
        valid_spins(l, s),
        0 <= p < l * l,
    ensures
        lattice_energy(l, flip_at(s, p)) - lattice_energy(l, s) == flip_cost(l, s, p),
{
    let t = flip_at(s, p);
    let f = bond_terms(l, s);
    let g = bond_terms(l, t);
    let lf = left_of(l, p);
    let ab = above(l, p);
    let bl = below(l, p);
    let rt = right_of(l, p);
    lemma_neighbours(l, p);
    lemma_neighbours(l, lf);
    lemma_neighbours(l, ab);
    lemma_flip_bonds_elsewhere(l, s, p);
    lemma_sum_differs_at_three(f, g, l * l, p, lf, ab);
    let sp = s[p] as int;
    let sb = s[bl] as int;
    let sr = s[rt] as int;
    let sl = s[lf] as int;
    let sa = s[ab] as int;
    let bl_of_lf = s[below(l, lf)] as int;
    let rt_of_ab = s[right_of(l, ab)] as int;
    assert(t[p] == -sp);
    assert(t[bl] == sb);
    assert(t[rt] == sr);
    assert(t[lf] == sl);
    assert(t[ab] == sa);
    assert(t[below(l, lf)] == bl_of_lf);
    assert(t[right_of(l, ab)] == rt_of_ab);
    assert(f(p) == sp * (sb + sr));
    assert(g(p) == (-sp) * (sb + sr));
    assert(f(lf) == sl * (bl_of_lf + sp));
    assert(g(lf) == sl * (bl_of_lf + (-sp)));
    assert(f(ab) == sa * (sp + rt_of_ab));
    assert(g(ab) == sa * ((-sp) + rt_of_ab));
    assert(flip_cost(l, s, p) == 2 * sp * (sb + sa + sr + sl));
    assert((-sp) * (sb + sr) - sp * (sb + sr) + (sl * (bl_of_lf + (-sp)) - sl * (bl_of_lf + sp)) + (
    sa * ((-sp) + rt_of_ab) - sa * (sp + rt_of_ab)) == -(2 * sp * (sb + sa + sr + sl)))
        by (nonlinear_arith);
}

/// Reversing one spin changes the magnetization by `-2 s_p`.
pub proof fn lemma_flip_magnetization_change(s: Seq<i8>, p: int)
    requires
        0 <= p < s.len(),
        s[p] == 1 || s[p] == -1,
    ensures
        lattice_magnetization(flip_at(s, p)) - lattice_magnetization(s) == -2 * s[p],
{
    let t = flip_at(s, p);
    assert forall|x: int| 0 <= x < s.len() && x != p && x != -1 && x != -2 implies #[trigger] spin_terms(s)(x)
        == spin_terms(t)(x) by {}
    lemma_sum_differs_at_three(spin_terms(s), spin_terms(t), s.len() as int, p, -1, -2);
}

/// Reversing the same spin twice restores the configuration.
pub proof fn lemma_flip_twice(s: Seq<i8>, p: int)
    requires
        0 <= p < s.len(),
        s[p] == 1 || s[p] == -1,
    ensures
        flip_at(flip_at(s, p), p) == s,
{
    assert(flip_at(flip_at(s, p), p) =~= s);
}

/// Reversing a spin keeps every spin `+1` or `-1`.
pub proof fn lemma_flip_valid(l: int, s: Seq<i8>, p: int)
    requires
        valid_spins(l, s),
        0 <= p < s.len(),
    ensures
        valid_spins(l, flip_at(s, p)),
{
    let t = flip_at(s, p);
    assert forall|i: int| 0 <= i < t.len() implies (#[trigger] t[i] == 1 || t[i] == -1) by {
        if i != p {
            assert(t[i] == s[i]);
        }
    }
}

/// The all-up configuration is fully magnetized, `M = l^2`, and sits at the
/// ground-state energy `E = -2 l^2`.
pub proof fn lemma_all_up(l: int, s: Seq<i8>)
    requires
        l >= 1,
        s.len() == l * l,
        forall|i: int| 0 <= i < s.len() ==> #[trigger] s[i] == 1,
    ensures
        lattice_magnetization(s) == l * l,
        lattice_energy(l, s) == -2 * (l * l),
{
    assert(l * l >= 0) by (nonlinear_arith)
        requires
            l >= 1,
    ;
    lemma_sum_constant(spin_terms(s), l * l, 1);
    assert forall|x: int| 0 <= x < l * l implies #[trigger] bond_terms(l, s)(x) == 2 by {
        lemma_coords(l, x);
        lemma_site_coords(l, x / l + 1, x % l);
        lemma_site_coords(l, x / l, x % l + 1);
    }
    lemma_sum_constant(bond_terms(l, s), l * l, 2);
}

// ---------------------------------------------------------------------------
// Random numbers
// ---------------------------------------------------------------------------

/// `rand`'s standard seedable generator, carried through as an opaque value.
#[verifier::external_type_specification]
#[verifier::external_body]
pub struct ExStdRng(StdRng);

/// Draws an index from `0..bound` with `rand::Rng::gen_range`. The contract
/// claims only that the index lies in `0..bound`; which index comes out
/// depends on the generator's state and is left unsaid. `gen_range` panics on
/// an empty range, which the `requires` rules out.
#[verifier::external_body]
fn uniform_index(rng: &mut StdRng, bound: usize) -> (index: usize)
    requires
        0 < bound,
    ensures
        index < bound,
{
    rng.gen_range(0..bound)
}

/// Draws a 64-bit word with `rand::Rng::gen::<u64>()`. Nothing is claimed of
/// the word: every value is a possible outcome, and which one comes out
/// depends on the generator's state.
#[verifier::external_body]
fn random_word(rng: &mut StdRng) -> (word: u64) {
    rng.gen::<u64>()
}

// ---------------------------------------------------------------------------
// Update rules
// ---------------------------------------------------------------------------

/// How the lattice is updated between measurements.
#[derive(Clone, Copy, Debug, PartialEq, Eq, Structural)]
pub enum UpdateRule {
    /// Single-spin Metropolis moves, `l * l` proposals per sweep.
    Metropolis,
    /// Wolff cluster flips, one cluster per update.
    Wolff,
}

/// The update rule a command-line name selects, if any.
pub open spec fn update_rule_from_name(text: Seq<char>) -> Option<UpdateRule> {
    if text == "metropolis"@ {
        Some(UpdateRule::Metropolis)
    } else if text == "wolff"@ {
        Some(UpdateRule::Wolff)
    } else {
        None
    }
}

/// Command-line name of each update rule.
pub open spec fn update_rule_name(rule: UpdateRule) -> Seq<char> {
    match rule {
        UpdateRule::Metropolis => "metropolis"@,
        UpdateRule::Wolff => "wolff"@,
    }
}

/// The unit in which each update rule counts time.
pub open spec fn update_rule_time_unit(rule: UpdateRule) -> Seq<char> {
    match rule {
        UpdateRule::Metropolis => "sweep"@,
        UpdateRule::Wolff => "cluster_flip"@,
    }
}

impl UpdateRule {
    /// The rule named `metropolis` or `wolff`; `None` for any other text.
    pub fn parse(text: &str) -> (rule: Option<UpdateRule>)
        ensures
            rule == update_rule_from_name(text@),
    {
        if str_equal(text, "metropolis") {
            Some(UpdateRule::Metropolis)
        } else if str_equal(text, "wolff") {
            Some(UpdateRule::Wolff)
        } else {
            None
        }
    }

    /// The rule's command-line name.
    pub fn name(&self) -> (name: &'static str)
        ensures
            name@ == update_rule_name(*self),
    {
        match self {
            UpdateRule::Metropolis => "metropolis",
            UpdateRule::Wolff => "wolff",
        }
    }

    /// The unit of time of the rule: a sweep of `l * l` Metropolis proposals,
    /// or one Wolff cluster flip.
    pub fn time_unit(&self) -> (unit: &'static str)
        ensures
            unit@ == update_rule_time_unit(*self),
    {
        match self {
            UpdateRule::Metropolis => "sweep",
            UpdateRule::Wolff => "cluster_flip",
        }
    }
}

/// Each rule's name selects that rule again.
pub proof fn lemma_update_rule_round_trip(rule: UpdateRule)
    ensures
        update_rule_from_name(update_rule_name(rule)) == Some(rule),
{
    reveal_strlit("metropolis");
    reveal_strlit("wolff");
    assert("wolff"@.len() != "metropolis"@.len());
}

/// The cumulative update count at which the `k`-th measurement update at
/// temperature index `t_index` is recorded as a spin frame, when frames are
/// taken every `every` measurement updates; `None` when no frame is due
/// (`every == 0` takes none). Each temperature runs `discard` updates and
/// then `measure` updates, one after the other.
pub fn frame_sweep(discard: usize, measure: usize, every: usize, t_index: usize, k: usize) -> (frame:
    Option<usize>)
    requires
        k <= measure,
        (t_index + 1) * (discard + measure) <= usize::MAX,
    ensures
        frame == (if every > 0 && k % every == 0 {
            Some((t_index * (discard + measure) + discard + k) as usize)
        } else {
            None
        }),
{
    if every > 0 && k % every == 0 {
        proof {
            assert(t_index * (discard + measure) + discard + k <= (t_index + 1) * (discard + measure))
                by (nonlinear_arith)
                requires
                    k <= measure,
            ;
            assert(discard + measure <= (t_index + 1) * (discard + measure)) by (nonlinear_arith);
        }
        Some(t_index * (discard + measure) + discard + k)
    } else {
        None
    }
}

// ---------------------------------------------------------------------------
// Wolff clusters
// ---------------------------------------------------------------------------

/// `b` is one of the four nearest neighbours of `a`.
pub open spec fn adjacent(l: int, a: int, b: int) -> bool {
    b == below(l, a) || b == above(l, a) || b == right_of(l, a) || b == left_of(l, a)
}

/// `members` is a cluster grown from `seed` on configuration `s`: it starts at
/// the seed, holds each site at most once, holds only lattice sites aligned
/// with the seed, and each later member is a neighbour of an earlier one.
pub open spec fn is_wolff_cluster(l: int, s: Seq<i8>, seed: int, members: Seq<usize>) -> bool {
    &&& members.len() >= 1
    &&& members[0] == seed
    &&& members.no_duplicates()
    &&& forall|i: int|
        0 <= i < members.len() ==> #[trigger] members[i] < l * l && s[members[i] as int] == s[seed]
    &&& forall|i: int|
        0 < i < members.len() ==> exists|j: int|
            #![trigger members[j]]
            0 <= j < i && adjacent(l, members[j] as int, #[trigger] members[i] as int)
}

/// The configuration with every member of `members` reversed.
pub open spec fn flip_all(s: Seq<i8>, members: Seq<usize>) -> Seq<i8> {
    Seq::new(
        s.len(),
        |x: int|
            if members.contains(x as usize) {
                (-s[x]) as i8
            } else {
                s[x]
            },
    )
}

/// One Metropolis proposal of a sweep: the proposed site and, for an uphill
/// move, the random word drawn for its thermal test.
#[derive(Clone, Copy, Debug, PartialEq, Eq)]
pub struct Proposal {
    pub site: usize,
    pub word: Option<u64>,
}

/// The result of a Metropolis sweep: the number of accepted moves and every
/// proposal, in order.
#[derive(Clone, Debug)]
pub struct SweepOutcome {
    pub accepted: usize,
    pub proposals: Vec<Proposal>,
}

/// The thermal test of an uphill move of cost `cost`: the top 53 bits of the
/// drawn word fall below the threshold for that cost (`threshold_4` for a
/// cost of 4, `threshold_8` for a cost of 8).
pub open spec fn thermal_accepts(cost: int, word: Option<u64>, threshold_4: u64, threshold_8: u64) -> bool {
    match word {
        Some(w) => (w >> 11u64) < (if cost <= 4 {
            threshold_4
        } else {
            threshold_8
        }),
        None => false,
    }
}

/// Whether a proposal at `site` on configuration `s` is accepted.
pub open spec fn proposal_accepted(
    l: int,
    s: Seq<i8>,
    p: Proposal,
    threshold_4: u64,
    threshold_8: u64,
) -> bool {
    flip_cost(l, s, p.site as int) <= 0 || thermal_accepts(
        flip_cost(l, s, p.site as int),
        p.word,
        threshold_4,
        threshold_8,
    )
}

/// The configuration after a sequence of proposals.
pub open spec fn after_proposals(
    l: int,
    s: Seq<i8>,
    proposals: Seq<Proposal>,
    threshold_4: u64,
    threshold_8: u64,
) -> Seq<i8>
    decreases proposals.len(),
{
    if proposals.len() == 0 {
        s
    } else {
        let current = after_proposals(l, s, proposals.drop_last(), threshold_4, threshold_8);
        if proposal_accepted(l, current, proposals.last(), threshold_4, threshold_8) {
            flip_at(current, proposals.last().site as int)
        } else {
            current
        }
    }
}

/// The number of accepted proposals in a sequence.
pub open spec fn accepted_count(
    l: int,
    s: Seq<i8>,
    proposals: Seq<Proposal>,
    threshold_4: u64,
    threshold_8: u64,
) -> int
    decreases proposals.len(),
{
    if proposals.len() == 0 {
        0
    } else {
        let current = after_proposals(l, s, proposals.drop_last(), threshold_4, threshold_8);
        accepted_count(l, s, proposals.drop_last(), threshold_4, threshold_8) + (if proposal_accepted(
            l,
            current,
            proposals.last(),
            threshold_4,
            threshold_8,
        ) {
            1int
        } else {
            0int
        })
    }
}

/// Proposal `k` is on the lattice, and it carries a drawn word exactly when
/// its move is uphill on the configuration it was made on.
pub open spec fn proposal_valid(
    l: int,
    s: Seq<i8>,
    proposals: Seq<Proposal>,
    threshold_4: u64,
    threshold_8: u64,
    k: int,
) -> bool {
    let current = after_proposals(l, s, proposals.take(k), threshold_4, threshold_8);
    &&& proposals[k].site < l * l
    &&& (proposals[k].word is Some <==> flip_cost(l, current, proposals[k].site as int) > 0)
}

/// One bond test of a Wolff update: the bond from cluster member `member` to
/// its aligned neighbour `candidate`, which was not yet a member, was tested
/// with the random word `word`. The bond forms when `word` is below the bond
/// threshold.
#[derive(Clone, Copy, Debug, PartialEq, Eq)]
pub struct BondTest {
    pub member: usize,
    pub candidate: usize,
    pub word: u64,
}

/// The result of a Wolff update: the reversed cluster, in joining order, and
/// every bond test that was made, in order.
#[derive(Clone, Debug)]
pub struct WolffOutcome {
    pub cluster: Vec<usize>,
    pub bond_tests: Vec<BondTest>,
}

/// The candidates whose bond test succeeded, in test order.
pub open spec fn bonded(tests: Seq<BondTest>, bond_threshold: u64) -> Seq<usize>
    decreases tests.len(),
{
    if tests.len() == 0 {
        Seq::empty()
    } else {
        let earlier = bonded(tests.drop_last(), bond_threshold);
        if tests.last().word < bond_threshold {
            earlier.push(tests.last().candidate)
        } else {
            earlier
        }
    }
}

/// The cluster that a sequence of bond tests builds: the seed, then each
/// candidate whose bond formed, in order.
pub open spec fn cluster_from_tests(seed: int, tests: Seq<BondTest>, bond_threshold: u64) -> Seq<
    usize,
> {
    seq![seed as usize] + bonded(tests, bond_threshold)
}

/// Test `k` is a legitimate bond test: from a site already in the cluster to
/// one of its nearest neighbours that is aligned with the seed and not yet in
/// the cluster.
pub open spec fn bond_test_valid(
    l: int,
    s: Seq<i8>,
    seed: int,
    tests: Seq<BondTest>,
    bond_threshold: u64,
    k: int,
) -> bool {
    let t = tests[k];
    let before = cluster_from_tests(seed, tests.take(k), bond_threshold);
    &&& adjacent(l, t.member as int, t.candidate as int)
    &&& before.contains(t.member)
    &&& t.candidate < s.len()
    &&& s[t.candidate as int] == s[seed]
    &&& !before.contains(t.candidate)
}

/// The bond from `m` to `x` has been tested.
pub open spec fn was_tested(tests: Seq<BondTest>, m: usize, x: usize) -> bool {
    exists|k: int| 0 <= k < tests.len() && #[trigger] tests[k] == BondTest { member: m, candidate: x, word: tests[k].word }
}

/// The bond from member `m` to site `x` is settled: `x` is not aligned with
/// the seed, or it is in the cluster, or the bond has been tested.
pub open spec fn bond_settled(
    s: Seq<i8>,
    seed: int,
    members: Seq<usize>,
    tests: Seq<BondTest>,
    m: usize,
    x: int,
) -> bool {
    s[x] == s[seed] ==> members.contains(x as usize) || was_tested(tests, m, x as usize)
}

/// All four bonds of member `m` are settled.
pub open spec fn neighbours_settled(
    l: int,
    s: Seq<i8>,
    seed: int,
    members: Seq<usize>,
    tests: Seq<BondTest>,
    m: usize,
) -> bool {
    &&& bond_settled(s, seed, members, tests, m, below(l, m as int))
    &&& bond_settled(s, seed, members, tests, m, above(l, m as int))
    &&& bond_settled(s, seed, members, tests, m, right_of(l, m as int))
    &&& bond_settled(s, seed, members, tests, m, left_of(l, m as int))
}

/// `b` extends `a`: it starts with all of `a`.
pub open spec fn extends<A>(b: Seq<A>, a: Seq<A>) -> bool {
    &&& b.len() >= a.len()
    &&& forall|i: int| 0 <= i < a.len() ==> #[trigger] b[i] == a[i]
}

/// Growing the cluster and the test record keeps settled bonds settled.
proof fn lemma_bond_settled_grows(
    s: Seq<i8>,
    seed: int,
    m1: Seq<usize>,
    t1: Seq<BondTest>,
    m2: Seq<usize>,
    t2: Seq<BondTest>,
    m: usize,
    x: int,
)
    requires
        bond_settled(s, seed, m1, t1, m, x),
        extends(m2, m1),
        extends(t2, t1),
    ensures
        bond_settled(s, seed, m2, t2, m, x),
{
    if s[x] == s[seed] {
        if m1.contains(x as usize) {
            let i = choose|i: int| 0 <= i < m1.len() && m1[i] == x as usize;
            assert(m2[i] == m1[i]);
        } else {
            let k = choose|k: int|
                0 <= k < t1.len() && #[trigger] t1[k] == BondTest {
                    member: m,
                    candidate: x as usize,
                    word: t1[k].word,
                };
            assert(t2[k] == t1[k]);
        }
    }
}

/// Growing the cluster and the test record keeps the first `count` members settled.
proof fn lemma_settled_prefix_grows(
    l: int,
    s: Seq<i8>,
    seed: int,
    m1: Seq<usize>,
    t1: Seq<BondTest>,
    m2: Seq<usize>,
    t2: Seq<BondTest>,
    count: int,
)
    requires
        0 <= count <= m1.len(),
        forall|i: int| 0 <= i < count ==> neighbours_settled(l, s, seed, m1, t1, #[trigger] m1[i]),
        extends(m2, m1),
        extends(t2, t1),
    ensures
        forall|i: int| 0 <= i < count ==> neighbours_settled(l, s, seed, m2, t2, #[trigger] m2[i]),
{
    assert forall|i: int| 0 <= i < count implies neighbours_settled(l, s, seed, m2, t2, #[trigger] m2[i]) by {
        let m = m1[i];
        assert(m2[i] == m);
        assert(neighbours_settled(l, s, seed, m1, t1, m));
        lemma_bond_settled_grows(s, seed, m1, t1, m2, t2, m, below(l, m as int));
        lemma_bond_settled_grows(s, seed, m1, t1, m2, t2, m, above(l, m as int));
        lemma_bond_settled_grows(s, seed, m1, t1, m2, t2, m, right_of(l, m as int));
        lemma_bond_settled_grows(s, seed, m1, t1, m2, t2, m, left_of(l, m as int));
    }
}

/// Appending a test extends the bonded candidates by its candidate exactly
/// when its word is below the threshold.
proof fn lemma_cluster_from_tests_push(seed: int, tests: Seq<BondTest>, t: BondTest, bond_threshold: u64)
    ensures
        cluster_from_tests(seed, tests.push(t), bond_threshold) == (if t.word < bond_threshold {
            cluster_from_tests(seed, tests, bond_threshold).push(t.candidate)
        } else {
            cluster_from_tests(seed, tests, bond_threshold)
        }),
{
    assert(tests.push(t).drop_last() =~= tests);
    assert(tests.push(t).last() == t);
    if t.word < bond_threshold {
        assert(cluster_from_tests(seed, tests.push(t), bond_threshold) =~= cluster_from_tests(
            seed,
            tests,
            bond_threshold,
        ).push(t.candidate));
    } else {
        assert(cluster_from_tests(seed, tests.push(t), bond_threshold) =~= cluster_from_tests(
            seed,
            tests,
            bond_threshold,
        ));
    }
}

/// The bookkeeping of a growing cluster: the cluster itself, the membership
/// flags that mirror it, and, with a zero bond threshold, no growth at all.
pub open spec fn growing_cluster(
    l: int,
    s: Seq<i8>,
    seed: int,
    flags: Seq<bool>,
    members: Seq<usize>,
    bond_threshold: u64,
) -> bool {
    &&& is_wolff_cluster(l, s, seed, members)
    &&& flags.len() == s.len()
    &&& forall|x: int| 0 <= x < s.len() ==> (#[trigger] flags[x] <==> members.contains(x as usize))
    &&& members.len() <= s.len()
    &&& bond_threshold == 0 ==> members.len() == 1
}

/// Reversing a set of distinct sites that all hold spin `v` changes the
/// magnetization by `-2 v` per site: a Wolff update changes `M` by
/// `-2 s_seed |cluster|`.
pub proof fn lemma_flip_all_magnetization(s: Seq<i8>, members: Seq<usize>, v: i8)
    requires
        v == 1 || v == -1,
        s.len() <= usize::MAX,
        members.no_duplicates(),
        forall|i: int| 0 <= i < members.len() ==> #[trigger] members[i] < s.len() && s[members[i] as int] == v,
    ensures
        lattice_magnetization(flip_all(s, members)) == lattice_magnetization(s) - 2 * v * members.len(),
    decreases members.len(),
{
    if members.len() == 0 {
        assert(flip_all(s, members) =~= s);
    } else {
        let prefix = members.drop_last();
        let last = members.last();
        assert(prefix.no_duplicates()) by {
            assert forall|i: int, j: int| 0 <= i < prefix.len() && 0 <= j < prefix.len() && i != j implies prefix[i]
                != prefix[j] by {
                assert(members[i] != members[j]);
            }
        }
        assert forall|i: int| 0 <= i < prefix.len() implies #[trigger] prefix[i] < s.len() && s[prefix[i] as int]
            == v by {
            assert(prefix[i] == members[i]);
        }
        lemma_flip_all_magnetization(s, prefix, v);
        let t = flip_all(s, prefix);
        assert(!prefix.contains(last)) by {
            if prefix.contains(last) {
                let k = choose|k: int| 0 <= k < prefix.len() && #[trigger] prefix[k] == last;
                assert(members[k] == members[members.len() - 1]);
            }
        }
        assert(members =~= prefix.push(last));
        assert(members[members.len() - 1] < s.len());
        assert(t[last as int] == v);
        assert forall|x: int| 0 <= x < s.len() implies #[trigger] flip_all(s, members)[x] == flip_at(t, last as int)[x] by {
            if x != last {
                if members.contains(x as usize) {
                    let k = choose|k: int| 0 <= k < members.len() && #[trigger] members[k] == x as usize;
                    assert(k < prefix.len());
                    assert(prefix[k] == x as usize);
                }
                if prefix.contains(x as usize) {
                    let k = choose|k: int| 0 <= k < prefix.len() && #[trigger] prefix[k] == x as usize;
                    assert(members[k] == x as usize);
                }
            } else {
                assert(members[members.len() - 1] == last);
            }
        }
        assert(flip_all(s, members) =~= flip_at(t, last as int));
        lemma_flip_magnetization_change(t, last as int);
    }
}

/// A sequence of distinct sites below `n` has at most `n` entries.
proof fn lemma_distinct_sites_bounded(s: Seq<usize>, n: int)
    requires
        n >= 0,
        s.no_duplicates(),
        forall|i: int| 0 <= i < s.len() ==> #[trigger] s[i] < n,
    ensures
        s.len() <= n,
{
    let m = s.map_values(|x: usize| x as int);
    assert(m.no_duplicates()) by {
        assert forall|i: int, j: int| 0 <= i < m.len() && 0 <= j < m.len() && i != j implies m[i]
            != m[j] by {
            assert(s[i] != s[j]);
        }
    }
    m.unique_seq_to_set();
    vstd::set_lib::lemma_int_range(0, n);
    assert(m.to_set().subset_of(vstd::set_lib::set_int_range(0, n))) by {
        assert forall|x: int| m.to_set().contains(x) implies vstd::set_lib::set_int_range(
            0,
            n,
        ).contains(x) by {
            let i = choose|i: int| 0 <= i < m.len() && m[i] == x;
            assert(s[i] < n);
        }
    }
    vstd::set_lib::lemma_len_subset(m.to_set(), vstd::set_lib::set_int_range(0, n));
}

// ---------------------------------------------------------------------------
// The lattice
// ---------------------------------------------------------------------------

/// An `l x l` periodic Ising lattice.
pub struct Ising {
    l: usize,
    spins: Vec<i8>,
}

/// `a l + b < l l` for coordinates inside the lattice.
proof fn lemma_flat_in_range(l: int, a: int, b: int)
    requires
        0 <= a < l,
        0 <= b < l,
    ensures
        0 <= a * l + b < l * l,
{
    assert(0 <= a * l + b < l * l) by (nonlinear_arith)
        requires
            0 <= a < l,
            0 <= b < l,
    ;
}

impl Ising {
    /// Side length of the lattice.
    pub closed spec fn side(&self) -> int {
        self.l as int
    }

    /// The spins, row-major.
    pub closed spec fn spin_values(&self) -> Seq<i8> {
        self.spins@
    }

    /// The lattice holds `l * l` spins of value `+1` or `-1`, and fits in memory.
    pub open spec fn wf(&self) -> bool {
        &&& valid_spins(self.side(), self.spin_values())
        &&& self.side() * self.side() <= isize::MAX
    }

    /// Creates an `l x l` lattice with every spin up.
    pub fn new(l: usize) -> (model: Self)
        requires
            l * l <= isize::MAX,
        ensures
            model.wf(),
            model.side() == l,
            forall|i: int| 0 <= i < l * l ==> #[trigger] model.spin_values()[i] == 1,
            l >= 1 ==> lattice_magnetization(model.spin_values()) == l * l,
            l >= 1 ==> lattice_energy(l as int, model.spin_values()) == -2 * (l * l),
    {
        let model = Self { l, spins: vec![1; l * l] };
        proof {
            assert forall|i: int| 0 <= i < l * l implies #[trigger] model.spins@[i] == 1 by {
                assert(cloned(1i8, model.spins@[i]));
            }
            if l >= 1 {
                lemma_all_up(l as int, model.spins@);
            }
        }
        model
    }

    /// Side length of the lattice.
    pub fn l(&self) -> (side: usize)
        ensures
            side == self.side(),
    {
        self.l
    }

    /// The spins, row-major.
    pub fn spins(&self) -> (spins: &[i8])
        ensures
            spins@ == self.spin_values(),
    {
        self.spins.as_slice()
    }

    /// Flat index of `(row, col)`, both wrapped onto the periodic lattice.
    pub fn index(&self, row: usize, col: usize) -> (index: usize)
        requires
            self.wf(),
            self.side() >= 1,
        ensures
            index == site_of(self.side(), row as int, col as int),
            index < self.side() * self.side(),
    {
        proof {
            lemma_flat_in_range(self.l as int, (row % self.l) as int, (col % self.l) as int);
        }
        (row % self.l) * self.l + col % self.l
    }

    /// Energy change of reversing the spin at `index`:
    /// `2 s (s_below + s_above + s_right + s_left)`.
    pub fn delta_energy(&self, index: usize) -> (delta: i64)
        requires
            self.wf(),
            index < self.spin_values().len(),
        ensures
            delta == flip_cost(self.side(), self.spin_values(), index as int),
    {
        let l = self.l;
        proof {
            assert(l >= 1 && l <= l * l) by (nonlinear_arith)
                requires
                    index < l * l,
            ;
            lemma_coords(l as int, index as int);
        }
        let row = index / l;
        let col = index % l;
        let i_below = self.index(row + 1, col);
        let i_above = self.index(row + l - 1, col);
        let i_right = self.index(row, col + 1);
        let i_left = self.index(row, col + l - 1);
        let (s_below, s_above, s_right, s_left) = (
            self.spins[i_below],
            self.spins[i_above],
            self.spins[i_right],
            self.spins[i_left],
        );
        let spin = self.spins[index];
        proof {
            assert(spin == 1 || spin == -1);
            assert(s_below == 1 || s_below == -1);
            assert(s_above == 1 || s_above == -1);
            assert(s_right == 1 || s_right == -1);
            assert(s_left == 1 || s_left == -1);
        }
        let neighbours: i8 = s_below + s_above + s_right + s_left;
        assert(-4 <= neighbours <= 4);
        let cost: i64 = if spin == 1 {
            2 * (neighbours as i64)
        } else {
            -2 * (neighbours as i64)
        };
        cost
    }

    /// Reverses the spin at `index`.
    pub fn flip(&mut self, index: usize)
        requires
            old(self).wf(),
            index < old(self).spin_values().len(),
        ensures
            final(self).wf(),
            final(self).side() == old(self).side(),
            final(self).spin_values() == flip_at(old(self).spin_values(), index as int),
    {
        let spin = self.spins[index];
        proof {
            assert(spin == 1 || spin == -1);
            lemma_flip_valid(self.l as int, self.spins@, index as int);
        }
        self.spins.set(index, -spin);
    }

    /// The Metropolis decision for a proposed reversal at `index`: a move that
    /// does not raise the energy is always taken; an uphill move is taken
    /// exactly when `uphill_accepted`, the outcome of the thermal test. Returns
    /// whether the spin was reversed.
    pub fn attempt_flip(&mut self, index: usize, uphill_accepted: bool) -> (flipped: bool)
        requires
            old(self).wf(),
            index < old(self).spin_values().len(),
        ensures
            final(self).wf(),
            final(self).side() == old(self).side(),
            flipped == (flip_cost(old(self).side(), old(self).spin_values(), index as int) <= 0
                || uphill_accepted),
            flipped ==> final(self).spin_values() == flip_at(old(self).spin_values(), index as int),
            !flipped ==> final(self).spin_values() == old(self).spin_values(),
    {
        let delta = self.delta_energy(index);
        if delta <= 0 || uphill_accepted {
            self.flip(index);
            true
        } else {
            false
        }
    }

    /// Picks a site for the next proposed move, uniformly at random.
    pub fn random_site(&self, rng: &mut StdRng) -> (index: usize)
        requires
            self.wf(),
            self.spin_values().len() > 0,
        ensures
            index < self.spin_values().len(),
    {
        uniform_index(rng, self.spins.len())
    }

    /// One Metropolis sweep: `l * l` proposals, each at a uniformly random
    /// site. A move that does not raise the energy is taken; an uphill move
    /// draws a random word and is taken when the word's top 53 bits fall
    /// below the threshold for its cost, `threshold_4` or `threshold_8`
    /// (`threshold / 2^53` is the acceptance probability `exp(-cost / T)`).
    /// Returns the number of accepted moves and the record of proposals.
    pub fn metropolis_sweep(&mut self, rng: &mut StdRng, threshold_4: u64, threshold_8: u64) -> (outcome:
        SweepOutcome)
        requires
            old(self).wf(),
        ensures
            final(self).wf(),
            final(self).side() == old(self).side(),
            outcome.proposals@.len() == old(self).side() * old(self).side(),
            forall|k: int|
                0 <= k < outcome.proposals@.len() ==> #[trigger] proposal_valid(
                    old(self).side(),
                    old(self).spin_values(),
                    outcome.proposals@,
                    threshold_4,
                    threshold_8,
                    k,
                ),
            final(self).spin_values() == after_proposals(
                old(self).side(),
                old(self).spin_values(),
                outcome.proposals@,
                threshold_4,
                threshold_8,
            ),
            outcome.accepted == accepted_count(
                old(self).side(),
                old(self).spin_values(),
                outcome.proposals@,
                threshold_4,
                threshold_8,
            ),
    {
        let ghost s0 = self.spin_values();
        let ghost l0 = self.side();
        let n = self.spins.len();
        let mut accepted: usize = 0;
        let mut proposals: Vec<Proposal> = Vec::new();
        let mut i: usize = 0;
        while i < n
            invariant
                self.wf(),
                self.side() == l0,
                n == l0 * l0,
                0 <= accepted <= i <= n,
                proposals@.len() == i,
                self.spin_values() == after_proposals(l0, s0, proposals@, threshold_4, threshold_8),
                accepted == accepted_count(l0, s0, proposals@, threshold_4, threshold_8),
                forall|k: int|
                    0 <= k < proposals@.len() ==> #[trigger] proposal_valid(
                        l0,
                        s0,
                        proposals@,
                        threshold_4,
                        threshold_8,
                        k,
                    ),
            decreases n - i,
        {
            let ghost before = proposals@;
            let ghost current = self.spin_values();
            let site = self.random_site(rng);
            let delta = self.delta_energy(site);
            let word = if delta > 0 {
                Some(random_word(rng))
            } else {
                None
            };
            let uphill_accepted = match word {
                Some(w) => (w >> 11u64) < (if delta <= 4 {
                    threshold_4
                } else {
                    threshold_8
                }),
                None => false,
            };
            let proposal = Proposal { site, word };
            let flipped = self.attempt_flip(site, uphill_accepted);
            if flipped {
                accepted += 1;
            }
            proposals.push(proposal);
            proof {
                assert(proposals@.drop_last() =~= before);
                assert(proposals@.last() == proposal);
                assert(uphill_accepted == thermal_accepts(delta as int, word, threshold_4, threshold_8));
                assert forall|k: int| 0 <= k < proposals@.len() implies #[trigger] proposal_valid(
                    l0,
                    s0,
                    proposals@,
                    threshold_4,
                    threshold_8,
                    k,
                ) by {
                    if k < before.len() {
                        assert(proposals@.take(k) =~= before.take(k));
                        assert(proposals@[k] == before[k]);
                        assert(proposal_valid(l0, s0, before, threshold_4, threshold_8, k));
                    } else {
                        assert(proposals@.take(k) =~= before);
                        assert(proposals@[k] == proposal);
                    }
                }
            }
            i += 1;
        }
        SweepOutcome { accepted, proposals }
    }

    /// One bond of a growing Wolff cluster, from the member at position
    /// `parent` to its neighbour `candidate`. When the candidate is not yet a
    /// member and is aligned with the seed, the bond is tested: a fresh random
    /// word is drawn and recorded, and the candidate joins exactly when the
    /// word is below `bond_threshold`. Otherwise nothing happens.
    fn join_if_bonded(
        &self,
        rng: &mut StdRng,
        bond_threshold: u64,
        seed: usize,
        flags: &mut Vec<bool>,
        members: &mut Vec<usize>,
        tests: &mut Vec<BondTest>,
        parent: usize,
        candidate: usize,
    )
        requires
            self.wf(),
            seed < self.spin_values().len(),
            candidate < self.spin_values().len(),
            parent < old(members)@.len(),
            adjacent(self.side(), old(members)@[parent as int] as int, candidate as int),
            growing_cluster(
                self.side(),
                self.spin_values(),
                seed as int,
                old(flags)@,
                old(members)@,
                bond_threshold,
            ),
            old(members)@ == cluster_from_tests(seed as int, old(tests)@, bond_threshold),
            forall|k: int|
                0 <= k < old(tests)@.len() ==> #[trigger] bond_test_valid(
                    self.side(),
                    self.spin_values(),
                    seed as int,
                    old(tests)@,
                    bond_threshold,
                    k,
                ),
        ensures
            growing_cluster(
                self.side(),
                self.spin_values(),
                seed as int,
                final(flags)@,
                final(members)@,
                bond_threshold,
            ),
            final(members)@ == cluster_from_tests(seed as int, final(tests)@, bond_threshold),
            forall|k: int|
                0 <= k < final(tests)@.len() ==> #[trigger] bond_test_valid(
                    self.side(),
                    self.spin_values(),
                    seed as int,
                    final(tests)@,
                    bond_threshold,
                    k,
                ),
            extends(final(members)@, old(members)@),
            extends(final(tests)@, old(tests)@),
            !old(flags)@[candidate as int] && self.spin_values()[candidate as int]
                == self.spin_values()[seed as int] ==> final(tests)@ == old(tests)@.push(
                BondTest {
                    member: old(members)@[parent as int],
                    candidate,
                    word: final(tests)@.last().word,
                },
            ),
            !(!old(flags)@[candidate as int] && self.spin_values()[candidate as int]
                == self.spin_values()[seed as int]) ==> final(tests)@ == old(tests)@
                && final(members)@ == old(members)@,
            bond_settled(
                self.spin_values(),
                seed as int,
                final(members)@,
                final(tests)@,
                old(members)@[parent as int],
                candidate as int,
            ),
    {
        let ghost s = self.spin_values();
        let ghost l = self.side();
        let ghost before = members@;
        let ghost before_tests = tests@;
        if !flags[candidate] && self.spins[candidate] == self.spins[seed] {
            let word = random_word(rng);
            let member = members[parent];
            let test = BondTest { member, candidate, word };
            tests.push(test);
            proof {
                lemma_cluster_from_tests_push(seed as int, before_tests, test, bond_threshold);
                assert(!before.contains(candidate));
                assert(before.contains(member)) by {
                    assert(before[parent as int] == member);
                }
                assert forall|k: int| 0 <= k < tests@.len() implies #[trigger] bond_test_valid(
                    l,
                    s,
                    seed as int,
                    tests@,
                    bond_threshold,
                    k,
                ) by {
                    if k < before_tests.len() {
                        assert(tests@.take(k) =~= before_tests.take(k));
                        assert(tests@[k] == before_tests[k]);
                        assert(bond_test_valid(l, s, seed as int, before_tests, bond_threshold, k));
                    } else {
                        assert(tests@.take(k) =~= before_tests);
                        assert(tests@[k] == test);
                    }
                }
                assert(tests@[before_tests.len() as int] == test);
                assert(was_tested(tests@, member, candidate));
            }
            if word < bond_threshold {
                flags.set(candidate, true);
                members.push(candidate);
                proof {
                    let after = members@;
                    assert(!before.contains(candidate));
                    assert(after.no_duplicates()) by {
                        assert forall|i: int, j: int|
                            0 <= i < after.len() && 0 <= j < after.len() && i != j implies after[i]
                            != after[j] by {
                            if i < before.len() && j < before.len() {
                                assert(before[i] != before[j]);
                            } else if i < before.len() {
                                assert(before.contains(before[i]));
                            } else {
                                assert(before.contains(before[j]));
                            }
                        }
                    }
                    assert forall|i: int| 0 < i < after.len() implies exists|j: int|
                        #![trigger after[j]]
                        0 <= j < i && adjacent(l, after[j] as int, #[trigger] after[i] as int) by {
                        if i < before.len() {
                            let j = choose|j: int|
                                #![trigger before[j]]
                                0 <= j < i && adjacent(l, before[j] as int, before[i] as int);
                            assert(after[j] == before[j]);
                        } else {
                            assert(after[parent as int] == before[parent as int]);
                        }
                    }
                    assert forall|i: int| 0 <= i < after.len() implies #[trigger] after[i] < l * l
                        && s[after[i] as int] == s[seed as int] by {
                        if i < before.len() {
                            assert(after[i] == before[i]);
                        }
                    }
                    assert forall|x: int| 0 <= x < s.len() implies (#[trigger] flags@[x]
                        <==> after.contains(x as usize)) by {
                        if x == candidate {
                            assert(after[before.len() as int] == candidate);
                        } else {
                            if before.contains(x as usize) {
                                let k = choose|k: int| 0 <= k < before.len() && before[k] == x as usize;
                                assert(after[k] == before[k]);
                            }
                            if after.contains(x as usize) {
                                let k = choose|k: int| 0 <= k < after.len() && after[k] == x as usize;
                                assert(k < before.len());
                                assert(before[k] == after[k]);
                            }
                        }
                    }
                    lemma_distinct_sites_bounded(after, s.len() as int);
                    assert(after[0] == before[0]);
                    assert(after =~= before.push(candidate));
                }
            }
            proof {
                assert(tests@.last() == test);
                assert(tests@ =~= before_tests.push(test));
            }
        } else {
            proof {
                if s[candidate as int] == s[seed as int] {
                    assert(flags@[candidate as int]);
                }
            }
        }
    }

    /// One Wolff cluster update from `seed`. The cluster grows from the seed
    /// in breadth-first order: for each member in turn, the bonds to its
    /// lower, upper, right and left neighbours are tested when the neighbour
    /// is aligned with the seed and not yet a member. Each test draws a
    /// random word and the bond forms when the word falls below
    /// `bond_threshold` (so `bond_threshold / 2^64` is the bond probability
    /// `1 - exp(-2 / T)`). Every member is then reversed. Returns the members
    /// in the order they joined and the record of all bond tests.
    pub fn wolff_update(&mut self, seed: usize, rng: &mut StdRng, bond_threshold: u64) -> (outcome:
        WolffOutcome)
        requires
            old(self).wf(),
            seed < old(self).spin_values().len(),
        ensures
            final(self).wf(),
            final(self).side() == old(self).side(),
            is_wolff_cluster(
                old(self).side(),
                old(self).spin_values(),
                seed as int,
                outcome.cluster@,
            ),
            final(self).spin_values() == flip_all(old(self).spin_values(), outcome.cluster@),
            outcome.cluster@ == cluster_from_tests(seed as int, outcome.bond_tests@, bond_threshold),
            forall|k: int|
                0 <= k < outcome.bond_tests@.len() ==> #[trigger] bond_test_valid(
                    old(self).side(),
                    old(self).spin_values(),
                    seed as int,
                    outcome.bond_tests@,
                    bond_threshold,
                    k,
                ),
            forall|i: int|
                0 <= i < outcome.cluster@.len() ==> neighbours_settled(
                    old(self).side(),
                    old(self).spin_values(),
                    seed as int,
                    outcome.cluster@,
                    outcome.bond_tests@,
                    #[trigger] outcome.cluster@[i],
                ),
            bond_threshold == 0 ==> outcome.cluster@.len() == 1,
    {
        let ghost s0 = self.spin_values();
        let ghost l0 = self.side();
        let n = self.spins.len();
        let l = self.l;
        proof {
            assert(l >= 1 && l <= l * l) by (nonlinear_arith)
                requires
                    seed < l * l,
            ;
        }
        let mut flags: Vec<bool> = vec![false; n];
        proof {
            assert forall|x: int| 0 <= x < n implies flags@[x] == false by {
                assert(cloned(false, flags@[x]));
            }
        }
        flags.set(seed, true);
        let mut members: Vec<usize> = Vec::new();
        members.push(seed);
        let mut tests: Vec<BondTest> = Vec::new();
        proof {
            assert forall|x: int| 0 <= x < n implies (#[trigger] flags@[x] <==> members@.contains(
                x as usize,
            )) by {
                if x == seed {
                    assert(members@[0] == seed);
                }
            }
            assert(members@.len() <= n) by {
                assert(seed < n);
            }
            assert(members@ =~= cluster_from_tests(seed as int, tests@, bond_threshold));
        }
        let mut next: usize = 0;
        while next < members.len()
            invariant
                self.wf(),
                self.spin_values() == s0,
                self.side() == l0,
                l0 == l,
                n == s0.len(),
                l >= 1,
                l <= l * l,
                seed < n,
                0 <= next <= members@.len(),
                growing_cluster(l0, s0, seed as int, flags@, members@, bond_threshold),
                members@ == cluster_from_tests(seed as int, tests@, bond_threshold),
                forall|k: int|
                    0 <= k < tests@.len() ==> #[trigger] bond_test_valid(
                        l0,
                        s0,
                        seed as int,
                        tests@,
                        bond_threshold,
                        k,
                    ),
                forall|i: int|
                    0 <= i < next ==> neighbours_settled(
                        l0,
                        s0,
                        seed as int,
                        members@,
                        tests@,
                        #[trigger] members@[i],
                    ),
            decreases 2 * n - next - members@.len(),
        {
            let site = members[next];
            proof {
                lemma_coords(l as int, site as int);
            }
            let row = site / l;
            let col = site % l;
            let i_below = self.index(row + 1, col);
            let i_above = self.index(row + l - 1, col);
            let i_right = self.index(row, col + 1);
            let i_left = self.index(row, col + l - 1);
            let ghost m0 = members@;
            let ghost t0 = tests@;
            self.join_if_bonded(
                rng,
                bond_threshold,
                seed,
                &mut flags,
                &mut members,
                &mut tests,
                next,
                i_below,
            );
            let ghost m1 = members@;
            let ghost t1 = tests@;
            assert(members@[next as int] == site);
            self.join_if_bonded(
                rng,
                bond_threshold,
                seed,
                &mut flags,
                &mut members,
                &mut tests,
                next,
                i_above,
            );
            let ghost m2 = members@;
            let ghost t2 = tests@;
            assert(members@[next as int] == site);
            self.join_if_bonded(
                rng,
                bond_threshold,
                seed,
                &mut flags,
                &mut members,
                &mut tests,
                next,
                i_right,
            );
            let ghost m3 = members@;
            let ghost t3 = tests@;
            assert(members@[next as int] == site);
            self.join_if_bonded(
                rng,
                bond_threshold,
                seed,
                &mut flags,
                &mut members,
                &mut tests,
                next,
                i_left,
            );
            proof {
                let m4 = members@;
                let t4 = tests@;
                assert(m4[next as int] == site);
                // the bonds of the earlier members stay settled
                lemma_settled_prefix_grows(l0, s0, seed as int, m0, t0, m4, t4, next as int);
                // the four bonds of this member are settled now
                lemma_bond_settled_grows(s0, seed as int, m1, t1, m4, t4, site, i_below as int);
                lemma_bond_settled_grows(s0, seed as int, m2, t2, m4, t4, site, i_above as int);
                lemma_bond_settled_grows(s0, seed as int, m3, t3, m4, t4, site, i_right as int);
                assert(neighbours_settled(l0, s0, seed as int, m4, t4, site));
                assert forall|i: int| 0 <= i < next + 1 implies neighbours_settled(
                    l0,
                    s0,
                    seed as int,
                    m4,
                    t4,
                    #[trigger] m4[i],
                ) by {
                    if i == next {
                        assert(m4[i] == site);
                    }
                }
            }
            next += 1;
        }
        let mut i: usize = 0;
        while i < members.len()
            invariant
                self.wf(),
                self.side() == l0,
                0 <= i <= members@.len(),
                is_wolff_cluster(l0, s0, seed as int, members@),
                s0.len() == l0 * l0,
                self.spin_values() == flip_all(s0, members@.take(i as int)),
            decreases members@.len() - i,
        {
            let site = members[i];
            let ghost prev = self.spin_values();
            proof {
                let t0 = members@.take(i as int);
                assert(!t0.contains(site)) by {
                    if t0.contains(site) {
                        let k = choose|k: int| 0 <= k < t0.len() && #[trigger] t0[k] == site;
                        assert(members@[k] == members@[i as int]);
                    }
                }
            }
            self.flip(site);
            proof {
                let t0 = members@.take(i as int);
                let t1 = members@.take(i + 1);
                let next_flips = flip_all(s0, t1);
                assert(t1 =~= t0.push(site));
                assert forall|x: int| 0 <= x < s0.len() implies self.spin_values()[x] == next_flips[x] by {
                    if x == site {
                        assert(t1[i as int] == site);
                        assert(t1.contains(site));
                    } else {
                        if t1.contains(x as usize) {
                            let k = choose|k: int| 0 <= k < t1.len() && #[trigger] t1[k] == x as usize;
                            assert(k < i);
                            assert(t0[k] == x as usize);
                            assert(t0.contains(x as usize));
                        }
                        if t0.contains(x as usize) {
                            let k = choose|k: int| 0 <= k < t0.len() && #[trigger] t0[k] == x as usize;
                            assert(t1[k] == x as usize);
                            assert(t1.contains(x as usize));
                        }
                    }
                }
                assert(self.spin_values() =~= next_flips);
            }
            i += 1;
        }
        proof {
            assert(members@.take(members@.len() as int) =~= members@);
        }
        WolffOutcome { cluster: members, bond_tests: tests }
    }

    /// Total magnetization `M = sum of all spins`.
    pub fn magnetization_sum(&self) -> (total: i64)
        requires
            self.wf(),
        ensures
            total == lattice_magnetization(self.spin_values()),
    {
        let n = self.spins.len();
        let mut total: i64 = 0;
        let mut p: usize = 0;
        while p < n
            invariant
                self.wf(),
                n == self.spin_values().len(),
                0 <= p <= n,
                total == sum_over(spin_terms(self.spin_values()), p as int),
                -(p as int) <= total <= p,
            decreases n - p,
        {
            let spin = self.spins[p];
            proof {
                let terms = spin_terms(self.spin_values());
                assert(spin == 1 || spin == -1);
                assert(terms(p as int) == spin);
                assert(sum_over(terms, p + 1) == sum_over(terms, p as int) + terms(p as int));
            }
            total = total + spin as i64;
            p += 1;
        }
        total
    }

    /// Total energy `E = -sum_p s_p (s_below(p) + s_right(p))`.
    pub fn energy_sum(&self) -> (total: i128)
        requires
            self.wf(),
        ensures
            total == lattice_energy(self.side(), self.spin_values()),
    {
        let n = self.spins.len();
        let mut total: i128 = 0;
        let mut p: usize = 0;
        while p < n
            invariant
                self.wf(),
                n == self.spin_values().len(),
                0 <= p <= n,
                total == -sum_over(bond_terms(self.side(), self.spin_values()), p as int),
                -2 * (p as int) <= total <= 2 * p,
            decreases n - p,
        {
            let l = self.l;
            proof {
                assert(l >= 1) by (nonlinear_arith)
                    requires
                        p < l * l,
                ;
                lemma_coords(l as int, p as int);
            }
            let row = p / l;
            let col = p % l;
            let i_below = self.index(row + 1, col);
            let i_right = self.index(row, col + 1);
            let s_below = self.spins[i_below];
            let s_right = self.spins[i_right];
            let spin = self.spins[p];
            let ghost terms = bond_terms(self.side(), self.spin_values());
            let ghost before = total as int;
            proof {
                assert(i_below == below(l as int, p as int));
                assert(i_right == right_of(l as int, p as int));
                assert(spin == 1 || spin == -1);
                assert(s_below == 1 || s_below == -1);
                assert(s_right == 1 || s_right == -1);
                assert(terms(p as int) == spin * (s_below + s_right));
                assert(sum_over(terms, p + 1) == sum_over(terms, p as int) + terms(p as int));
            }
            let pair: i8 = s_below + s_right;
            if spin == 1 {
                total = total - pair as i128;
            } else {
                total = total + pair as i128;
            }
            proof {
                assert(total == before - spin * (s_below + s_right));
            }
            p += 1;
        }
        total
    }
}

} // verus!
