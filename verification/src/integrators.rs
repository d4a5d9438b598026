//! The one-step time integrators and the registry that selects among them.
//!
//! The stepping arithmetic itself works on floating-point state vectors and
//! lives with the numerical code; this module holds the integrators as values,
//! their names, and the mapping between command-line method names and schemes.
use crate::text::str_equal;
use vstd::prelude::*;

verus! {

/// Forward (explicit) Euler: `u + dt f(u)`.
#[derive(Clone, Copy, Debug, Default)]
pub struct ForwardEuler;

/// Explicit midpoint: a half Euler step to predict, then a full step with the
/// predicted slope.
#[derive(Clone, Copy, Debug, Default)]
pub struct Midpoint;

/// Classical fourth-order Runge-Kutta.
#[derive(Clone, Copy, Debug, Default)]
pub struct RungeKutta4;

impl ForwardEuler {
    /// The scheme's report name.
    pub fn name(&self) -> (name: &'static str)
        ensures
            name@ == scheme_name(Scheme::ForwardEuler),
    {
        "forward-euler"
    }
}

impl Midpoint {
    /// The scheme's report name.
    pub fn name(&self) -> (name: &'static str)
        ensures
            name@ == scheme_name(Scheme::Midpoint),
    {
        "explicit-midpoint"
    }
}

impl RungeKutta4 {
    /// The scheme's report name.
    pub fn name(&self) -> (name: &'static str)
        ensures
            name@ == scheme_name(Scheme::RungeKutta4),
    {
        "classical-rk4"
    }
}

/// One of the three integrators, chosen at run time.
#[derive(Clone, Copy, Debug, PartialEq, Eq, Structural)]
pub enum Scheme {
    ForwardEuler,
    Midpoint,
    RungeKutta4,
}

/// Report name of each scheme.
pub open spec fn scheme_name(scheme: Scheme) -> Seq<char> {
    match scheme {
        Scheme::ForwardEuler => "forward-euler"@,
        Scheme::Midpoint => "explicit-midpoint"@,
        Scheme::RungeKutta4 => "classical-rk4"@,
    }
}

/// Command-line name of each scheme.
pub open spec fn scheme_cli_name(scheme: Scheme) -> Seq<char> {
    match scheme {
        Scheme::ForwardEuler => "euler"@,
        Scheme::Midpoint => "rk2"@,
        Scheme::RungeKutta4 => "rk4"@,
    }
}

/// The scheme a command-line method name selects, if any.
pub open spec fn scheme_from_cli(text: Seq<char>) -> Option<Scheme> {
    if text == "euler"@ {
        Some(Scheme::ForwardEuler)
    } else if text == "rk2"@ {
        Some(Scheme::Midpoint)
    } else if text == "rk4"@ {
        Some(Scheme::RungeKutta4)
    } else {
        None
    }
}

impl Scheme {
    /// The three schemes, in order of increasing accuracy.
    pub fn all() -> (schemes: [Scheme; 3])
        ensures
            schemes@ == seq![Scheme::ForwardEuler, Scheme::Midpoint, Scheme::RungeKutta4],
    {
        [Scheme::ForwardEuler, Scheme::Midpoint, Scheme::RungeKutta4]
    }

    /// The report name of the integrator this scheme selects.
    pub fn name(&self) -> (name: &'static str)
        ensures
            name@ == scheme_name(*self),
    {
        match self {
            Scheme::ForwardEuler => ForwardEuler.name(),
            Scheme::Midpoint => Midpoint.name(),
            Scheme::RungeKutta4 => RungeKutta4.name(),
        }
    }

    /// The command-line method name: `euler`, `rk2` or `rk4`.
    pub fn cli_name(&self) -> (name: &'static str)
        ensures
            name@ == scheme_cli_name(*self),
    {
        match self {
            Scheme::ForwardEuler => "euler",
            Scheme::Midpoint => "rk2",
            Scheme::RungeKutta4 => "rk4",
        }
    }

    /// The scheme named by a command-line method name, or `None` for any
    /// other text.
    pub fn parse_cli(text: &str) -> (scheme: Option<Scheme>)
        ensures
            scheme == scheme_from_cli(text@),
    {
        if str_equal(text, "euler") {
            Some(Scheme::ForwardEuler)
        } else if str_equal(text, "rk2") {
            Some(Scheme::Midpoint)
        } else if str_equal(text, "rk4") {
            Some(Scheme::RungeKutta4)
        } else {
            None
        }
    }
}

/// Each scheme's command-line name selects that scheme again.
pub proof fn lemma_cli_round_trip(scheme: Scheme)
    ensures
        scheme_from_cli(scheme_cli_name(scheme)) == Some(scheme),
{
    reveal_strlit("euler");
    reveal_strlit("rk2");
    reveal_strlit("rk4");
    assert("rk2"@.len() != "euler"@.len());
    assert("rk4"@.len() != "euler"@.len());
    assert("rk4"@[2] != "rk2"@[2]);
}

/// The three schemes carry three different report names.
pub proof fn lemma_names_distinct(a: Scheme, b: Scheme)
    requires
        a != b,
    ensures
        scheme_name(a) != scheme_name(b),
{
    reveal_strlit("forward-euler");
    reveal_strlit("explicit-midpoint");
    reveal_strlit("classical-rk4");
    assert(scheme_name(Scheme::ForwardEuler)[0] != scheme_name(Scheme::Midpoint)[0]);
    assert(scheme_name(Scheme::ForwardEuler)[0] != scheme_name(Scheme::RungeKutta4)[0]);
    assert(scheme_name(Scheme::Midpoint)[0] != scheme_name(Scheme::RungeKutta4)[0]);
}

/// `all` lists every scheme exactly once.
pub proof fn lemma_all_lists_each_once(scheme: Scheme)
    ensures
        seq![Scheme::ForwardEuler, Scheme::Midpoint, Scheme::RungeKutta4].contains(scheme),
        forall|i: int, j: int|
            0 <= i < j < 3 ==> seq![Scheme::ForwardEuler, Scheme::Midpoint, Scheme::RungeKutta4][i]
                != seq![Scheme::ForwardEuler, Scheme::Midpoint, Scheme::RungeKutta4][j],
{
    let all = seq![Scheme::ForwardEuler, Scheme::Midpoint, Scheme::RungeKutta4];
    match scheme {
        Scheme::ForwardEuler => assert(all[0] == scheme),
        Scheme::Midpoint => assert(all[1] == scheme),
        Scheme::RungeKutta4 => assert(all[2] == scheme),
    }
}

} // verus!
