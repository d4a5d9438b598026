//! Verified integer core of a small computational-physics toolkit: lattice and
//! grid indexing, spectral wavenumbers and the two-thirds dealiasing rule, the
//! Ising model's spin bookkeeping and its Metropolis and Wolff updates, and the
//! time-integration scheme registry.
use vstd::prelude::*;

pub mod dimer;
pub mod fluid;
pub mod grid;
pub mod integrators;
pub mod ising;
pub mod text;
pub mod vorticity;

verus! {

/// Returns the program's greeting.
pub fn greeting() -> (text: &'static str)
    ensures
        text@ == "Hello, world!"@,
{
    "Hello, world!"
}

/// Labels the outcome of a check: `PASS` when it held, `FAIL` otherwise.
pub fn pass(value: bool) -> (label: &'static str)
    ensures
        value ==> label@ == "PASS"@,
        !value ==> label@ == "FAIL"@,
{
    if value {
        "PASS"
    } else {
        "FAIL"
    }
}

} // verus!
