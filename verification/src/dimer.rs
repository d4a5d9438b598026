//! The integrators of the two-atom Lennard-Jones experiment. They are plain
//! markers that select a stepping rule; the rules act on floating-point
//! positions and velocities and live with the numerical code.
use vstd::prelude::*;

verus! {

/// Forward Euler for the dimer: positions with the old velocities, then
/// velocities with the old accelerations.
#[derive(Clone, Copy, Debug, Default)]
pub struct ForwardEuler;

/// Velocity Verlet for the dimer: a full position step with the old
/// acceleration, then a velocity step with the mean of old and new.
#[derive(Clone, Copy, Debug, Default)]
pub struct VelocityVerlet;

} // verus!
