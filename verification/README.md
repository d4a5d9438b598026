# physim

A small computational-physics toolkit: a two-dimensional Lennard-Jones fluid
and dimer experiment, a Metropolis sampler for the two-dimensional Ising model,
one-dimensional advection-diffusion integrators, and a pseudospectral solver for
two-dimensional incompressible flow in vorticity form.

## Layout

- `src/` is the verified library (Verus). It holds the integer and structural
  core of the programs, each function with a contract:
  - `ising`: the periodic Ising lattice, its exact energy and magnetization
    totals, the Metropolis sweep and decision, the Wolff cluster update, the update
    rules and the spin-frame schedule, and the proof that the local flip cost
    is the true energy change of a flip;
  - `grid` and `vorticity`: periodic grids, FFT-ordered wavenumbers, row-major
    flattening, the two-thirds dealiasing mask, and the interleaved layout of a
    spectrum as a state vector;
  - `integrators`: the integrator schemes, their names and command-line names;
  - `fluid`: the triangular-lattice shape, the run-cadence check and the
    sampling schedule;
  - `dimer`: the integrator markers of the two-atom experiment;
  - `text`: exact string comparison.
- `app/` is ordinary Rust around the library: the command-line programs, file
  and console I/O, plots and video, and all floating-point numerics (forces,
  energies, FFTs, time stepping), which Verus does not verify.
- `tests/` exercises the library on concrete values.
