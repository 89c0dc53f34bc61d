# md_ising

A small toolkit for two course simulations, with its integer logic verified
by Verus:

- a periodic two-dimensional Lennard-Jones fluid (molecular dynamics with a
  cell list, a thermostat schedule, saved trajectories and rendered videos);
- the two-dimensional Ising model sampled along a temperature ramp with
  random-site Metropolis sweeps or Wolff cluster flips.

## Layout

- `src/` is the verified library.
  - `md/fluid.rs`: force-method names, wrapped 3x3 neighbour cells, binning
    particles into cells and the exact cell-list pair enumeration.
  - `md/render.rs`: the RGBA canvas (fill, pixels, discs, interpolated lines).
  - `md/system.rs`, `md/simulate.rs`, `md/layout.rs`: lattice side, thermostat
    schedule, run-schedule validation and the structural check of saved runs.
  - `ising/lattice.rs`: the periodic spin lattice, its energy, energy changes
    and magnetization, with the laws relating them.
  - `ising/metropolis.rs`, `ising/wolff.rs`: the bookkeeping of a Metropolis
    sweep and the depth-first growth of a Wolff cluster, driven by decisions
    made outside.
  - `ising/ramp.rs`: update names, argument validation, frame recording and
    the spin text of saved frames.
  - `grid.rs`, `sums.rs`, `text.rs`: shared lemmas and string comparison.
- `tests/` exercises the library on concrete values.
- `app/` holds what Verus does not check: the floating-point physics,
  random number generation, file I/O, command lines and ffmpeg.
