# physsim

A verified core for three small physics-simulation programs, written in Verus:

* `md` — a two-dimensional Lennard-Jones fluid (command line, force-method
  switch, supported start lattices, checker verdicts, the RGB canvas and PPM
  pictures of `md video` and its size rule);
* `ising` — a two-dimensional Ising sampler (lattice and energy bookkeeping,
  Metropolis sweeps, Wolff cluster flips, the temperature ramp, command line);
* `field` / `fluid` — periodic 2D incompressible flow (grid index arithmetic,
  FFT wavenumber order, the SplitMix64 stream and mode enumeration of the
  random field, command-line flags, snapshot cadence).

Layout:

* `src/` — the library, every function verified by Verus against its
  contract; random draws go through the `rand` crate behind small trusted
  wrappers in `src/rng.rs`.
* `tests/` — tests of the library on concrete values.
* `app/` — the programs around the library: argument handling, file and
  terminal I/O, JSON, and the floating-point physics (potentials,
  integrators, FFTs, observables, the plots of `md video` and its ffmpeg
  call), which the library does not hold. Run as
  `physsim <md|dimer|field-grid|ising|field|fluid> [arguments...]`.
