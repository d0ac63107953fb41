# nbody_sim

An N-body gravitational simulation (units: AU, years, solar masses) split in two:

- `src/` — the verified library (Verus): the choice of integrator and its
  case-insensitive name parsing (`integrator`), the command-line scanner and the
  decimal count parser (`cli`), the check on the number of bodies and the name of
  the energy CSV (`io`), and the step schedule of a run, with the laws on how many
  snapshots and steps a run makes (`schedule`).
- `app/` — the program: the floating-point physics (softened gravity with rayon,
  RK4 and Euler steps, conserved quantities), JSON input, CSV output and SVG plots.
  Verus cannot hold floating point, so that code is ordinary Rust, driven by the
  library's decisions.
- `tests/` — tests of the library.
