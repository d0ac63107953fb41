//! N-body gravitational simulation: the integer and text logic around the
//! physics, with its contracts.
//!
//! Units throughout the simulation: length in AU, time in years, mass in
//! solar masses. The floating-point physics itself lives in the program that
//! drives this library; here stand the integrator choice, the command-line
//! scanner, the input checks and the step schedule of a run.
pub mod cli;
pub mod integrator;
pub mod io;
pub mod schedule;
