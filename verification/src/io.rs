//! Checks on the loaded initial conditions and the names of the output files.
use vstd::prelude::*;

verus! {

/// Why loaded initial conditions are refused.
#[derive(Debug, Clone, Copy, PartialEq, Eq, Structural)]
pub enum LoadError {
    /// The file holds fewer than two bodies.
    TooFewBodies,
}

impl LoadError {
    /// The message shown for this error.
    pub fn message(&self) -> (r: &'static str)
        ensures
            r@ == "need at least two bodies"@,
    {
        match self {
            LoadError::TooFewBodies => "need at least two bodies",
        }
    }
}

/// The least number of bodies a simulation accepts.
pub const MIN_BODIES: usize = 2;

/// Accepts a list of `count` bodies read from an initial-conditions file:
/// a simulation needs at least two.
pub fn check_body_count(count: usize) -> (r: Result<(), LoadError>)
    ensures
        r is Ok <==> count >= MIN_BODIES,
        r matches Err(e) ==> e == LoadError::TooFewBodies,
{
    if count < MIN_BODIES {
        Err(LoadError::TooFewBodies)
    } else {
        Ok(())
    }
}

/// The file name of the energy CSV that goes beside a trajectory CSV whose
/// file stem is `stem`: `<stem>_energy.csv`.
pub fn energy_file_name(stem: &str) -> (r: String)
    ensures
        r@ == stem@ + "_energy.csv"@,
{
    let mut name = String::from_str(stem);
    name.append("_energy.csv");
    name
}

} // verus!
