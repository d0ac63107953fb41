use nbody_sim::io::{check_body_count, energy_file_name, LoadError, MIN_BODIES};

#[test]
fn at_least_two_bodies_are_needed() {
    assert_eq!(check_body_count(0), Err(LoadError::TooFewBodies));
    assert_eq!(check_body_count(1), Err(LoadError::TooFewBodies));
    assert_eq!(check_body_count(2), Ok(()));
    assert_eq!(check_body_count(500), Ok(()));
    assert_eq!(MIN_BODIES, 2);
}

#[test]
fn too_few_bodies_message() {
    assert_eq!(LoadError::TooFewBodies.message(), "need at least two bodies");
}

#[test]
fn energy_file_goes_beside_the_trajectories() {
    assert_eq!(energy_file_name("sim"), "sim_energy.csv");
    assert_eq!(energy_file_name(""), "_energy.csv");
    assert_eq!(energy_file_name("run.v2"), "run.v2_energy.csv");
}
