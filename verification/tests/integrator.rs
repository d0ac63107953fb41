use nbody_sim::integrator::Method;
use std::str::FromStr;

#[test]
fn parses_lower_case_names() {
    assert_eq!(Method::parse("rk4"), Ok(Method::Rk4));
    assert_eq!(Method::parse("euler"), Ok(Method::Euler));
}

#[test]
fn parses_names_in_any_case() {
    assert_eq!(Method::parse("RK4"), Ok(Method::Rk4));
    assert_eq!(Method::parse("Rk4"), Ok(Method::Rk4));
    assert_eq!(Method::parse("EULER"), Ok(Method::Euler));
    assert_eq!(Method::parse("eUlEr"), Ok(Method::Euler));
}

#[test]
fn from_str_agrees_with_parse() {
    assert_eq!(Method::from_str("Euler"), Ok(Method::Euler));
    assert_eq!("rk4".parse::<Method>(), Ok(Method::Rk4));
    assert_eq!("verlet".parse::<Method>(), Method::parse("verlet"));
}

#[test]
fn unknown_name_is_refused_with_lower_cased_message() {
    assert_eq!(
        Method::parse("Leapfrog"),
        Err("unknown integrator 'leapfrog' (use rk4 or euler)".to_string())
    );
    assert_eq!(
        Method::parse(""),
        Err("unknown integrator '' (use rk4 or euler)".to_string())
    );
    assert_eq!(
        Method::parse(" rk4"),
        Err("unknown integrator ' rk4' (use rk4 or euler)".to_string())
    );
}

#[test]
fn non_ascii_letters_are_not_folded() {
    assert_eq!(
        Method::parse("EULÉR"),
        Err("unknown integrator 'eulÉr' (use rk4 or euler)".to_string())
    );
}

#[test]
fn names_parse_back() {
    assert_eq!(Method::Rk4.name(), "RK4");
    assert_eq!(Method::Euler.name(), "Euler");
    for m in [Method::Rk4, Method::Euler] {
        assert_eq!(Method::parse(m.name()), Ok(m));
    }
}
