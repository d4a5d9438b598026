use physim::integrators::{ForwardEuler, Midpoint, RungeKutta4, Scheme};

#[test]
fn all_lists_the_three_schemes_in_order() {
    assert_eq!(
        Scheme::all(),
        [Scheme::ForwardEuler, Scheme::Midpoint, Scheme::RungeKutta4]
    );
}

#[test]
fn scheme_names_match_their_integrators() {
    assert_eq!(Scheme::ForwardEuler.name(), "forward-euler");
    assert_eq!(Scheme::Midpoint.name(), "explicit-midpoint");
    assert_eq!(Scheme::RungeKutta4.name(), "classical-rk4");
    assert_eq!(ForwardEuler.name(), Scheme::ForwardEuler.name());
    assert_eq!(Midpoint.name(), Scheme::Midpoint.name());
    assert_eq!(RungeKutta4.name(), Scheme::RungeKutta4.name());
}

#[test]
fn cli_names_round_trip() {
    for scheme in Scheme::all() {
        assert_eq!(Scheme::parse_cli(scheme.cli_name()), Some(scheme));
    }
    assert_eq!(Scheme::parse_cli("euler"), Some(Scheme::ForwardEuler));
    assert_eq!(Scheme::parse_cli("rk2"), Some(Scheme::Midpoint));
    assert_eq!(Scheme::parse_cli("rk4"), Some(Scheme::RungeKutta4));
}

#[test]
fn unknown_cli_names_are_rejected() {
    assert_eq!(Scheme::parse_cli("rk3"), None);
    assert_eq!(Scheme::parse_cli(""), None);
    assert_eq!(Scheme::parse_cli("Euler"), None);
    assert_eq!(Scheme::parse_cli("euler "), None);
    assert_eq!(Scheme::parse_cli("forward-euler"), None);
}

#[test]
fn scheme_names_are_distinct() {
    let names: Vec<&str> = Scheme::all().iter().map(|scheme| scheme.name()).collect();
    assert_ne!(names[0], names[1]);
    assert_ne!(names[0], names[2]);
    assert_ne!(names[1], names[2]);
}
