use boostlss::engine::Algorithm;
use boostlss::learner::Constraint;
use boostlss::names::{multinomial_param_names, PyFamily};
use boostlss::stabsel::StabselMode;

#[test]
fn families_are_found_by_each_of_their_names() {
    assert_eq!(PyFamily::new("GaussianLSS").unwrap(), PyFamily::Gaussian);
    assert_eq!(PyFamily::new("GaussianLss").unwrap(), PyFamily::Gaussian);
    assert_eq!(PyFamily::new("ZipLss").unwrap(), PyFamily::Zip);
    assert_eq!(PyFamily::new("BURR12LSS").unwrap(), PyFamily::Burr12);
    assert_eq!(PyFamily::new("MULTINOMIAL").unwrap(), PyFamily::Multinomial);
    assert_eq!(PyFamily::new("Multinomial").unwrap(), PyFamily::Multinomial);
}

#[test]
fn unknown_family_names_are_refused() {
    assert_eq!(PyFamily::new("gaussian").unwrap_err(), "Unknown family: gaussian");
    assert_eq!(PyFamily::new("").unwrap_err(), "Unknown family: ");
}

#[test]
fn families_rebuild_from_their_recorded_name() {
    let all = [
        PyFamily::Gaussian,
        PyFamily::Binomial,
        PyFamily::Beta,
        PyFamily::Weibull,
        PyFamily::LogNormal,
        PyFamily::Zip,
        PyFamily::Gev,
        PyFamily::Jsu,
        PyFamily::Burr12,
        PyFamily::Gamma,
        PyFamily::Ged,
        PyFamily::Gpd,
        PyFamily::InverseGaussian,
        PyFamily::LogLogistic,
        PyFamily::NBinomial,
        PyFamily::Nig,
        PyFamily::Poisson,
        PyFamily::StudentT,
    ];
    for f in all {
        assert_eq!(PyFamily::new(f.__getnewargs__()).unwrap(), f);
    }
    assert_eq!(PyFamily::Gev.__getnewargs__(), "GEVLSS");
}

#[test]
fn multinomial_is_recorded_under_a_name_it_does_not_answer_to() {
    assert_eq!(PyFamily::Multinomial.__getnewargs__(), "MultinomialLss");
    assert!(PyFamily::new(PyFamily::Multinomial.__getnewargs__()).is_err());
}

#[test]
fn algorithm_names() {
    assert_eq!(Algorithm::from_name("cyclic"), Some(Algorithm::Cyclic));
    assert_eq!(Algorithm::from_name("noncyclic"), Some(Algorithm::NonCyclic));
    assert_eq!(Algorithm::from_name("noncyclic_outer"), Some(Algorithm::NonCyclicOuter));
    assert_eq!(Algorithm::from_name("Cyclic"), None);
    for a in [Algorithm::Cyclic, Algorithm::NonCyclic, Algorithm::NonCyclicOuter] {
        assert_eq!(Algorithm::from_name(a.name()), Some(a));
    }
}

#[test]
fn mode_and_constraint_names_ignore_case() {
    assert_eq!(StabselMode::from_name("JOINT"), Some(StabselMode::Joint));
    assert_eq!(StabselMode::from_name("Independent"), Some(StabselMode::Independent));
    assert_eq!(StabselMode::from_name("both"), None);
    assert_eq!(StabselMode::from_lowercase_name("Joint"), None);
    assert_eq!(Constraint::from_name("Monotonic_Increasing"), Some(Constraint::MonotonicIncreasing));
    assert_eq!(Constraint::from_name("monotonic_decreasing"), Some(Constraint::MonotonicDecreasing));
    assert_eq!(Constraint::from_name("CONVEX"), Some(Constraint::Convex));
    assert_eq!(Constraint::from_name("concave"), Some(Constraint::Concave));
    assert_eq!(Constraint::from_name("linear"), None);
}

#[test]
fn multinomial_parameters_are_numbered_classes() {
    assert_eq!(multinomial_param_names(3), vec!["pi_0", "pi_1", "pi_2"]);
    assert_eq!(multinomial_param_names(0), Vec::<String>::new());
    let many = multinomial_param_names(12);
    assert_eq!(many[10], "pi_10");
    assert_eq!(many[11], "pi_11");
}
