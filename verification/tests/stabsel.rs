use boostlss::stabsel::{check_derived_q, check_stabsel_request, SelectionCounts, SelectionTracker, StabselMode};
use boostlss::BoostlssError;

fn problem(r: Result<(), BoostlssError>) -> String {
    match r {
        Err(BoostlssError::InvalidStabselConfig(msg)) => msg,
        other => panic!("unexpected {:?}", other),
    }
}

#[test]
fn stabsel_request_needs_exactly_two_of_three() {
    // pfer, pi_thr and q all given
    assert_eq!(
        problem(check_stabsel_request(100, Some(10), true, true)),
        "Exactly two of (pfer, pi_thr, q) must be provided"
    );
    assert_eq!(
        problem(check_stabsel_request(100, None, true, false)),
        "Exactly two of (pfer, pi_thr, q) must be provided"
    );
    assert!(check_stabsel_request(100, Some(10), false, true).is_ok());
    assert!(check_stabsel_request(100, Some(10), true, false).is_ok());
    assert!(check_stabsel_request(100, None, true, true).is_ok());
}

#[test]
fn stabsel_request_bounds_p_and_q() {
    assert_eq!(problem(check_stabsel_request(0, Some(10), false, true)), "p must be greater than 0");
    assert_eq!(problem(check_stabsel_request(100, Some(0), false, true)), "q must be in 1..=p");
    assert_eq!(problem(check_stabsel_request(100, Some(110), false, true)), "q must be in 1..=p");
    // the q check comes before the count of given values
    assert_eq!(problem(check_stabsel_request(100, Some(0), true, true)), "q must be in 1..=p");
}

#[test]
fn derived_q_must_fit_p() {
    assert_eq!(problem(check_derived_q(14, 10)), "Derived q must be in 1..=p");
    assert_eq!(problem(check_derived_q(0, 10)), "Derived q must be in 1..=p");
    assert!(check_derived_q(10, 10).is_ok());
    assert!(check_derived_q(1, 10).is_ok());
}

#[test]
fn tracker_counts_each_learner_once() {
    // learners 0, 1 belong to parameter 0; learner 2 to parameter 1
    let mut t = SelectionTracker::new(vec![0, 0, 1], 2);
    assert_eq!(t.total(), 0);
    assert!(t.select(1));
    assert!(!t.select(1));
    assert!(t.is_selected(1));
    assert!(!t.is_selected(0));
    assert_eq!(t.size(0), 1);
    assert_eq!(t.size(1), 0);
    assert!(t.reached(StabselMode::Joint, 1));
    assert!(!t.reached(StabselMode::Independent, 1));
    assert!(t.select(2));
    assert!(t.reached(StabselMode::Independent, 1));
    assert!(!t.reached(StabselMode::Joint, 3));
    assert_eq!(t.total(), 2);
}

#[test]
fn selection_counts_add_up_runs() {
    let mut counts = SelectionCounts::new(3);
    let mut a = SelectionTracker::new(vec![0, 0, 1], 2);
    a.select(0);
    a.select(2);
    let mut b = SelectionTracker::new(vec![0, 0, 1], 2);
    b.select(2);
    counts.add_run(&a);
    counts.add_run(&b);
    assert_eq!(counts.runs(), 2);
    assert_eq!(counts.count(0), 1);
    assert_eq!(counts.count(1), 0);
    assert_eq!(counts.count(2), 2);
}

#[test]
fn test_invalid_config_not_two_params() {
    // pfer = 1.0, pi_thr = 0.6, q = 10, p = 100
    let err = check_stabsel_request(100, Some(10), true, true).unwrap_err();
    match err {
        BoostlssError::InvalidStabselConfig(msg) => {
            assert_eq!(msg, "Exactly two of (pfer, pi_thr, q) must be provided");
        }
        _ => panic!("Expected InvalidStabselConfig"),
    }
}

#[test]
fn test_invalid_config_p_zero() {
    // pi_thr = 0.6, q = 10, p = 0
    let err = check_stabsel_request(0, Some(10), false, true).unwrap_err();
    match err {
        BoostlssError::InvalidStabselConfig(msg) => {
            assert_eq!(msg, "p must be greater than 0");
        }
        _ => panic!("Expected InvalidStabselConfig"),
    }
}

#[test]
fn test_invalid_config_q_zero() {
    // pi_thr = 0.6, q = 0, p = 100
    let err = check_stabsel_request(100, Some(0), false, true).unwrap_err();
    match err {
        BoostlssError::InvalidStabselConfig(msg) => {
            assert_eq!(msg, "q must be in 1..=p");
        }
        _ => panic!("Expected InvalidStabselConfig"),
    }
}

#[test]
fn test_invalid_config_q_greater_than_p() {
    // pi_thr = 0.6, q = 110, p = 100
    let err = check_stabsel_request(100, Some(110), false, true).unwrap_err();
    match err {
        BoostlssError::InvalidStabselConfig(msg) => {
            assert_eq!(msg, "q must be in 1..=p");
        }
        _ => panic!("Expected InvalidStabselConfig"),
    }
}

#[test]
fn test_invalid_config_derived_q_greater_than_p() {
    // pfer = 61.0, pi_thr = 0.6, p = 10: the request itself is fine, and the
    // derived q = floor(sqrt(pfer * (2 pi_thr - 1) * p)) = 11 exceeds p.
    let (pfer, pi_thr, p) = (61.0_f64, 0.6_f64, 10usize);
    assert!(check_stabsel_request(p, None, true, true).is_ok());
    let q = (pfer * (2.0 * pi_thr - 1.0) * p as f64).sqrt().floor() as usize;
    assert_eq!(q, 11);
    let err = check_derived_q(q, p).unwrap_err();
    match err {
        BoostlssError::InvalidStabselConfig(msg) => {
            assert_eq!(msg, "Derived q must be in 1..=p");
        }
        _ => panic!("Expected InvalidStabselConfig"),
    }
}
