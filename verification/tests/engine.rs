use boostlss::engine::{max_or, validate_mstop, Algorithm, IterationLog, Mstop, Scale, Stabilization};
use boostlss::BoostlssError;

#[test]
fn test_algorithm_variants_exist() {
    let _a1 = Algorithm::Cyclic;
    let _a2 = Algorithm::NonCyclic;
    let _a3 = Algorithm::NonCyclicOuter;
}

#[test]
fn enums_compare_by_variant() {
    assert_eq!(Stabilization::Unscaled, Stabilization::Unscaled);
    assert_ne!(Stabilization::Mad, Stabilization::L2);
    assert_ne!(Scale::Link, Scale::Response);
}

#[test]
fn max_or_picks_largest_or_default() {
    assert_eq!(max_or(&vec![3, 9, 2], 7), 9);
    assert_eq!(max_or(&vec![], 7), 7);
    assert_eq!(max_or(&vec![0], 7), 0);
}

#[test]
fn mstop_counts() {
    let s = Mstop::Scalar(40);
    assert_eq!(s.max_or(5), 40);
    assert_eq!(s.for_param(3), 40);
    let p = Mstop::PerParam(vec![10, 30, 20]);
    assert_eq!(p.max_or(5), 30);
    assert_eq!(p.for_param(0), 10);
    assert_eq!(p.for_param(2), 20);
    assert!(p.active_in(0, 10));
    assert!(!p.active_in(0, 11));
    assert!(p.active_in(1, 30));
    assert_eq!(Mstop::PerParam(vec![]).max_or(5), 5);
}

#[test]
fn noncyclic_requires_scalar_mstop() {
    let per = Mstop::PerParam(vec![10, 20]);
    for alg in [Algorithm::NonCyclic, Algorithm::NonCyclicOuter] {
        match validate_mstop(alg, &per) {
            Err(BoostlssError::InvalidConfig(msg)) => {
                assert_eq!(msg, "NonCyclic algorithm requires a Scalar Mstop")
            }
            other => panic!("unexpected {:?}", other),
        }
        assert!(validate_mstop(alg, &Mstop::Scalar(10)).is_ok());
    }
    assert!(validate_mstop(Algorithm::Cyclic, &per).is_ok());
}

#[test]
fn iteration_log_without_evaluation_keeps_everything() {
    let mut log = IterationLog::new(false, Some(2));
    assert!(!log.record(2, false));
    assert!(!log.record(3, false));
    assert!(!log.record(1, false));
    assert_eq!(log.iterations(), 3);
    assert_eq!(log.best_iteration(), 3);
    assert_eq!(log.total_updates(), 6);
    assert!(!log.truncates());
    assert_eq!(log.kept_updates(), 6);
    assert_eq!(log.kept_iterations(), 3);
}

#[test]
fn iteration_log_stops_after_patience_without_improvement() {
    let mut log = IterationLog::new(true, Some(2));
    assert!(!log.record(2, true));
    assert!(!log.record(2, true));
    assert!(!log.record(2, false));
    assert!(log.record(2, false));
    assert_eq!(log.best_iteration(), 2);
    assert_eq!(log.iterations(), 4);
    assert!(log.truncates());
    assert_eq!(log.kept_updates(), 4);
    assert_eq!(log.kept_iterations(), 2);
    assert_eq!(log.total_updates(), 8);
}

#[test]
fn iteration_log_without_patience_never_stops() {
    let mut log = IterationLog::new(true, None);
    for _ in 0..10 {
        assert!(!log.record(1, false));
    }
    assert_eq!(log.best_iteration(), 0);
    assert!(!log.truncates());
    assert_eq!(log.kept_updates(), 10);
}

use boostlss::param::param_position;

#[test]
fn parameters_are_found_by_name() {
    let names = vec!["mu".to_string(), "sigma".to_string(), "mu".to_string()];
    assert_eq!(param_position(&names, "mu").unwrap(), 0);
    assert_eq!(param_position(&names, "sigma").unwrap(), 1);
    match param_position(&names, "nu") {
        Err(BoostlssError::InvalidConfig(msg)) => assert_eq!(msg, "Unknown parameter nu"),
        other => panic!("unexpected {:?}", other),
    }
}

#[test]
fn single_parameter_runs_keep_one_update_per_kept_iteration() {
    let mut log = IterationLog::new(true, Some(5));
    let improving = [true, true, true, false, false, false, false, false];
    let mut stopped_at = None;
    for (m, &better) in improving.iter().enumerate() {
        if log.record(1, better) {
            stopped_at = Some(m + 1);
            break;
        }
    }
    assert_eq!(stopped_at, Some(8));
    assert_eq!(log.best_iteration(), 3);
    assert_eq!(log.kept_updates(), log.kept_iterations());
    assert_eq!(log.kept_iterations(), 3);
}
