use boostlss::data::{check_dataset, check_feature_index};
use boostlss::engine::{validate_mstop, Algorithm, Mstop};
use boostlss::param::param_position;
use boostlss::BoostlssError;

fn gaussian_params() -> Vec<String> {
    vec!["mu".to_string(), "sigma".to_string()]
}

#[test]
fn test_boostlss_on_valid_param() {
    assert_eq!(param_position(&gaussian_params(), "mu").unwrap(), 0);
    assert_eq!(param_position(&gaussian_params(), "sigma").unwrap(), 1);
}

#[test]
fn test_boostlss_on_invalid_param() {
    let result = param_position(&gaussian_params(), "invalid_param");
    assert!(matches!(result, Err(BoostlssError::InvalidConfig(_))));
    assert_eq!(result.unwrap_err().to_string(), "Invalid configuration: Unknown parameter invalid_param");
}

#[test]
fn test_boostlss_fit_noncyclic_requires_scalar_mstop() {
    let result = validate_mstop(Algorithm::NonCyclic, &Mstop::PerParam(vec![10, 10]));
    assert!(matches!(result, Err(BoostlssError::InvalidConfig(_))));
    assert!(validate_mstop(Algorithm::NonCyclic, &Mstop::Scalar(10)).is_ok());
    assert!(validate_mstop(Algorithm::Cyclic, &Mstop::PerParam(vec![10, 10])).is_ok());
}

#[test]
fn test_partial_dependence_out_of_bounds() {
    // a 5-by-2 design, feature 999
    let result = check_feature_index(999, 2);
    assert!(matches!(result, Err(BoostlssError::DataError(_))));
    assert!(check_feature_index(1, 2).is_ok());
}

#[test]
fn dataset_handles_censoring() {
    // 3 rows, response of length 3, no weights, censoring of length 3
    assert!(check_dataset(3, 3, None, false, Some(3)).is_ok());
}
