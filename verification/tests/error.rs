use boostlss::BoostlssError;

#[test]
fn test_error_display() {
    let err1 = BoostlssError::InvalidConfig("bad param".to_string());
    assert_eq!(err1.to_string(), "Invalid configuration: bad param");

    let err2 = BoostlssError::DataError("NaN found".to_string());
    assert_eq!(err2.to_string(), "Data validation error: NaN found");

    let err3 = BoostlssError::NotConverged("max iter reached".to_string());
    assert_eq!(err3.to_string(), "Model not converged: max iter reached");

    let err4 = BoostlssError::InvalidStabselConfig("bad".to_string());
    assert_eq!(err4.to_string(), "Invalid stability selection config: bad");
}

#[test]
fn error_display_remaining_variants() {
    let e = BoostlssError::OutOfRange("x".to_string());
    assert_eq!(e.to_string(), "Value out of range: x");
    let e = BoostlssError::SerializationError("eof".to_string());
    assert_eq!(e.to_string(), "Serialization error: eof");
    let e = BoostlssError::InvalidConfig(String::new());
    assert_eq!(e.to_string(), "Invalid configuration: ");
}
