use ush::cli::validate_sample_rate;

#[test]
fn test_sample_rate_validation() {
    assert!(validate_sample_rate(44100).is_ok());
    assert!(validate_sample_rate(1000).is_err());
    assert!(validate_sample_rate(300000).is_err());
}
