use tpt_yaml::serde_error::Error;

#[test]
fn error_keeps_its_message() {
    let e = Error::msg("expected a mapping");
    assert_eq!(e.message(), "expected a mapping");
    assert_eq!(e, Error::msg("expected a mapping"));
}
