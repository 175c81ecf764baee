use matchtop::extract::{ConfigError, Extractor};

#[test]
fn pattern_without_capture_group_is_rejected() {
    // the permissive match-everything pattern has no capture group
    assert!(matches!(
        Extractor::new(".*"),
        Err(ConfigError::NoCaptureGroup)
    ));
    assert!(matches!(
        Extractor::new("plain text"),
        Err(ConfigError::NoCaptureGroup)
    ));
}

#[test]
fn unparsable_pattern_is_rejected() {
    assert!(matches!(
        Extractor::new("(unclosed"),
        Err(ConfigError::InvalidPattern)
    ));
}

#[test]
fn pattern_with_capture_group_is_accepted() {
    assert!(Extractor::new("(.*)").is_ok());
}

#[test]
fn extracts_first_capture_group() {
    let ex = Extractor::new(r"user=(\w+)").unwrap();
    assert_eq!(
        ex.extract("login user=alice ok"),
        Some("alice".to_string())
    );
    assert_eq!(ex.extract("no field here"), None);
}

#[test]
fn extracts_the_first_group_of_several() {
    let ex = Extractor::new(r"(\w+)=(\w+)").unwrap();
    assert_eq!(ex.extract("key=value"), Some("key".to_string()));
}

#[test]
fn nonparticipating_group_extracts_nothing() {
    // the line matches through the second alternative, so group 1 is empty
    let ex = Extractor::new("(a)|b").unwrap();
    assert_eq!(ex.extract("b"), None);
    assert_eq!(ex.extract("a"), Some("a".to_string()));
}
