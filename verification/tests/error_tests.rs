use gik::error::GikError;

#[test]
fn test_display() {
    let err = GikError::InvalidHash;
    assert_eq!(err.to_string(), "Invalid hash length");
}

#[test]
fn error_text_names_its_kind() {
    assert_eq!(GikError::Io("disk full".to_string()).to_string(), "IO error: disk full");
    assert_eq!(GikError::Validation("bad input".to_string()).to_string(), "bad input");
    assert_eq!(GikError::NotFound("x".to_string()).to_string(), "Not found: x");
}
