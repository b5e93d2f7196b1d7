use not_so_turbo_puffer::s3client::{sanitize_namespace, NamespaceError};

#[test]
fn accepts_valid_names() {
    assert_eq!(sanitize_namespace("valid-name").unwrap(), "valid-name");
}

#[test]
fn rejects_uppercase() {
    assert!(sanitize_namespace("Invalid").is_err());
}

#[test]
fn rejects_repeated_hyphen() {
    assert!(sanitize_namespace("bad--name").is_err());
}

#[test]
fn rejects_invalid_chars() {
    assert!(sanitize_namespace("bad!name").is_err());
}

#[test]
fn rejects_out_of_range_lengths() {
    assert!(sanitize_namespace("aa").is_err());
    assert!(sanitize_namespace(&"a".repeat(64)).is_err());
}

#[test]
fn rejects_leading_or_trailing_hyphen() {
    assert!(sanitize_namespace("-bad").is_err());
    assert!(sanitize_namespace("bad-").is_err());
}

#[test]
fn each_rule_has_its_error() {
    assert_eq!(sanitize_namespace("").unwrap_err(), NamespaceError::Empty);
    assert_eq!(sanitize_namespace("ab").unwrap_err(), NamespaceError::BadLength);
    assert_eq!(sanitize_namespace("aBc").unwrap_err(), NamespaceError::Uppercase);
    assert_eq!(sanitize_namespace("-abc").unwrap_err(), NamespaceError::EdgeHyphen);
    assert_eq!(sanitize_namespace("a--b").unwrap_err(), NamespaceError::ConsecutiveHyphens);
    assert_eq!(sanitize_namespace("a_b").unwrap_err(), NamespaceError::InvalidCharacter);
    assert_eq!(sanitize_namespace("é-ab").unwrap_err(), NamespaceError::InvalidCharacter);
    assert_eq!(sanitize_namespace(&"a".repeat(63)).unwrap(), "a".repeat(63));
    assert_eq!(sanitize_namespace("abc").unwrap(), "abc");
    assert_eq!(NamespaceError::Uppercase.message(), "namespace must be lowercase");
}
