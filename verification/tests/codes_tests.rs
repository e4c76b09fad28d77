//! Engine error codes and the typed errors they map to.

use burrow_engines::codes::{
    has_errors, map_code, DAMAGED_PDF, INTERNAL, JSON, LINEARIZATION, OBJECT, PAGES, PASSWORD, SUCCESS, SYSTEM,
    UNSUPPORTED,
};
use burrow_engines::error::{Error, Result};

fn variant_of(error: &Error) -> &'static str {
    match error {
        Error::Malformed(_) => "Malformed",
        Error::Unsupported(_) => "Unsupported",
        Error::PasswordRequired => "PasswordRequired",
        Error::LimitExceeded { .. } => "LimitExceeded",
        Error::InvalidArgument(_) => "InvalidArgument",
        Error::Io(_) => "Io",
        Error::Internal(_) => "Internal",
    }
}

#[test]
fn a_zero_code_on_a_failed_call_is_never_success() {
    let err = map_code(SUCCESS);
    assert!(matches!(err, Error::Internal(_)), "{err:?}");
    let as_result: Result<()> = Err(err);
    assert!(as_result.is_err());
}

#[test]
fn the_password_code_is_what_makes_encryption_detectable_without_string_matching() {
    assert!(matches!(map_code(PASSWORD), Error::PasswordRequired));
}

#[test]
fn every_declared_code_maps_to_its_variant() {
    let cases = [
        (INTERNAL, "Internal"),
        (SYSTEM, "Malformed"),
        (UNSUPPORTED, "Unsupported"),
        (PASSWORD, "PasswordRequired"),
        (DAMAGED_PDF, "Malformed"),
        (PAGES, "Malformed"),
        (OBJECT, "Malformed"),
        (JSON, "Malformed"),
        (LINEARIZATION, "Malformed"),
    ];
    for (code, expected) in cases {
        let err = map_code(code);
        assert_eq!(variant_of(&err), expected, "code {code} mapped to {err:?}");
    }
}

#[test]
fn an_unrecognised_code_is_internal_rather_than_silently_malformed() {
    assert!(matches!(map_code(9_999), Error::Internal(_)));
}

#[test]
fn no_mapped_message_contains_a_digit_so_nothing_from_a_file_can_have_leaked() {
    for code in -8..64 {
        let rendered = map_code(code).message();
        assert!(
            !rendered.chars().any(|c| c.is_ascii_digit()),
            "a digit reached the message for code {code}: {rendered:?}"
        );
    }
}

#[test]
fn only_the_errors_bit_is_a_failure() {
    assert!(!has_errors(0));
    assert!(!has_errors(1), "warnings alone are success");
    assert!(has_errors(2));
    assert!(has_errors(3));
}
