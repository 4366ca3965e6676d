use i18n_core::error::{Error, ErrorDetails, Repr};

#[test]
fn details_carry_all_fields() {
    let details = ErrorDetails::new(
        "IO error",
        "io-error",
        "errors.io-error",
        "errors.io-error.suggestion",
        "could not read the file",
        Some("check the path".to_owned()),
    );
    assert_eq!(details.display, "IO error");
    assert_eq!(details.name, "io-error");
    assert_eq!(details.fullname, "errors.io-error");
    assert_eq!(details.suggestion_key, "errors.io-error.suggestion");
    assert_eq!(details.message, "could not read the file");
    assert_eq!(details.suggestion, Some("check the path".to_owned()));
}

#[test]
fn error_exposes_source_and_details() {
    let details = ErrorDetails::new("E", "e", "errors.e", "errors.e.suggestion", "boom", None);
    let err = Error::new("underlying cause".to_owned(), details);
    assert_eq!(err.get_source(), "underlying cause");
    assert_eq!(err.get_details().message, "boom");
    assert_eq!(err.get_details().suggestion, None);
}

#[test]
fn repr_wraps_rendered_cause() {
    let _repr = Repr::new("a rendered error".to_owned());
}
