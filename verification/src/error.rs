//! Errors carrying translatable details: a rendered underlying cause and a
//! bundle of display strings whose keys the translation backend serves.

use vstd::prelude::*;

verus! {

/// The displayable details of an error, keyed for translation lookup.
#[derive(Debug, Clone)]
pub struct ErrorDetails {
    pub display: String,
    pub name: String,
    pub fullname: String,
    pub suggestion_key: String,
    pub message: String,
    pub suggestion: Option<String>,
}

impl ErrorDetails {
    /// Bundle the details, owning copies of every string.
    pub fn new(
        display: &str,
        name: &str,
        fullname: &str,
        suggestion_key: &str,
        message: &str,
        suggestion: Option<String>,
    ) -> (r: Self)
        ensures
            r.display@ == display@,
            r.name@ == name@,
            r.fullname@ == fullname@,
            r.suggestion_key@ == suggestion_key@,
            r.message@ == message@,
            r.suggestion == suggestion,
    {
        ErrorDetails {
            display: display.to_owned(),
            name: name.to_owned(),
            fullname: fullname.to_owned(),
            suggestion_key: suggestion_key.to_owned(),
            message: message.to_owned(),
            suggestion,
        }
    }
}

/// The underlying cause of an error, kept as its rendered text.
#[derive(Debug)]
pub struct Repr {
    source: String,
}

impl Repr {
    /// The rendered text of the underlying cause.
    pub closed spec fn source_text(&self) -> Seq<char> {
        self.source@
    }

    /// Wrap the rendered text of an underlying cause.
    pub fn new(source: String) -> (r: Self)
        ensures
            r.source_text() == source@,
    {
        Repr { source }
    }
}

/// An error joining its underlying cause with translatable details.
#[derive(Debug)]
pub struct Error {
    source: Repr,
    details: ErrorDetails,
}

impl Error {
    /// The details carried by this error.
    pub closed spec fn spec_details(&self) -> ErrorDetails {
        self.details
    }

    /// The rendered text of the underlying cause.
    pub closed spec fn spec_source_text(&self) -> Seq<char> {
        self.source.source_text()
    }

    /// Join a rendered cause with its details.
    pub fn new(source: String, details: ErrorDetails) -> (r: Self)
        ensures
            r.spec_source_text() == source@,
            r.spec_details() == details,
    {
        Self { source: Repr::new(source), details }
    }

    /// The details carried by this error.
    pub fn get_details(&self) -> (r: &ErrorDetails)
        ensures
            *r == self.spec_details(),
    {
        &self.details
    }

    /// The rendered text of the underlying cause.
    pub fn get_source(&self) -> (r: &str)
        ensures
            r@ == self.spec_source_text(),
    {
        self.source.source.as_str()
    }
}

/// What a user-defined error type offers so that its display text and
/// improvement suggestion can be served by the translation backend.
/// Implementations live with the error types of the embedding application.
pub trait AsDetails {
    /// The details describing this error.
    fn as_details(&self) -> ErrorDetails;

    /// The translation key of this error's message.
    fn get_message_key(&self) -> String;

    /// The translation key of this error's suggestion.
    fn get_suggestion_key(&self) -> String;

    /// The translation key of this error's display name.
    fn get_display_key(&self) -> String;
}

} // verus!
