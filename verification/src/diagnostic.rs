//! Diagnostics.

use vstd::prelude::*;
use crate::tree::Position;

verus! {

/// Why an operation was abandoned.
#[derive(Clone, Copy, PartialEq, Eq, Debug, Structural)]
pub enum ErrorKind {
    /// An annotation's content does not have the expected form.
    MalformedAnnotation,
    /// A declaration does not carry exactly one annotation of a required tag.
    CardinalityError,
    /// A key occurs twice in one annotation.
    DuplicateKey,
    /// A default entry stands after the first place.
    OrderError,
    /// A key is not among the keys that the declaration names.
    UnknownKey,
    /// The declaration is neither record-like nor a tagged union.
    UnsupportedKind,
}

/// A diagnostic: what went wrong, and the source position of the annotation
/// (or, where no single annotation is at fault, of the declaration) that
/// caused it.
#[derive(Clone, Copy, PartialEq, Eq, Debug, Structural)]
pub struct Diagnostic {
    pub kind: ErrorKind,
    pub position: Position,
}

impl Diagnostic {
    /// A one-line description of the diagnostic for the user. It does not
    /// say which annotation a `CardinalityError` is about: `mux::message`
    /// and `from_::message` do.
    pub fn message(&self) -> (r: String)
        ensures
            r@ == message_of(self.kind),
    {
        match self.kind {
            ErrorKind::MalformedAnnotation => String::from_str("Unsupported attribute format"),
            ErrorKind::CardinalityError => String::from_str(
                "There must be exactly one attribute of this name",
            ),
            ErrorKind::DuplicateKey => String::from_str("Duplicate key"),
            ErrorKind::OrderError => String::from_str("Default entry must be the first"),
            ErrorKind::UnknownKey => String::from_str("Name not found in `names`"),
            ErrorKind::UnsupportedKind => String::from_str("Unions are not supported"),
        }
    }
}

/// The description that goes with each kind of error.
pub open spec fn message_of(kind: ErrorKind) -> Seq<char> {
    match kind {
        ErrorKind::MalformedAnnotation => "Unsupported attribute format"@,
        ErrorKind::CardinalityError => "There must be exactly one attribute of this name"@,
        ErrorKind::DuplicateKey => "Duplicate key"@,
        ErrorKind::OrderError => "Default entry must be the first"@,
        ErrorKind::UnknownKey => "Name not found in `names`"@,
        ErrorKind::UnsupportedKind => "Unions are not supported"@,
    }
}

} // verus!
