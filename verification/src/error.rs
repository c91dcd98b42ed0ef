//! Errors of schema reading and of remote calls.
use vstd::prelude::*;

verus! {

/// What went wrong.
#[derive(Clone, Copy, Debug, PartialEq, Eq, Structural)]
pub enum ErrorKind {
    /// A generic problem occurred.
    Failed,
    /// The request was rejected due to a temporary lack of resources.
    Overloaded,
    /// The call failed because the connection was lost.
    Disconnected,
    /// The requested method is not implemented.
    Unimplemented,
    /// An enum value or union discriminant was not present in the schema.
    EnumValueOrUnionDiscriminantNotPresent,
    /// A field was not found by its name.
    FieldNotFound,
    /// A message is nested too deeply, or contains cycles.
    MessageIsTooDeeplyNestedOrContainsCycles,
    /// A text holds bytes that are not UTF-8.
    TextContainsNonUtf8Data,
}

/// An error: its kind and a free-form description.
#[derive(Debug, PartialEq, Eq)]
pub struct Error {
    pub kind: ErrorKind,
    pub extra: String,
}

/// The mathematical value of an [`Error`].
pub struct ErrorView {
    pub kind: ErrorKind,
    pub extra: Seq<char>,
}

impl View for Error {
    type V = ErrorView;

    open spec fn view(&self) -> ErrorView {
        ErrorView { kind: self.kind, extra: self.extra@ }
    }
}

impl Clone for Error {
    fn clone(&self) -> (r: Self)
        ensures
            r == *self,
    {
        Error { kind: self.kind, extra: self.extra.clone() }
    }
}

/// An error of the given kind with nothing to add.
pub open spec fn bare(kind: ErrorKind) -> ErrorView {
    ErrorView { kind, extra: Seq::empty() }
}

impl Error {
    /// An error of the given kind, with an empty description.
    pub fn from_kind(kind: ErrorKind) -> (r: Error)
        ensures
            r@ == bare(kind),
    {
        Error { kind, extra: String::new() }
    }

    /// A generic failure with the given description.
    pub fn failed(description: String) -> (r: Error)
        ensures
            r@ == (ErrorView { kind: ErrorKind::Failed, extra: description@ }),
    {
        Error { kind: ErrorKind::Failed, extra: description }
    }

    /// A lost connection with the given description.
    pub fn disconnected(description: String) -> (r: Error)
        ensures
            r@ == (ErrorView { kind: ErrorKind::Disconnected, extra: description@ }),
    {
        Error { kind: ErrorKind::Disconnected, extra: description }
    }
}

/// What reading a value that may be unreadable gives: the value itself, or the
/// error that stands in its place.
pub open spec fn reading<T>(slot: &Result<T, Error>) -> Result<&T, Error> {
    match slot {
        Ok(v) => Ok(v),
        Err(e) => Err(*e),
    }
}

/// Reads a value that may be unreadable.
pub fn read<T>(slot: &Result<T, Error>) -> (r: Result<&T, Error>)
    ensures
        r == reading(slot),
{
    match slot {
        Ok(v) => Ok(v),
        Err(e) => Err(e.clone()),
    }
}

/// An error of which nothing but its kind is said has that kind and an empty
/// description.
pub proof fn law_bare_errors(kind: ErrorKind)
    ensures
        bare(kind).kind == kind,
        bare(kind).extra.len() == 0,
{
}

/// Reading gives the value where there is one, and the stored error where there is
/// none.
pub proof fn law_reading<T>(value: T, e: Error)
    ensures
        reading(&Ok::<T, Error>(value)) == Ok::<&T, Error>(&value),
        reading(&Err::<T, Error>(e)) == Err::<&T, Error>(e),
{
}

} // verus!
