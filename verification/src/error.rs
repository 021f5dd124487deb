//! Errors reported by the library, tagged with a machine-readable kind so
//! that callers can tell the failure classes apart.

use vstd::prelude::*;

verus! {

/// The classes of failure the library distinguishes.
#[derive(Clone, Copy, Debug, PartialEq, Eq, Structural)]
pub enum ErrorKind {
    /// An open or remove was attempted on an entity that does not exist.
    NotFound,
    /// A create or add was attempted on an entity that already exists.
    AlreadyExists,
    /// A fetch-and-send session named a feed URL that is not in the store.
    UnknownFeed,
    /// Key or value bytes could not be decoded.
    DecodeError,
    /// A key carried a kind discriminant other than the expected one.
    WrongKeyKind,
    /// A network fetch failed.
    TransportError,
    /// A feed body was recognized by neither syndication format.
    ParseError,
    /// External delivery of an item failed.
    SendError,
    /// The storage engine failed while beginning or committing work.
    TransactionError,
}

/// An error, with a kind, a human-readable reason, and an optional cause.
#[derive(Debug)]
pub struct Error {
    pub kind: ErrorKind,
    pub reason: String,
    pub cause: Option<Box<Error>>,
}

/// Staged construction of an [`Error`].
#[derive(Debug)]
pub struct ErrorBuilder {
    pub inner: Error,
}

impl Error {
    /// Starts building an error of the given kind.
    pub fn new(kind: ErrorKind, reason: &str) -> (r: ErrorBuilder)
        ensures
            r.inner.kind == kind,
            r.inner.reason@ == reason@,
            r.inner.cause is None,
    {
        ErrorBuilder {
            inner: Error { kind, reason: reason.to_owned(), cause: None },
        }
    }

    /// Starts building an error that wraps `cause`, keeping its kind.
    pub fn chain(reason: &str, cause: Error) -> (r: ErrorBuilder)
        ensures
            r.inner.kind == cause.kind,
            r.inner.reason@ == reason@,
            r.inner.cause is Some,
    {
        let kind = cause.kind;
        ErrorBuilder {
            inner: Error { kind, reason: reason.to_owned(), cause: Some(Box::new(cause)) },
        }
    }
}

impl ErrorBuilder {
    /// Attaches a cause without changing the kind or reason.
    pub fn with_cause(self, e: Error) -> (r: Self)
        ensures
            r.inner.kind == self.inner.kind,
            r.inner.reason@ == self.inner.reason@,
            r.inner.cause is Some,
    {
        ErrorBuilder {
            inner: Error { kind: self.inner.kind, reason: self.inner.reason, cause: Some(Box::new(e)) },
        }
    }

    /// Finishes construction.
    pub fn into_error(self) -> (r: Error)
        ensures
            r.kind == self.inner.kind,
            r.reason@ == self.inner.reason@,
            r.cause is Some <==> self.inner.cause is Some,
    {
        self.inner
    }
}

} // verus!
