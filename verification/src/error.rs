//! The error type shared by every decoder of the crate.
use vstd::prelude::*;
use vstd::string::StringExecFns;

verus! {

/// What went wrong while decoding.
#[derive(Debug, Clone, PartialEq, Eq)]
pub enum Error {
    /// A byte or bit read failed: the input ended early, a magic number or a
    /// section length did not match, or the bit reader refused the request.
    Io(String),
    /// A structural violation after which decoding cannot continue.
    Fatal(String),
    /// A feature of the format that is known but not implemented.
    NotSupported(String),
}

/// The three kinds of [`Error`], without their messages.
#[derive(Debug, Clone, Copy, PartialEq, Eq, Structural)]
pub enum ErrorKind {
    Io,
    Fatal,
    NotSupported,
}

impl Error {
    /// The kind of this error.
    pub open spec fn kind_of(&self) -> ErrorKind {
        match self {
            Error::Io(_) => ErrorKind::Io,
            Error::Fatal(_) => ErrorKind::Fatal,
            Error::NotSupported(_) => ErrorKind::NotSupported,
        }
    }

    /// The message carried by this error.
    pub open spec fn message(&self) -> Seq<char> {
        match self {
            Error::Io(m) => m@,
            Error::Fatal(m) => m@,
            Error::NotSupported(m) => m@,
        }
    }

    /// The text that introduces the message of each kind.
    pub open spec fn prefix(kind: ErrorKind) -> Seq<char> {
        match kind {
            ErrorKind::Io => "IO error: "@,
            ErrorKind::Fatal => "Fatal error: "@,
            ErrorKind::NotSupported => "Not supported: "@,
        }
    }

    /// The kind of this error.
    #[verifier::when_used_as_spec(kind_of)]
    pub fn kind(&self) -> (k: ErrorKind)
        ensures
            k == self.kind_of(),
    {
        match self {
            Error::Io(_) => ErrorKind::Io,
            Error::Fatal(_) => ErrorKind::Fatal,
            Error::NotSupported(_) => ErrorKind::NotSupported,
        }
    }

    /// An I/O error with the given message.
    pub fn io(message: &str) -> (e: Error)
        ensures
            e.kind_of() == ErrorKind::Io,
            e.message() == message@,
    {
        Error::Io(String::from_str(message))
    }

    /// A fatal error with the given message.
    pub fn fatal(message: &str) -> (e: Error)
        ensures
            e.kind_of() == ErrorKind::Fatal,
            e.message() == message@,
    {
        Error::Fatal(String::from_str(message))
    }

    /// A not-supported error with the given message.
    pub fn not_supported(message: &str) -> (e: Error)
        ensures
            e.kind_of() == ErrorKind::NotSupported,
            e.message() == message@,
    {
        Error::NotSupported(String::from_str(message))
    }

    /// Renders the error for a reader: the prefix of its kind, then its
    /// message.
    pub fn to_text(&self) -> (s: String)
        ensures
            s@ == Error::prefix(self.kind_of()) + self.message(),
    {
        match self {
            Error::Io(m) => String::from_str("IO error: ").concat(m.as_str()),
            Error::Fatal(m) => String::from_str("Fatal error: ").concat(m.as_str()),
            Error::NotSupported(m) => String::from_str("Not supported: ").concat(m.as_str()),
        }
    }
}

} // verus!
