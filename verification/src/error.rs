use vstd::prelude::*;

verus! {

/// The category of a failure reported by the library.
#[derive(Debug, Clone, Copy, PartialEq, Eq, Structural)]
pub enum ErrorKind {
    EndOfFile,
    InvalidArgument,
    InvalidData,
    Overflow,
    Unsupported,
    Io,
}

/// An error with a kind and a human-readable message.
#[derive(Debug, Clone)]
pub struct MediaError {
    kind: ErrorKind,
    message: String,
}

/// Results returned throughout the library.
pub type Result<T> = core::result::Result<T, MediaError>;

impl View for MediaError {
    type V = ErrorKind;

    closed spec fn view(&self) -> ErrorKind {
        self.kind
    }
}

impl MediaError {
    /// The text carried by the error.
    pub closed spec fn message_spec(&self) -> Seq<char> {
        self.message@
    }

    pub fn new(kind: ErrorKind, message: &str) -> (e: Self)
        ensures
            e@ == kind,
            e.message_spec() == message@,
    {
        MediaError { kind, message: message.to_owned() }
    }

    pub fn kind(&self) -> (k: ErrorKind)
        ensures
            k == self@,
    {
        self.kind
    }

    pub fn message(&self) -> (m: &str)
        ensures
            m@ == self.message_spec(),
    {
        self.message.as_str()
    }

    pub fn eof(message: &str) -> (e: Self)
        ensures
            e@ == ErrorKind::EndOfFile,
            e.message_spec() == message@,
    {
        Self::new(ErrorKind::EndOfFile, message)
    }

    pub fn invalid_argument(message: &str) -> (e: Self)
        ensures
            e@ == ErrorKind::InvalidArgument,
            e.message_spec() == message@,
    {
        Self::new(ErrorKind::InvalidArgument, message)
    }

    pub fn invalid_data(message: &str) -> (e: Self)
        ensures
            e@ == ErrorKind::InvalidData,
            e.message_spec() == message@,
    {
        Self::new(ErrorKind::InvalidData, message)
    }

    pub fn overflow(message: &str) -> (e: Self)
        ensures
            e@ == ErrorKind::Overflow,
            e.message_spec() == message@,
    {
        Self::new(ErrorKind::Overflow, message)
    }

    pub fn unsupported(message: &str) -> (e: Self)
        ensures
            e@ == ErrorKind::Unsupported,
            e.message_spec() == message@,
    {
        Self::new(ErrorKind::Unsupported, message)
    }
}

} // verus!
