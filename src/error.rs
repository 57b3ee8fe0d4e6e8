use vstd::prelude::*;

verus! {

/// The kinds of failure that the storage core reports.
#[derive(Clone, Copy, Debug, PartialEq, Eq, Structural)]
pub enum ErrorKind {
    BadRequest,
    NotFound,
    Conflict,
    Timeout,
    Internal,
    Unsupported,
    NotImplemented,
}

/// An error: its kind and a human-readable message.
#[derive(Debug)]
pub struct TCError {
    pub kind: ErrorKind,
    pub message: String,
}

impl TCError {
    pub fn new(kind: ErrorKind, message: &str) -> (r: TCError)
        ensures
            r.kind == kind,
            r.message@ == message@,
    {
        TCError { kind, message: message.to_string() }
    }

    pub fn bad_request(message: &str) -> (r: TCError)
        ensures
            r.kind == ErrorKind::BadRequest,
    {
        TCError::new(ErrorKind::BadRequest, message)
    }

    pub fn not_found(message: &str) -> (r: TCError)
        ensures
            r.kind == ErrorKind::NotFound,
    {
        TCError::new(ErrorKind::NotFound, message)
    }

    pub fn conflict(message: &str) -> (r: TCError)
        ensures
            r.kind == ErrorKind::Conflict,
    {
        TCError::new(ErrorKind::Conflict, message)
    }

    pub fn internal(message: &str) -> (r: TCError)
        ensures
            r.kind == ErrorKind::Internal,
    {
        TCError::new(ErrorKind::Internal, message)
    }

    pub fn unsupported(message: &str) -> (r: TCError)
        ensures
            r.kind == ErrorKind::Unsupported,
    {
        TCError::new(ErrorKind::Unsupported, message)
    }

    /// The kind of this error.
    pub fn kind(&self) -> (r: ErrorKind)
        ensures
            r == self.kind,
    {
        self.kind
    }
}

/// The result of an operation of the storage core.
pub type TCResult<T> = Result<T, TCError>;

} // verus!
