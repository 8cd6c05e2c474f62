//! The failures that the store reports.

use vstd::prelude::*;

verus! {

/// What went wrong.
#[derive(Debug, Clone)]
pub enum ErrorKind {
    AlreadyOpen,
    AlreadyExist,
    NotFound,
    DataIsCorrupted,
    Collision,
    UnexpectedIoError(String),
}

/// An error, boxed.
pub type Error = Box<ErrorKind>;

/// The outcome of an operation of the store.
pub type Result<T> = std::result::Result<T, Error>;

/// `std::io::Error`, as an opaque value.
#[verifier::external_type_specification]
#[verifier::external_body]
pub struct ExIoError(std::io::Error);

/// `std::io::Error::kind`, compared with `std::io::ErrorKind::NotFound`.
/// Nothing is claimed of the answer.
#[verifier::external_body]
fn io_error_is_not_found(err: &std::io::Error) -> (not_found: bool) {
    err.kind() == std::io::ErrorKind::NotFound
}

/// The `Debug` text of a `std::io::Error`. Nothing is claimed of the text.
#[verifier::external_body]
fn io_error_detail(err: &std::io::Error) -> (detail: String) {
    format!("{:?}", err)
}

impl ErrorKind {
    /// The error that stands for a failed I/O operation: `NotFound` where
    /// the operating system said so, else `UnexpectedIoError` with the
    /// detail given.
    pub fn from_io_parts(not_found: bool, detail: String) -> (kind: ErrorKind)
        ensures
            kind == (if not_found {
                ErrorKind::NotFound
            } else {
                ErrorKind::UnexpectedIoError(detail)
            }),
    {
        if not_found {
            ErrorKind::NotFound
        } else {
            ErrorKind::UnexpectedIoError(detail)
        }
    }
}

impl vstd::std_specs::convert::FromSpecImpl<std::io::Error> for Box<ErrorKind> {
    open spec fn obeys_from_spec() -> bool {
        false
    }

    open spec fn from_spec(err: std::io::Error) -> Self {
        Box::new(ErrorKind::NotFound)
    }
}

impl From<std::io::Error> for Box<ErrorKind> {
    /// An I/O failure is `NotFound` or `UnexpectedIoError`, never another
    /// kind.
    fn from(err: std::io::Error) -> (error: Self)
        ensures
            *error is NotFound || *error is UnexpectedIoError,
    {
        let not_found = io_error_is_not_found(&err);
        let detail = io_error_detail(&err);
        Box::new(ErrorKind::from_io_parts(not_found, detail))
    }
}

} // verus!
