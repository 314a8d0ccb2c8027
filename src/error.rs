use crate::error::tar_error::TarError;
use vstd::prelude::*;

pub mod tar_error;

verus! {

/// The top-level error of the library.
#[derive(Debug, Clone)]
pub struct Error {
    error_type: ErrorType,
}

impl View for Error {
    type V = ErrorType;

    closed spec fn view(&self) -> ErrorType {
        self.error_type
    }
}

impl Error {
    pub fn new(kind: ErrorType) -> (r: Error)
        ensures
            r@ == kind,
    {
        Error { error_type: kind }
    }

    /// What caused this error.
    pub fn error_type(&self) -> (r: &ErrorType)
        ensures
            *r == self@,
    {
        &self.error_type
    }
}

/// The families of failure that an [`Error`] can wrap.
#[derive(Debug, Clone)]
pub enum ErrorType {
    Tar(TarError),
}

impl From<TarError> for Error {
    fn from(error: TarError) -> (r: Error)
        ensures
            r@ == ErrorType::Tar(error),
    {
        Self::new(ErrorType::Tar(error))
    }
}

impl vstd::std_specs::convert::FromSpecImpl<TarError> for Error {
    open spec fn obeys_from_spec() -> bool {
        true
    }

    closed spec fn from_spec(error: TarError) -> Error {
        Error { error_type: ErrorType::Tar(error) }
    }
}

/// Results of the library's top-level operations.
pub type Result<T> = core::result::Result<T, Error>;

} // verus!
