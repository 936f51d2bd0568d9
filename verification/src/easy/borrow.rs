//! The error of a handle that cannot give access to its repository.
use vstd::prelude::*;

verus! {

/// The repository could not be borrowed, as it is borrowed mutably already.
#[derive(Debug, PartialEq, Eq, Structural)]
pub struct Error;

impl Error {
    /// The error in words.
    pub fn message(&self) -> (r: &'static str)
        ensures
            r@ == "Could not borrow the repository as it's already borrowed mutably"@,
    {
        "Could not borrow the repository as it's already borrowed mutably"
    }
}

impl From<std::cell::BorrowError> for Error {
    /// The error for a shared borrow that was refused.
    fn from(err: std::cell::BorrowError) -> (r: Error) {
        Error
    }
}

impl vstd::std_specs::convert::FromSpecImpl<std::cell::BorrowError> for Error {
    open spec fn obeys_from_spec() -> bool {
        true
    }

    open spec fn from_spec(err: std::cell::BorrowError) -> Error {
        Error
    }
}

impl From<std::cell::BorrowMutError> for Error {
    /// The error for an exclusive borrow that was refused.
    fn from(err: std::cell::BorrowMutError) -> (r: Error) {
        Error
    }
}

impl vstd::std_specs::convert::FromSpecImpl<std::cell::BorrowMutError> for Error {
    open spec fn obeys_from_spec() -> bool {
        true
    }

    open spec fn from_spec(err: std::cell::BorrowMutError) -> Error {
        Error
    }
}

} // verus!
