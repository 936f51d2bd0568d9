//! The errors of borrowing a part of a handle's state.
use vstd::prelude::*;

verus! {

/// A part of the state could not be borrowed.
#[derive(Debug)]
pub enum Error {
    /// It is borrowed exclusively at the moment.
    Borrow(std::cell::BorrowError),
    /// It is borrowed at the moment.
    BorrowMut(std::cell::BorrowMutError),
}

impl Error {
    /// The error in words.
    pub fn message(&self) -> (r: &'static str)
        ensures
            self is Borrow ==> r@ == "A state member could not be borrowed"@,
            self is BorrowMut ==> r@ == "A state member could not be mutably borrowed"@,
    {
        match self {
            Error::Borrow(_) => "A state member could not be borrowed",
            Error::BorrowMut(_) => "A state member could not be mutably borrowed",
        }
    }
}

impl From<std::cell::BorrowError> for Error {
    fn from(err: std::cell::BorrowError) -> (r: Error) {
        Error::Borrow(err)
    }
}

impl vstd::std_specs::convert::FromSpecImpl<std::cell::BorrowError> for Error {
    open spec fn obeys_from_spec() -> bool {
        true
    }

    open spec fn from_spec(err: std::cell::BorrowError) -> Error {
        Error::Borrow(err)
    }
}

impl From<std::cell::BorrowMutError> for Error {
    fn from(err: std::cell::BorrowMutError) -> (r: Error) {
        Error::BorrowMut(err)
    }
}

impl vstd::std_specs::convert::FromSpecImpl<std::cell::BorrowMutError> for Error {
    open spec fn obeys_from_spec() -> bool {
        true
    }

    open spec fn from_spec(err: std::cell::BorrowMutError) -> Error {
        Error::BorrowMut(err)
    }
}

} // verus!
