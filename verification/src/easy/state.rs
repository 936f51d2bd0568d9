//! Borrowing the parts of a handle's state.
use crate::easy::{PackCache, PackedBuffer, State};
use std::cell::{Ref, RefMut};
use vstd::prelude::*;

pub mod borrow;

verus! {

/// What a shared borrow that was tried gives: the borrow itself, or the
/// error that says that the part is borrowed exclusively.
pub fn shared<'a, T>(outcome: Result<Ref<'a, T>, std::cell::BorrowError>) -> (r: Result<
    Ref<'a, T>,
    borrow::Error,
>)
    ensures
        outcome matches Ok(b) ==> r == Ok::<Ref<'a, T>, borrow::Error>(b),
        outcome matches Err(e) ==> r == Err::<Ref<'a, T>, borrow::Error>(borrow::Error::Borrow(e)),
{
    match outcome {
        Ok(b) => Ok(b),
        Err(err) => Err(borrow::Error::from(err)),
    }
}

/// What an exclusive borrow that was tried gives: the borrow itself, or the
/// error that says that the part is borrowed already.
pub fn exclusive<'a, T>(outcome: Result<RefMut<'a, T>, std::cell::BorrowMutError>) -> (r: Result<
    RefMut<'a, T>,
    borrow::Error,
>)
    ensures
        outcome matches Ok(b) ==> r == Ok::<RefMut<'a, T>, borrow::Error>(b),
        outcome matches Err(e) ==> r == Err::<RefMut<'a, T>, borrow::Error>(
            borrow::Error::BorrowMut(e),
        ),
{
    match outcome {
        Ok(b) => Ok(b),
        Err(err) => Err(borrow::Error::from(err)),
    }
}

impl State {
    /// Borrows the packed references for reading.
    pub fn try_borrow_packed_refs(&self) -> (r: Result<Ref<'_, Option<PackedBuffer>>, borrow::Error>)
        ensures
            r matches Err(e) ==> e is Borrow,
    {
        shared(self.packed_refs.try_borrow())
    }

    /// Borrows the cache for objects for writing.
    pub fn try_borrow_mut_pack_cache(&self) -> (r: Result<RefMut<'_, PackCache>, borrow::Error>)
        ensures
            r matches Err(e) ==> e is BorrowMut,
    {
        exclusive(self.pack_cache.try_borrow_mut())
    }

    /// Borrows the memory for objects for writing.
    pub fn try_borrow_mut_buf(&self) -> (r: Result<RefMut<'_, Vec<u8>>, borrow::Error>)
        ensures
            r matches Err(e) ==> e is BorrowMut,
    {
        exclusive(self.buf.try_borrow_mut())
    }

    /// Borrows the memory for objects for reading.
    pub fn try_borrow_buf(&self) -> (r: Result<Ref<'_, Vec<u8>>, borrow::Error>)
        ensures
            r matches Err(e) ==> e is Borrow,
    {
        shared(self.buf.try_borrow())
    }
}

} // verus!
