//! Handles on a repository: the repository itself, shared in one of several
//! ways, together with state of the handle's own that is borrowed at run time.
//!
//! A handle that shares the repository without a lock can hand out read
//! access only. The one handle that holds it behind a lock hands out both.
use crate::hash::Kind;
use std::cell::RefCell;
use std::ops::{Deref, DerefMut};
use std::rc::Rc;
use std::sync::Arc;
use vstd::prelude::*;

pub mod borrow;
pub mod impls;
pub mod state;

verus! {

/// A cell whose content is borrowed at run time.
#[verifier::external_type_specification]
#[verifier::external_body]
#[verifier::reject_recursive_types(T)]
pub struct ExRefCell<T: ?Sized>(std::cell::RefCell<T>);

/// A shared borrow of the content of a cell.
#[verifier::external_type_specification]
#[verifier::external_body]
#[verifier::reject_recursive_types(T)]
pub struct ExRef<'b, T: ?Sized>(std::cell::Ref<'b, T>);

/// An exclusive borrow of the content of a cell.
#[verifier::external_type_specification]
#[verifier::external_body]
#[verifier::reject_recursive_types(T)]
pub struct ExRefMut<'b, T: ?Sized + 'b>(std::cell::RefMut<'b, T>);

/// The content of a cell is borrowed exclusively.
#[verifier::external_type_specification]
#[verifier::external_body]
pub struct ExBorrowError(std::cell::BorrowError);

/// The content of a cell is borrowed already.
#[verifier::external_type_specification]
#[verifier::external_body]
pub struct ExBorrowMutError(std::cell::BorrowMutError);

/// A lock that admits many readers or one writer.
#[verifier::external_type_specification]
#[verifier::external_body]
#[verifier::reject_recursive_types(R)]
#[verifier::reject_recursive_types(T)]
pub struct ExRwLock<R, T: ?Sized>(parking_lot::lock_api::RwLock<R, T>);

/// The lock's way of waiting.
#[verifier::external_type_specification]
#[verifier::external_body]
pub struct ExRawRwLock<const RECURSIVE: bool>(parking_lot::RawRwLock<RECURSIVE>);

/// Read access to a repository behind a shared lock, for as long as the
/// value lives. It holds a `parking_lot::lock_api::ArcRwLockReadGuard`.
#[verifier::external_body]
pub struct ReadGuard {
    inner: parking_lot::lock_api::ArcRwLockReadGuard<parking_lot::RawRwLock, Repository>,
}

/// Write access to a repository behind a shared lock, for as long as the
/// value lives. It holds a `parking_lot::lock_api::ArcRwLockWriteGuard`.
#[verifier::external_body]
pub struct WriteGuard {
    inner: parking_lot::lock_api::ArcRwLockWriteGuard<parking_lot::RawRwLock, Repository>,
}

impl Deref for ReadGuard {
    type Target = Repository;

    /// The guard's own `deref`: the repository as it is now.
    #[verifier::external_body]
    fn deref(&self) -> (r: &Repository) {
        &self.inner
    }
}

impl Deref for WriteGuard {
    type Target = Repository;

    /// The guard's own `deref`: the repository as it is now.
    #[verifier::external_body]
    fn deref(&self) -> (r: &Repository) {
        &self.inner
    }
}

impl DerefMut for WriteGuard {
    /// The guard's own `deref_mut`: the repository, to be changed in place.
    #[verifier::external_body]
    fn deref_mut(&mut self) -> (r: &mut Repository) {
        &mut self.inner
    }
}

/// The repository that a lock was made with. What the lock protects now may
/// differ, once write access was given.
pub uninterp spec fn made_with(lock: parking_lot::RwLock<Repository>) -> Repository;

/// The lock that a read guard holds, as `ArcRwLockReadGuard::rwlock` tells it.
pub uninterp spec fn reader_lock(guard: ReadGuard) -> Arc<parking_lot::RwLock<Repository>>;

/// The lock that a write guard holds, as `ArcRwLockWriteGuard::rwlock` tells it.
pub uninterp spec fn writer_lock(guard: WriteGuard) -> Arc<parking_lot::RwLock<Repository>>;

/// `parking_lot::RwLock::new`: a lock, made with the value to protect.
#[verifier::external_body]
pub(crate) fn new_lock(repo: Repository) -> (r: parking_lot::RwLock<Repository>)
    ensures
        made_with(r) == repo,
{
    parking_lot::RwLock::new(repo)
}

/// `parking_lot::RwLock::read_arc`: waits until no writer holds the lock,
/// then hands out read access. The guard holds the lock that it was asked of.
#[verifier::external_body]
pub(crate) fn read_arc(lock: &Arc<parking_lot::RwLock<Repository>>) -> (r: ReadGuard)
    ensures
        reader_lock(r) == *lock,
{
    ReadGuard { inner: lock.read_arc() }
}

/// `parking_lot::RwLock::write_arc`: waits until nobody holds the lock, then
/// hands out write access. The guard holds the lock that it was asked of.
#[verifier::external_body]
pub(crate) fn write_arc(lock: &Arc<parking_lot::RwLock<Repository>>) -> (r: WriteGuard)
    ensures
        writer_lock(r) == *lock,
{
    WriteGuard { inner: lock.write_arc() }
}

/// `std::cell::RefCell::new`: a cell that holds the value.
pub assume_specification<T>[ RefCell::<T>::new ](value: T) -> (r: RefCell<T>);

/// `std::cell::RefCell::try_borrow`: a shared borrow, unless the content is
/// borrowed exclusively at the moment.
pub assume_specification<T: ?Sized>[ RefCell::<T>::try_borrow ](cell: &RefCell<T>) -> (r: Result<
    std::cell::Ref<'_, T>,
    std::cell::BorrowError,
>);

/// `std::cell::RefCell::try_borrow_mut`: an exclusive borrow, unless the
/// content is borrowed at the moment.
pub assume_specification<T: ?Sized>[ RefCell::<T>::try_borrow_mut ](cell: &RefCell<T>) -> (r:
    Result<std::cell::RefMut<'_, T>, std::cell::BorrowMutError>);

/// A repository on disk.
#[derive(Debug)]
pub struct Repository {
    /// The path of the directory that holds the repository's data.
    pub git_dir: Vec<u8>,
    /// The path of the checked-out files, if there are any.
    pub work_tree: Option<Vec<u8>>,
    /// The kind of hash by which the repository names its objects.
    pub object_hash: Kind,
}

/// The references of a repository that are kept in one file, as read from it.
#[derive(Debug)]
pub struct PackedBuffer {
    /// The content of the file.
    pub data: Vec<u8>,
}

/// The cache for objects that were read from packs: one that keeps nothing.
#[derive(Debug)]
pub struct PackCache;

/// What a handle keeps for itself while it works on the repository. Each
/// part is borrowed on its own, so that the use of one does not bar another.
pub struct State {
    /// The packed references, once they were read.
    pub packed_refs: RefCell<Option<PackedBuffer>>,
    /// The cache for objects.
    pub pack_cache: RefCell<PackCache>,
    /// Memory to read objects into.
    pub buf: RefCell<Vec<u8>>,
}

impl Default for State {
    fn default() -> (r: State) {
        State {
            packed_refs: RefCell::new(None),
            pack_cache: RefCell::new(PackCache),
            buf: RefCell::new(Vec::new()),
        }
    }
}

/// A handle that borrows the repository.
pub struct EasyShared<'repo> {
    /// The repository.
    pub repo: &'repo Repository,
    /// The handle's own state.
    pub state: State,
}

/// A handle that shares the repository with other handles of one thread.
pub struct Easy {
    /// The repository.
    pub repo: Rc<Repository>,
    /// The handle's own state.
    pub state: State,
}

/// A handle that shares the repository with handles of other threads.
pub struct EasyArc {
    /// The repository.
    pub repo: Arc<Repository>,
    /// The handle's own state.
    pub state: State,
}

/// A handle that shares the repository with handles of other threads, behind
/// a lock, so that it can be changed.
pub struct EasyArcExclusive {
    /// The repository behind its lock.
    pub repo: Arc<parking_lot::RwLock<Repository>>,
    /// The handle's own state.
    pub state: State,
}

/// Access to a repository and to the state of the handle that gives it.
pub trait Access {
    /// What read access hands out.
    type RepoRef: Deref<Target = Repository>;

    /// What write access hands out.
    type RepoRefMut: DerefMut<Target = Repository>;

    /// Read access to the repository.
    fn repo(&self) -> Result<Self::RepoRef, borrow::Error>;

    /// Write access to the repository. Only a handle that holds the
    /// repository behind a lock gives it.
    fn repo_mut(&self) -> Result<Self::RepoRefMut, borrow::Error>;

    /// The state of the handle.
    fn state(&self) -> &State;
}

} // verus!
