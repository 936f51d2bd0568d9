//! How each kind of handle is made and what access it gives.
use crate::easy::{
    borrow, made_with, new_lock, read_arc, reader_lock, write_arc, writer_lock, Access, Easy,
    EasyArc, EasyArcExclusive, EasyShared, ReadGuard, Repository, State, WriteGuard,
};
use std::rc::Rc;
use std::sync::Arc;
use vstd::prelude::*;

verus! {

impl Clone for Easy {
    /// Another handle on the same repository, with fresh state of its own.
    fn clone(&self) -> (r: Self)
        ensures
            r.repo == self.repo,
    {
        Easy { repo: Rc::clone(&self.repo), state: Default::default() }
    }
}

impl Clone for EasyArc {
    /// Another handle on the same repository, with fresh state of its own.
    fn clone(&self) -> (r: Self)
        ensures
            r.repo == self.repo,
    {
        EasyArc { repo: Arc::clone(&self.repo), state: Default::default() }
    }
}

impl<'repo> Clone for EasyShared<'repo> {
    /// Another handle on the same repository, with fresh state of its own.
    fn clone(&self) -> (r: Self)
        ensures
            r.repo == self.repo,
    {
        EasyShared { repo: self.repo, state: Default::default() }
    }
}

impl From<Repository> for Easy {
    /// The handle takes the repository as it is.
    fn from(repo: Repository) -> (r: Self)
        ensures
            *r.repo == repo,
    {
        Easy { repo: Rc::new(repo), state: Default::default() }
    }
}

impl vstd::std_specs::convert::FromSpecImpl<Repository> for Easy {
    open spec fn obeys_from_spec() -> bool {
        false
    }

    open spec fn from_spec(repo: Repository) -> Self {
        arbitrary()
    }
}

impl From<Repository> for EasyArc {
    /// The handle takes the repository as it is.
    fn from(repo: Repository) -> (r: Self)
        ensures
            *r.repo == repo,
    {
        EasyArc { repo: Arc::new(repo), state: Default::default() }
    }
}

impl vstd::std_specs::convert::FromSpecImpl<Repository> for EasyArc {
    open spec fn obeys_from_spec() -> bool {
        false
    }

    open spec fn from_spec(repo: Repository) -> Self {
        arbitrary()
    }
}

impl From<Repository> for EasyArcExclusive {
    /// The handle puts the repository behind a lock.
    fn from(repo: Repository) -> (r: Self)
        ensures
            made_with(*r.repo) == repo,
    {
        EasyArcExclusive { repo: Arc::new(new_lock(repo)), state: Default::default() }
    }
}

impl vstd::std_specs::convert::FromSpecImpl<Repository> for EasyArcExclusive {
    open spec fn obeys_from_spec() -> bool {
        false
    }

    open spec fn from_spec(repo: Repository) -> Self {
        arbitrary()
    }
}

impl Repository {
    /// A handle that borrows this repository.
    pub fn to_easy(&self) -> (r: EasyShared<'_>)
        ensures
            *r.repo == *self,
    {
        EasyShared { repo: self, state: Default::default() }
    }

    /// A handle that owns this repository and shares it within one thread.
    pub fn into_easy(self) -> (r: Easy)
        ensures
            *r.repo == self,
    {
        self.into()
    }

    /// A handle that owns this repository and shares it among threads.
    pub fn into_easy_arc(self) -> (r: EasyArc)
        ensures
            *r.repo == self,
    {
        self.into()
    }

    /// A handle that owns this repository and shares it among threads behind
    /// a lock, which is made with this repository.
    pub fn into_easy_arc_exclusive(self) -> (r: EasyArcExclusive)
        ensures
            made_with(*r.repo) == self,
    {
        self.into()
    }
}

impl<'repo> Access for EasyShared<'repo> {
    type RepoRef = &'repo Repository;

    type RepoRefMut = &'repo mut Repository;

    fn repo(&self) -> (r: Result<Self::RepoRef, borrow::Error>)
        ensures
            r == Ok::<&Repository, borrow::Error>(self.repo),
    {
        Ok(self.repo)
    }

    fn repo_mut(&self) -> (r: Result<Self::RepoRefMut, borrow::Error>)
        ensures
            r is Err,
    {
        Err(borrow::Error)
    }

    fn state(&self) -> (r: &State)
        ensures
            *r == self.state,
    {
        &self.state
    }
}

impl Access for Easy {
    type RepoRef = Rc<Repository>;

    type RepoRefMut = WriteGuard;

    fn repo(&self) -> (r: Result<Self::RepoRef, borrow::Error>)
        ensures
            r == Ok::<Rc<Repository>, borrow::Error>(self.repo),
    {
        Ok(self.repo.clone())
    }

    fn repo_mut(&self) -> (r: Result<Self::RepoRefMut, borrow::Error>)
        ensures
            r is Err,
    {
        Err(borrow::Error)
    }

    fn state(&self) -> (r: &State)
        ensures
            *r == self.state,
    {
        &self.state
    }
}

impl Access for EasyArc {
    type RepoRef = Arc<Repository>;

    type RepoRefMut = WriteGuard;

    fn repo(&self) -> (r: Result<Self::RepoRef, borrow::Error>)
        ensures
            r == Ok::<Arc<Repository>, borrow::Error>(self.repo),
    {
        Ok(self.repo.clone())
    }

    fn repo_mut(&self) -> (r: Result<Self::RepoRefMut, borrow::Error>)
        ensures
            r is Err,
    {
        Err(borrow::Error)
    }

    fn state(&self) -> (r: &State)
        ensures
            *r == self.state,
    {
        &self.state
    }
}

impl Access for EasyArcExclusive {
    type RepoRef = ReadGuard;

    type RepoRefMut = WriteGuard;

    /// Read access through the lock of this handle, once no writer holds it.
    fn repo(&self) -> (r: Result<Self::RepoRef, borrow::Error>)
        ensures
            r is Ok,
            reader_lock(r->Ok_0) == self.repo,
    {
        Ok(read_arc(&self.repo))
    }

    /// Write access through the lock of this handle, once nobody holds it.
    fn repo_mut(&self) -> (r: Result<Self::RepoRefMut, borrow::Error>)
        ensures
            r is Ok,
            writer_lock(r->Ok_0) == self.repo,
    {
        Ok(write_arc(&self.repo))
    }

    fn state(&self) -> (r: &State)
        ensures
            *r == self.state,
    {
        &self.state
    }
}

} // verus!
