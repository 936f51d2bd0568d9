use git_multi_index::easy::state::borrow::Error as StateError;
use git_multi_index::easy::state::{exclusive, shared};
use git_multi_index::easy::{borrow, Access, Repository, State};
use git_multi_index::hash::Kind;

fn repository() -> Repository {
    Repository { git_dir: b"repo/.git".to_vec(), work_tree: Some(b"repo".to_vec()), object_hash: Kind::Sha1 }
}

#[test]
fn a_borrowed_repository_gives_read_access_only() {
    let repo = repository();
    let easy = repo.to_easy();
    assert_eq!(easy.repo().expect("read access").git_dir, b"repo/.git".to_vec());
    assert!(easy.repo_mut().is_err());
    let other = easy.clone();
    assert_eq!(other.repo.git_dir, b"repo/.git".to_vec());
}

#[test]
fn a_shared_repository_gives_read_access_only() {
    let easy = repository().into_easy();
    assert_eq!(easy.repo().expect("read access").work_tree, Some(b"repo".to_vec()));
    assert!(easy.repo_mut().is_err());
    let other = easy.clone();
    assert!(std::rc::Rc::ptr_eq(&easy.repo, &other.repo));

    let easy = repository().into_easy_arc();
    assert_eq!(easy.repo().expect("read access").work_tree, Some(b"repo".to_vec()));
    assert!(easy.repo_mut().is_err());
    let other = easy.clone();
    assert!(std::sync::Arc::ptr_eq(&easy.repo, &other.repo));
}

#[test]
fn a_locked_repository_gives_write_access() {
    let easy = repository().into_easy_arc_exclusive();
    {
        let mut repo = easy.repo_mut().expect("write access");
        repo.work_tree = None;
    }
    assert_eq!(easy.repo().expect("read access").work_tree, None);
    assert_eq!(easy.repo().expect("read access").git_dir, b"repo/.git".to_vec());
}

#[test]
fn state_is_borrowed_part_by_part() {
    let state = State::default();
    {
        let mut buf = state.try_borrow_mut_buf().expect("free");
        buf.push(1);
        assert!(matches!(state.try_borrow_buf(), Err(StateError::Borrow(_))));
        assert!(matches!(state.try_borrow_mut_buf(), Err(StateError::BorrowMut(_))));
        assert!(state.try_borrow_packed_refs().expect("another part").is_none());
        assert!(state.try_borrow_mut_pack_cache().is_ok());
    }
    let first = state.try_borrow_buf().expect("free again");
    let second = state.try_borrow_buf().expect("shared");
    assert_eq!(*first, vec![1]);
    assert_eq!(*second, vec![1]);
    assert!(matches!(state.try_borrow_mut_buf(), Err(StateError::BorrowMut(_))));
    let refs = state.try_borrow_packed_refs().expect("free");
    assert!(refs.is_none());
    let cache = state.try_borrow_mut_pack_cache().expect("free");
    assert!(matches!(state.try_borrow_mut_pack_cache(), Err(StateError::BorrowMut(_))));
    drop(cache);
}

#[test]
fn errors_in_words() {
    assert_eq!(borrow::Error.message(), "Could not borrow the repository as it's already borrowed mutably");
    let state = State::default();
    let _held = state.try_borrow_mut_buf().expect("free");
    match state.try_borrow_buf() {
        Err(e) => assert_eq!(e.message(), "A state member could not be borrowed"),
        Ok(_) => panic!("the buffer is borrowed"),
    }
    match state.try_borrow_mut_buf() {
        Err(e) => assert_eq!(e.message(), "A state member could not be mutably borrowed"),
        Ok(_) => panic!("the buffer is borrowed"),
    };
}

#[test]
fn a_handle_has_state_of_its_own() {
    let repo = repository();
    let easy = repo.to_easy();
    let _held = easy.state().try_borrow_mut_buf().expect("free");
    let other = easy.clone();
    assert!(other.state().try_borrow_mut_buf().is_ok());
}

#[test]
fn a_tried_borrow_is_handed_on() {
    let cell = std::cell::RefCell::new(vec![1u8]);
    {
        let mut held = exclusive(cell.try_borrow_mut()).expect("free");
        held.push(2);
        assert!(matches!(shared(cell.try_borrow()), Err(StateError::Borrow(_))));
        assert!(matches!(exclusive(cell.try_borrow_mut()), Err(StateError::BorrowMut(_))));
    }
    let first = shared(cell.try_borrow()).expect("free again");
    assert_eq!(*first, vec![1u8, 2]);
    assert!(matches!(exclusive(cell.try_borrow_mut()), Err(StateError::BorrowMut(_))));
    assert!(shared(cell.try_borrow()).is_ok());
}

#[test]
fn each_locked_handle_has_its_own_lock() {
    let one = repository().into_easy_arc_exclusive();
    let two = repository().into_easy_arc_exclusive();
    {
        let mut repo = one.repo_mut().expect("write access");
        repo.git_dir = b"elsewhere".to_vec();
    }
    assert_eq!(one.repo().expect("read access").git_dir, b"elsewhere".to_vec());
    assert_eq!(two.repo().expect("read access").git_dir, b"repo/.git".to_vec());
    assert_eq!(two.repo().expect("read access").work_tree, Some(b"repo".to_vec()));
}
