use gimark::error::{failure_of, Failure, SyncError};
use gimark::git_operations::GitOperations;
use gimark::index::Resolution;
use gimark::naming::{encode_content, name_content};
use gimark::repository::{same_names, same_revision, Found, Repository};
use gimark::revision::{copy_ids, Identity, Revision};
use gimark::tree::Tree;

fn tree(files: &[(&str, &str)]) -> Tree {
    let mut t = Tree::new();
    for (p, c) in files {
        t.put(p.to_string(), c.as_bytes().to_vec());
    }
    t
}

fn paths(ps: &[&str]) -> Vec<String> {
    ps.iter().map(|p| p.to_string()).collect()
}

fn gimark() -> Identity {
    Identity { name: "Gimark".to_string(), email: "gimark@example.com".to_string() }
}

#[test]
fn init_gives_an_empty_repository() {
    let repo = GitOperations::init_repo("/tmp/notes", Found::Nothing).ok().unwrap();
    assert_eq!(repo.path, "/tmp/notes");
    assert_eq!(repo.history.len(), 0);
    assert_eq!(repo.head, None);
    assert_eq!(repo.remote_head, None);
    assert_eq!(repo.merge_head, None);
    assert_eq!(repo.index.tree().len(), 0);
    assert_eq!(GitOperations::check_for_conflicts(&repo), Ok(false));
    assert_eq!(GitOperations::get_conflicted_files(&repo), Ok(vec![]));
}

#[test]
fn current_head_of_an_empty_repository_fails() {
    let repo = Repository::init("/tmp/notes");
    assert_eq!(repo.current_head(), Err(SyncError::EmptyRepositoryError));
}

#[test]
fn stage_takes_the_content_of_the_working_directory() {
    let mut repo = Repository::init("r");
    let wt = tree(&[("a.txt", "1"), ("b.txt", "2"), ("c.txt", "3")]);
    assert_eq!(GitOperations::add_files(&mut repo, &wt, &paths(&["c.txt", "a.txt"])), Ok(()));
    assert_eq!(repo.index.tree().len(), 2);
    assert_eq!(repo.index.tree().get("a.txt"), Some(&b"1".to_vec()));
    assert_eq!(repo.index.tree().get("c.txt"), Some(&b"3".to_vec()));
    assert_eq!(repo.index.tree().get("b.txt"), None);
}

#[test]
fn stage_of_a_missing_path_is_not_found_and_stages_nothing() {
    let mut repo = Repository::init("r");
    let wt = tree(&[("a.txt", "1")]);
    assert_eq!(
        repo.stage(&wt, &paths(&["a.txt", "missing.txt"])),
        Err(SyncError::NotFoundError)
    );
    assert_eq!(repo.index.tree().len(), 0);
}

#[test]
fn stage_replaces_what_was_staged_under_the_path() {
    let mut repo = Repository::init("r");
    repo.stage(&tree(&[("a.txt", "1")]), &paths(&["a.txt"])).unwrap();
    repo.stage(&tree(&[("a.txt", "2")]), &paths(&["a.txt"])).unwrap();
    assert_eq!(repo.index.tree().get("a.txt"), Some(&b"2".to_vec()));
    assert_eq!(repo.index.tree().len(), 1);
}

#[test]
fn the_content_of_a_revision_is_encoded_field_by_field() {
    let data = encode_content(&vec![], &tree(&[("a.txt", "1")]), &gimark(), 1_700_000_000, "first");
    let expected: Vec<u8> = vec![
        1, 0, 0, 0, 0, 0, 0, 0, 5, 0, 0, 0, 0, 0, 0, 0, 97, 46, 116, 120, 116, 1, 0, 0, 0, 0, 0, 0,
        0, 49, 0, 0, 0, 0, 0, 0, 0, 0, 6, 0, 0, 0, 0, 0, 0, 0, 71, 105, 109, 97, 114, 107, 18, 0, 0,
        0, 0, 0, 0, 0, 103, 105, 109, 97, 114, 107, 64, 101, 120, 97, 109, 112, 108, 101, 46, 99,
        111, 109, 0, 241, 83, 101, 0, 0, 0, 0, 5, 0, 0, 0, 0, 0, 0, 0, 102, 105, 114, 115, 116,
    ];
    assert_eq!(data, expected);
}

#[test]
fn a_revision_is_named_by_the_object_name_of_its_content() {
    assert_eq!(
        name_content(&vec![]),
        Some("dcf5b16e76cce7425d0beaef62d79a7d10fce1f5".to_string())
    );
    let data = encode_content(&vec![], &tree(&[("a.txt", "1")]), &gimark(), 1_700_000_000, "first");
    assert_eq!(
        name_content(&data),
        Some("84d000892802a861ce980fc1bcb9bfaf4e29c878".to_string())
    );
}

#[test]
fn commit_names_the_root_and_its_child_by_their_content() {
    let mut repo = Repository::init("r");
    repo.stage(&tree(&[("a.txt", "1")]), &paths(&["a.txt"])).unwrap();
    let r0 = GitOperations::commit_changes(&mut repo, "first", 1_700_000_000).unwrap();
    assert_eq!(r0, "84d000892802a861ce980fc1bcb9bfaf4e29c878");
    assert_eq!(repo.current_head(), Ok(r0.clone()));
    assert_eq!(repo.history.len(), 1);
    assert_eq!(repo.history.revision_at(0).parents, Vec::<String>::new());

    repo.stage(&tree(&[("a.txt", "2")]), &paths(&["a.txt"])).unwrap();
    let r1 = GitOperations::commit_changes(&mut repo, "second", 1_700_000_100).unwrap();
    assert_eq!(r1, "39018f7a54c8f171c93d1be6a0615791cdd97eb5");
    let rev = repo.history.get(&r1).unwrap();
    assert_eq!(rev.parents, vec![r0]);
    assert_eq!(rev.message, "second");
    assert_eq!(rev.author.name, "Gimark");
    assert_eq!(rev.author.email, "gimark@example.com");
    assert_eq!(rev.timestamp, 1_700_000_100);
    assert_eq!(rev.tree.get("a.txt"), Some(&b"2".to_vec()));
    assert_eq!(repo.current_head(), Ok(r1));
}

#[test]
fn the_same_content_gets_the_same_name() {
    let mut one = Repository::init("one");
    let mut two = Repository::init("two");
    for repo in [&mut one, &mut two] {
        repo.stage(&tree(&[("b", "y"), ("a", "x")]), &paths(&["a", "b"])).unwrap();
    }
    let a = one.commit("m", &gimark(), 5).unwrap();
    let b = two.commit("m", &gimark(), 5).unwrap();
    assert_eq!(a, b);
    let mut three = Repository::init("three");
    three.stage(&tree(&[("b", "y"), ("a", "x")]), &paths(&["a", "b"])).unwrap();
    let c = three.commit("m", &gimark(), 6).unwrap();
    assert_ne!(a, c);
}

#[test]
fn a_commit_with_nothing_new_staged_keeps_the_tree_of_its_parent() {
    let mut repo = Repository::init("r");
    repo.stage(&tree(&[("a.txt", "1")]), &paths(&["a.txt"])).unwrap();
    let r0 = repo.commit("first", &gimark(), 1).unwrap();
    let r1 = repo.commit("again", &gimark(), 2).unwrap();
    assert_ne!(r0, r1);
    let parent = repo.history.get(&r0).unwrap();
    let child = repo.history.get(&r1).unwrap();
    assert_eq!(child.parents, vec![r0.clone()]);
    assert!(child.tree.same_as(&parent.tree));
    assert_eq!(repo.history.len(), 2);
}

#[test]
fn record_commit_refuses_a_name_that_holds_another_content() {
    let mut repo = Repository::init("r");
    repo.stage(&tree(&[("a.txt", "1")]), &paths(&["a.txt"])).unwrap();
    let r0 = repo.record_commit("name0".to_string(), "first", &gimark(), 1).unwrap();
    assert_eq!(r0, "name0");
    assert_eq!(
        repo.record_commit("name0".to_string(), "other", &gimark(), 2),
        Err(SyncError::StorageError)
    );
    assert_eq!(repo.history.len(), 1);
    assert_eq!(repo.current_head(), Ok("name0".to_string()));
}

#[test]
fn record_commit_does_not_add_a_held_revision_twice() {
    let mut repo = Repository::init("r");
    repo.stage(&tree(&[("a.txt", "1")]), &paths(&["a.txt"])).unwrap();
    repo.record_commit("root".to_string(), "first", &gimark(), 1).unwrap();
    repo.record_commit("child".to_string(), "second", &gimark(), 2).unwrap();
    // back on the root, the very same child is committed again
    repo.head = Some("root".to_string());
    assert_eq!(
        repo.record_commit("child".to_string(), "second", &gimark(), 2),
        Ok("child".to_string())
    );
    assert_eq!(repo.history.len(), 2);
    assert_eq!(repo.current_head(), Ok("child".to_string()));
}

#[test]
fn commit_while_conflicted_fails_and_changes_nothing() {
    let mut repo = Repository::init("r");
    repo.stage(&tree(&[("a.txt", "1")]), &paths(&["a.txt"])).unwrap();
    let r0 = repo.commit("first", &gimark(), 1).unwrap();
    repo.index.mark_conflict(
        "a.txt".to_string(),
        gimark::index::ConflictSides {
            base: Some(b"1".to_vec()),
            ours: Some(b"2".to_vec()),
            theirs: Some(b"3".to_vec()),
        },
    );
    assert_eq!(repo.commit("no", &gimark(), 2), Err(SyncError::ConflictedIndexError));
    assert_eq!(
        repo.record_commit("x".to_string(), "no", &gimark(), 2),
        Err(SyncError::ConflictedIndexError)
    );
    assert_eq!(repo.current_head(), Ok(r0));
    assert_eq!(repo.history.len(), 1);
    assert!(repo.has_conflicts());
    assert_eq!(repo.list_conflicts().len(), 1);
    assert_eq!(repo.resolve_conflict("a.txt", Resolution::UseRemote), Ok(()));
    assert!(!repo.has_conflicts());
    assert!(repo.commit("yes", &gimark(), 2).is_ok());
    assert_eq!(repo.index.tree().get("a.txt"), Some(&b"3".to_vec()));
}

#[test]
fn revisions_compare_by_name_and_content() {
    let make = |id: &str, msg: &str, ts: u64, parents: &[&str], files: &[(&str, &str)]| Revision {
        id: id.to_string(),
        parents: paths(parents),
        tree: tree(files),
        message: msg.to_string(),
        author: gimark(),
        timestamp: ts,
    };
    let a = make("i", "m", 1, &["p"], &[("f", "1")]);
    assert!(same_revision(&a, &a.duplicate()));
    assert!(!same_revision(&a, &make("j", "m", 1, &["p"], &[("f", "1")])));
    assert!(!same_revision(&a, &make("i", "n", 1, &["p"], &[("f", "1")])));
    assert!(!same_revision(&a, &make("i", "m", 2, &["p"], &[("f", "1")])));
    assert!(!same_revision(&a, &make("i", "m", 1, &["q"], &[("f", "1")])));
    assert!(!same_revision(&a, &make("i", "m", 1, &["p", "q"], &[("f", "1")])));
    assert!(!same_revision(&a, &make("i", "m", 1, &["p"], &[("f", "2")])));
    let mut b = make("i", "m", 1, &["p"], &[("f", "1")]);
    b.author.email = "other".to_string();
    assert!(!same_revision(&a, &b));
    assert!(same_names(&paths(&["a", "b"]), &paths(&["a", "b"])));
    assert!(!same_names(&paths(&["a", "b"]), &paths(&["b", "a"])));
    assert_eq!(copy_ids(&paths(&["a", "b"])), paths(&["a", "b"]));
}

#[test]
fn failures_of_the_storage_library_are_sorted_into_the_taxonomy() {
    assert_eq!(failure_of(-16, 34), SyncError::TransportError);
    assert_eq!(failure_of(-17, 16), SyncError::TransportError);
    assert_eq!(failure_of(-1, 12), SyncError::TransportError);
    assert_eq!(failure_of(-1, 23), SyncError::TransportError);
    assert_eq!(failure_of(-11, 4), SyncError::NonFastForwardError);
    assert_eq!(failure_of(-9, 4), SyncError::EmptyRepositoryError);
    assert_eq!(failure_of(-10, 22), SyncError::ConflictedIndexError);
    assert_eq!(failure_of(-13, 20), SyncError::ConflictedIndexError);
    assert_eq!(failure_of(-24, 22), SyncError::ConflictedIndexError);
    assert_eq!(failure_of(-3, 22), SyncError::MergeBaseNotFoundError);
    assert_eq!(failure_of(-3, 4), SyncError::NotFoundError);
    assert_eq!(failure_of(-3, 9), SyncError::NotFoundError);
    assert_eq!(failure_of(-1, 6), SyncError::StorageError);
    assert_eq!(failure_of(-33, 9), SyncError::StorageError);
    assert_eq!(failure_of(0, 0), SyncError::StorageError);
}

#[test]
fn every_failure_has_its_sentence() {
    assert_eq!(SyncError::StorageError.describe(), "the local repository is corrupt or unreadable");
    assert_eq!(SyncError::NotFoundError.describe(), "a path or a reference is absent");
    assert_eq!(SyncError::TransportError.describe(), "the remote could not be reached");
    assert_eq!(SyncError::NonFastForwardError.describe(), "the remote has diverged: pull first");
    assert_eq!(
        SyncError::MergeBaseNotFoundError.describe(),
        "the histories have nothing in common"
    );
    assert_eq!(SyncError::ConflictedIndexError.describe(), "conflicts are unresolved");
    assert_eq!(SyncError::EmptyRepositoryError.describe(), "nothing was committed yet");
}

#[test]
fn open_or_init_creates_opens_or_refuses() {
    let fresh = Repository::open_or_init("p", Found::Nothing).ok().unwrap();
    assert_eq!(fresh.path, "p");
    assert_eq!(fresh.history.len(), 0);
    assert_eq!(fresh.head, None);

    let mut held = Repository::init("held");
    held.stage(&tree(&[("a.txt", "1")]), &paths(&["a.txt"])).unwrap();
    let r0 = held.commit("first", &gimark(), 1).unwrap();
    let opened = Repository::open_or_init("p", Found::Repository(held)).ok().unwrap();
    assert_eq!(opened.path, "held");
    assert_eq!(opened.current_head(), Ok(r0));
    assert_eq!(opened.history.len(), 1);

    assert!(matches!(Repository::open_or_init("p", Found::Other), Err(SyncError::StorageError)));
}

#[test]
fn init_where_a_repository_stands_opens_it() {
    let mut held = Repository::init("held");
    held.stage(&tree(&[("a.txt", "1")]), &paths(&["a.txt"])).unwrap();
    let r0 = held.commit("first", &gimark(), 1).unwrap();
    held.stage(&tree(&[("b.txt", "2")]), &paths(&["b.txt"])).unwrap();
    let opened = GitOperations::init_repo("held", Found::Repository(held)).ok().unwrap();
    assert_eq!(opened.current_head(), Ok(r0));
    assert_eq!(opened.history.len(), 1);
    assert_eq!(opened.index.tree().get("a.txt"), Some(&b"1".to_vec()));
    assert_eq!(opened.index.tree().get("b.txt"), Some(&b"2".to_vec()));
}

#[test]
fn init_where_something_else_stands_is_refused() {
    assert!(matches!(
        GitOperations::init_repo("taken", Found::Other),
        Err(SyncError::StorageError)
    ));
}

#[test]
fn a_commit_of_a_changed_clean_index_succeeds() {
    let mut repo = Repository::init("r");
    repo.stage(&tree(&[("a.txt", "1")]), &paths(&["a.txt"])).unwrap();
    let r0 = repo.commit("first", &gimark(), 1).unwrap();
    repo.stage(&tree(&[("a.txt", "2"), ("b.txt", "x")]), &paths(&["a.txt", "b.txt"])).unwrap();
    let r1 = repo.commit("second", &gimark(), 2).unwrap();
    assert_eq!(repo.current_head(), Ok(r1.clone()));
    assert_eq!(repo.history.len(), 2);
    let rev = repo.history.get(&r1).unwrap();
    assert_eq!(rev.parents, vec![r0.clone()]);
    assert_eq!(rev.message, "second");
    assert_eq!(rev.tree.len(), 2);
    assert_eq!(rev.tree.get("a.txt"), Some(&b"2".to_vec()));
    assert_eq!(rev.tree.get("b.txt"), Some(&b"x".to_vec()));
    // what was held before is as it was
    let root = repo.history.get(&r0).unwrap();
    assert_eq!(root.tree.get("a.txt"), Some(&b"1".to_vec()));
    assert_eq!(root.message, "first");
}

#[test]
fn a_reported_failure_keeps_its_status_and_reason() {
    let f = Failure::reported(-16, 34, "401 Unauthorized");
    assert_eq!(f.kind, SyncError::TransportError);
    assert_eq!(f.status, -16);
    assert_eq!(f.reason, "401 Unauthorized");
    assert_eq!(
        f.describe("fetch"),
        "fetch: the remote could not be reached (401 Unauthorized)"
    );
    let g = Failure::reported(-1, 6, "could not find repository");
    assert_eq!(g.kind, SyncError::StorageError);
    assert_eq!(g.status, -1);
    assert_eq!(
        g.describe("open"),
        "open: the local repository is corrupt or unreadable (could not find repository)"
    );
}

#[test]
fn a_failure_of_the_engine_names_itself() {
    let f = Failure::of(SyncError::ConflictedIndexError);
    assert_eq!(f.kind, SyncError::ConflictedIndexError);
    assert_eq!(f.status, 0);
    assert_eq!(f.reason, "conflicts are unresolved");
    assert_eq!(f.describe("commit"), "commit: conflicts are unresolved (conflicts are unresolved)");
}
