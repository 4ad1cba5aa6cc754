use gimark::ancestry::{analyze, MergeClass};
use gimark::commands::{resolve_conflict, ConflictResolution};
use gimark::error::SyncError;
use gimark::git_operations::GitOperations;
use gimark::index::ConflictEntry;
use gimark::merge::merge;
use gimark::repository::{Found, Repository};
use gimark::revision::Identity;
use gimark::sync::{pull, push_changes, PullOutcome};
use gimark::transport::{fetch, push, transfer, Credential, Remote};
use gimark::tree::Tree;

fn tree(files: &[(&str, &str)]) -> Tree {
    let mut t = Tree::new();
    for (p, c) in files {
        t.put(p.to_string(), c.as_bytes().to_vec());
    }
    t
}

fn me() -> Identity {
    Identity { name: "Local".to_string(), email: "local@example.com".to_string() }
}

fn other() -> Identity {
    Identity { name: "Other".to_string(), email: "other@example.com".to_string() }
}

fn write(repo: &mut Repository, files: &[(&str, &str)], message: &str, who: &Identity, ts: u64) -> String {
    let paths: Vec<String> = files.iter().map(|(p, _)| p.to_string()).collect();
    repo.stage(&tree(files), &paths).unwrap();
    repo.commit(message, who, ts).unwrap()
}

fn content(repo: &Repository, path: &str) -> Option<String> {
    repo.index.tree().get(path).map(|c| String::from_utf8(c.clone()).unwrap())
}

/// A remote that holds the root R0 (a.txt = "1"), a local clone of it, and
/// a second clone that stands for whoever else writes to the remote.
fn shared_root() -> (Remote, Repository, Repository, String) {
    let mut seed = Repository::init("seed");
    let r0 = write(&mut seed, &[("a.txt", "1")], "root", &other(), 100);
    let mut remote = Remote::new();
    assert_eq!(push_changes(&mut seed, &mut remote), Ok(()));
    assert_eq!(remote.tip, Some(r0.clone()));
    let local = GitOperations::clone_repo(&remote, "local", Found::Nothing).ok().unwrap();
    let theirs = GitOperations::clone_repo(&remote, "theirs", Found::Nothing).ok().unwrap();
    assert_eq!(local.current_head(), Ok(r0.clone()));
    assert_eq!(content(&local, "a.txt"), Some("1".to_string()));
    (remote, local, theirs, r0)
}

#[test]
fn clone_of_an_empty_remote_is_an_empty_repository() {
    let remote = Remote::new();
    let repo = GitOperations::clone_repo(&remote, "c", Found::Nothing).ok().unwrap();
    assert_eq!(repo.path, "c");
    assert_eq!(repo.history.len(), 0);
    assert_eq!(repo.head, None);
}

#[test]
fn pull_from_a_remote_without_a_branch_is_not_found() {
    let remote = Remote::new();
    let mut repo = Repository::init("r");
    assert!(matches!(pull(&mut repo, &remote, &me(), 1), Err(SyncError::NotFoundError)));
    assert!(matches!(fetch(&mut repo, &remote), Err(SyncError::NotFoundError)));
}

#[test]
fn pull_with_nothing_new_is_up_to_date() {
    let (remote, mut local, _theirs, r0) = shared_root();
    assert!(matches!(pull(&mut local, &remote, &me(), 1), Ok(PullOutcome::UpToDate)));
    assert_eq!(local.current_head(), Ok(r0));
    assert_eq!(local.history.len(), 1);
}

#[test]
fn pull_when_local_is_ahead_is_up_to_date() {
    let (remote, mut local, _theirs, _r0) = shared_root();
    let r1 = write(&mut local, &[("a.txt", "2")], "ahead", &me(), 200);
    assert!(matches!(pull(&mut local, &remote, &me(), 1), Ok(PullOutcome::UpToDate)));
    assert_eq!(local.current_head(), Ok(r1));
}

#[test]
fn pull_of_a_descendant_fast_forwards_without_a_new_revision() {
    let (mut remote, mut local, mut theirs, r0) = shared_root();
    let r2 = write(&mut theirs, &[("b.txt", "x")], "theirs", &other(), 200);
    assert_eq!(push_changes(&mut theirs, &mut remote), Ok(()));

    assert_eq!(analyze(&theirs.history, &r0, &r2), Ok(MergeClass::FastForward));
    match pull(&mut local, &remote, &me(), 300) {
        Ok(PullOutcome::FastForwarded(id)) => assert_eq!(id, r2),
        _ => panic!("expected a fast-forward"),
    }
    assert_eq!(local.current_head(), Ok(r2.clone()));
    assert_eq!(local.remote_head, Some(r2));
    assert_eq!(local.merge_head, None);
    // only what the remote holds: nothing was committed locally
    assert_eq!(local.history.len(), 2);
    assert_eq!(remote.history.len(), 2);
    assert_eq!(content(&local, "a.txt"), Some("1".to_string()));
    assert_eq!(content(&local, "b.txt"), Some("x".to_string()));
}

#[test]
fn divergent_changes_to_different_files_merge_and_commit() {
    let (mut remote, mut local, mut theirs, r0) = shared_root();
    let r1 = write(&mut local, &[("a.txt", "2")], "local", &me(), 200);
    let r2 = write(&mut theirs, &[("b.txt", "x")], "remote", &other(), 210);
    assert_eq!(push_changes(&mut theirs, &mut remote), Ok(()));

    assert_eq!(fetch(&mut local, &remote), Ok(r2.clone()));
    assert_eq!(analyze(&local.history, &r1, &r2), Ok(MergeClass::Divergent));
    let outcome = merge(&local.history, &r1, &r2).unwrap();
    assert_eq!(outcome.base, r0);
    assert_eq!(outcome.conflicted_paths, Vec::<String>::new());
    assert_eq!(outcome.index.tree().get("a.txt"), Some(&b"2".to_vec()));
    assert_eq!(outcome.index.tree().get("b.txt"), Some(&b"x".to_vec()));
    assert_eq!(outcome.index.tree().len(), 2);

    let merged = match pull(&mut local, &remote, &me(), 300) {
        Ok(PullOutcome::Merged(id)) => id,
        _ => panic!("expected a merge"),
    };
    assert_eq!(local.current_head(), Ok(merged.clone()));
    let rev = local.history.get(&merged).unwrap();
    assert_eq!(rev.parents, vec![r1, r2]);
    assert_eq!(rev.message, "Merge remote changes");
    assert_eq!(rev.author.name, "Local");
    assert_eq!(rev.timestamp, 300);
    assert_eq!(rev.tree.get("a.txt"), Some(&b"2".to_vec()));
    assert_eq!(rev.tree.get("b.txt"), Some(&b"x".to_vec()));
    assert_eq!(rev.tree.len(), 2);
    assert!(!local.has_conflicts());
    assert_eq!(local.merge_head, None);
    assert_eq!(local.history.len(), 4);
    // the merge can now be pushed
    assert_eq!(push_changes(&mut local, &mut remote), Ok(()));
    assert_eq!(remote.tip, Some(merged));
    assert_eq!(remote.history.len(), 4);
}

#[test]
fn divergent_changes_to_one_file_conflict_until_resolved() {
    let (mut remote, mut local, mut theirs, _r0) = shared_root();
    let r1 = write(&mut local, &[("a.txt", "mine")], "local", &me(), 200);
    let r2 = write(&mut theirs, &[("a.txt", "yours")], "remote", &other(), 210);
    assert_eq!(push_changes(&mut theirs, &mut remote), Ok(()));

    let list = match GitOperations::pull_from_remote(&mut local, &remote, 300) {
        Ok(PullOutcome::Conflicted(list)) => list,
        _ => panic!("expected conflicts"),
    };
    assert_eq!(
        list,
        vec![ConflictEntry { path: "a.txt".to_string(), local: true, remote: true, base: true }]
    );
    assert_eq!(GitOperations::check_for_conflicts(&local), Ok(true));
    assert_eq!(GitOperations::get_conflicted_files(&local), Ok(vec!["a.txt".to_string()]));
    assert_eq!(local.current_head(), Ok(r1.clone()));
    assert_eq!(local.merge_head, Some(r2.clone()));
    assert_eq!(local.history.len(), 3);

    assert_eq!(
        GitOperations::commit_changes(&mut local, "too early", 310),
        Err(SyncError::ConflictedIndexError)
    );
    assert_eq!(local.current_head(), Ok(r1.clone()));

    let choice = ConflictResolution {
        note_id: "a.txt".to_string(),
        resolution_type: "use_theirs".to_string(),
        content: None,
    };
    assert_eq!(resolve_conflict(&mut local, &choice), Ok(()));
    assert_eq!(GitOperations::check_for_conflicts(&local), Ok(false));
    assert_eq!(content(&local, "a.txt"), Some("yours".to_string()));

    let merged = GitOperations::commit_changes(&mut local, "resolved", 320).unwrap();
    let rev = local.history.get(&merged).unwrap();
    assert_eq!(rev.parents, vec![r1, r2]);
    assert_eq!(rev.tree.get("a.txt"), Some(&b"yours".to_vec()));
    assert_eq!(local.merge_head, None);
    assert_eq!(local.history.len(), 4);
}

#[test]
fn push_after_the_remote_advanced_is_refused_and_leaves_the_remote_alone() {
    let (mut remote, mut local, mut theirs, _r0) = shared_root();
    let r2 = write(&mut theirs, &[("b.txt", "x")], "remote", &other(), 200);
    assert_eq!(push_changes(&mut theirs, &mut remote), Ok(()));
    let r1 = write(&mut local, &[("a.txt", "2")], "local", &me(), 210);

    assert_eq!(
        GitOperations::push_to_remote(&mut local, &mut remote),
        Err(SyncError::NonFastForwardError)
    );
    assert_eq!(remote.tip, Some(r2.clone()));
    assert_eq!(remote.history.len(), 2);
    assert!(!remote.history.contains(&r1));
    // the transport on its own refuses as well
    assert_eq!(push(&local, &mut remote, &r1), Err(SyncError::NonFastForwardError));
    assert_eq!(remote.tip, Some(r2));
}

#[test]
fn push_when_local_is_behind_is_refused() {
    let (mut remote, mut local, mut theirs, r0) = shared_root();
    let r2 = write(&mut theirs, &[("b.txt", "x")], "remote", &other(), 200);
    assert_eq!(push_changes(&mut theirs, &mut remote), Ok(()));
    assert_eq!(push_changes(&mut local, &mut remote), Err(SyncError::NonFastForwardError));
    assert_eq!(remote.tip, Some(r2));
    assert_eq!(local.current_head(), Ok(r0));
}

#[test]
fn push_of_an_empty_repository_fails() {
    let mut remote = Remote::new();
    let mut repo = Repository::init("r");
    assert_eq!(push_changes(&mut repo, &mut remote), Err(SyncError::EmptyRepositoryError));
    assert_eq!(remote.tip, None);
}

#[test]
fn push_of_an_unknown_head_is_not_found() {
    let (mut remote, local, _theirs, r0) = shared_root();
    assert_eq!(push(&local, &mut remote, "unknown"), Err(SyncError::NotFoundError));
    assert_eq!(remote.tip, Some(r0));
}

#[test]
fn push_hands_over_what_the_remote_lacks() {
    let (mut remote, mut local, _theirs, _r0) = shared_root();
    let _r1 = write(&mut local, &[("a.txt", "2")], "one", &me(), 200);
    let r2 = write(&mut local, &[("c.txt", "3")], "two", &me(), 210);
    assert_eq!(push_changes(&mut local, &mut remote), Ok(()));
    assert_eq!(remote.tip, Some(r2.clone()));
    assert_eq!(remote.history.len(), 3);
    assert_eq!(local.remote_head, Some(r2));
    // pushing again changes nothing
    assert_eq!(push_changes(&mut local, &mut remote), Ok(()));
    assert_eq!(remote.history.len(), 3);
}

#[test]
fn fetch_twice_gives_the_same_head_and_writes_nothing_twice() {
    let (mut remote, mut local, mut theirs, _r0) = shared_root();
    write(&mut theirs, &[("b.txt", "x")], "one", &other(), 200);
    let tip = write(&mut theirs, &[("b.txt", "y")], "two", &other(), 210);
    assert_eq!(push_changes(&mut theirs, &mut remote), Ok(()));

    assert_eq!(fetch(&mut local, &remote), Ok(tip.clone()));
    let after_first = local.history.len();
    assert_eq!(after_first, 3);
    assert_eq!(fetch(&mut local, &remote), Ok(tip.clone()));
    assert_eq!(local.history.len(), after_first);
    assert_eq!(local.remote_head, Some(tip));
    // a fetch moves neither the head nor the index
    assert_eq!(content(&local, "b.txt"), None);
}

#[test]
fn fetch_brings_only_what_leads_to_the_tip() {
    let (mut remote, _local, mut theirs, r0) = shared_root();
    let r2 = write(&mut theirs, &[("b.txt", "x")], "kept", &other(), 200);
    assert_eq!(push_changes(&mut theirs, &mut remote), Ok(()));
    // the remote also holds a revision that its branch does not lead to
    let mut stray = GitOperations::clone_repo(&remote, "stray", Found::Nothing).ok().unwrap();
    stray.head = Some(r0.clone());
    stray.index = gimark::index::WorkingIndex::from_tree(&tree(&[("a.txt", "1")]));
    let lost = write(&mut stray, &[("z.txt", "z")], "stray", &other(), 205);
    let slot = stray.history.find(&lost).unwrap();
    transfer(&stray.history, slot, &mut remote.history);
    assert_eq!(remote.history.len(), 3);

    let mut fresh = Repository::init("fresh");
    assert_eq!(fetch(&mut fresh, &remote), Ok(r2.clone()));
    assert_eq!(fresh.history.len(), 2);
    assert!(fresh.history.contains(&r0));
    assert!(fresh.history.contains(&r2));
    assert!(!fresh.history.contains(&lost));
}

#[test]
fn pull_of_unrelated_histories_fails_and_keeps_the_local_state() {
    let mut a = Repository::init("a");
    let ra = write(&mut a, &[("a.txt", "1")], "a", &me(), 100);
    let mut b = Repository::init("b");
    let rb = write(&mut b, &[("b.txt", "1")], "b", &other(), 100);
    let mut remote = Remote::new();
    assert_eq!(push_changes(&mut b, &mut remote), Ok(()));

    assert!(matches!(pull(&mut a, &remote, &me(), 200), Err(SyncError::MergeBaseNotFoundError)));
    assert_eq!(a.current_head(), Ok(ra.clone()));
    assert_eq!(a.merge_head, None);
    assert_eq!(content(&a, "a.txt"), Some("1".to_string()));
    assert_eq!(content(&a, "b.txt"), None);
    assert_eq!(a.remote_head, Some(rb.clone()));
    assert!(matches!(merge(&a.history, &ra, &rb), Err(SyncError::MergeBaseNotFoundError)));
    assert!(matches!(merge(&a.history, &ra, "unknown"), Err(SyncError::NotFoundError)));
}

#[test]
fn a_token_is_presented_unchanged_under_the_fixed_user_name() {
    let c = Credential::bearer("token-123");
    assert_eq!(c.username, "x-oauth-basic");
    assert_eq!(c.password, "token-123");
    let empty = Credential::bearer("");
    assert_eq!(empty.username, "x-oauth-basic");
    assert_eq!(empty.password, "");
}

#[test]
fn clone_where_anything_stands_is_refused() {
    let (remote, local, _theirs, _r0) = shared_root();
    assert!(matches!(
        GitOperations::clone_repo(&remote, "taken", Found::Other),
        Err(SyncError::StorageError)
    ));
    assert!(matches!(
        GitOperations::clone_repo(&remote, "local", Found::Repository(local)),
        Err(SyncError::StorageError)
    ));
}

#[test]
fn push_touches_nothing_local_but_the_tracking_reference() {
    let (mut remote, mut local, mut theirs, _r0) = shared_root();
    let r2 = write(&mut theirs, &[("a.txt", "yours")], "remote", &other(), 200);
    assert_eq!(push_changes(&mut theirs, &mut remote), Ok(()));
    let r1 = write(&mut local, &[("a.txt", "mine")], "local", &me(), 210);
    // a merge is pending, with its conflict unresolved
    assert!(matches!(pull(&mut local, &remote, &me(), 220), Ok(PullOutcome::Conflicted(_))));
    let held = local.history.len();
    assert_eq!(local.merge_head, Some(r2.clone()));

    assert_eq!(push_changes(&mut local, &mut remote), Err(SyncError::NonFastForwardError));
    assert_eq!(local.current_head(), Ok(r1));
    assert_eq!(local.merge_head, Some(r2.clone()));
    assert_eq!(local.remote_head, Some(r2.clone()));
    assert_eq!(local.history.len(), held);
    assert!(local.has_conflicts());
    assert_eq!(remote.tip, Some(r2));
    assert_eq!(remote.history.len(), 2);
}
