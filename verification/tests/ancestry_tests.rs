use gimark::ancestry::{analyze, ancestor_of, ancestors_of, MergeClass};
use gimark::error::SyncError;
use gimark::history::History;
use gimark::merge_base::{merge_base, merge_base_at};
use gimark::revision::{Identity, Revision};
use gimark::tree::Tree;

fn rev(id: &str, parents: &[&str]) -> Revision {
    Revision {
        id: id.to_string(),
        parents: parents.iter().map(|p| p.to_string()).collect(),
        tree: Tree::new(),
        message: format!("revision {}", id),
        author: Identity { name: "n".to_string(), email: "e".to_string() },
        timestamp: 0,
    }
}

fn history(revs: &[(&str, &[&str])]) -> History {
    let mut h = History::new();
    for (id, parents) in revs {
        assert_eq!(h.insert(rev(id, parents)), Ok(()));
    }
    h
}

// r0 <- r1 <- r2, and r0 <- s1 (a side branch)
fn forked() -> History {
    history(&[("r0", &[]), ("r1", &["r0"]), ("r2", &["r1"]), ("s1", &["r0"])])
}

#[test]
fn analyze_of_a_head_against_itself_is_up_to_date() {
    let h = forked();
    for id in ["r0", "r1", "r2", "s1"] {
        assert_eq!(analyze(&h, id, id), Ok(MergeClass::UpToDate));
    }
}

#[test]
fn analyze_of_an_ancestor_against_its_descendant_is_fast_forward() {
    let h = forked();
    assert_eq!(analyze(&h, "r0", "r1"), Ok(MergeClass::FastForward));
    assert_eq!(analyze(&h, "r0", "r2"), Ok(MergeClass::FastForward));
    assert_eq!(analyze(&h, "r1", "r2"), Ok(MergeClass::FastForward));
    assert_eq!(analyze(&h, "r0", "s1"), Ok(MergeClass::FastForward));
}

#[test]
fn analyze_of_a_descendant_against_its_ancestor_is_up_to_date() {
    let h = forked();
    assert_eq!(analyze(&h, "r2", "r0"), Ok(MergeClass::UpToDate));
    assert_eq!(analyze(&h, "s1", "r0"), Ok(MergeClass::UpToDate));
}

#[test]
fn analyze_of_two_branches_is_divergent() {
    let h = forked();
    assert_eq!(analyze(&h, "r2", "s1"), Ok(MergeClass::Divergent));
    assert_eq!(analyze(&h, "s1", "r1"), Ok(MergeClass::Divergent));
}

#[test]
fn analyze_of_an_unknown_head_is_not_found() {
    let h = forked();
    assert_eq!(analyze(&h, "zz", "r0"), Err(SyncError::NotFoundError));
    assert_eq!(analyze(&h, "r0", "zz"), Err(SyncError::NotFoundError));
}

#[test]
fn ancestor_of_follows_parent_links() {
    let h = forked();
    assert_eq!(ancestor_of(&h, "r0", "r2"), Ok(true));
    assert_eq!(ancestor_of(&h, "r2", "r2"), Ok(true));
    assert_eq!(ancestor_of(&h, "r2", "r0"), Ok(false));
    assert_eq!(ancestor_of(&h, "s1", "r2"), Ok(false));
    assert_eq!(ancestor_of(&h, "r0", "nope"), Err(SyncError::NotFoundError));
}

#[test]
fn ancestors_of_marks_exactly_the_ancestors() {
    let h = forked();
    assert_eq!(ancestors_of(&h, 2), vec![true, true, true, false]);
    assert_eq!(ancestors_of(&h, 3), vec![true, false, false, true]);
    assert_eq!(ancestors_of(&h, 0), vec![true, false, false, false]);
}

#[test]
fn merge_base_of_two_branches_is_the_fork() {
    let h = forked();
    assert_eq!(merge_base(&h, "r2", "s1"), Ok("r0".to_string()));
    assert_eq!(merge_base(&h, "s1", "r2"), Ok("r0".to_string()));
}

#[test]
fn merge_base_of_a_head_and_its_ancestor_is_the_ancestor() {
    let h = forked();
    assert_eq!(merge_base(&h, "r2", "r1"), Ok("r1".to_string()));
    assert_eq!(merge_base(&h, "r1", "r2"), Ok("r1".to_string()));
    assert_eq!(merge_base(&h, "r2", "r2"), Ok("r2".to_string()));
}

#[test]
fn merge_base_of_unrelated_histories_is_not_found() {
    let h = history(&[("a0", &[]), ("a1", &["a0"]), ("b0", &[]), ("b1", &["b0"])]);
    assert_eq!(merge_base(&h, "a1", "b1"), Err(SyncError::MergeBaseNotFoundError));
    assert_eq!(analyze(&h, "a1", "b1"), Ok(MergeClass::Divergent));
}

#[test]
fn merge_base_of_an_unknown_head_is_not_found() {
    let h = forked();
    assert_eq!(merge_base(&h, "r2", "zz"), Err(SyncError::NotFoundError));
}

// A criss-cross: x and y both merge a and b, in opposite parent order.
//        r
//       / \
//      a   b
//      |\ /|
//      | X |
//      |/ \|
//      x   y
#[test]
fn merge_base_of_a_criss_cross_is_the_first_parent_reached() {
    let h = history(&[
        ("r", &[]),
        ("a", &["r"]),
        ("b", &["r"]),
        ("x", &["a", "b"]),
        ("y", &["b", "a"]),
    ]);
    // the walk from x reaches a before b; both lead to y
    assert_eq!(merge_base(&h, "x", "y"), Ok("a".to_string()));
    // the walk from y reaches b before a
    assert_eq!(merge_base(&h, "y", "x"), Ok("b".to_string()));
}

// The walk goes level by level: a common ancestor one link away wins over
// one that is two links away, even if the latter is its descendant.
#[test]
fn merge_base_prefers_the_nearest_level() {
    let h = history(&[
        ("r", &[]),
        ("m", &["r"]),
        ("n", &["m"]),
        ("l", &["n", "r"]),
        ("t", &["m"]),
    ]);
    // from l: level 1 is [n, r]; n does not lead to t, r does
    assert_eq!(merge_base(&h, "l", "t"), Ok("r".to_string()));
}

#[test]
fn merge_base_at_works_on_positions() {
    let h = forked();
    assert_eq!(merge_base_at(&h, 2, 3), Some(0));
    assert_eq!(merge_base_at(&h, 1, 2), Some(1));
}

#[test]
fn history_refuses_a_duplicate_name() {
    let mut h = forked();
    assert_eq!(h.insert(rev("r1", &["r0"])), Err(SyncError::StorageError));
    assert_eq!(h.len(), 4);
}

#[test]
fn history_refuses_a_missing_parent() {
    let mut h = forked();
    assert_eq!(h.insert(rev("q", &["absent"])), Err(SyncError::NotFoundError));
    assert_eq!(h.len(), 4);
}

#[test]
fn history_holds_a_merge_of_three() {
    let mut h = forked();
    assert_eq!(h.insert(rev("q", &["r0", "r1", "s1"])), Ok(()));
    assert_eq!(h.len(), 5);
    assert_eq!(ancestors_of(&h, 4), vec![true, true, false, true, true]);
    assert_eq!(analyze(&h, "s1", "q"), Ok(MergeClass::FastForward));
    assert_eq!(analyze(&h, "r2", "q"), Ok(MergeClass::Divergent));
    assert_eq!(merge_base(&h, "r2", "q"), Ok("r1".to_string()));
}

#[test]
fn history_finds_revisions_by_name() {
    let h = forked();
    assert_eq!(h.find("r0"), Some(0));
    assert_eq!(h.find("s1"), Some(3));
    assert_eq!(h.find("zz"), None);
    assert!(h.contains("r2"));
    assert_eq!(h.get("r2").map(|r| r.parents.clone()), Some(vec!["r1".to_string()]));
    assert_eq!(h.parent_positions(2), &vec![1usize]);
}
