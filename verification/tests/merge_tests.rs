use gimark::error::SyncError;
use gimark::index::{ConflictEntry, ConflictSides, Resolution, WorkingIndex};
use gimark::merge::merge_trees;
use gimark::tree::Tree;

fn tree(files: &[(&str, &str)]) -> Tree {
    let mut t = Tree::new();
    for (p, c) in files {
        t.put(p.to_string(), c.as_bytes().to_vec());
    }
    t
}

fn staged(index: &WorkingIndex) -> Vec<(String, String)> {
    let t = index.tree();
    (0..t.len())
        .map(|i| (t.path_at(i).clone(), String::from_utf8(t.content_at(i).clone()).unwrap()))
        .collect()
}

fn pair(p: &str, c: &str) -> (String, String) {
    (p.to_string(), c.to_string())
}

#[test]
fn changes_to_different_paths_merge_without_conflict() {
    let base = tree(&[("a.txt", "1")]);
    let ours = tree(&[("a.txt", "2")]);
    let theirs = tree(&[("a.txt", "1"), ("b.txt", "x")]);
    let merged = merge_trees(&base, &ours, &theirs);
    assert!(!merged.has_conflicts());
    assert_eq!(merged.list_conflicts(), vec![]);
    assert_eq!(staged(&merged), vec![pair("a.txt", "2"), pair("b.txt", "x")]);
}

#[test]
fn the_same_change_on_both_sides_is_taken_once() {
    let base = tree(&[("a.txt", "1")]);
    let ours = tree(&[("a.txt", "2"), ("n.txt", "new")]);
    let theirs = tree(&[("a.txt", "2"), ("n.txt", "new")]);
    let merged = merge_trees(&base, &ours, &theirs);
    assert!(!merged.has_conflicts());
    assert_eq!(staged(&merged), vec![pair("a.txt", "2"), pair("n.txt", "new")]);
}

#[test]
fn different_changes_to_one_path_give_one_conflict() {
    let base = tree(&[("a.txt", "1"), ("k.txt", "keep")]);
    let ours = tree(&[("a.txt", "2"), ("k.txt", "keep")]);
    let theirs = tree(&[("a.txt", "3"), ("k.txt", "keep")]);
    let merged = merge_trees(&base, &ours, &theirs);
    assert!(merged.has_conflicts());
    assert_eq!(
        merged.list_conflicts(),
        vec![ConflictEntry { path: "a.txt".to_string(), local: true, remote: true, base: true }]
    );
    assert_eq!(staged(&merged), vec![pair("k.txt", "keep")]);
}

#[test]
fn a_deletion_on_one_side_is_taken() {
    let base = tree(&[("a.txt", "1"), ("b.txt", "2")]);
    let ours = tree(&[("b.txt", "2")]);
    let theirs = tree(&[("a.txt", "1"), ("b.txt", "2")]);
    let merged = merge_trees(&base, &ours, &theirs);
    assert!(!merged.has_conflicts());
    assert_eq!(staged(&merged), vec![pair("b.txt", "2")]);
}

#[test]
fn a_deletion_against_a_change_is_a_conflict_without_the_deleted_side() {
    let base = tree(&[("a.txt", "1")]);
    let ours = tree(&[]);
    let theirs = tree(&[("a.txt", "9")]);
    let merged = merge_trees(&base, &ours, &theirs);
    assert_eq!(
        merged.list_conflicts(),
        vec![ConflictEntry { path: "a.txt".to_string(), local: false, remote: true, base: true }]
    );
    assert_eq!(staged(&merged), vec![]);
}

#[test]
fn two_different_additions_conflict_without_a_base() {
    let base = tree(&[]);
    let ours = tree(&[("n.txt", "mine")]);
    let theirs = tree(&[("n.txt", "yours")]);
    let merged = merge_trees(&base, &ours, &theirs);
    assert_eq!(
        merged.list_conflicts(),
        vec![ConflictEntry { path: "n.txt".to_string(), local: true, remote: true, base: false }]
    );
}

#[test]
fn conflicts_are_listed_in_path_order() {
    let base = tree(&[("b", "0"), ("a", "0"), ("c/z", "0"), ("c", "0")]);
    let ours = tree(&[("b", "1"), ("a", "1"), ("c/z", "1"), ("c", "1")]);
    let theirs = tree(&[("b", "2"), ("a", "2"), ("c/z", "2"), ("c", "2")]);
    let merged = merge_trees(&base, &ours, &theirs);
    let paths: Vec<String> = merged.list_conflicts().into_iter().map(|e| e.path).collect();
    assert_eq!(paths, vec!["a", "b", "c", "c/z"]);
}

#[test]
fn merging_identical_trees_changes_nothing() {
    let t = tree(&[("a.txt", "1"), ("b.txt", "2")]);
    let merged = merge_trees(&t, &t, &t);
    assert!(!merged.has_conflicts());
    assert_eq!(staged(&merged), vec![pair("a.txt", "1"), pair("b.txt", "2")]);
}

fn conflicted_index() -> WorkingIndex {
    let base = tree(&[("a.txt", "1"), ("b.txt", "1"), ("d.txt", "1")]);
    let ours = tree(&[("a.txt", "2"), ("b.txt", "2")]);
    let theirs = tree(&[("a.txt", "3"), ("b.txt", "3"), ("d.txt", "3")]);
    merge_trees(&base, &ours, &theirs)
}

#[test]
fn conflicts_last_until_every_one_is_resolved() {
    let mut index = conflicted_index();
    assert_eq!(index.list_conflicts().len(), 3);
    assert_eq!(index.resolve("a.txt", Resolution::UseLocal), Ok(()));
    assert!(index.has_conflicts());
    assert_eq!(index.resolve("b.txt", Resolution::UseRemote), Ok(()));
    assert!(index.has_conflicts());
    assert_eq!(index.resolve("d.txt", Resolution::Content(b"merged".to_vec())), Ok(()));
    assert!(!index.has_conflicts());
    assert_eq!(
        staged(&index),
        vec![pair("a.txt", "2"), pair("b.txt", "3"), pair("d.txt", "merged")]
    );
}

#[test]
fn resolving_to_a_side_without_the_file_removes_it() {
    let mut index = conflicted_index();
    // ours deleted d.txt
    assert_eq!(index.resolve("d.txt", Resolution::UseLocal), Ok(()));
    assert!(!index.tree().contains("d.txt"));
    assert_eq!(index.list_conflicts().len(), 2);
}

#[test]
fn resolving_a_path_without_conflict_is_not_found() {
    let mut index = conflicted_index();
    assert_eq!(index.resolve("zz.txt", Resolution::UseLocal), Err(SyncError::NotFoundError));
    assert_eq!(index.list_conflicts().len(), 3);
}

#[test]
fn staging_a_conflicted_path_settles_it() {
    let mut index = conflicted_index();
    index.stage("a.txt".to_string(), b"fixed".to_vec());
    let paths: Vec<String> = index.list_conflicts().into_iter().map(|e| e.path).collect();
    assert_eq!(paths, vec!["b.txt", "d.txt"]);
    assert_eq!(index.tree().get("a.txt"), Some(&b"fixed".to_vec()));
}

#[test]
fn marking_a_conflict_unstages_the_path() {
    let mut index = WorkingIndex::from_tree(&tree(&[("a.txt", "1")]));
    assert!(!index.has_conflicts());
    index.mark_conflict(
        "a.txt".to_string(),
        ConflictSides { base: None, ours: Some(b"1".to_vec()), theirs: Some(b"2".to_vec()) },
    );
    assert!(index.has_conflicts());
    assert!(!index.tree().contains("a.txt"));
    index.discard("a.txt");
    assert!(!index.has_conflicts());
}

#[test]
fn the_versions_of_a_conflict_can_be_read() {
    let index = conflicted_index();
    let sides = index.sides("d.txt").unwrap();
    assert_eq!(sides.base, Some(b"1".to_vec()));
    assert_eq!(sides.ours, None);
    assert_eq!(sides.theirs, Some(b"3".to_vec()));
    assert!(index.sides("zz.txt").is_none());
}
