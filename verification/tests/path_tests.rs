use gimark::content::{bytes_equal, copy_bytes, same_content};
use gimark::path::{owned_path, path_order, PathOrder};
use gimark::path_map::PathMap;
use gimark::tree::Tree;

#[test]
fn paths_are_ordered_by_their_bytes() {
    assert_eq!(path_order("a", "b"), PathOrder::Before);
    assert_eq!(path_order("b", "a"), PathOrder::After);
    assert_eq!(path_order("a", "a"), PathOrder::Same);
    assert_eq!(path_order("", "a"), PathOrder::Before);
    assert_eq!(path_order("a", ""), PathOrder::After);
    assert_eq!(path_order("", ""), PathOrder::Same);
    assert_eq!(path_order("ab", "abc"), PathOrder::Before);
    assert_eq!(path_order("abc", "ab"), PathOrder::After);
    assert_eq!(path_order("Z", "a"), PathOrder::Before);
    assert_eq!(path_order("a.txt", "a/b"), PathOrder::Before);
}

#[test]
fn path_order_agrees_with_the_order_of_strings() {
    let samples = ["", "a", "b", "ab", "a/b", "é", "z", "日本", "a.txt", "A"];
    for x in samples {
        for y in samples {
            let expected = if x < y {
                PathOrder::Before
            } else if x == y {
                PathOrder::Same
            } else {
                PathOrder::After
            };
            assert_eq!(path_order(x, y), expected, "{:?} against {:?}", x, y);
        }
    }
}

#[test]
fn owned_path_copies_the_text() {
    assert_eq!(owned_path("notes/a.md"), "notes/a.md".to_string());
}

#[test]
fn path_map_keeps_its_paths_in_order() {
    let mut m: PathMap<u32> = PathMap::new();
    m.put("m".to_string(), 1);
    m.put("a".to_string(), 2);
    m.put("z".to_string(), 3);
    m.put("b".to_string(), 4);
    assert_eq!(m.len(), 4);
    let paths: Vec<&String> = (0..m.len()).map(|i| m.path_at(i)).collect();
    assert_eq!(paths, vec!["a", "b", "m", "z"]);
    let values: Vec<u32> = (0..m.len()).map(|i| *m.value_at(i)).collect();
    assert_eq!(values, vec![2, 4, 1, 3]);
}

#[test]
fn path_map_put_replaces_and_take_removes() {
    let mut m: PathMap<u32> = PathMap::new();
    m.put("k".to_string(), 1);
    m.put("k".to_string(), 2);
    assert_eq!(m.len(), 1);
    assert_eq!(m.get("k"), Some(&2));
    assert_eq!(m.position("k"), Some(0));
    assert!(m.contains("k"));
    assert_eq!(m.take("k"), Some(2));
    assert_eq!(m.take("k"), None);
    assert_eq!(m.get("k"), None);
    assert_eq!(m.position("k"), None);
    assert!(!m.contains("k"));
    assert_eq!(m.len(), 0);
}

#[test]
fn tree_holds_files_by_path() {
    let mut t = Tree::new();
    assert_eq!(t.len(), 0);
    t.put("b.txt".to_string(), b"2".to_vec());
    t.put("a.txt".to_string(), b"1".to_vec());
    t.put("b.txt".to_string(), b"3".to_vec());
    assert_eq!(t.len(), 2);
    assert_eq!(t.path_at(0), "a.txt");
    assert_eq!(t.content_at(1), &b"3".to_vec());
    assert_eq!(t.get("a.txt"), Some(&b"1".to_vec()));
    assert_eq!(t.get("c.txt"), None);
    assert!(t.remove("a.txt"));
    assert!(!t.remove("a.txt"));
    assert!(!t.contains("a.txt"));
    assert!(t.contains("b.txt"));
}

#[test]
fn tree_same_as_compares_files() {
    let mut a = Tree::new();
    a.put("x".to_string(), b"1".to_vec());
    a.put("y".to_string(), b"2".to_vec());
    let mut b = Tree::new();
    b.put("y".to_string(), b"2".to_vec());
    b.put("x".to_string(), b"1".to_vec());
    assert!(a.same_as(&b));
    assert!(a.same_as(&a.duplicate()));
    b.put("y".to_string(), b"3".to_vec());
    assert!(!a.same_as(&b));
    b.put("y".to_string(), b"2".to_vec());
    b.put("z".to_string(), b"2".to_vec());
    assert!(!a.same_as(&b));
    let mut c = Tree::new();
    c.put("x".to_string(), b"1".to_vec());
    c.put("w".to_string(), b"2".to_vec());
    assert!(!a.same_as(&c));
}

#[test]
fn contents_compare_by_value() {
    assert!(bytes_equal(&b"abc".to_vec(), &b"abc".to_vec()));
    assert!(!bytes_equal(&b"abc".to_vec(), &b"abd".to_vec()));
    assert!(!bytes_equal(&b"abc".to_vec(), &b"ab".to_vec()));
    assert!(bytes_equal(&vec![], &vec![]));
    assert_eq!(copy_bytes(&b"xyz".to_vec()), b"xyz".to_vec());
    let one = b"1".to_vec();
    let two = b"2".to_vec();
    assert!(same_content(None, None));
    assert!(same_content(Some(&one), Some(&one)));
    assert!(!same_content(Some(&one), Some(&two)));
    assert!(!same_content(Some(&one), None));
    assert!(!same_content(None, Some(&one)));
}
