use assrs::bktree::BKTree;
use std::collections::HashSet;

#[test]
fn bktree_empty_str() {
    let mut tree = BKTree::new();
    assert!(!tree.contains(""));
    assert_eq!(tree.iter().into_iter().count(), 0);
    tree.insert("".to_string());
    assert!(tree.contains(""));
    assert_eq!(tree.iter().into_iter().collect::<Vec<_>>(), vec![""]);
}

#[test]
fn bktree_values() {
    let mut tree = BKTree::new();
    assert!(!tree.contains(""));

    tree.insert("foo".to_string());
    tree.insert("bar".to_string());
    tree.insert("baz".to_string());
    assert!(!tree.contains(""));
    assert!(tree.contains("foo"));
    assert_eq!(
        tree.iter().into_iter().collect::<HashSet<_>>(),
        HashSet::from(["foo", "bar", "baz"])
    );

    tree.insert("".to_string());
    assert!(tree.contains(""));
    assert_eq!(
        tree.iter().into_iter().collect::<HashSet<_>>(),
        HashSet::from(["foo", "bar", "baz", ""])
    );
}

#[test]
fn bktree_find() {
    let tree = BKTree::from_iter(vec!["foo".to_string(), "bar".to_string()]);
    assert_eq!(tree.find_one("", Some(2)), None);
    assert_eq!(tree.find_one("baz", Some(2)), Some(("bar", 1)));
    assert_eq!(tree.find_one("baz", None), Some(("bar", 1)));
    assert_eq!(tree.find_one("baz", Some(0)), None);
}
