use assrs::trie::Trie;
use std::collections::HashSet;

#[test]
fn trie_empty_str() {
    let mut trie = Trie::new();
    assert!(!trie.contains(""));
    assert_eq!(trie.iter().into_iter().count(), 0);
    trie.insert("".to_string());
    assert!(trie.contains(""));
    assert_eq!(trie.iter().into_iter().collect::<Vec<_>>(), vec![""]);
}

#[test]
fn trie_values() {
    let mut trie = Trie::new();
    assert!(!trie.contains(""));

    trie.insert("foo".to_string());
    trie.insert("bar".to_string());
    trie.insert("baz".to_string());
    assert!(!trie.contains(""));
    assert!(trie.contains("foo"));
    assert_eq!(
        trie.iter().into_iter().collect::<HashSet<_>>(),
        HashSet::from(["foo", "bar", "baz"])
    );

    trie.insert("".to_string());
    assert!(trie.contains(""));
    assert_eq!(
        trie.iter().into_iter().collect::<HashSet<_>>(),
        HashSet::from(["foo", "bar", "baz", ""])
    );
}

#[test]
fn trie_find() {
    let trie = Trie::from_iter(vec!["foo".to_string(), "bar".to_string()]);
    assert_eq!(trie.find_one("", Some(2)), None);
    assert_eq!(trie.find_one("baz", Some(2)), Some(("bar", 1)));
    assert_eq!(trie.find_one("baz", None), Some(("bar", 1)));
    assert_eq!(trie.find_one("baz", Some(0)), None);
}
