use assrs::bktree::BKTree;
use assrs::levenshtein::levenshtein;
use assrs::trie::Trie;

fn words() -> Vec<String> {
    ["book", "books", "cake", "boo", "cape", "boon", "cook", "cart", "", "b"]
        .iter()
        .map(|s| s.to_string())
        .collect()
}

fn least_distance(query: &str, words: &[String]) -> Option<u32> {
    words.iter().map(|w| levenshtein(query, w)).min()
}

#[test]
fn bktree_insert_then_get() {
    let mut tree = BKTree::new();
    for w in words() {
        tree.insert(w.clone());
        assert!(tree.contains(&w));
        assert_eq!(tree.get(&w), Some(w.as_str()));
    }
    assert_eq!(tree.get("cab"), None);
    assert!(!tree.contains("bo"));
}

#[test]
fn trie_insert_then_get() {
    let mut trie = Trie::new();
    for w in words() {
        trie.insert(w.clone());
        assert!(trie.contains(&w));
        assert_eq!(trie.get(&w), Some(w.as_str()));
    }
    assert_eq!(trie.get("cab"), None);
    assert!(!trie.contains("bo"));
    assert!(!trie.contains("booksx"));
}

#[test]
fn bktree_insert_twice_changes_nothing() {
    let mut tree = BKTree::from_iter(words());
    let before: Vec<String> = tree.values().into_iter().map(String::from).collect();
    assert_eq!(before.len(), 10);
    for w in words() {
        tree.insert(w);
    }
    let after: Vec<String> = tree.values().into_iter().map(String::from).collect();
    assert_eq!(before, after);
}

#[test]
fn trie_insert_twice_changes_nothing() {
    let mut trie = Trie::from_iter(words());
    let before: Vec<String> = trie.values().into_iter().map(String::from).collect();
    assert_eq!(before.len(), 10);
    for w in words() {
        trie.insert(w);
    }
    let after: Vec<String> = trie.values().into_iter().map(String::from).collect();
    assert_eq!(before, after);
}

#[test]
fn bktree_values_are_in_preorder() {
    let tree = BKTree::from_iter(
        ["book", "books", "cake", "boo", "cape"].iter().map(|s| s.to_string()).collect(),
    );
    // books and boo are both one edit from book: boo goes below books.
    // cake and cape are both four edits from book: cape goes below cake.
    assert_eq!(tree.values(), vec!["book", "books", "boo", "cake", "cape"]);
    assert_eq!(tree.iter(), tree.values());
}

#[test]
fn trie_values_follow_the_order_in_which_children_were_made() {
    let trie = Trie::from_iter(
        ["foo", "bar", "baz", "", "fa", "f"].iter().map(|s| s.to_string()).collect(),
    );
    assert_eq!(trie.values(), vec!["", "f", "foo", "fa", "bar", "baz"]);
    assert_eq!(trie.iter(), trie.values());
}

#[test]
fn empty_indexes() {
    let tree = BKTree::new();
    let trie = Trie::new();
    assert!(tree.values().is_empty());
    assert!(trie.values().is_empty());
    for w in ["", "a", "foo"] {
        assert!(!tree.contains(w));
        assert!(!trie.contains(w));
        assert_eq!(tree.get(w), None);
        assert_eq!(trie.get(w), None);
        assert_eq!(tree.find_one(w, None), None);
        assert_eq!(trie.find_one(w, None), None);
    }
}

#[test]
fn indexes_over_the_empty_string() {
    let tree = BKTree::from_iter(vec![String::new()]);
    let trie = Trie::from_iter(vec![String::new()]);
    assert!(tree.contains(""));
    assert!(trie.contains(""));
    assert_eq!(tree.values(), vec![""]);
    assert_eq!(trie.values(), vec![""]);
    assert_eq!(tree.find_one("ab", None), Some(("", 2)));
    assert_eq!(trie.find_one("ab", None), Some(("", 2)));
    assert_eq!(tree.find_one("ab", Some(1)), None);
    assert_eq!(trie.find_one("ab", Some(1)), None);
}

#[test]
fn py_new_with_and_without_items() {
    assert!(BKTree::py_new(None).values().is_empty());
    assert!(Trie::py_new(None).values().is_empty());
    let tree = BKTree::py_new(Some(vec!["foo".to_string(), "bar".to_string(), "foo".to_string()]));
    let trie = Trie::py_new(Some(vec!["foo".to_string(), "bar".to_string(), "foo".to_string()]));
    assert_eq!(tree.values(), vec!["foo", "bar"]);
    assert_eq!(trie.values(), vec!["foo", "bar"]);
}

#[test]
fn extend_adds_to_what_is_there() {
    let mut tree = BKTree::from_iter(vec!["foo".to_string()]);
    let mut trie = Trie::from_iter(vec!["foo".to_string()]);
    tree.extend(vec!["bar".to_string(), "foo".to_string()]);
    trie.extend(vec!["bar".to_string(), "foo".to_string()]);
    assert_eq!(tree.values(), vec!["foo", "bar"]);
    assert_eq!(trie.values(), vec!["foo", "bar"]);
}

#[test]
fn find_one_gives_the_least_distance() {
    let stored = words();
    let tree = BKTree::from_iter(stored.clone());
    let trie = Trie::from_iter(stored.clone());
    for query in ["", "boo", "bool", "cane", "cooks", "zzzzzz", "carts", "ok", "bake"] {
        let least = least_distance(query, &stored).unwrap();
        for bound in [None, Some(0), Some(1), Some(2), Some(3), Some(10)] {
            let from_tree = tree.find_one(query, bound);
            let from_trie = trie.find_one(query, bound);
            if bound.map_or(true, |b| least <= b) {
                let (s, d) = from_tree.unwrap();
                assert_eq!(d, least);
                assert_eq!(levenshtein(query, s), least);
                assert!(stored.iter().any(|w| w == s));
                let (s, d) = from_trie.unwrap();
                assert_eq!(d, least);
                assert_eq!(levenshtein(query, s), least);
                assert!(stored.iter().any(|w| w == s));
            } else {
                assert_eq!(from_tree, None);
                assert_eq!(from_trie, None);
            }
        }
    }
}

#[test]
fn trie_find_one_keeps_the_first_of_equal_distances() {
    let trie = Trie::from_iter(vec!["bat".to_string(), "baz".to_string(), "car".to_string()]);
    assert_eq!(trie.values(), vec!["bat", "baz", "car"]);
    assert_eq!(trie.find_one("bar", None), Some(("bat", 1)));
    let trie = Trie::from_iter(vec!["car".to_string(), "baz".to_string(), "bat".to_string()]);
    assert_eq!(trie.find_one("bar", None), Some(("car", 1)));
}

#[test]
fn find_one_with_an_exact_match() {
    let tree = BKTree::from_iter(words());
    let trie = Trie::from_iter(words());
    assert_eq!(tree.find_one("cape", Some(0)), Some(("cape", 0)));
    assert_eq!(trie.find_one("cape", Some(0)), Some(("cape", 0)));
    assert_eq!(tree.find_one("cape", None), Some(("cape", 0)));
    assert_eq!(trie.find_one("cape", None), Some(("cape", 0)));
}

#[test]
fn find_one_over_long_strings() {
    let long = "abcd".repeat(20);
    let longer = "abcd".repeat(21);
    let tree = BKTree::from_iter(vec![long.clone(), longer.clone()]);
    let trie = Trie::from_iter(vec![long.clone(), longer.clone()]);
    let query = "abcd".repeat(20) + "ab";
    assert_eq!(tree.find_one(&query, None).map(|x| x.1), Some(2));
    assert_eq!(trie.find_one(&query, None), Some((long.as_str(), 2)));
    assert_eq!(trie.find_one(&query, Some(1)), None);
}

#[test]
fn indexes_hold_strings_beyond_ascii() {
    let items = vec!["héllo".to_string(), "hello".to_string(), "日本語".to_string()];
    let tree = BKTree::from_iter(items.clone());
    let trie = Trie::from_iter(items);
    assert!(tree.contains("héllo"));
    assert!(trie.contains("日本語"));
    assert_eq!(tree.find_one("日本", None), Some(("日本語", 1)));
    assert_eq!(trie.find_one("hęllo", Some(1)), Some(("héllo", 1)));
}
