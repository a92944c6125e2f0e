use path_trie::Trie;

#[test]
fn is_empty() {
    let mut trie = Trie::new();
    assert_eq!(trie.is_empty(), true);
    trie.insert(vec![1], "foo");
    assert_eq!(trie.is_empty(), false);
}

#[test]
fn macro_test() {
    let trie = Trie::from_entries(vec![(vec![1, 2], 1), (vec![1, 2, 3], 2)]);
    assert_eq!(trie.get(vec![1, 2]), Some(1));
    assert_eq!(trie.get(vec![1, 2, 3]), Some(2));
}

#[test]
fn get_shallow() {
    let mut trie = Trie::new();
    trie.insert(vec![1], "foo");

    assert_eq!(trie.get(vec![1]), Some("foo"));
}

#[test]
fn get_shallow_none() {
    let mut trie = Trie::new();
    trie.insert(vec![1], "foo");

    assert_eq!(trie.get(vec![2]), None);
}

#[test]
fn get_deep() {
    let mut trie = Trie::new();
    trie.insert(vec![1, 2, 3], "foo");

    assert_eq!(trie.get(vec![1]), None);
    assert_eq!(trie.get(vec![1, 2]), None);
    assert_eq!(trie.get(vec![1, 2, 3]), Some("foo"));
}

#[test]
fn get_deep_none() {
    let mut trie = Trie::new();
    trie.insert(vec![1, 2], "foo");

    assert_eq!(trie.get(vec![1]), None);
    assert_eq!(trie.get(vec![1, 2]), Some("foo"));
    assert_eq!(trie.get(vec![1, 2, 3]), None);
}
