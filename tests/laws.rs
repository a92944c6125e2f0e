use path_trie::Trie;

#[test]
fn string_values_at_nested_paths() {
    let mut trie: Trie<i32, String> = Trie::new();
    trie.insert(vec![1, 2], String::from("1"));
    trie.insert(vec![1, 2, 3], String::from("2"));
    assert_eq!(trie.get(vec![1, 2]), Some(String::from("1")));
    assert_eq!(trie.get(vec![1, 2, 3]), Some(String::from("2")));
    assert_eq!(trie.get(vec![1]), None);
}

#[test]
fn round_trip_at_several_depths() {
    let mut trie: Trie<u64, u32> = Trie::new();
    trie.insert(vec![], 10);
    trie.insert(vec![4], 11);
    trie.insert(vec![4, 5, 6, 7], 12);
    assert_eq!(trie.get(vec![]), Some(10));
    assert_eq!(trie.get(vec![4]), Some(11));
    assert_eq!(trie.get(vec![4, 5, 6, 7]), Some(12));
}

#[test]
fn second_insert_overwrites_first() {
    let mut trie: Trie<u8, &str> = Trie::new();
    trie.insert(vec![3, 1], "old");
    trie.insert(vec![3, 1], "new");
    assert_eq!(trie.get(vec![3, 1]), Some("new"));
}

#[test]
fn second_insert_overwrites_first_at_empty_path() {
    let mut trie: Trie<u8, &str> = Trie::new();
    trie.insert(vec![], "old");
    trie.insert(vec![], "new");
    assert_eq!(trie.get(vec![]), Some("new"));
}

#[test]
fn insert_leaves_prefixes_extensions_and_siblings() {
    let mut trie: Trie<i64, i64> = Trie::new();
    trie.insert(vec![1], 100);
    trie.insert(vec![1, 2, 3], 300);
    trie.insert(vec![1, 9], 900);
    trie.insert(vec![1, 2], 200);
    assert_eq!(trie.get(vec![1]), Some(100));
    assert_eq!(trie.get(vec![1, 2, 3]), Some(300));
    assert_eq!(trie.get(vec![1, 9]), Some(900));
    assert_eq!(trie.get(vec![1, 2]), Some(200));
    assert_eq!(trie.get(vec![1, 2, 3, 4]), None);
    assert_eq!(trie.get(vec![]), None);
}

#[test]
fn fresh_trie_holds_nothing() {
    let trie: Trie<u16, u16> = Trie::new();
    assert_eq!(trie.get(vec![]), None);
    assert_eq!(trie.get(vec![0]), None);
    assert_eq!(trie.get(vec![0, 1, 2]), None);
}

#[test]
fn value_at_root_keeps_trie_empty() {
    let mut trie: Trie<u32, &str> = Trie::new();
    trie.insert(vec![], "root");
    assert!(trie.is_empty());
    assert_eq!(trie.get(vec![]), Some("root"));
}

#[test]
fn deep_insert_makes_trie_non_empty() {
    let mut trie: Trie<u32, u32> = Trie::new();
    trie.insert(vec![7, 8, 9], 1);
    assert!(!trie.is_empty());
}

#[test]
fn later_entry_wins_in_from_entries() {
    let trie = Trie::from_entries(vec![(vec![1, 2], 1), (vec![5], 2), (vec![1, 2], 3)]);
    assert_eq!(trie.get(vec![1, 2]), Some(3));
    assert_eq!(trie.get(vec![5]), Some(2));
    assert_eq!(trie.get(vec![1]), None);
}

#[test]
fn from_no_entries_is_empty() {
    let trie: Trie<u8, u8> = Trie::from_entries(vec![]);
    assert!(trie.is_empty());
    assert_eq!(trie.get(vec![]), None);
}
