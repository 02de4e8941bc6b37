use bonolith::textmap::TextMap;
use bonolith::trie::Trie;

#[test]
fn insert_and_exact_lookup() {
    let mut trie = Trie::new();
    trie.insert("きょう", 0);
    trie.insert("きょう", 1);
    trie.insert("きた", 2);

    assert_eq!(trie.exact_lookup("きょう"), &[0, 1]);
    assert_eq!(trie.exact_lookup("きた"), &[2]);
}

#[test]
fn exact_lookup_miss() {
    let trie = Trie::new();
    assert_eq!(trie.exact_lookup("きょう"), &[] as &[usize]);
}

#[test]
fn trie_common_prefix_search_basic() {
    let mut trie = Trie::new();
    trie.insert("き", 0);
    trie.insert("きょう", 1);
    trie.insert("きょうと", 2);

    let results = trie.common_prefix_search("きょうは");
    // き (len=1) and きょう (len=3), but not きょうと.
    assert_eq!(results.len(), 2);
    assert_eq!(results[0], (1, vec![0]));
    assert_eq!(results[1], (3, vec![1]));
}

#[test]
fn trie_prefix_lookup_basic() {
    let mut trie = Trie::new();
    trie.insert("きょう", 0);
    trie.insert("きょうと", 1);
    trie.insert("きょうだい", 2);
    trie.insert("きた", 3);

    let mut results = trie.prefix_lookup("きょう");
    results.sort();
    assert_eq!(results, vec![0, 1, 2]);

    let mut results2 = trie.prefix_lookup("き");
    results2.sort();
    assert_eq!(results2, vec![0, 1, 2, 3]);
}

#[test]
fn prefix_lookup_gives_an_entry_once_for_each_reading() {
    let mut trie = Trie::new();
    trie.insert("きょう", 7);
    trie.insert("きょう", 7);
    trie.insert("きょうと", 7);
    trie.insert("きた", 7);
    trie.insert("", 3);
    let count = |prefix: &str, idx: usize| {
        trie.prefix_lookup(prefix).iter().filter(|&&i| i == idx).count()
    };
    assert_eq!(count("きょう", 7), 2);
    assert_eq!(count("き", 7), 3);
    assert_eq!(count("", 7), 3);
    assert_eq!(count("", 3), 1);
    assert_eq!(count("か", 7), 0);
}

#[test]
fn insert_deduplicates_repeat_entry_idx() {
    let mut trie = Trie::new();
    trie.insert("あ", 10);
    trie.insert("あ", 20);
    trie.insert("あ", 30);
    trie.insert("あ", 40);
    trie.insert("あ", 50);
    // An index in the middle must not be listed twice.
    trie.insert("あ", 30);
    assert_eq!(trie.exact_lookup("あ"), &[10, 20, 30, 40, 50]);
}

#[test]
fn empty_trie() {
    let trie = Trie::new();
    assert!(trie.exact_lookup("あ").is_empty());
    assert!(trie.prefix_lookup("あ").is_empty());
    assert!(trie.common_prefix_search("あいう").is_empty());
}

#[test]
fn remove_takes_out_one_index_only() {
    let mut trie = Trie::new();
    trie.insert("あ", 1);
    trie.insert("あ", 2);
    trie.insert("あい", 1);
    trie.remove("あ", 1);
    assert_eq!(trie.exact_lookup("あ"), &[2]);
    assert_eq!(trie.exact_lookup("あい"), &[1]);
    trie.remove("い", 5);
    assert_eq!(trie.exact_lookup("あ"), &[2]);
}

#[test]
fn sorting_puts_frequent_entries_first_and_keeps_ties() {
    let mut trie = Trie::new();
    trie.insert("あ", 0);
    trie.insert("あ", 1);
    trie.insert("あ", 2);
    trie.sort_by_freq(&vec![10, 30, 10]);
    assert_eq!(trie.exact_lookup("あ"), &[1, 0, 2]);
    trie.resort_node("あ", &vec![10, 30, 40]);
    assert_eq!(trie.exact_lookup("あ"), &[2, 1, 0]);
}

#[test]
fn text_map_reads_back_what_was_written() {
    let mut map: TextMap<u32> = TextMap::new();
    assert!(map.get("あ").is_none());
    map.insert("あ", 1);
    map.insert("あい", 2);
    map.insert("あ", 3);
    assert_eq!(map.get("あ"), Some(&3));
    assert_eq!(map.get("あい"), Some(&2));
    assert!(map.remove("あ"));
    assert!(!map.remove("あ"));
    assert!(map.get("あ").is_none());
    map.clear();
    assert!(map.get("あい").is_none());
}
