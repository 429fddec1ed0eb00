use rshell::trie::Trie;

#[test]
fn test_trie_operations() {
    let mut t = Trie::new();
    t.insert("dont");
    t.insert("can");
    t.insert("c");

    // Test search for partial strings that don't have is_end set to true
    assert!(!t.search("ca"));
    assert!(!t.search("do"));

    // Test starts_with for partial strings
    assert!(t.starts_with("ca"));
    assert!(t.starts_with("do"));

    // Test search for complete words
    assert!(t.search("can"));
    assert!(t.search("dont"));
    assert!(t.search("c"));

    // Test non-existent strings
    assert!(!t.search("cat"));
    assert!(!t.starts_with("b"));
}

#[test]
fn test_empty_trie() {
    let mut t = Trie::new();
    assert!(!t.search(""));
    assert!(t.starts_with(""));
}

#[test]
fn test_insert_empty_string() {
    let mut t = Trie::new();
    t.insert("");
    assert!(!t.search("")); // Empty string is a special case
}

#[test]
fn test_overlapping_prefixes() {
    let mut t = Trie::new();
    t.insert("car");
    t.insert("card");
    t.insert("care");

    assert!(t.search("car"));
    assert!(t.search("card"));
    assert!(t.search("care"));
    assert!(!t.search("ca"));
    assert!(t.starts_with("ca"));
    assert!(t.starts_with("car"));
}

#[test]
fn test_get_completions() {
    let mut t = Trie::new();
    t.insert("car");
    t.insert("card");
    t.insert("care");
    t.insert("carpet");
    t.insert("carrot");
    t.insert("cat");

    // Test completions for "ca"
    let ca_completions = t.get_completions("ca");
    assert!(ca_completions.contains(&"car".to_string()));
    assert!(ca_completions.contains(&"card".to_string()));
    assert!(ca_completions.contains(&"care".to_string()));
    assert!(ca_completions.contains(&"carpet".to_string()));
    assert!(ca_completions.contains(&"carrot".to_string()));
    assert!(ca_completions.contains(&"cat".to_string()));
    assert_eq!(ca_completions.len(), 6);

    // Test completions for "car"
    let car_completions = t.get_completions("car");
    assert!(car_completions.contains(&"car".to_string()));
    assert!(car_completions.contains(&"card".to_string()));
    assert!(car_completions.contains(&"care".to_string()));
    assert!(car_completions.contains(&"carpet".to_string()));
    assert!(car_completions.contains(&"carrot".to_string()));
    assert!(!car_completions.contains(&"cat".to_string()));
    assert_eq!(car_completions.len(), 5);

    // Test completions for "card"
    let card_completions = t.get_completions("card");
    assert!(card_completions.contains(&"card".to_string()));
    assert_eq!(card_completions.len(), 1);

    // Test completions for non-existent prefix
    let non_existent = t.get_completions("z");
    assert!(non_existent.is_empty());

    // Test completions for empty string
    let empty_completions = t.get_completions("");
    assert!(empty_completions.is_empty());
}

#[test]
fn test_longest_common_prefix() {
    let mut t = Trie::new();
    t.insert("xyz_foo");
    t.insert("xyz_foo_bar");
    t.insert("xyz_foo_bar_baz");

    assert_eq!(t.longest_common_prefix("xyz_"), "xyz_foo");
    assert_eq!(t.longest_common_prefix("xyz_foo"), "xyz_foo");
    assert_eq!(t.longest_common_prefix("xyz_foo_"), "xyz_foo_bar");
    assert_eq!(t.longest_common_prefix("xyz_foo_bar_"), "xyz_foo_bar_baz");
}

#[test]
fn test_lcp_empty_trie() {
    let mut t = Trie::new();
    assert_eq!(t.longest_common_prefix("any"), "");
    assert_eq!(t.longest_common_prefix(""), "");
}

#[test]
fn test_lcp_branching_paths() {
    let mut t = Trie::new();
    t.insert("apple");
    t.insert("application");
    t.insert("append");
    t.insert("banana");

    // Common prefix "app" followed by different paths
    assert_eq!(t.longest_common_prefix("app"), "app");
    assert_eq!(t.longest_common_prefix("a"), "app");

    // No common prefix beyond "a" for all words
    assert_eq!(t.longest_common_prefix(""), "");

    // Specific path tests
    assert_eq!(t.longest_common_prefix("appl"), "appl");
    assert_eq!(t.longest_common_prefix("appli"), "application");
    assert_eq!(t.longest_common_prefix("appe"), "append");
    assert_eq!(t.longest_common_prefix("b"), "banana");
}

#[test]
fn test_lcp_with_end_markers() {
    let mut t = Trie::new();
    t.insert("a");
    t.insert("ab");
    t.insert("abc");

    // When a prefix is itself a word, it should return that word
    assert_eq!(t.longest_common_prefix("a"), "a");
    assert_eq!(t.longest_common_prefix("ab"), "ab");
    assert_eq!(t.longest_common_prefix("abc"), "abc");
}

#[test]
fn test_lcp_non_existent_prefix() {
    let mut t = Trie::new();
    t.insert("hello");
    t.insert("world");

    // Prefix that doesn't exist in the trie
    assert_eq!(t.longest_common_prefix("hi"), "");
    assert_eq!(t.longest_common_prefix("z"), "");
}

#[test]
fn test_lcp_single_character_words() {
    let mut t = Trie::new();
    t.insert("a");
    t.insert("b");
    t.insert("c");

    assert_eq!(t.longest_common_prefix("a"), "a");
    assert_eq!(t.longest_common_prefix("b"), "b");
    assert_eq!(t.longest_common_prefix("d"), "");
}

#[test]
fn test_lcp_unicode_characters() {
    let mut t = Trie::new();
    t.insert("café");
    t.insert("cafétéria");
    t.insert("caffè");

    assert_eq!(t.longest_common_prefix("caf"), "caf");
    assert_eq!(t.longest_common_prefix("café"), "café");
    assert_eq!(t.longest_common_prefix("cafét"), "cafétéria");
}
