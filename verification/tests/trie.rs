use leaf::trie::TrieNode;

#[test]
fn suffix_matches_subdomains() {
    let mut trie = TrieNode::new();
    trie.insert("baidu.com");
    assert!(trie.matches("www.baidu.com"));
    assert!(trie.matches("map.baidu.com"));
    assert!(trie.matches("baidu.com"));
    assert!(!trie.matches("google.com"));
    assert!(!trie.matches("com"));
}

#[test]
fn suffix_of_two_labels() {
    let mut trie = TrieNode::new();
    trie.insert("com.cn");
    assert!(trie.matches("example.com.cn"));
    assert!(!trie.matches("example.cn"));
    assert!(!trie.matches("cn"));
}

#[test]
fn empty_trie_matches_nothing() {
    let trie = TrieNode::new();
    assert!(!trie.matches("example.com"));
    assert!(!trie.matches(""));
}

#[test]
fn longest_stored_suffix_is_found() {
    let mut trie = TrieNode::new();
    trie.insert("cn");
    trie.insert("com.cn");
    trie.insert("example.com.cn");
    trie.insert("baidu.com");
    assert_eq!(trie.longest_match("www.example.com.cn"), Some("example.com.cn".to_string()));
    assert_eq!(trie.longest_match("example.com.cn"), Some("example.com.cn".to_string()));
    assert_eq!(trie.longest_match("other.com.cn"), Some("com.cn".to_string()));
    assert_eq!(trie.longest_match("example.net.cn"), Some("cn".to_string()));
    assert_eq!(trie.longest_match("map.baidu.com"), Some("baidu.com".to_string()));
    assert_eq!(trie.longest_match("com"), None);
    assert_eq!(trie.longest_match("example.org"), None);
    assert!(trie.matches("other.com.cn"));
    assert!(!trie.matches("com"));
}

#[test]
fn labels_are_compared_whole_and_with_case() {
    let mut trie = TrieNode::new();
    trie.insert("baidu.com");
    assert!(!trie.matches("notbaidu.com"));
    assert!(!trie.matches("baidu.com.evil.org"));
    assert!(!trie.matches("Baidu.com"));
    assert!(!trie.matches("baidu.com."));
    trie.insert("");
    assert!(trie.matches(""));
    assert!(trie.matches("a."));
    assert!(!trie.matches("a"));
    assert_eq!(trie.longest_match("a."), Some("".to_string()));
}

#[test]
fn inserting_twice_changes_nothing() {
    let mut trie = TrieNode::new();
    trie.insert("example.com");
    trie.insert("example.com");
    trie.insert("com");
    assert!(trie.matches("example.com"));
    assert!(trie.matches("other.com"));
    assert_eq!(trie.longest_match("a.example.com"), Some("example.com".to_string()));
}
