use algorithms::trie::Trie;

#[test]
fn test_trie() {
    let mut t = Trie::new();
    t.insert("abcd");
    t.insert("ab");
    t.insert("bcd");
    t.insert("bcdf");
    t.insert("adfg");

    assert!(t.find("ab"));
    assert!(t.find("abcd"));
    assert!(t.find("adfg"));
    assert!(t.find("bcd"));
    assert!(!t.find("abc"));
    assert!(!t.find("ad"));

    t.delete("a");
    assert!(t.find("ab"));
    t.delete("abc");
    assert!(t.find("ab"));
    t.delete("ab");
    assert!(!t.find("a"));
    assert!(!t.find("ab"));
    assert!(!t.find("abc"));
    assert!(t.find("abcd"));
}

#[test]
fn trie_empty_word_and_other_bytes() {
    let mut t = Trie::new();
    assert!(!t.find(""));
    t.insert("");
    assert!(t.find(""));
    assert!(!t.find("A"));
    t.delete("");
    assert!(!t.find(""));
    t.insert("z");
    t.delete("z");
    assert!(!t.find("z"));
}
