use word_search_solver::trie::{Trie, TrieNode};

#[test]
fn test_start_with() {
    let mut trie = Trie::new();
    trie.insert("Hello");
    trie.insert("Like");
    trie.insert("Interesting");
    trie.insert("K");
    trie.insert("Half");

    assert!(trie.starts_with("H"));
    assert!(trie.starts_with("Li"));
    assert!(trie.starts_with("K"));
    assert!(trie.starts_with(""));
    assert!(trie.starts_with("Interest"));
    assert!(!trie.starts_with("prefix"));
}

#[test]
fn test_insert_and_search() {
    let mut trie = Trie::new();
    trie.insert("Hello");
    trie.insert("Like");
    trie.insert("Interesting");
    trie.insert("K");
    trie.insert("Half");

    assert!(trie.search("Hello"));
    assert!(trie.search("Like"));
    assert!(trie.search("Interesting"));
    assert!(trie.search("K"));
    assert!(trie.search("Half"));
    assert!(!trie.search("prefix"));
}

#[test]
fn test_insert_words() {
    let mut trie = Trie::new();
    let words = vec!["One", "Two", "Three", "Four", "Five"];
    trie.insert_words(&words);
    assert!(trie.search("One"));
    assert!(trie.search("Two"));
    assert!(trie.search("Three"));
    assert!(trie.search("Four"));
    assert!(trie.search("Five"));
    assert!(!trie.search("Six"));
}

#[test]
fn the_empty_dictionary_matches_nothing() {
    let trie = Trie::new();
    assert!(trie.starts_with(""));
    assert!(!trie.starts_with("a"));
    assert!(!trie.search(""));
    assert!(!trie.search("a"));
    let _node = TrieNode::new();
}

#[test]
fn a_word_is_a_prefix_and_a_prefix_need_not_be_a_word() {
    let mut trie = Trie::new();
    trie.insert("Interesting");
    for end in 0..="Interesting".len() {
        assert!(trie.starts_with(&"Interesting"[..end]));
        assert_eq!(trie.search(&"Interesting"[..end]), end == "Interesting".len());
    }
    assert!(!trie.starts_with("Interestingly"));
    assert!(!trie.starts_with("interesting"));
    assert!(!trie.starts_with("nteresting"));
}

#[test]
fn inserting_twice_is_inserting_once() {
    let probes = ["", "c", "ca", "cat", "cats", "car", "dog", "at"];
    let mut once = Trie::new();
    once.insert("car");
    once.insert("cat");
    let mut twice = Trie::new();
    twice.insert("car");
    twice.insert("cat");
    twice.insert("cat");
    for probe in probes {
        assert_eq!(once.search(probe), twice.search(probe));
        assert_eq!(once.starts_with(probe), twice.starts_with(probe));
    }
    assert!(twice.search("cat"));
    assert!(!twice.search("ca"));
    assert!(twice.starts_with("ca"));
}

#[test]
fn a_word_inside_a_longer_word() {
    let mut trie = Trie::new();
    trie.insert("cats");
    assert!(!trie.search("cat"));
    trie.insert("cat");
    assert!(trie.search("cat"));
    assert!(trie.search("cats"));
    assert!(trie.starts_with("cat"));
    assert!(!trie.starts_with("catz"));
}

#[test]
fn the_empty_word_can_be_a_word() {
    let mut trie = Trie::new();
    assert!(!trie.search(""));
    trie.insert("");
    assert!(trie.search(""));
    assert!(!trie.search("a"));
    assert!(!trie.starts_with("a"));
}

#[test]
fn words_beyond_ascii() {
    let mut trie = Trie::new();
    trie.insert_words(&vec!["über", "日本語", "naïve"]);
    assert!(trie.search("über"));
    assert!(trie.search("日本語"));
    assert!(trie.starts_with("日本"));
    assert!(!trie.search("日本"));
    assert!(!trie.starts_with("uber"));
    assert!(trie.starts_with("naï"));
}

#[test]
fn insert_words_keeps_what_was_there() {
    let mut trie = Trie::new();
    trie.insert("Zero");
    trie.insert_words(&vec!["One", "Two"]);
    trie.insert_words(&vec![]);
    assert!(trie.search("Zero"));
    assert!(trie.search("One"));
    assert!(trie.search("Two"));
    assert!(!trie.search("On"));
    assert!(trie.starts_with("Tw"));
}
