use prefix3::Trie;

#[test]
fn it_works() {
    let keys = ["the", "a", "there", "anaswe", "any", "by", "their"];
    let mut prefixtrie = Trie::new();
    keys.iter().for_each(|word| prefixtrie.insert(*word));
    assert!(prefixtrie.search("the") == true);
    assert_eq!(prefixtrie.search("ana"), false);
}

#[test]
fn fresh_trie_finds_nothing() {
    let trie = Trie::new();
    for w in ["", "a", "z", "word", "abcdefghijklmnopqrstuvwxyz"] {
        assert!(!trie.search(w));
    }
}

#[test]
fn inserted_word_is_found() {
    for w in ["a", "z", "word", "zebra", "abcdefghijklmnopqrstuvwxyz"] {
        let mut trie = Trie::new();
        trie.insert(w);
        assert!(trie.search(w));
    }
}

#[test]
fn insert_twice_same_as_once() {
    let probes = ["", "a", "ab", "abc", "abcd", "b", "abd"];
    let mut once = Trie::new();
    once.insert("abc");
    let mut twice = Trie::new();
    twice.insert("abc");
    twice.insert("abc");
    assert!(twice.search("abc"));
    for p in probes {
        assert_eq!(once.search(p), twice.search(p));
    }
}

#[test]
fn strict_prefix_is_not_found() {
    let mut trie = Trie::new();
    trie.insert("anaswe");
    assert!(!trie.search(""));
    assert!(!trie.search("a"));
    assert!(!trie.search("an"));
    assert!(!trie.search("ana"));
    assert!(!trie.search("anasw"));
    assert!(trie.search("anaswe"));
    assert!(!trie.search("anaswer"));
}

#[test]
fn insert_order_is_irrelevant() {
    let probes = ["", "c", "ca", "car", "cart", "cat", "ct", "dog"];
    let mut first = Trie::new();
    first.insert("car");
    first.insert("cat");
    let mut second = Trie::new();
    second.insert("cat");
    second.insert("car");
    for p in probes {
        assert_eq!(first.search(p), second.search(p));
    }
    assert!(first.search("car") && first.search("cat"));
}

#[test]
fn empty_word() {
    let mut trie = Trie::new();
    assert!(!trie.search(""));
    trie.insert("");
    assert!(trie.search(""));
    assert!(!trie.search("a"));
}

#[test]
fn concrete_scenario() {
    let mut trie = Trie::new();
    for w in ["the", "a", "there", "anaswe", "any", "by", "their"] {
        trie.insert(w);
    }
    assert_eq!(trie.search("the"), true);
    assert_eq!(trie.search("ana"), false);
    assert_eq!(trie.search("there"), true);
    assert_eq!(trie.search("an"), false);
    assert_eq!(trie.search("by"), true);
    assert_eq!(trie.search("their"), true);
    assert_eq!(trie.search("any"), true);
    assert_eq!(trie.search("a"), true);
    assert_eq!(trie.search("th"), false);
    assert_eq!(trie.search("b"), false);
}

#[test]
fn letters_select_distinct_branches() {
    let mut trie = Trie::new();
    trie.insert("a");
    trie.insert("z");
    assert!(trie.search("a"));
    assert!(trie.search("z"));
    assert!(!trie.search("b"));
    assert!(!trie.search("y"));
    assert!(!trie.search("az"));
}

#[test]
fn words_sharing_a_path() {
    let mut trie = Trie::new();
    trie.insert("abc");
    trie.insert("ab");
    trie.insert("abd");
    assert!(trie.search("ab"));
    assert!(trie.search("abc"));
    assert!(trie.search("abd"));
    assert!(!trie.search("a"));
    assert!(!trie.search("abe"));
}
