use treeline::{Trie, TrieRead};

fn drain(mut read: TrieRead) -> Vec<String> {
    let mut out = Vec::new();
    while let Some(word) = read.next() {
        out.push(word.clone());
    }
    out
}

fn len(trie: &Trie) -> usize {
    drain(trie.words()).len()
}

fn sorted(mut words: Vec<String>) -> Vec<String> {
    words.sort();
    words
}

#[test]
fn insert_single() {
    let mut trie = Trie::new();
    let input = "Hello world!";

    trie.insert(input);
    assert!(trie.find(input).is_some());
    assert!(trie.find("Hi there").is_none());
}

#[test]
fn insert_multiple() {
    let mut trie = Trie::new();
    let input1 = "Hello world!";
    let input2 = "Hello sir!";
    let input3 = "Good afternoon!";

    trie.insert(input1);
    trie.insert(input2);
    trie.insert(input3);

    assert!(trie.find(input1).is_some());
    assert!(trie.find(input2).is_some());
    assert!(trie.find(input3).is_some());
    assert!(trie.find("Hi there").is_none());
}

#[test]
fn delete_single() {
    let mut trie = Trie::new();
    let input = "Hello world!";

    trie.insert(input);
    assert!(trie.find(input).is_some());

    trie.delete(input);
    assert!(trie.find(input).is_none());

    assert_eq!(len(&trie), 0);
}

#[test]
fn delete_prefix() {
    let mut trie = Trie::new();
    let input = "Hello world!";

    trie.insert(input);
    assert!(trie.find(input).is_some());

    trie.delete("Hello");
    assert!(trie.find(input).is_some());

    assert_eq!(len(&trie), 1);
}

#[test]
fn delete_after_prefix() {
    let mut trie = Trie::new();
    let input = "Hello world!";

    trie.insert(input);
    assert!(trie.find(input).is_some());

    trie.delete_after_prefix("Hello ", "world!");
    assert!(trie.find(input).is_none());

    assert_eq!(len(&trie), 1);
}

#[test]
fn delete_multiple() {
    let mut trie = Trie::new();
    let input1 = "Hello world!";
    let input2 = "Hello sir!";
    let input3 = "Good afternoon!";

    trie.insert(input1);
    trie.insert(input2);
    trie.insert(input3);

    assert!(trie.find(input1).is_some());
    assert!(trie.find(input2).is_some());
    assert!(trie.find(input3).is_some());

    trie.delete(input1);
    assert!(trie.find(input1).is_none());

    trie.delete(input3);
    assert!(trie.find(input3).is_none());

    assert_eq!(len(&trie), 1);
}

#[test]
fn find_in_empty_trie() {
    let trie = Trie::new();

    assert!(trie.find(" ").is_none());
}

#[test]
fn find_prefix() {
    let mut trie = Trie::new();
    trie.insert("Hello world!");

    assert!(trie.find("Hello").is_some());
}

#[test]
fn find_from_prefix() {
    let mut trie = Trie::new();
    trie.insert("Hello world!");
    trie.insert("Hello sir!");
    trie.insert("Hello miss!");

    if let Some(node) = trie.find("Hello ") {
        assert!(node.find("sir").is_some());
    }
}

#[test]
fn find_empty_word_gives_root() {
    let trie = Trie::new();
    assert!(trie.find("").is_some());
}

#[test]
fn insert_then_find_survives_other_insert() {
    let mut trie = Trie::new();
    trie.insert("cargo build");
    assert!(trie.find("cargo build").is_some());
    trie.insert("ls -la");
    assert!(trie.find("cargo build").is_some());
    assert!(trie.find("ls -la").is_some());
}

#[test]
fn strict_prefix_is_found_but_not_listed() {
    let mut trie = Trie::new();
    trie.insert("hello");
    assert!(trie.find("hel").is_some());
    assert_eq!(drain(trie.words()), vec!["hello".to_string()]);
}

#[test]
fn prefix_entry_disappears_from_listing() {
    let mut trie = Trie::new();
    trie.insert("git");
    trie.insert("git status");
    assert!(trie.find("git").is_some());
    assert_eq!(drain(trie.words()), vec!["git status".to_string()]);
}

#[test]
fn insert_twice_changes_nothing() {
    let mut trie = Trie::new();
    trie.insert("abc");
    trie.insert("abc");
    assert_eq!(drain(trie.words()), vec!["abc".to_string()]);
}

#[test]
fn insert_empty_is_no_op() {
    let mut trie = Trie::new();
    trie.insert("");
    assert_eq!(len(&trie), 0);
}

#[test]
fn delete_unshared_entry_restores_trie() {
    let mut trie = Trie::new();
    trie.insert("alpha");
    trie.insert("beta");
    trie.delete("beta");
    assert!(trie.find("beta").is_none());
    assert!(trie.find("b").is_none());
    assert_eq!(drain(trie.words()), vec!["alpha".to_string()]);
}

#[test]
fn delete_shared_prefix_keeps_other_entry() {
    let mut trie = Trie::new();
    trie.insert("hello world");
    trie.insert("hello sir");
    trie.delete("hello world");
    assert!(trie.find("hello ").is_some());
    assert!(trie.find("hello w").is_none());
    assert_eq!(drain(trie.words()), vec!["hello sir".to_string()]);
}

#[test]
fn delete_missing_entry_changes_nothing() {
    let mut trie = Trie::new();
    trie.insert("abc");
    trie.delete("xyz");
    trie.delete("abd");
    trie.delete("");
    assert_eq!(drain(trie.words()), vec!["abc".to_string()]);
}

#[test]
fn delete_longer_word_removes_reached_entry() {
    let mut trie = Trie::new();
    trie.insert("ab");
    trie.delete("abc");
    assert!(trie.find("a").is_none());
    assert_eq!(len(&trie), 0);
}

#[test]
fn delete_after_prefix_leaves_other_subtrees() {
    let mut trie = Trie::new();
    trie.insert("Hello world!");
    trie.insert("Good afternoon!");
    trie.delete_after_prefix("Hello ", "world!");
    assert!(trie.find("Hello ").is_some());
    assert!(trie.find("Good afternoon!").is_some());
    assert_eq!(
        sorted(drain(trie.words())),
        vec!["Good afternoon!".to_string(), "Hello ".to_string()]
    );
}

#[test]
fn delete_after_missing_prefix_is_no_op() {
    let mut trie = Trie::new();
    trie.insert("Hello world!");
    trie.delete_after_prefix("Bye ", "world!");
    assert!(trie.find("Hello world!").is_some());
}

#[test]
fn words_with_missing_prefix_is_empty() {
    let mut trie = Trie::new();
    trie.insert("hello");
    assert!(drain(trie.words_with_prefix("help")).is_empty());
    assert!(drain(trie.words_with_prefix("x")).is_empty());
}

#[test]
fn words_with_prefix_of_leaf_is_empty() {
    let mut trie = Trie::new();
    trie.insert("hello");
    assert!(drain(trie.words_with_prefix("hello")).is_empty());
}

#[test]
fn history_scenario() {
    let mut trie = Trie::new();
    trie.insert("hello world");
    trie.insert("hello sir");
    trie.insert("good afternoon");
    assert_eq!(
        sorted(drain(trie.words())),
        vec![
            "good afternoon".to_string(),
            "hello sir".to_string(),
            "hello world".to_string()
        ]
    );
    assert_eq!(
        sorted(drain(trie.words_with_prefix("hello"))),
        vec!["hello sir".to_string(), "hello world".to_string()]
    );
    trie.delete("hello world");
    assert!(trie.find("hello world").is_none());
    assert!(trie.find("hello sir").is_some());
    assert_eq!(
        sorted(drain(trie.words())),
        vec!["good afternoon".to_string(), "hello sir".to_string()]
    );
}

#[test]
fn non_ascii_entries() {
    let mut trie = Trie::new();
    trie.insert("größe");
    trie.insert("grün");
    assert!(trie.find("grö").is_some());
    assert_eq!(
        sorted(drain(trie.words_with_prefix("gr"))),
        vec!["größe".to_string(), "grün".to_string()]
    );
}

#[test]
fn reader_is_exhausted_once() {
    let mut trie = Trie::new();
    trie.insert("a");
    let mut read = trie.words();
    assert_eq!(read.next().map(|w| w.clone()), Some("a".to_string()));
    assert!(read.next().is_none());
    assert!(read.next().is_none());
}

#[test]
fn delete_after_prefix_matches_delete_when_prefix_kept() {
    let mut below = Trie::new();
    let mut whole = Trie::new();
    for trie in [&mut below, &mut whole] {
        trie.insert("Hello world!");
        trie.insert("Hello sir!");
        trie.insert("Good afternoon!");
    }
    below.delete_after_prefix("Hello ", "world!");
    whole.delete("Hello world!");
    assert_eq!(sorted(drain(below.words())), sorted(drain(whole.words())));
    assert_eq!(
        sorted(drain(below.words())),
        vec!["Good afternoon!".to_string(), "Hello sir!".to_string()]
    );
}
