use clap_trie::{MaybeEmptyIter, TrieKey};

#[test]
fn test_triekey() {
    assert_eq!("a b c".key_rest(), Some(("c", "a b")));
    assert_eq!("a b".key_rest(), Some(("b", "a")));
    assert_eq!("a".key_rest(), Some(("a", "")));
    assert_eq!("".key_rest(), None);

    assert_eq!("a b c".iter_keys().collect(), vec!["a", "b", "c"]);
    assert_eq!("a".iter_keys().next(), Some("a"));
    assert_eq!("".iter_keys().next(), None);
}

#[test]
fn segments_of_the_empty_key() {
    assert_eq!("".iter_keys().collect(), Vec::<&str>::new());
    assert_eq!("".key(), None);
}

#[test]
fn segments_between_every_two_delimiters() {
    assert_eq!("a  b".iter_keys().collect(), vec!["a", "", "b"]);
    assert_eq!(" a".iter_keys().collect(), vec!["", "a"]);
    assert_eq!("a ".iter_keys().collect(), vec!["a", ""]);
    assert_eq!(" ".iter_keys().collect(), vec!["", ""]);
    assert_eq!("get device bundles".iter_keys().collect(), vec!["get", "device", "bundles"]);
}

#[test]
fn segments_agree_with_split() {
    for key in ["a", "a b", " a  b ", "x y z w", "   ", "tab\tis no delimiter"] {
        let expected: Vec<&str> = key.split(' ').collect();
        assert_eq!(key.iter_keys().collect(), expected);
    }
}

#[test]
fn segments_of_text_beyond_ascii() {
    assert_eq!("é ü".iter_keys().collect(), vec!["é", "ü"]);
    assert_eq!("日本 語".key_rest(), Some(("語", "日本")));
    assert_eq!("日本 語".key(), Some("日本"));
}

#[test]
fn walk_hands_out_one_segment_at_a_time() {
    let mut walk = MaybeEmptyIter::new("a b c");
    assert_eq!(walk.next(), Some("a"));
    assert_eq!(walk.next(), Some("b"));
    assert_eq!(walk.collect(), vec!["c"]);

    let mut walk = "one".iter_keys();
    assert_eq!(walk.next(), Some("one"));
    assert_eq!(walk.next(), None);
    assert_eq!(walk.next(), None);
}

#[test]
fn walk_can_start_again() {
    let key = String::from("a b");
    assert_eq!(key.iter_keys().collect(), vec!["a", "b"]);
    assert_eq!(key.iter_keys().collect(), vec!["a", "b"]);
}

#[test]
fn first_segment() {
    assert_eq!("a b c".key(), Some("a"));
    assert_eq!("a".key(), Some("a"));
    assert_eq!(" a".key(), Some(""));
    assert_eq!(String::from("get device").key(), Some("get"));
}

#[test]
fn last_segment_and_rest() {
    assert_eq!(" a".key_rest(), Some(("a", "")));
    assert_eq!("a ".key_rest(), Some(("", "a")));
    assert_eq!(" ".key_rest(), Some(("", "")));
    assert_eq!("a  b".key_rest(), Some(("b", "a ")));
    assert_eq!(String::from("a b c").key_rest(), Some(("c", "a b")));
    let key = String::from("a b c");
    assert_eq!((&key).key_rest(), Some(("c", "a b")));
}

#[test]
fn join_puts_the_key_behind_the_prefix() {
    assert_eq!("device".join("get"), "get device");
    assert_eq!("".join("get"), "get");
    assert_eq!("device".join(""), " device");
    assert_eq!("".join(""), "");
    assert_eq!(String::from("b c").join("a"), "a b c");
    let key = String::from("b");
    assert_eq!((&key).join("a"), "a b");
}

#[test]
fn last_segment_joins_back_behind_the_rest() {
    for key in ["a b", "a b c", "get device bundles"] {
        let (last, rest) = key.key_rest().unwrap();
        assert_eq!(last.join(rest), key);
    }
}
