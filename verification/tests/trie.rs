use std::collections::HashSet;

use clap_trie::Trie;

#[test]
fn test_insert() {
    let mut trie = Trie::new();
    trie.insert("auth", "auth");
    trie.insert("get device bundles", "get device bundles");
    trie.insert("get device", "get device");

    assert_eq!(
        trie.child_keys("").map(|keys| keys.into_iter().collect()),
        Some(HashSet::from(["auth", "get"]))
    );
    assert_eq!(trie.lookup("auth"), Some(&"auth"));
    assert_eq!(trie.lookup("get device bundles"), Some(&"get device bundles"));
    assert_eq!(trie.lookup("get device"), Some(&"get device"));
}

#[test]
fn structural_node_has_no_value() {
    let mut trie = Trie::new();
    trie.insert("auth", "auth");
    trie.insert("get device bundles", "get device bundles");
    trie.insert("get device", "get device");

    assert_eq!(trie.lookup("get"), None);
    assert_eq!(trie.child_keys("get"), Some(vec!["device"]));
    assert_eq!(trie.children(""), Some(vec![("auth", &"auth")]));
    assert_eq!(trie.children("get"), Some(vec![("device", &"get device")]));
    assert_eq!(trie.children("get device"), Some(vec![("bundles", &"get device bundles")]));
}

#[test]
fn parent_and_child_both_hold_values() {
    let mut trie = Trie::new();
    trie.insert("a", 1);
    trie.insert("a b", 2);

    assert_eq!(trie.lookup("a"), Some(&1));
    assert_eq!(trie.lookup("a b"), Some(&2));
    assert_eq!(trie.child_keys("a"), Some(vec!["b"]));
    assert_eq!(trie.children("a"), Some(vec![("b", &2)]));
    assert_eq!(trie.child_values("a"), Some(vec![&2]));
}

#[test]
fn new_trie_holds_nothing() {
    let trie: Trie<u8> = Trie::new();
    assert_eq!(trie.lookup(""), None);
    assert_eq!(trie.lookup("a"), None);
    assert_eq!(trie.root_value(), None);
    assert_eq!(trie.child_keys(""), Some(vec![]));
    assert_eq!(trie.children(""), Some(vec![]));
    assert_eq!(trie.child_values(""), Some(vec![]));
    assert_eq!(trie.child_keys("a"), None);
}

#[test]
fn default_trie_is_new() {
    let trie: Trie<String> = Trie::default();
    assert_eq!(trie.root_value(), None);
    assert_eq!(trie.child_keys(""), Some(vec![]));
}

#[test]
fn insert_into_empty_then_lookup() {
    for key in ["a", "a b", "get device bundles", "x  y", " lead", "trail ", "é ü"] {
        let mut trie = Trie::new();
        assert_eq!(trie.insert(key, 7), None);
        assert_eq!(trie.lookup(key), Some(&7));
    }
}

#[test]
fn insert_twice_returns_previous() {
    let mut trie = Trie::new();
    assert_eq!(trie.insert("list devices", 1), None);
    assert_eq!(trie.insert("list devices", 2), Some(1));
    assert_eq!(trie.lookup("list devices"), Some(&2));
    assert_eq!(trie.insert("list devices", 3), Some(2));
    assert_eq!(trie.lookup("list devices"), Some(&3));
    assert_eq!(trie.child_keys(""), Some(vec!["list"]));
    assert_eq!(trie.child_keys("list"), Some(vec!["devices"]));
}

#[test]
fn insert_leaves_other_keys_alone() {
    let mut trie = Trie::new();
    trie.insert("a b", 1);
    trie.insert("a c", 2);
    trie.insert("a", 3);
    assert_eq!(trie.lookup("a b"), Some(&1));
    assert_eq!(trie.lookup("a c"), Some(&2));
    assert_eq!(trie.lookup("a"), Some(&3));
    assert_eq!(trie.lookup("b"), None);
    assert_eq!(trie.lookup("a b c"), None);
}

#[test]
fn keys_as_strings_and_references() {
    let mut trie = Trie::new();
    trie.insert(String::from("a b"), 1);
    let key = String::from("a c");
    trie.insert(&key, 2);
    trie.insert("a d", 3);
    assert_eq!(trie.lookup("a b"), Some(&1));
    assert_eq!(trie.lookup("a c"), Some(&2));
    assert_eq!(trie.lookup("a d"), Some(&3));
}

#[test]
fn empty_key_is_the_root() {
    let mut trie = Trie::new();
    assert_eq!(trie.insert("", 5), None);
    assert_eq!(trie.root_value(), Some(&5));
    assert_eq!(trie.lookup(""), Some(&5));
    assert_eq!(trie.child_keys(""), Some(vec![]));
    assert_eq!(trie.insert("", 6), Some(5));
    assert_eq!(trie.root_value(), Some(&6));
}

#[test]
fn empty_segments_are_segments() {
    let mut trie = Trie::new();
    trie.insert("a  b", 1);
    assert_eq!(trie.child_keys("a"), Some(vec![""]));
    assert_eq!(trie.child_keys("a "), Some(vec!["b"]));
    assert_eq!(trie.lookup("a  b"), Some(&1));
    assert_eq!(trie.lookup("a b"), None);
}

#[test]
fn children_come_in_the_order_they_were_added() {
    let mut trie = Trie::new();
    trie.insert("auth", "auth");
    trie.insert("get device bundles", "get device bundles");
    trie.insert("get device", "get device");
    trie.insert("list", "list");
    assert_eq!(trie.child_keys(""), Some(vec!["auth", "get", "list"]));
    assert_eq!(trie.children(""), Some(vec![("auth", &"auth"), ("list", &"list")]));
    assert_eq!(trie.child_values(""), Some(vec![&"auth", &"list"]));
}

#[test]
fn child_keys_hold_every_child_with_a_value() {
    let mut trie = Trie::new();
    trie.insert("a x", 1);
    trie.insert("b", 2);
    trie.insert("c y z", 3);
    trie.insert("d", 4);
    let keys = trie.child_keys("").unwrap();
    let children = trie.children("").unwrap();
    assert_eq!(keys, vec!["a", "b", "c", "d"]);
    assert_eq!(children, vec![("b", &2), ("d", &4)]);
    for (segment, _) in children {
        assert!(keys.contains(&segment));
    }
}

#[test]
fn missing_prefix_has_no_children() {
    let mut trie = Trie::new();
    trie.insert("a b", 1);
    assert_eq!(trie.children("b"), None);
    assert_eq!(trie.child_values("a b c"), None);
    assert_eq!(trie.child_keys("a c"), None);
    assert_eq!(trie.child_keys("a b"), Some(vec![]));
}

#[test]
fn delete_then_lookup() {
    let mut trie = Trie::new();
    trie.insert("x", 1);
    trie.insert("y", 2);
    trie.delete("x");
    assert_eq!(trie.lookup("x"), None);
    assert_eq!(trie.lookup("y"), Some(&2));
    assert_eq!(trie.child_keys(""), Some(vec!["y"]));
}

#[test]
fn delete_keeps_a_node_with_children() {
    let mut trie = Trie::new();
    trie.insert("a", 1);
    trie.insert("a b", 2);
    trie.delete("a");
    assert_eq!(trie.lookup("a"), None);
    assert_eq!(trie.lookup("a b"), Some(&2));
    assert_eq!(trie.child_keys(""), Some(vec!["a"]));
}

#[test]
fn delete_reads_the_key_from_its_last_segment() {
    let mut trie = Trie::new();
    trie.insert("a b", 1);
    trie.insert("b a", 2);
    trie.delete("a b");
    assert_eq!(trie.lookup("a b"), Some(&1));
    assert_eq!(trie.lookup("b a"), None);
    assert_eq!(trie.child_keys(""), Some(vec!["a"]));
}

#[test]
fn delete_prunes_the_whole_empty_path() {
    let mut trie = Trie::new();
    trie.insert("a b c", 1);
    trie.insert("d", 2);
    trie.delete("c b a");
    assert_eq!(trie.lookup("a b c"), None);
    assert_eq!(trie.child_keys(""), Some(vec!["d"]));
    assert_eq!(trie.child_keys("a"), None);
}

#[test]
fn delete_prunes_up_to_the_first_node_in_use() {
    let mut trie = Trie::new();
    trie.insert("a", 1);
    trie.insert("a b c", 2);
    trie.insert("m n o", 3);
    trie.insert("m p", 4);
    trie.delete("c b a");
    assert_eq!(trie.lookup("a"), Some(&1));
    assert_eq!(trie.child_keys("a"), Some(vec![]));
    trie.delete("o n m");
    assert_eq!(trie.child_keys("m"), Some(vec!["p"]));
    assert_eq!(trie.lookup("m p"), Some(&4));
}

#[test]
fn delete_never_removes_the_root() {
    let mut trie = Trie::new();
    trie.insert("", 1);
    trie.delete("");
    assert_eq!(trie.root_value(), None);
    assert_eq!(trie.child_keys(""), Some(vec![]));
    assert_eq!(trie.insert("a", 2), None);
    assert_eq!(trie.lookup("a"), Some(&2));
}

#[test]
fn delete_of_a_node_without_value_prunes_it() {
    let mut trie = Trie::new();
    trie.insert("a b", 1);
    trie.delete("b a");
    assert_eq!(trie.child_keys(""), Some(vec![]));
    trie.insert("c d", 2);
    trie.delete("d c");
    trie.insert("c", 3);
    assert_eq!(trie.child_keys(""), Some(vec!["c"]));
    assert_eq!(trie.child_keys("c"), Some(vec![]));
}

fn assert_no_dead_weight(trie: &Trie<u32>, prefix: &str) {
    for segment in trie.child_keys(prefix).unwrap() {
        let path = if prefix.is_empty() {
            segment.to_string()
        } else {
            format!("{} {}", prefix, segment)
        };
        let has_children = !trie.child_keys(&path).unwrap().is_empty();
        assert!(trie.lookup(&path).is_some() || has_children);
        assert_no_dead_weight(trie, &path);
    }
}

#[test]
fn no_node_is_left_with_nothing() {
    let mut trie = Trie::new();
    for (value, key) in ["a b c", "a b", "a d e f", "g", "h i", "a"].into_iter().enumerate() {
        trie.insert(key, value as u32);
        assert_no_dead_weight(&trie, "");
    }
    for key in ["c b a", "g", "f e d a", "a", "i h", "b a"] {
        trie.delete(key);
        assert_no_dead_weight(&trie, "");
    }
    assert_eq!(trie.child_keys(""), Some(vec![]));
}

#[test]
fn extend_inserts_in_order() {
    let mut trie = Trie::new();
    trie.insert("a", 0);
    trie.extend(vec![
        (String::from("b c"), 1),
        (String::from("a"), 2),
        (String::from("b"), 3),
        (String::from("b c"), 4),
    ]);
    assert_eq!(trie.lookup("a"), Some(&2));
    assert_eq!(trie.lookup("b"), Some(&3));
    assert_eq!(trie.lookup("b c"), Some(&4));
    assert_eq!(trie.child_keys(""), Some(vec!["a", "b"]));
}

#[test]
fn clone_is_a_copy_of_its_own() {
    let mut trie = Trie::new();
    trie.insert("a b", String::from("one"));
    let mut copy = trie.clone();
    copy.insert("a b", String::from("two"));
    copy.insert("c", String::from("three"));
    assert_eq!(trie.lookup("a b"), Some(&String::from("one")));
    assert_eq!(trie.lookup("c"), None);
    assert_eq!(copy.lookup("a b"), Some(&String::from("two")));
    assert_eq!(copy.child_keys(""), Some(vec!["a", "c"]));
}

#[test]
fn debug_shows_the_root() {
    let trie: Trie<u8> = Trie::new();
    let shown = format!("{:?}", trie);
    assert!(shown.contains("Trie"));
    assert!(shown.contains("root"));
}
