use clap_trie::{Trie, VisitingAggregator};

fn commands() -> Trie<u32> {
    let mut trie = Trie::new();
    trie.insert("auth", 1);
    trie.insert("get device bundles", 2);
    trie.insert("get device", 3);
    trie
}

fn describe(value: Option<&mut u32>, key: String, memo: Vec<String>) -> String {
    match value {
        Some(value) => format!("{}={}[{}]", key, value, memo.join(",")),
        None => format!("{}[{}]", key, memo.join(",")),
    }
}

#[test]
fn fold_of_the_empty_trie_is_one_visit_of_the_root() {
    let mut trie: Trie<u32> = Trie::new();
    let result = trie.aggregate_depth_first_root(
        &mut |value: Option<&mut u32>, key: String, memo: Vec<String>| {
            assert!(value.is_none());
            assert_eq!(key, "");
            assert!(memo.is_empty());
            String::from("root")
        },
    );
    assert_eq!(result, "root");
}

#[test]
fn fold_below_the_root_of_the_empty_trie_is_empty() {
    let mut trie: Trie<u32> = Trie::new();
    let results: Vec<String> = trie.aggregate_depth_first(&mut describe);
    assert!(results.is_empty());
}

#[test]
fn fold_gives_one_aggregate_for_each_child_of_the_root() {
    let mut trie = commands();
    let results = trie.aggregate_depth_first(&mut describe);
    assert_eq!(
        results,
        vec![
            String::from("auth=1[]"),
            String::from("get[device get=3[bundles device get=2[]]]"),
        ]
    );
}

#[test]
fn fold_of_the_whole_trie_ends_at_the_root() {
    let mut trie = commands();
    trie.insert("", 9);
    let result = trie.aggregate_depth_first_root(&mut describe);
    assert_eq!(result, "=9[auth=1[],get[device get=3[bundles device get=2[]]]]");
}

#[test]
fn fold_hands_each_node_the_key_that_starts_with_its_segment() {
    let mut trie = commands();
    let mut firsts = trie.aggregate_depth_first_root(
        &mut |_value: Option<&mut u32>, key: String, memo: Vec<Vec<String>>| {
            let mut seen: Vec<String> = memo.into_iter().flatten().collect();
            seen.push(key.split(' ').next().unwrap_or_default().to_string());
            seen
        },
    );
    firsts.sort();
    assert_eq!(firsts, vec!["", "auth", "bundles", "device", "get"]);
}

#[test]
fn fold_may_change_the_values() {
    let mut trie = commands();
    let count = trie.aggregate_depth_first_root(
        &mut |value: Option<&mut u32>, _key: String, memo: Vec<u32>| {
            let below: u32 = memo.iter().sum();
            match value {
                Some(value) => {
                    *value += 10;
                    below + 1
                },
                None => below,
            }
        },
    );
    assert_eq!(count, 3);
    assert_eq!(trie.lookup("auth"), Some(&11));
    assert_eq!(trie.lookup("get device bundles"), Some(&12));
    assert_eq!(trie.lookup("get device"), Some(&13));
    assert_eq!(trie.lookup("get"), None);
    assert_eq!(trie.child_keys(""), Some(vec!["auth", "get"]));
}

struct Counter {
    visits: usize,
    keys: Vec<String>,
}

impl VisitingAggregator<u32, usize> for Counter {
    fn visit(&mut self, _value: Option<&mut u32>, key: String, memo: Vec<usize>) -> usize {
        self.visits += 1;
        self.keys.push(key);
        memo.len()
    }
}

#[test]
fn fold_visits_children_before_their_parent() {
    let mut trie = commands();
    let mut counter = Counter { visits: 0, keys: Vec::new() };
    let results = trie.aggregate_depth_first(&mut counter);
    assert_eq!(results, vec![0, 1]);
    assert_eq!(counter.visits, 4);
    assert_eq!(counter.keys, vec!["auth", "bundles device get", "device get", "get"]);
}
