use convertx::flat::{FlatEntry, FlatMap};

fn pairs(map: &FlatMap) -> Vec<(String, String)> {
    (0..map.len()).map(|i| (map.entry(i).key.clone(), map.entry(i).value.clone())).collect()
}

fn pair(k: &str, v: &str) -> (String, String) {
    (k.to_string(), v.to_string())
}

#[test]
fn new_map_is_empty() {
    let map = FlatMap::new();
    assert_eq!(map.len(), 0);
    assert_eq!(map.get("a"), None);
}

#[test]
fn insert_keeps_the_order_in_which_keys_came() {
    let mut map = FlatMap::new();
    map.insert("b".to_string(), "1".to_string());
    map.insert("a".to_string(), "2".to_string());
    map.insert("c".to_string(), "3".to_string());
    assert_eq!(pairs(&map), vec![pair("b", "1"), pair("a", "2"), pair("c", "3")]);
}

#[test]
fn insert_under_a_key_that_is_there_replaces_the_value_in_place() {
    let mut map = FlatMap::new();
    map.insert("b".to_string(), "1".to_string());
    map.insert("a".to_string(), "2".to_string());
    map.insert("b".to_string(), "3".to_string());
    assert_eq!(pairs(&map), vec![pair("b", "3"), pair("a", "2")]);
    assert_eq!(map.get("b"), Some(&"3".to_string()));
    assert_eq!(map.get("a"), Some(&"2".to_string()));
    assert_eq!(map.get("z"), None);
}

#[test]
fn sorted_puts_the_entries_in_the_order_of_their_keys() {
    let mut map = FlatMap::new();
    for (k, v) in [("db.port", "5432"), ("a[10]", "x"), ("db.host", "h"), ("a[9]", "y"), ("Z", "z"), ("", "e")] {
        map.insert(k.to_string(), v.to_string());
    }
    let sorted: Vec<(String, String)> = map.sorted().into_iter().map(|e: FlatEntry| (e.key, e.value)).collect();
    let mut expected = pairs(&map);
    expected.sort();
    assert_eq!(sorted, expected);
    assert_eq!(sorted[0], pair("", "e"));
    assert_eq!(sorted[1], pair("Z", "z"));
    assert_eq!(sorted[2], pair("a[10]", "x"));
}

#[test]
fn clone_holds_the_same_entries() {
    let mut map = FlatMap::new();
    map.insert("k".to_string(), "v".to_string());
    let copy = map.clone();
    assert_eq!(copy, map);
}
