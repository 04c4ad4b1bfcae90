use convertx::flat::FlatMap;
use convertx::flatten::{flatten, flatten_yaml};
use convertx::properties::{parse_properties, write_properties};
use convertx::unflatten::{insert_value, put_value, unflatten_properties};
use convertx::value::{ConfigValue, Number};

fn pairs(map: &FlatMap) -> Vec<(String, String)> {
    (0..map.len()).map(|i| (map.entry(i).key.clone(), map.entry(i).value.clone())).collect()
}

fn pair(k: &str, v: &str) -> (String, String) {
    (k.to_string(), v.to_string())
}

fn map_of(entries: &[(&str, &str)]) -> FlatMap {
    let mut map = FlatMap::new();
    for (k, v) in entries {
        map.insert(k.to_string(), v.to_string());
    }
    map
}

fn mapping(entries: Vec<(&str, ConfigValue)>) -> ConfigValue {
    ConfigValue::Mapping(entries.into_iter().map(|(k, v)| (k.to_string(), v)).collect())
}

fn text(t: &str) -> ConfigValue {
    ConfigValue::String(t.to_string())
}

fn integer(n: i128) -> ConfigValue {
    ConfigValue::Number(Number::Integer(n))
}

#[test]
fn flatten_joins_keys_with_dots_in_declared_order() {
    let tree = mapping(vec![
        ("db", mapping(vec![("port", integer(5432)), ("host", text("localhost"))])),
        ("debug", ConfigValue::Bool(false)),
    ]);
    assert_eq!(
        pairs(&flatten(&tree)),
        vec![pair("db.port", "5432"), pair("db.host", "localhost"), pair("debug", "false")]
    );
}

#[test]
fn flatten_writes_each_kind_of_leaf_as_text() {
    let tree = mapping(vec![
        ("n", ConfigValue::Null),
        ("t", ConfigValue::Bool(true)),
        ("f", ConfigValue::Bool(false)),
        ("i", integer(-42)),
        ("d", ConfigValue::Number(Number::Float("3.14".to_string()))),
        ("s", text("raw = text\\n")),
    ]);
    assert_eq!(
        pairs(&flatten(&tree)),
        vec![pair("n", ""), pair("t", "true"), pair("f", "false"), pair("i", "-42"), pair("d", "3.14"), pair("s", "raw = text\\n")]
    );
}

#[test]
fn flatten_numbers_the_items_of_a_sequence_in_brackets() {
    let tree = mapping(vec![(
        "a",
        mapping(vec![(
            "b",
            ConfigValue::Sequence(vec![mapping(vec![("c", integer(1))]), text("x"), ConfigValue::Sequence(vec![text("y")])]),
        )]),
    )]);
    assert_eq!(pairs(&flatten(&tree)), vec![pair("a.b[0].c", "1"), pair("a.b[1]", "x"), pair("a.b[2][0]", "y")]);
}

#[test]
fn flatten_of_a_sequence_at_the_root_starts_with_the_bracket() {
    let tree = ConfigValue::Sequence(vec![text("x"), text("y")]);
    assert_eq!(pairs(&flatten(&tree)), vec![pair("[0]", "x"), pair("[1]", "y")]);
}

#[test]
fn flatten_numbers_items_past_nine_in_decimal() {
    let tree = mapping(vec![("l", ConfigValue::Sequence((0..12).map(|i| integer(i)).collect()))]);
    let flat = pairs(&flatten(&tree));
    assert_eq!(flat[10], pair("l[10]", "10"));
    assert_eq!(flat[11], pair("l[11]", "11"));
}

#[test]
fn flatten_drops_empty_containers_and_tagged_nodes() {
    let tree = mapping(vec![
        ("e", mapping(vec![])),
        ("s", ConfigValue::Sequence(vec![])),
        ("t", ConfigValue::Tagged),
        ("l", ConfigValue::Sequence(vec![ConfigValue::Tagged, text("kept")])),
    ]);
    assert_eq!(pairs(&flatten(&tree)), vec![pair("l[1]", "kept")]);
    assert_eq!(flatten(&ConfigValue::Tagged).len(), 0);
}

#[test]
fn flatten_of_a_leaf_at_the_root_has_the_empty_key() {
    assert_eq!(pairs(&flatten(&integer(42))), vec![pair("", "42")]);
}

#[test]
fn flatten_lets_the_later_of_two_leaves_with_one_key_win() {
    let tree = mapping(vec![("a.b", integer(1)), ("a", mapping(vec![("b", integer(2))])), ("c", integer(3))]);
    assert_eq!(pairs(&flatten(&tree)), vec![pair("a.b", "2"), pair("c", "3")]);
}

#[test]
fn flatten_into_a_map_adds_under_the_prefix() {
    let mut map = map_of(&[("x", "old"), ("p.a", "old")]);
    flatten_yaml(&mapping(vec![("a", integer(1)), ("b", integer(2))]), "p", &mut map);
    assert_eq!(pairs(&map), vec![pair("x", "old"), pair("p.a", "1"), pair("p.b", "2")]);
}

#[test]
fn unflatten_builds_nested_mappings_and_types_the_leaves() {
    let tree = unflatten_properties(&map_of(&[("a.b", "1"), ("a.c", "true"), ("name", "web"), ("none", "")]));
    assert_eq!(
        tree,
        mapping(vec![
            ("a", mapping(vec![("b", integer(1)), ("c", ConfigValue::Bool(true))])),
            ("name", text("web")),
            ("none", ConfigValue::Null),
        ])
    );
}

#[test]
fn unflatten_of_nothing_is_an_empty_mapping() {
    assert_eq!(unflatten_properties(&FlatMap::new()), mapping(vec![]));
}

#[test]
fn unflatten_keeps_bracketed_keys_as_they_are() {
    let flat = flatten(&mapping(vec![("list", ConfigValue::Sequence(vec![text("a"), text("b")]))]));
    assert_eq!(unflatten_properties(&flat), mapping(vec![("list[0]", text("a")), ("list[1]", text("b"))]));
}

#[test]
fn unflatten_lets_the_last_entry_decide_between_leaf_and_mapping() {
    assert_eq!(unflatten_properties(&map_of(&[("a", "1"), ("a.b", "2")])), mapping(vec![("a", mapping(vec![("b", integer(2))]))]));
    assert_eq!(unflatten_properties(&map_of(&[("a.b", "2"), ("a", "1")])), mapping(vec![("a", integer(1))]));
    assert_eq!(
        unflatten_properties(&map_of(&[("a.b", "2"), ("z", "0"), ("a.c", "3")])),
        mapping(vec![("a", mapping(vec![("b", integer(2)), ("c", integer(3))])), ("z", integer(0))])
    );
}

#[test]
fn unflatten_takes_empty_pieces_of_a_key_as_keys() {
    assert_eq!(unflatten_properties(&map_of(&[("a..b", "1")])), mapping(vec![("a", mapping(vec![("", mapping(vec![("b", integer(1))]))]))]));
    assert_eq!(unflatten_properties(&map_of(&[("", "1")])), mapping(vec![("", integer(1))]));
    assert_eq!(unflatten_properties(&map_of(&[(".", "1")])), mapping(vec![("", mapping(vec![("", integer(1))]))]));
}

#[test]
fn insert_value_replaces_in_place() {
    let mut entries: Vec<(String, ConfigValue)> = Vec::new();
    insert_value(&mut entries, "a", "1");
    insert_value(&mut entries, "b.c", "x");
    insert_value(&mut entries, "a", "2");
    insert_value(&mut entries, "b.d", "007");
    assert_eq!(
        ConfigValue::Mapping(entries),
        mapping(vec![("a", integer(2)), ("b", mapping(vec![("c", text("x")), ("d", integer(7))]))])
    );
}

#[test]
fn put_value_appends_a_new_key_and_replaces_an_old_one() {
    let mut entries: Vec<(String, ConfigValue)> = Vec::new();
    put_value(&mut entries, "a".to_string(), integer(1));
    put_value(&mut entries, "b".to_string(), integer(2));
    put_value(&mut entries, "a".to_string(), integer(3));
    assert_eq!(ConfigValue::Mapping(entries), mapping(vec![("a", integer(3)), ("b", integer(2))]));
}

#[test]
fn mapping_without_sequences_comes_back_from_its_flat_entries() {
    let tree = mapping(vec![
        ("server", mapping(vec![("host", text("example.org")), ("port", integer(8080)), ("tls", mapping(vec![("on", ConfigValue::Bool(true))]))])),
        ("name", text("demo")),
        ("ratio", ConfigValue::Number(Number::Float("0.75".to_string()))),
        ("nothing", ConfigValue::Null),
        ("", text("under the empty key")),
    ]);
    assert_eq!(unflatten_properties(&flatten(&tree)), tree);
}

#[test]
fn text_leaf_that_reads_as_another_kind_comes_back_retyped() {
    let tree = mapping(vec![("code", text("007")), ("flag", text("TRUE")), ("gone", text("")), ("esc", text("a\\tb"))]);
    assert_eq!(
        unflatten_properties(&flatten(&tree)),
        mapping(vec![("code", integer(7)), ("flag", ConfigValue::Bool(true)), ("gone", ConfigValue::Null), ("esc", text("a\tb"))])
    );
}

#[test]
fn key_with_a_dot_and_empty_mapping_do_not_come_back() {
    let dotted = mapping(vec![("a.b", integer(1))]);
    assert_eq!(unflatten_properties(&flatten(&dotted)), mapping(vec![("a", mapping(vec![("b", integer(1))]))]));
    let hollow = mapping(vec![("a", mapping(vec![])), ("b", integer(1))]);
    assert_eq!(unflatten_properties(&flatten(&hollow)), mapping(vec![("b", integer(1))]));
    let nameless = mapping(vec![("", mapping(vec![("b", integer(1))]))]);
    assert_eq!(unflatten_properties(&flatten(&nameless)), mapping(vec![("b", integer(1))]));
}

#[test]
fn tree_written_as_lines_and_read_back_is_written_as_the_same_lines() {
    let tree = mapping(vec![
        ("z", mapping(vec![("b", integer(2)), ("a", text("x = y"))])),
        ("list", ConfigValue::Sequence(vec![text("first"), mapping(vec![("k", ConfigValue::Bool(true))])])),
        ("a key", ConfigValue::Number(Number::Float("1e3".to_string()))),
        ("n", ConfigValue::Null),
    ]);
    let first = write_properties(&flatten(&tree));
    assert_eq!(first, "a\\ key=1e3\nlist[0]=first\nlist[1].k=true\nn=\nz.a=x = y\nz.b=2");
    let back = unflatten_properties(&parse_properties(&first));
    assert_eq!(write_properties(&flatten(&back)), first);
}

#[test]
fn tree_with_a_text_that_reads_as_a_number_is_written_differently_the_second_time() {
    let tree = mapping(vec![("code", text("007"))]);
    let first = write_properties(&flatten(&tree));
    let second = write_properties(&flatten(&unflatten_properties(&parse_properties(&first))));
    assert_eq!(first, "code=007");
    assert_eq!(second, "code=7");
}
