use convertx::config::write_error_message;
use convertx::tree_io::{spell_for_tree, value_of_yaml, yaml_of_value, WriteError};
use convertx::value::{ConfigValue, Number};

fn mapping(entries: Vec<(&str, ConfigValue)>) -> ConfigValue {
    ConfigValue::Mapping(entries.into_iter().map(|(k, v)| (k.to_string(), v)).collect())
}

fn text(t: &str) -> ConfigValue {
    ConfigValue::String(t.to_string())
}

fn integer(n: i128) -> ConfigValue {
    ConfigValue::Number(Number::Integer(n))
}

fn decimal(t: &str) -> ConfigValue {
    ConfigValue::Number(Number::Float(t.to_string()))
}

fn yaml(text: &str) -> serde_yaml::Value {
    serde_yaml::from_str(text).unwrap()
}

#[test]
fn reading_keeps_every_kind_of_node() {
    let v = yaml("n: ~\nb: true\ni: -3\nu: 18446744073709551615\nd: 2.50\ns: text\nl: [1, x]\nm: {k: v}\n");
    assert_eq!(
        value_of_yaml(&v),
        mapping(vec![
            ("n", ConfigValue::Null),
            ("b", ConfigValue::Bool(true)),
            ("i", integer(-3)),
            ("u", integer(u64::MAX as i128)),
            ("d", decimal("2.5")),
            ("s", text("text")),
            ("l", ConfigValue::Sequence(vec![integer(1), text("x")])),
            ("m", mapping(vec![("k", text("v"))])),
        ])
    );
}

#[test]
fn reading_leaves_out_entries_whose_key_is_no_text_and_marks_tagged_nodes() {
    let v = yaml("1: one\ntrue: yes\n~: nothing\n[a]: list\nkept: !tag x\n");
    assert_eq!(value_of_yaml(&v), mapping(vec![("kept", ConfigValue::Tagged)]));
    assert_eq!(value_of_yaml(&yaml("!t {a: 1}")), ConfigValue::Tagged);
}

#[test]
fn reading_decimals_without_a_finite_value_keeps_their_name() {
    let v = yaml("[.inf, -.inf, .nan, 1e300]");
    assert_eq!(
        value_of_yaml(&v),
        ConfigValue::Sequence(vec![decimal(".inf"), decimal("-.inf"), decimal(".nan"), decimal("1e300")])
    );
}

#[test]
fn writing_makes_the_value_that_reading_started_from() {
    for doc in ["a: 1\nb: [x, 2.5, ~, {c: false}]\nd: {e: {f: -7}}\n", "[]", "{}", "~", "just text", "[.inf, -.inf, .nan, 18446744073709551615, -9223372036854775808]"] {
        let v = yaml(doc);
        assert_eq!(yaml_of_value(&value_of_yaml(&v)), Ok(v));
    }
}

#[test]
fn writing_a_mapping_lets_a_repeated_key_keep_its_place_and_take_the_later_value() {
    let tree = mapping(vec![("a", integer(1)), ("b", integer(2)), ("a", integer(3))]);
    assert_eq!(yaml_of_value(&tree), Ok(yaml("a: 3\nb: 2\n")));
}

#[test]
fn writing_decimals_follows_the_spelling_of_the_tree_format() {
    let tree = ConfigValue::Sequence(vec![decimal("1e3"), decimal("+1.50"), decimal("inf"), decimal("-INFINITY"), decimal("nan"), decimal("12"), decimal("1e999"), decimal("-1e999")]);
    let v = yaml_of_value(&tree).unwrap();
    assert_eq!(serde_yaml::to_string(&v).unwrap(), "- 1000.0\n- 1.5\n- .inf\n- -.inf\n- .nan\n- 12.0\n- .inf\n- -.inf\n");
}

#[test]
fn spelling_for_the_tree_format() {
    assert_eq!(spell_for_tree("nan"), ".nan");
    assert_eq!(spell_for_tree("-NaN"), ".nan");
    assert_eq!(spell_for_tree("inf"), ".inf");
    assert_eq!(spell_for_tree("+Infinity"), ".inf");
    assert_eq!(spell_for_tree("-inf"), "-.inf");
    assert_eq!(spell_for_tree("123"), "123.0");
    assert_eq!(spell_for_tree("-123"), "-123.0");
    assert_eq!(spell_for_tree("1.5"), "1.5");
    assert_eq!(spell_for_tree("1e5"), "1e5");
    assert_eq!(spell_for_tree(".inf"), ".inf");
    assert_eq!(spell_for_tree(""), "");
    assert_eq!(spell_for_tree("-"), "-");
}

#[test]
fn writing_fails_on_a_tagged_node_and_on_a_number_without_text() {
    assert_eq!(yaml_of_value(&ConfigValue::Tagged), Err(WriteError::Tagged));
    let tree = mapping(vec![("a", integer(1)), ("b", ConfigValue::Sequence(vec![text("x"), ConfigValue::Tagged])), ("c", decimal("abc"))]);
    assert_eq!(yaml_of_value(&tree), Err(WriteError::Tagged));
    assert_eq!(yaml_of_value(&decimal("abc")), Err(WriteError::Number("abc".to_string())));
    assert_eq!(yaml_of_value(&integer(u64::MAX as i128 + 1)), Err(WriteError::Number("18446744073709551616".to_string())));
    assert_eq!(yaml_of_value(&integer(i64::MIN as i128 - 1)), Err(WriteError::Number("-9223372036854775809".to_string())));
}

#[test]
fn write_error_messages() {
    assert_eq!(write_error_message(&WriteError::Tagged), "a tagged node has no place in the document");
    assert_eq!(write_error_message(&WriteError::Number("abc".to_string())), "not a number: abc");
}
