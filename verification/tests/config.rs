use convertx::config::{
    convert_between, convert_config, format_of_tag, json_to_properties, json_to_yaml,
    properties_to_json, properties_to_yaml, route, yaml_to_json, yaml_to_properties,
    ConvertError, Format,
};

#[test]
fn tree_document_becomes_sorted_flat_lines() {
    let out = yaml_to_properties("db:\n  host: localhost\n  port: 5432\n");
    assert_eq!(out, Ok("db.host=localhost\ndb.port=5432".to_string()));
}

#[test]
fn flat_lines_become_a_nested_object() {
    let out = properties_to_json("a.b=1\na.c=true");
    assert_eq!(out, Ok("{\"a\":{\"b\":1,\"c\":true}}".to_string()));
}

#[test]
fn nested_object_becomes_flat_lines_with_plain_values() {
    let out = json_to_properties("{\"x\":null,\"y\":\"hi there\"}");
    assert_eq!(out, Ok("x=\ny=hi there".to_string()));
}

#[test]
fn flat_lines_become_a_tree_document() {
    let out = properties_to_yaml("a.b=1\na.c=true\nname=web");
    assert_eq!(out, Ok("a:\n  b: 1\n  c: true\nname: web\n".to_string()));
}

#[test]
fn tree_document_becomes_a_nested_object_in_declared_order() {
    let out = yaml_to_json("z: 1\na:\n  - x\n  - 2.5\n  - null\nm: {k: false}\n");
    assert_eq!(out, Ok("{\"z\":1,\"a\":[\"x\",2.5,null],\"m\":{\"k\":false}}".to_string()));
}

#[test]
fn nested_object_becomes_a_tree_document_in_declared_order() {
    let out = json_to_yaml("{\"z\":1,\"a\":[\"x\",2.5,null],\"m\":{\"k\":false}}");
    assert_eq!(out, Ok("z: 1\na:\n- x\n- 2.5\n- null\nm:\n  k: false\n".to_string()));
}

#[test]
fn every_declared_pair_converts_a_minimal_document() {
    let yaml = "a: 1\n";
    let json = "{\"a\":1}";
    let flat = "a=1";
    for y in ["yaml", "yml"] {
        assert_eq!(convert_config(y, "properties", yaml), Ok(flat.to_string()));
        assert_eq!(convert_config("properties", y, flat), Ok(yaml.to_string()));
        assert_eq!(convert_config(y, "json", yaml), Ok(json.to_string()));
        assert_eq!(convert_config("json", y, json), Ok(yaml.to_string()));
    }
    assert_eq!(convert_config("properties", "json", flat), Ok(json.to_string()));
    assert_eq!(convert_config("json", "properties", json), Ok(flat.to_string()));
}

fn unsupported<T>(input: &str, output: &str) -> Result<T, ConvertError> {
    Err(ConvertError::Unsupported { input: input.to_string(), output: output.to_string() })
}

#[test]
fn every_other_pair_is_unsupported() {
    for same in ["yaml", "yml", "properties", "json"] {
        assert_eq!(convert_config(same, same, "a: 1"), unsupported(same, same));
    }
    assert_eq!(convert_config("yaml", "yml", "a: 1"), unsupported("yaml", "yml"));
    assert_eq!(convert_config("yml", "yaml", "a: 1"), unsupported("yml", "yaml"));
    assert_eq!(convert_config("toml", "json", "a = 1"), unsupported("toml", "json"));
    assert_eq!(convert_config("json", "xml", "{}"), unsupported("json", "xml"));
    assert_eq!(convert_config("", "", ""), unsupported("", ""));
}

#[test]
fn extensions_are_taken_in_lower_case() {
    assert_eq!(convert_config("YAML", "Json", "a: 1\n"), Ok("{\"a\":1}".to_string()));
    assert_eq!(convert_config("TOML", "JSON", ""), unsupported("toml", "json"));
    assert_eq!(convert_between("YAML", "json", "a: 1\n"), unsupported("YAML", "json"));
}

#[test]
fn unsupported_message_names_both_formats() {
    let e = convert_config("toml", "json", "").unwrap_err();
    assert_eq!(e.message(), "不支持的转换: toml -> json");
}

#[test]
fn malformed_tree_document_is_a_parse_failure() {
    match yaml_to_properties("a: [1, 2") {
        Err(ConvertError::Parse { format: Format::Yaml, detail }) => {
            assert!(!detail.is_empty());
            let e = ConvertError::Parse { format: Format::Yaml, detail: detail.clone() };
            assert_eq!(e.message(), format!("YAML 解析失败: {}", detail));
        }
        other => panic!("{:?}", other),
    }
    assert!(matches!(yaml_to_json(":\n  - : ["), Err(ConvertError::Parse { format: Format::Yaml, .. })));
}

#[test]
fn malformed_nested_object_is_a_parse_failure() {
    match json_to_yaml("{\"a\": ") {
        Err(ConvertError::Parse { format: Format::Json, detail }) => {
            let e = ConvertError::Parse { format: Format::Json, detail: detail.clone() };
            assert_eq!(e.message(), format!("JSON 解析失败: {}", detail));
        }
        other => panic!("{:?}", other),
    }
    assert!(matches!(json_to_properties("nope"), Err(ConvertError::Parse { format: Format::Json, .. })));
}

#[test]
fn tree_document_with_a_key_that_json_cannot_hold_fails_to_convert() {
    match yaml_to_json("? [1, 2]\n: x\n") {
        Err(ConvertError::Convert { format: Format::Json, detail }) => {
            let e = ConvertError::Convert { format: Format::Json, detail: detail.clone() };
            assert_eq!(e.message(), format!("转换为 JSON 失败: {}", detail));
        }
        other => panic!("{:?}", other),
    }
}

#[test]
fn serialize_message_names_the_format() {
    let e = ConvertError::Serialize { format: Format::Yaml, detail: "x".to_string() };
    assert_eq!(e.message(), "YAML 序列化失败: x");
    let e = ConvertError::Convert { format: Format::Yaml, detail: "x".to_string() };
    assert_eq!(e.message(), "转换为 YAML 失败: x");
}

#[test]
fn flat_lines_with_a_comment_give_one_entry() {
    assert_eq!(properties_to_json("# comment\nk = v"), Ok("{\"k\":\"v\"}".to_string()));
}

#[test]
fn sequence_is_flattened_but_not_rebuilt() {
    let flat = yaml_to_properties("list:\n  - a\n  - b\n").unwrap();
    assert_eq!(flat, "list[0]=a\nlist[1]=b");
    let back = properties_to_json(&flat).unwrap();
    assert_eq!(back, "{\"list[0]\":\"a\",\"list[1]\":\"b\"}");
}

#[test]
fn text_that_looks_like_a_number_comes_back_as_a_number() {
    let flat = yaml_to_properties("code: \"007\"\nflag: \"TRUE\"\n").unwrap();
    assert_eq!(flat, "code=007\nflag=TRUE");
    assert_eq!(properties_to_json(&flat), Ok("{\"code\":7,\"flag\":true}".to_string()));
}

#[test]
fn decimals_are_written_as_the_formats_write_them() {
    assert_eq!(properties_to_json("a=3.14\nb=1e3\nc=-.5\nd=1."), Ok("{\"a\":3.14,\"b\":1000.0,\"c\":-0.5,\"d\":1.0}".to_string()));
    assert_eq!(properties_to_yaml("a=3.14\nb=1e3\nc=+2.50"), Ok("a: 3.14\nb: 1000.0\nc: 2.5\n".to_string()));
}

#[test]
fn decimals_without_a_finite_value_are_written_as_the_tree_format_names_them() {
    assert_eq!(properties_to_yaml("a=inf\nb=-Infinity\nc=NaN\nd=1e999\ne=-1e999"), Ok("a: .inf\nb: -.inf\nc: .nan\nd: .inf\ne: -.inf\n".to_string()));
    assert_eq!(properties_to_json("a=inf\nc=nan"), Ok("{\"a\":null,\"c\":null}".to_string()));
}

#[test]
fn integer_beyond_sixty_four_bits_is_a_decimal() {
    assert_eq!(properties_to_yaml("a=9223372036854775807\nb=9223372036854775808\nc=-9223372036854775809"), Ok("a: 9223372036854775807\nb: 9.223372036854776e18\nc: -9.223372036854776e18\n".to_string()));
}

#[test]
fn numbers_of_a_tree_document_keep_their_text() {
    let out = yaml_to_properties("a: 18446744073709551615\nb: -5\nc: 2.50\nd: .inf\ne: 1e3\nf: 0x1F\n");
    assert_eq!(out, Ok("a=18446744073709551615\nb=-5\nc=2.5\nd=.inf\ne=1000.0\nf=31".to_string()));
}

#[test]
fn tagged_node_and_entries_without_text_key_leave_no_line() {
    let out = yaml_to_properties("a: !secret x\n1: one\nlist:\n  - !t y\n  - z\nb: 2\n");
    assert_eq!(out, Ok("b=2\nlist[1]=z".to_string()));
}

#[test]
fn empty_containers_leave_no_line() {
    assert_eq!(yaml_to_properties("a: {}\nb: []\nc: 1\n"), Ok("c=1".to_string()));
    assert_eq!(json_to_properties("{}"), Ok("".to_string()));
}

#[test]
fn scalar_document_is_written_under_the_empty_key() {
    assert_eq!(yaml_to_properties("42"), Ok("=42".to_string()));
    assert_eq!(json_to_properties("\"x y\""), Ok("=x y".to_string()));
}

#[test]
fn later_line_wins_and_reshapes() {
    assert_eq!(properties_to_json("a=1\na.b=2"), Ok("{\"a\":{\"b\":2}}".to_string()));
    assert_eq!(properties_to_json("a.b=2\na=1"), Ok("{\"a\":1}".to_string()));
    assert_eq!(properties_to_json("a=1\nb=2\na=3"), Ok("{\"a\":3,\"b\":2}".to_string()));
}

#[test]
fn flat_lines_are_written_identically_after_a_round_trip_through_json() {
    let first = json_to_properties("{\"b\":{\"y\":2,\"x\":\"t\"},\"a\":true,\"n\":null}").unwrap();
    assert_eq!(first, "a=true\nb.x=t\nb.y=2\nn=");
    let json = properties_to_json(&first).unwrap();
    let second = json_to_properties(&json).unwrap();
    assert_eq!(first, second);
    let again = properties_to_json(&second).unwrap();
    assert_eq!(json, again);
}

#[test]
fn nested_object_is_written_identically_again() {
    let first = yaml_to_json("a: 1\nb: [x, 2.5, null, {c: d}]\n").unwrap();
    let yaml = json_to_yaml(&first).unwrap();
    let second = yaml_to_json(&yaml).unwrap();
    assert_eq!(first, second);
}

#[test]
fn extensions_name_the_three_formats() {
    assert_eq!(format_of_tag("yaml"), Some(Format::Yaml));
    assert_eq!(format_of_tag("yml"), Some(Format::Yaml));
    assert_eq!(format_of_tag("properties"), Some(Format::Properties));
    assert_eq!(format_of_tag("json"), Some(Format::Json));
    assert_eq!(format_of_tag("YAML"), None);
    assert_eq!(format_of_tag(""), None);
    assert_eq!(Format::Yaml.name(), "YAML");
    assert_eq!(Format::Properties.name(), "Properties");
    assert_eq!(Format::Json.name(), "JSON");
}

#[test]
fn route_gives_the_pair_of_formats_or_the_failure() {
    assert_eq!(route("YML", "Properties"), Ok((Format::Yaml, Format::Properties)));
    assert_eq!(route("json", "yaml"), Ok((Format::Json, Format::Yaml)));
    assert_eq!(route("yaml", "yml"), unsupported("yaml", "yml"));
    assert_eq!(
        route("INI", "json"),
        Err(ConvertError::Unsupported { input: "ini".to_string(), output: "json".to_string() })
    );
}
