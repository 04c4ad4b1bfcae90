use convertx::flat::FlatMap;
use convertx::properties::{parse_properties, write_properties};

fn pairs(map: &FlatMap) -> Vec<(String, String)> {
    (0..map.len()).map(|i| (map.entry(i).key.clone(), map.entry(i).value.clone())).collect()
}

fn pair(k: &str, v: &str) -> (String, String) {
    (k.to_string(), v.to_string())
}

fn map_of(entries: &[(&str, &str)]) -> FlatMap {
    let mut map = FlatMap::new();
    for (k, v) in entries {
        map.insert(k.to_string(), v.to_string());
    }
    map
}

#[test]
fn comment_line_is_skipped_and_delimiter_spaces_are_trimmed() {
    let map = parse_properties("# comment\nk = v");
    assert_eq!(pairs(&map), vec![pair("k", "v")]);
}

#[test]
fn blank_lines_and_both_comment_marks_are_skipped() {
    let map = parse_properties("\n  \n! note\n   # indented note\na=1\n\nb:2\n");
    assert_eq!(pairs(&map), vec![pair("a", "1"), pair("b", "2")]);
}

#[test]
fn line_endings_with_carriage_return_are_handled() {
    let map = parse_properties("a=1\r\nb=2\r\n");
    assert_eq!(pairs(&map), vec![pair("a", "1"), pair("b", "2")]);
}

#[test]
fn later_line_with_the_same_key_wins_in_place() {
    let map = parse_properties("a=1\nb=2\na=3");
    assert_eq!(pairs(&map), vec![pair("a", "3"), pair("b", "2")]);
}

#[test]
fn line_without_key_is_discarded() {
    let map = parse_properties("=v\n:w\nk=");
    assert_eq!(pairs(&map), vec![pair("k", "")]);
}

#[test]
fn line_whose_key_is_only_escaped_white_space_is_discarded() {
    let map = parse_properties("\\ =v\nk=w\n\\ \\ : x");
    assert_eq!(pairs(&map), vec![pair("k", "w")]);
}

#[test]
fn empty_text_holds_no_entries() {
    assert_eq!(parse_properties("").len(), 0);
    assert_eq!(parse_properties("\n\n").len(), 0);
}

#[test]
fn writing_sorts_by_key_and_joins_with_line_feeds() {
    let map = map_of(&[("db.port", "5432"), ("db.host", "localhost")]);
    assert_eq!(write_properties(&map), "db.host=localhost\ndb.port=5432");
}

#[test]
fn writing_nothing_gives_an_empty_text() {
    assert_eq!(write_properties(&FlatMap::new()), "");
}

#[test]
fn writing_escapes_keys_and_values_each_in_its_way() {
    let map = map_of(&[("a b", "c d"), ("k=:", "v=:"), ("n", "x\ny\\z\r")]);
    assert_eq!(write_properties(&map), "a\\ b=c d\nk\\=\\:=v=:\nn=x\\ny\\\\z\\r");
}

#[test]
fn written_text_is_read_back_sorted_and_written_identically_again() {
    let map = map_of(&[("b.y", "2"), ("a key", "v = w: x"), ("b.x", "tab\there"), ("c:d", ""), ("e\\f", "1")]);
    let text = write_properties(&map);
    let back = parse_properties(&text);
    assert_eq!(
        pairs(&back),
        vec![pair("a key", "v = w: x"), pair("b.x", "tab\there"), pair("b.y", "2"), pair("c:d", ""), pair("e\\f", "1")]
    );
    assert_eq!(write_properties(&back), text);
}

#[test]
fn value_with_a_backslash_is_not_read_back() {
    let map = map_of(&[("k", "a\\b")]);
    let text = write_properties(&map);
    assert_eq!(text, "k=a\\\\b");
    assert_eq!(pairs(&parse_properties(&text)), vec![pair("k\\", "ab")]);
}

#[test]
fn value_with_a_line_feed_is_not_read_back() {
    let map = map_of(&[("k", "a\nb")]);
    let text = write_properties(&map);
    assert_eq!(text, "k=a\\nb");
    assert_eq!(pairs(&parse_properties(&text)), vec![pair("kn", "ab")]);
}

#[test]
fn value_with_a_tab_inside_is_written_and_read_as_it_is() {
    let map = map_of(&[("k", "a\tb")]);
    let text = write_properties(&map);
    assert_eq!(text, "k=a\tb");
    assert_eq!(pairs(&parse_properties(&text)), vec![pair("k", "a\tb")]);
}

#[test]
fn value_with_a_tab_at_its_end_loses_it() {
    let map = map_of(&[("k", "a\t")]);
    assert_eq!(pairs(&parse_properties(&write_properties(&map))), vec![pair("k", "a")]);
}

#[test]
fn key_that_starts_like_a_comment_is_not_read_back() {
    let map = map_of(&[("#k", "v")]);
    assert_eq!(parse_properties(&write_properties(&map)).len(), 0);
}
