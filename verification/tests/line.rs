use convertx::line::parse_properties_line;

fn entry(k: &str, v: &str) -> Option<(String, String)> {
    Some((k.to_string(), v.to_string()))
}

#[test]
fn line_splits_at_the_first_equals_or_colon() {
    assert_eq!(parse_properties_line("a=b"), entry("a", "b"));
    assert_eq!(parse_properties_line("a:b"), entry("a", "b"));
    assert_eq!(parse_properties_line("a=b=c"), entry("a", "b=c"));
    assert_eq!(parse_properties_line("a:b=c:d"), entry("a", "b=c:d"));
}

#[test]
fn line_trims_key_and_value() {
    assert_eq!(parse_properties_line("k = v"), entry("k", "v"));
    assert_eq!(parse_properties_line("  key\t:\t value  "), entry("key", "value"));
}

#[test]
fn line_without_delimiter_is_a_key_with_an_empty_value() {
    assert_eq!(parse_properties_line("lonely"), entry("lonely", ""));
    assert_eq!(parse_properties_line("a b"), entry("a b", ""));
}

#[test]
fn line_without_key_gives_no_entry() {
    assert_eq!(parse_properties_line("=value"), None);
    assert_eq!(parse_properties_line("   : value"), None);
    assert_eq!(parse_properties_line(""), None);
    assert_eq!(parse_properties_line("\\"), None);
}

#[test]
fn escaped_delimiter_stays_in_the_key() {
    assert_eq!(parse_properties_line("a\\=b=c"), entry("a=b", "c"));
    assert_eq!(parse_properties_line("a\\:b:c"), entry("a:b", "c"));
    assert_eq!(parse_properties_line("a\\ b=c"), entry("a b", "c"));
    assert_eq!(parse_properties_line("a\\\\b=c"), entry("a\\b", "c"));
}

#[test]
fn escaped_character_behind_the_delimiter_joins_the_key() {
    assert_eq!(parse_properties_line("k=a\\nb"), entry("kn", "ab"));
    assert_eq!(parse_properties_line("k=a\\\\b"), entry("k\\", "ab"));
}

#[test]
fn line_whose_key_is_empty_after_trimming_gives_no_entry() {
    assert_eq!(parse_properties_line("\\ =v"), None);
    assert_eq!(parse_properties_line("\t=v"), None);
    assert_eq!(parse_properties_line("\\ \\\t = v"), None);
    assert_eq!(parse_properties_line("\u{a0}:v"), None);
}

#[test]
fn key_that_comes_back_is_never_empty() {
    for line in ["a=b", " a = b", "\\ a=b", "\\ =b", "=", ":", "\\", "\\=", " \t ", "k", "\\ \\ x"] {
        if let Some((key, _)) = parse_properties_line(line) {
            assert!(!key.is_empty(), "{:?}", line);
            assert_eq!(key.trim(), key);
        }
    }
}

#[test]
fn backslash_at_the_end_of_a_line_is_dropped() {
    assert_eq!(parse_properties_line("k=v\\"), entry("k", "v"));
}
