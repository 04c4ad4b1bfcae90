use convertx::escape::{escape_properties_key, escape_properties_value, unescape_properties_value};

#[test]
fn key_escapes_backslash_equals_colon_and_space() {
    assert_eq!(escape_properties_key("a b"), "a\\ b");
    assert_eq!(escape_properties_key("a=b"), "a\\=b");
    assert_eq!(escape_properties_key("a:b"), "a\\:b");
    assert_eq!(escape_properties_key("a\\b"), "a\\\\b");
    assert_eq!(escape_properties_key("plain.key[0]"), "plain.key[0]");
    assert_eq!(escape_properties_key(""), "");
    assert_eq!(escape_properties_key("\\= :"), "\\\\\\=\\ \\:");
}

#[test]
fn key_escape_leaves_tab_and_line_feed() {
    assert_eq!(escape_properties_key("a\tb\nc"), "a\tb\nc");
}

#[test]
fn value_escapes_backslash_line_feed_and_carriage_return() {
    assert_eq!(escape_properties_value("a\\b"), "a\\\\b");
    assert_eq!(escape_properties_value("a\nb"), "a\\nb");
    assert_eq!(escape_properties_value("a\rb"), "a\\rb");
    assert_eq!(escape_properties_value("hi there"), "hi there");
    assert_eq!(escape_properties_value("k=v:w"), "k=v:w");
    assert_eq!(escape_properties_value(""), "");
}

#[test]
fn value_escape_leaves_tab_as_it_is() {
    assert_eq!(escape_properties_value("a\tb"), "a\tb");
}

#[test]
fn unescape_undoes_the_named_escapes() {
    assert_eq!(unescape_properties_value("a\\nb"), "a\nb");
    assert_eq!(unescape_properties_value("a\\rb"), "a\rb");
    assert_eq!(unescape_properties_value("a\\tb"), "a\tb");
    assert_eq!(unescape_properties_value("a\\\\b"), "a\\b");
}

#[test]
fn unescape_takes_an_unknown_escape_as_the_character_itself() {
    assert_eq!(unescape_properties_value("a\\qb"), "aqb");
    assert_eq!(unescape_properties_value("\\=\\:\\ "), "=: ");
}

#[test]
fn unescape_drops_a_backslash_at_the_end() {
    assert_eq!(unescape_properties_value("abc\\"), "abc");
    assert_eq!(unescape_properties_value("\\"), "");
}

#[test]
fn unescape_undoes_value_escape() {
    for text in ["", "plain", "a\\b", "line\nfeed", "cr\rlf\n", "\\\\n", "tab\there", "\\"] {
        assert_eq!(unescape_properties_value(&escape_properties_value(text)), text);
    }
}

#[test]
fn escapes_agree_with_replacing_one_character_after_another() {
    for text in ["", "a b=c:d\\e", "\\\\", " = : ", "x\ny\rz\\n", "no escapes"] {
        let key = text.replace('\\', "\\\\").replace('=', "\\=").replace(':', "\\:").replace(' ', "\\ ");
        assert_eq!(escape_properties_key(text), key);
        let value = text.replace('\\', "\\\\").replace('\n', "\\n").replace('\r', "\\r");
        assert_eq!(escape_properties_value(text), value);
    }
}
