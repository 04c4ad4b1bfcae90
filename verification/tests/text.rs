use convertx::text::{chars_of, split_chars, string_of, text_at_most, trimmed};

fn s(v: &Vec<char>) -> String {
    string_of(v)
}

#[test]
fn trimming_removes_surrounding_white_space() {
    let v = chars_of("  \t key name \r\n");
    assert_eq!(s(&trimmed(&v)), "key name");
}

#[test]
fn trimming_keeps_inner_white_space_and_handles_blank_text() {
    assert_eq!(s(&trimmed(&chars_of("a  b"))), "a  b");
    assert_eq!(s(&trimmed(&chars_of(" \u{3000}\u{a0} "))), "");
    assert_eq!(s(&trimmed(&chars_of(""))), "");
}

#[test]
fn trimming_agrees_with_std() {
    for text in ["", " ", "x", " x", "x ", "\u{2003}x\u{85}", "\u{200b}x", "\u{1680}a b\u{205f}"] {
        assert_eq!(s(&trimmed(&chars_of(text))), text.trim());
    }
}

#[test]
fn splitting_gives_one_more_piece_than_separators() {
    let pieces = split_chars(&chars_of("a.b..c."), '.');
    let pieces: Vec<String> = pieces.iter().map(s).collect();
    assert_eq!(pieces, vec!["a", "b", "", "c", ""]);
    let one = split_chars(&chars_of(""), '.');
    assert_eq!(one.len(), 1);
    assert_eq!(s(&one[0]), "");
}

#[test]
fn order_of_texts_is_by_code_point() {
    let le = |a: &str, b: &str| text_at_most(&chars_of(a), &chars_of(b));
    assert!(le("a", "b"));
    assert!(!le("b", "a"));
    assert!(le("a", "a"));
    assert!(le("a", "ab"));
    assert!(!le("ab", "a"));
    assert!(le("", "a"));
    assert!(le("B", "a"));
    assert!(le("a.b", "a[0]"));
    assert!(le("z", "\u{e9}"));
    for (a, b) in [("db.host", "db.port"), ("x", "y"), ("a10", "a9"), ("", "")] {
        assert_eq!(le(a, b), a <= b);
        assert_eq!(le(b, a), b <= a);
    }
}
