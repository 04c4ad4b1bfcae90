use convertx::infer::{float_literal, parse_properties_value};
use convertx::text::chars_of;
use convertx::value::{ConfigValue, Number};

fn integer(n: i128) -> ConfigValue {
    ConfigValue::Number(Number::Integer(n))
}

fn decimal(t: &str) -> ConfigValue {
    ConfigValue::Number(Number::Float(t.to_string()))
}

fn text(t: &str) -> ConfigValue {
    ConfigValue::String(t.to_string())
}

#[test]
fn empty_text_is_null() {
    assert_eq!(parse_properties_value(""), ConfigValue::Null);
}

#[test]
fn true_and_false_in_any_case_are_truth_values() {
    assert_eq!(parse_properties_value("true"), ConfigValue::Bool(true));
    assert_eq!(parse_properties_value("TRUE"), ConfigValue::Bool(true));
    assert_eq!(parse_properties_value("False"), ConfigValue::Bool(false));
    assert_eq!(parse_properties_value("fAlSe"), ConfigValue::Bool(false));
    assert_eq!(parse_properties_value("truely"), text("truely"));
    assert_eq!(parse_properties_value("yes"), text("yes"));
    assert_eq!(parse_properties_value(" true"), text(" true"));
}

#[test]
fn integer_literal_is_an_integer() {
    assert_eq!(parse_properties_value("42"), integer(42));
    assert_eq!(parse_properties_value("-17"), integer(-17));
    assert_eq!(parse_properties_value("+5"), integer(5));
    assert_eq!(parse_properties_value("0"), integer(0));
    assert_eq!(parse_properties_value("-0"), integer(0));
    assert_eq!(parse_properties_value("007"), integer(7));
}

#[test]
fn integer_bounds_are_those_of_sixty_four_signed_bits() {
    assert_eq!(parse_properties_value("9223372036854775807"), integer(i64::MAX as i128));
    assert_eq!(parse_properties_value("-9223372036854775808"), integer(i64::MIN as i128));
    assert_eq!(parse_properties_value("9223372036854775808"), decimal("9223372036854775808"));
    assert_eq!(parse_properties_value("-9223372036854775809"), decimal("-9223372036854775809"));
    assert_eq!(
        parse_properties_value("000000000000000000000000000000000000012"),
        integer(12)
    );
    assert_eq!(
        parse_properties_value("99999999999999999999999999999999999999999"),
        decimal("99999999999999999999999999999999999999999")
    );
}

#[test]
fn decimal_literal_is_a_decimal() {
    assert_eq!(parse_properties_value("3.14"), decimal("3.14"));
    assert_eq!(parse_properties_value("1e3"), decimal("1e3"));
    assert_eq!(parse_properties_value("-2.5E-7"), decimal("-2.5E-7"));
    assert_eq!(parse_properties_value("1."), decimal("1."));
    assert_eq!(parse_properties_value(".5"), decimal(".5"));
    assert_eq!(parse_properties_value("+.5e+2"), decimal("+.5e+2"));
    assert_eq!(parse_properties_value("inf"), decimal("inf"));
    assert_eq!(parse_properties_value("-Infinity"), decimal("-Infinity"));
    assert_eq!(parse_properties_value("NaN"), decimal("NaN"));
}

#[test]
fn anything_else_is_a_text() {
    assert_eq!(parse_properties_value("42abc"), text("42abc"));
    assert_eq!(parse_properties_value("hello world"), text("hello world"));
    assert_eq!(parse_properties_value("1.2.3"), text("1.2.3"));
    assert_eq!(parse_properties_value("."), text("."));
    assert_eq!(parse_properties_value("+"), text("+"));
    assert_eq!(parse_properties_value("-"), text("-"));
    assert_eq!(parse_properties_value("e5"), text("e5"));
    assert_eq!(parse_properties_value("1e"), text("1e"));
    assert_eq!(parse_properties_value("1e+"), text("1e+"));
    assert_eq!(parse_properties_value("0x10"), text("0x10"));
    assert_eq!(parse_properties_value("1_000"), text("1_000"));
    assert_eq!(parse_properties_value("--1"), text("--1"));
    assert_eq!(parse_properties_value(".inf"), text(".inf"));
    assert_eq!(parse_properties_value("infinit"), text("infinit"));
    assert_eq!(parse_properties_value("１２"), text("１２"));
}

#[test]
fn text_has_its_escapes_undone() {
    assert_eq!(parse_properties_value("a\\tb"), text("a\tb"));
    assert_eq!(parse_properties_value("a\\nb\\\\"), text("a\nb\\"));
}

#[test]
fn decimal_syntax_agrees_with_std() {
    let cases = [
        "", "+", "-", ".", "1", "-1", "+1", "1.", ".1", "1.1", "1e1", "1e", "1e+", "1e-1", "1E5",
        "e1", ".e1", "1.e1", ".1e1", "inf", "INF", "+inf", "-inf", "infinity", "Infinity", "infinit",
        "nan", "NAN", "-nan", "+NaN", "nane", "1 ", " 1", "1f", "0x1", "1_0", "--1", "+-1", "1e1.5",
        "1..2", "1e1e1", "١", "1e０",
    ];
    for c in cases {
        assert_eq!(float_literal(&chars_of(c)), c.parse::<f64>().is_ok(), "{:?}", c);
    }
}

#[test]
fn integer_syntax_agrees_with_std() {
    let cases = [
        "", "+", "-", "0", "-0", "+0", "007", "-007", "12a", "a12", "1 ", "9223372036854775807",
        "9223372036854775808", "-9223372036854775808", "-9223372036854775809", "+-1", "１",
    ];
    for c in cases {
        let ours = match parse_properties_value(c) {
            ConfigValue::Number(Number::Integer(n)) => Some(n),
            _ => None,
        };
        assert_eq!(ours, c.parse::<i64>().ok().map(|n| n as i128), "{:?}", c);
    }
}
