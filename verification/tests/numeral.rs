use convertx::numeral::{decimal_of, numeral_of, read_integer, read_numeral};
use convertx::text::{chars_of, string_of};

#[test]
fn numerals_are_decimal_digits_without_leading_zeros() {
    assert_eq!(string_of(&numeral_of(0)), "0");
    assert_eq!(string_of(&numeral_of(7)), "7");
    assert_eq!(string_of(&numeral_of(10)), "10");
    assert_eq!(string_of(&numeral_of(5432)), "5432");
    assert_eq!(string_of(&numeral_of(u128::MAX)), u128::MAX.to_string());
}

#[test]
fn decimal_text_has_a_minus_sign_for_negative_numbers() {
    assert_eq!(string_of(&decimal_of(-1)), "-1");
    assert_eq!(string_of(&decimal_of(0)), "0");
    assert_eq!(string_of(&decimal_of(i64::MIN as i128)), i64::MIN.to_string());
    assert_eq!(string_of(&decimal_of(i128::MIN)), i128::MIN.to_string());
    assert_eq!(string_of(&decimal_of(i128::MAX)), i128::MAX.to_string());
}

#[test]
fn reading_digits_stops_at_the_largest_unsigned_number() {
    assert_eq!(read_numeral(&chars_of("18446744073709551615"), 0), Some(u64::MAX));
    assert_eq!(read_numeral(&chars_of("18446744073709551616"), 0), None);
    assert_eq!(read_numeral(&chars_of("x12"), 1), Some(12));
    assert_eq!(read_numeral(&chars_of("x12"), 0), None);
    assert_eq!(read_numeral(&chars_of("12"), 2), None);
    assert_eq!(read_numeral(&chars_of("0000"), 0), Some(0));
}

#[test]
fn reading_an_integer_takes_one_sign() {
    assert_eq!(read_integer(&chars_of("-12")), Some(-12));
    assert_eq!(read_integer(&chars_of("+12")), Some(12));
    assert_eq!(read_integer(&chars_of("12")), Some(12));
    assert_eq!(read_integer(&chars_of("")), None);
    assert_eq!(read_integer(&chars_of("-")), None);
    assert_eq!(read_integer(&chars_of("+-1")), None);
    assert_eq!(read_integer(&chars_of("18446744073709551615")), Some(u64::MAX as i128));
    assert_eq!(read_integer(&chars_of("-9223372036854775808")), Some(i64::MIN as i128));
    assert_eq!(read_integer(&chars_of("-9223372036854775809")), None);
}

#[test]
fn reading_the_decimal_text_of_a_number_gives_it_back() {
    for n in [0i128, 1, -1, 9, 10, -10, 4711, i64::MAX as i128, i64::MIN as i128, u64::MAX as i128] {
        assert_eq!(read_integer(&decimal_of(n)), Some(n));
    }
}
