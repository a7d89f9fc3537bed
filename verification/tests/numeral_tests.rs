use head::numerals::parse_u64;

#[test]
fn plain_numeral_parses() {
    assert_eq!(parse_u64("123"), Some(123));
}

#[test]
fn zero_parses() {
    assert_eq!(parse_u64("0"), Some(0));
}

#[test]
fn leading_plus_is_accepted() {
    assert_eq!(parse_u64("+5"), Some(5));
}

#[test]
fn leading_zeroes_are_accepted() {
    assert_eq!(parse_u64("007"), Some(7));
}

#[test]
fn empty_string_is_rejected() {
    assert_eq!(parse_u64(""), None);
}

#[test]
fn bare_plus_is_rejected() {
    assert_eq!(parse_u64("+"), None);
}

#[test]
fn letters_are_rejected() {
    assert_eq!(parse_u64("abc"), None);
    assert_eq!(parse_u64("12a"), None);
}

#[test]
fn negative_numeral_is_rejected() {
    assert_eq!(parse_u64("-1"), None);
}

#[test]
fn largest_value_parses() {
    assert_eq!(parse_u64("18446744073709551615"), Some(u64::MAX));
}

#[test]
fn one_past_the_largest_overflows() {
    assert_eq!(parse_u64("18446744073709551616"), None);
}

#[test]
fn very_long_numeral_overflows() {
    assert_eq!(parse_u64("99999999999999999999999999"), None);
}
