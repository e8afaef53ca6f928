use onebrc::temperature::{custom_parse_float, literal_len, MAX_INTEGER_DIGITS, MAX_TENTHS};

#[test]
fn literals_round_trip_to_one_decimal_place() {
    let cases = [("-99.9", -99.9), ("0.0", 0.0), ("99.9", 99.9), ("-0.1", -0.1), ("5.0", 5.0)];
    for (text, value) in cases {
        let tenths = custom_parse_float(text.as_bytes());
        assert_eq!(tenths as f64 / 10.0, value);
    }
}

#[test]
fn literals_give_exact_tenths() {
    assert_eq!(custom_parse_float(b"-99.9"), -999);
    assert_eq!(custom_parse_float(b"0.0"), 0);
    assert_eq!(custom_parse_float(b"99.9"), 999);
    assert_eq!(custom_parse_float(b"-0.1"), -1);
    assert_eq!(custom_parse_float(b"5.0"), 50);
    assert_eq!(custom_parse_float(b"12.3"), 123);
    assert_eq!(custom_parse_float(b"-0.0"), 0);
    assert_eq!(custom_parse_float(b"007.5"), 75);
}

#[test]
fn digits_weigh_by_position() {
    assert_eq!(custom_parse_float(b"1234.5"), 12345);
    assert_eq!(custom_parse_float(b"-9876543210.1"), -98765432101);
}

#[test]
fn bytes_behind_the_tenths_digit_are_ignored() {
    assert_eq!(custom_parse_float(b"12.3\nnext;4.5"), 123);
    assert_eq!(custom_parse_float(b"-1.29"), -12);
}

#[test]
fn longest_literal_fits() {
    assert_eq!(MAX_INTEGER_DIGITS, 17);
    assert_eq!(custom_parse_float(b"99999999999999999.9"), MAX_TENTHS);
    assert_eq!(custom_parse_float(b"-99999999999999999.9"), -MAX_TENTHS);
    assert_eq!(MAX_TENTHS, 999_999_999_999_999_999);
}

#[test]
fn literal_len_measures_the_literal() {
    assert_eq!(literal_len(b"1.5"), Some(3));
    assert_eq!(literal_len(b"-1.5"), Some(4));
    assert_eq!(literal_len(b"-1.5x"), Some(4));
    assert_eq!(literal_len(b"12.34"), Some(4));
    assert_eq!(literal_len(b"99999999999999999.9"), Some(19));
}

#[test]
fn literal_len_refuses_what_is_no_literal() {
    assert_eq!(literal_len(b""), None);
    assert_eq!(literal_len(b"-"), None);
    assert_eq!(literal_len(b".5"), None);
    assert_eq!(literal_len(b"-.5"), None);
    assert_eq!(literal_len(b"12"), None);
    assert_eq!(literal_len(b"12."), None);
    assert_eq!(literal_len(b"1.x"), None);
    assert_eq!(literal_len(b"1a.5"), None);
    assert_eq!(literal_len(b"--1.5"), None);
    assert_eq!(literal_len(b"+1.5"), None);
    assert_eq!(literal_len(b"999999999999999999.9"), None);
}
