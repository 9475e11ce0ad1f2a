use android_memeater::number::{is_decimal_digit, parse_digits, parse_number, NumberError};
use std::num::IntErrorKind;

fn parse(text: &str, max: u64) -> Result<u64, NumberError> {
    let chars: Vec<char> = text.chars().collect();
    parse_number(&chars, max)
}

#[test]
fn digits_are_zero_to_nine() {
    for c in '0'..='9' {
        assert!(is_decimal_digit(c));
    }
    for c in ['/', ':', 'a', '+', '-', ' ', '٣', '０'] {
        assert!(!is_decimal_digit(c), "{c:?}");
    }
}

#[test]
fn number_is_its_decimal_value() {
    assert_eq!(parse("0", u64::MAX), Ok(0));
    assert_eq!(parse("7", u64::MAX), Ok(7));
    assert_eq!(parse("1234567890", u64::MAX), Ok(1_234_567_890));
    assert_eq!(parse("18446744073709551615", u64::MAX), Ok(u64::MAX));
    assert_eq!(parse("+42", u64::MAX), Ok(42));
    assert_eq!(parse("0042", u64::MAX), Ok(42));
}

#[test]
fn number_is_held_to_the_bound() {
    assert_eq!(parse("255", 255), Ok(255));
    assert_eq!(parse("256", 255), Err(NumberError::Overflow));
    assert_eq!(parse("0", 0), Ok(0));
    assert_eq!(parse("1", 0), Err(NumberError::Overflow));
    assert_eq!(parse("18446744073709551616", u64::MAX), Err(NumberError::Overflow));
    assert_eq!(
        parse("340282366920938463463374607431768211456", u64::MAX),
        Err(NumberError::Overflow)
    );
}

#[test]
fn malformed_number_is_told_apart() {
    assert_eq!(parse("", u64::MAX), Err(NumberError::Empty));
    for text in ["+", "-", "-1", "1-", "1+", "+-1", " 1", "1 ", "1_0", "a", "1e3", "٣"] {
        assert_eq!(parse(text, u64::MAX), Err(NumberError::InvalidDigit), "{text:?}");
    }
}

#[test]
fn first_fault_from_the_left_decides() {
    assert_eq!(parse("99999999999999999999999x", u64::MAX), Err(NumberError::Overflow));
    assert_eq!(parse("18446744073709551616x", u64::MAX), Err(NumberError::Overflow));
    assert_eq!(parse("18446744073709551615x", u64::MAX), Err(NumberError::InvalidDigit));
    assert_eq!(parse("184467440737095516150x", u64::MAX), Err(NumberError::Overflow));
    assert_eq!(parse("x99999999999999999999999", u64::MAX), Err(NumberError::InvalidDigit));
    assert_eq!(parse("999x", 10), Err(NumberError::Overflow));
    assert_eq!(parse("9x99", 10), Err(NumberError::InvalidDigit));
    assert_eq!(parse("10x", 10), Err(NumberError::InvalidDigit));
}

fn std_parse(text: &str) -> Result<u64, NumberError> {
    text.parse::<u64>().map_err(|e| match e.kind() {
        IntErrorKind::Empty => NumberError::Empty,
        IntErrorKind::InvalidDigit => NumberError::InvalidDigit,
        IntErrorKind::PosOverflow => NumberError::Overflow,
        other => panic!("{other:?}"),
    })
}

#[test]
fn number_is_what_std_parses() {
    for text in [
        "",
        "0",
        "7",
        "+7",
        "-7",
        "+",
        "-",
        "++7",
        "+-7",
        "7+",
        " 7",
        "7 ",
        "0007",
        "+0007",
        "1_000",
        "12a",
        "a12",
        "٣",
        "18446744073709551615",
        "+18446744073709551615",
        "18446744073709551616",
        "018446744073709551615",
        "0000000000000000000000000000000018446744073709551615",
        "18446744073709551615x",
        "18446744073709551616x",
        "184467440737095516150x",
        "1844674407370955161x5",
        "99999999999999999999999x",
        "x99999999999999999999999",
        "99999999999999999999999",
        "+99999999999999999999999-",
    ] {
        assert_eq!(parse(text, u64::MAX), std_parse(text), "{text:?}");
    }
}

fn digits(text: &str, max: u64) -> Result<u64, NumberError> {
    let chars: Vec<char> = text.chars().collect();
    parse_digits(&chars, max)
}

#[test]
fn digits_alone_admit_no_sign() {
    assert_eq!(digits("42", u64::MAX), Ok(42));
    assert_eq!(digits("0042", u64::MAX), Ok(42));
    assert_eq!(digits("18446744073709551615", u64::MAX), Ok(u64::MAX));
    assert_eq!(digits("", u64::MAX), Err(NumberError::Empty));
    assert_eq!(digits("+42", u64::MAX), Err(NumberError::InvalidDigit));
    assert_eq!(digits("-42", u64::MAX), Err(NumberError::InvalidDigit));
    assert_eq!(digits("+", u64::MAX), Err(NumberError::InvalidDigit));
    assert_eq!(digits("4 2", u64::MAX), Err(NumberError::InvalidDigit));
    assert_eq!(digits("18446744073709551616", u64::MAX), Err(NumberError::Overflow));
    assert_eq!(digits("256", 255), Err(NumberError::Overflow));
    assert_eq!(digits("255", 255), Ok(255));
}
