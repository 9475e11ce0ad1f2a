use android_memeater::convert_si_size;
use android_memeater::number::NumberError;
use android_memeater::size::{parse_lowercase_size, GIBI, GIGA, KIBI, KILO, MEBI, MEGA};

const NUMBERS: [usize; 7] = [0, 1, 9, 10, 123, 65_536, usize::MAX];

#[test]
fn every_number_of_bytes_is_read_back() {
    for n in NUMBERS {
        assert_eq!(convert_si_size(&format!("{n}B")), Ok(n));
        assert_eq!(convert_si_size(&format!("{n}b")), Ok(n));
        assert_eq!(convert_si_size(&format!("{n}")), Ok(n));
    }
}

#[test]
fn each_unit_has_its_scale() {
    assert_eq!(KILO, 1_000);
    assert_eq!(MEGA, 1_000_000);
    assert_eq!(GIGA, 1_000_000_000);
    assert_eq!(KIBI, 1 << 10);
    assert_eq!(MEBI, 1 << 20);
    assert_eq!(GIBI, 1 << 30);
    for n in [0usize, 1, 3, 10, 4_095] {
        assert_eq!(convert_si_size(&format!("{n}GiB")), Ok(n * GIBI));
        assert_eq!(convert_si_size(&format!("{n}GB")), Ok(n * GIGA));
        assert_eq!(convert_si_size(&format!("{n}G")), Ok(n * GIGA));
        assert_eq!(convert_si_size(&format!("{n}MiB")), Ok(n * MEBI));
        assert_eq!(convert_si_size(&format!("{n}MB")), Ok(n * MEGA));
        assert_eq!(convert_si_size(&format!("{n}M")), Ok(n * MEGA));
        assert_eq!(convert_si_size(&format!("{n}KiB")), Ok(n * KIBI));
        assert_eq!(convert_si_size(&format!("{n}KB")), Ok(n * KILO));
        assert_eq!(convert_si_size(&format!("{n}K")), Ok(n * KILO));
    }
}

#[test]
fn ten_of_each_giga() {
    assert_eq!(convert_si_size("10GiB"), Ok(10_737_418_240));
    assert_eq!(convert_si_size("10GB"), Ok(10_000_000_000));
}

#[test]
fn binary_and_decimal_differ() {
    for n in [1usize, 2, 10, 1_000] {
        assert_ne!(
            convert_si_size(&format!("{n}GiB")),
            convert_si_size(&format!("{n}GB"))
        );
        assert_ne!(
            convert_si_size(&format!("{n}MiB")),
            convert_si_size(&format!("{n}MB"))
        );
        assert_ne!(
            convert_si_size(&format!("{n}KiB")),
            convert_si_size(&format!("{n}KB"))
        );
    }
    assert_eq!(convert_si_size("0GiB"), convert_si_size("0GB"));
}

#[test]
fn size_unit_is_read_in_any_case() {
    assert_eq!(convert_si_size("10MB"), convert_si_size("10mb"));
    for text in ["10mib", "10MIB", "10Mib", "10mIb", "10miB", "10MiB"] {
        assert_eq!(convert_si_size(text), Ok(10 * MEBI), "{text:?}");
    }
    for text in ["7kb", "7KB", "7Kb", "7kB", "7k", "7K"] {
        assert_eq!(convert_si_size(text), Ok(7_000), "{text:?}");
    }
}

#[test]
fn size_is_lowered_as_unicode_does() {
    assert_eq!(convert_si_size("10\u{212a}"), Ok(10_000));
    assert_eq!(convert_si_size("10\u{212a}IB"), Ok(10_240));
    assert_eq!(convert_si_size("10\u{212a}iB"), Ok(10_240));
    assert_eq!(convert_si_size("10\u{212a}B"), Ok(10_000));
}

#[test]
fn lowercase_parser_does_not_lower() {
    assert_eq!(parse_lowercase_size("10gib"), Ok(10 * GIBI));
    assert_eq!(parse_lowercase_size("10GIB"), Err(NumberError::InvalidDigit));
    assert_eq!(parse_lowercase_size("10B"), Err(NumberError::InvalidDigit));
    assert_eq!(parse_lowercase_size(" 10b"), Err(NumberError::InvalidDigit));
    assert_eq!(parse_lowercase_size("123"), Ok(123));
    assert_eq!(convert_si_size("10GIB"), Ok(10 * GIBI));
}

#[test]
fn longer_unit_wins_over_shorter() {
    assert_eq!(parse_lowercase_size("2kib"), Ok(2_048));
    assert_eq!(parse_lowercase_size("2kb"), Ok(2_000));
    assert_eq!(parse_lowercase_size("2k"), Ok(2_000));
    assert_eq!(parse_lowercase_size("2b"), Ok(2));
    assert_eq!(parse_lowercase_size("2ib"), Err(NumberError::InvalidDigit));
    assert_eq!(parse_lowercase_size("2kik"), Err(NumberError::InvalidDigit));
}

#[test]
fn size_ignores_white_space_around() {
    assert_eq!(convert_si_size(" 10kb "), Ok(10_000));
    assert_eq!(convert_si_size("\n123\t"), Ok(123));
    assert_eq!(convert_si_size("\u{2003}1MiB\u{2028}"), Ok(MEBI));
}

#[test]
fn size_with_bad_number_is_refused() {
    for text in [
        "abc", "10x", "-1", "1.5gb", "10 kb", "10gbgb", "10kibkib", "10bb", "1_000", "+", "+b",
        "0x10", "10gi", "１０",
    ] {
        assert_eq!(convert_si_size(text), Err(NumberError::InvalidDigit), "{text:?}");
    }
}

#[test]
fn size_without_number_is_refused() {
    for text in ["", "  ", "b", "B", "k", "kb", "kib", "m", "mb", "mib", "g", "gb", "GiB"] {
        assert_eq!(convert_si_size(text), Err(NumberError::Empty), "{text:?}");
    }
}

#[test]
fn size_above_the_bound_is_refused() {
    let max = usize::MAX;
    assert_eq!(convert_si_size(&format!("{max}")), Ok(max));
    assert_eq!(convert_si_size(&format!("{max}0")), Err(NumberError::Overflow));
    assert_eq!(convert_si_size(&format!("{max}k")), Err(NumberError::Overflow));
    assert_eq!(convert_si_size(&format!("{max}GiB")), Err(NumberError::Overflow));

    let most_gib = max / GIBI;
    assert_eq!(convert_si_size(&format!("{most_gib}GiB")), Ok(most_gib * GIBI));
    assert_eq!(
        convert_si_size(&format!("{}GiB", most_gib + 1)),
        Err(NumberError::Overflow)
    );
    let most_kb = max / KILO;
    assert_eq!(convert_si_size(&format!("{most_kb}kb")), Ok(most_kb * KILO));
    assert_eq!(
        convert_si_size(&format!("{}kb", most_kb + 1)),
        Err(NumberError::Overflow)
    );
}

#[test]
fn size_errors_are_what_the_number_gives() {
    assert_eq!(convert_si_size("99999999999999999999999x"), Err(NumberError::Overflow));
    assert_eq!(convert_si_size("99999999999999999999999xkb"), Err(NumberError::Overflow));
    assert_eq!(convert_si_size("9x9999999999999999999999kb"), Err(NumberError::InvalidDigit));
}

#[test]
fn size_number_may_have_a_plus_and_zeros() {
    assert_eq!(convert_si_size("+5k"), Ok(5_000));
    assert_eq!(convert_si_size("0005"), Ok(5));
    assert_eq!(convert_si_size("000000000000000000000000001gib"), Ok(GIBI));
}

#[test]
fn number_messages() {
    assert_eq!(NumberError::Empty.message(), "cannot parse integer from empty string");
    assert_eq!(NumberError::InvalidDigit.message(), "invalid digit found in string");
    assert_eq!(NumberError::Overflow.message(), "number too large to fit in target type");
}
