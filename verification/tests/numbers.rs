use std::num::IntErrorKind;
use tmux_commands::listing::ListError;
use tmux_commands::text::{chars_of, parse_digits, parse_number, push_decimal, push_hex, skip_bytes};
use tmux_commands::NumberError;

#[test]
fn a_number_may_have_a_plus_sign() {
    assert_eq!(parse_number(&chars_of("+42"), u64::MAX), Ok(42));
    assert_eq!(parse_number(&chars_of("+"), u64::MAX), Err(NumberError::InvalidDigit));
    assert_eq!(parse_digits(&chars_of("+42"), u64::MAX), Err(NumberError::InvalidDigit));
}

#[test]
fn each_number_error_has_its_input() {
    assert_eq!(parse_number(&chars_of(""), u64::MAX), Err(NumberError::Empty));
    assert_eq!(parse_number(&chars_of("4x"), u64::MAX), Err(NumberError::InvalidDigit));
    assert_eq!(
        parse_number(&chars_of("18446744073709551616"), u64::MAX),
        Err(NumberError::PosOverflow)
    );
    assert_eq!(parse_number(&chars_of("18446744073709551615"), u64::MAX), Ok(u64::MAX));
    assert_eq!(parse_number(&chars_of("11"), 10), Err(NumberError::PosOverflow));
    assert_eq!(parse_number(&chars_of("10"), 10), Ok(10));
}

#[test]
fn numbers_are_read_as_std_reads_them() {
    let samples = [
        "", "+", "-", "0", "00", "007", "+0", "++1", "+-1", "-1", "-0", " 1", "1 ", "1_000",
        "18446744073709551615", "18446744073709551616", "18446744073709551620",
        "+18446744073709551615", "184467440737095516150", "99999999999999999999999",
        "18446744073709551616x", "184467440737095516150x", "x18446744073709551616",
        "\u{663}", "1\u{663}", "\u{ff11}", "12a", "0x10", "1e3", "4294967296", "é",
    ];
    for text in samples {
        let read = parse_number(&chars_of(text), u64::MAX);
        match text.parse::<u64>() {
            Ok(value) => assert_eq!(read, Ok(value), "{text}"),
            Err(error) => {
                let kind = match error.kind() {
                    IntErrorKind::Empty => NumberError::Empty,
                    IntErrorKind::InvalidDigit => NumberError::InvalidDigit,
                    IntErrorKind::PosOverflow => NumberError::PosOverflow,
                    other => panic!("{other:?}"),
                };
                assert_eq!(read, Err(kind), "{text}");
                assert_eq!(ListError::Number(kind).message(), error.to_string());
            }
        }
    }
}

#[test]
fn numbers_are_written_as_std_writes_them() {
    for n in [0, 1, 9, 10, 11, 99, 100, 909, 4294967295, u64::MAX] {
        let mut out = String::from("n");
        push_decimal(&mut out, n);
        assert_eq!(out, format!("n{n}"));
        assert_eq!(parse_number(&chars_of(&out[1..]), u64::MAX), Ok(n));
    }
    for b in 0..=255u8 {
        let mut out = String::new();
        push_hex(&mut out, b);
        assert_eq!(out, format!("{b:X}"));
    }
}

#[test]
fn bytes_are_skipped_as_in_a_string() {
    for text in ["", "a", "$12", "é1", "aé1", "€9", "a€9", "\u{1f600}z", "abcd,80x24", "abé,80x24"] {
        let chars = chars_of(text);
        for n in 0..8 {
            let rest = skip_bytes(&chars, n).map(|r| r.iter().collect::<String>());
            assert_eq!(rest.as_deref(), text.get(n..), "{text} {n}");
        }
    }
}
