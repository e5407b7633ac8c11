use wownow::number::hex_digit;
use wownow::number::parse_decimal_u64;
use wownow::number::parse_hex16_bytes;
use wownow::number::parse_u32;
use wownow::number::parse_usize;
use wownow::number::push_decimal;
use wownow::number::IntErrorKind;

fn kind_of(e: &std::num::ParseIntError) -> IntErrorKind {
    match e.kind() {
        std::num::IntErrorKind::Empty => IntErrorKind::Empty,
        std::num::IntErrorKind::InvalidDigit => IntErrorKind::InvalidDigit,
        std::num::IntErrorKind::PosOverflow => IntErrorKind::PosOverflow,
        other => panic!("unexpected kind {:?}", other),
    }
}

const NUMERALS: [&str; 34] = [
    "",
    "0",
    "7",
    "42",
    "007",
    "+",
    "-",
    "+5",
    "-5",
    "++5",
    "+-5",
    "5+",
    " 5",
    "5 ",
    "1_000",
    "12a",
    "a12",
    "0x10",
    "4294967295",
    "4294967296",
    "+4294967295",
    "04294967295",
    "42949672950",
    "99999999999x",
    "9999999999x9",
    "x99999999999",
    "000000000000000x",
    "18446744073709551615",
    "18446744073709551616",
    "184467440737095516150",
    "18446744073709551616x",
    "\u{0663}",
    "1\u{00e9}",
    "1.5",
];

#[test]
fn parse_u32_reads_what_std_reads() {
    for text in NUMERALS {
        let expected = text.parse::<u32>().map_err(|e| kind_of(&e));
        assert_eq!(parse_u32(text), expected, "numeral {:?}", text);
    }
}

#[test]
fn parse_usize_reads_what_std_reads() {
    for text in NUMERALS {
        let expected = text.parse::<usize>().map_err(|e| kind_of(&e));
        assert_eq!(parse_usize(text), expected, "numeral {:?}", text);
    }
}

#[test]
fn parse_u32_exact_values() {
    assert_eq!(parse_u32("0"), Ok(0));
    assert_eq!(parse_u32("2119172"), Ok(2_119_172));
    assert_eq!(parse_u32("+53584"), Ok(53584));
    assert_eq!(parse_u32("4294967295"), Ok(u32::MAX));
    assert_eq!(parse_u32("4294967296"), Err(IntErrorKind::PosOverflow));
    assert_eq!(parse_u32(""), Err(IntErrorKind::Empty));
    assert_eq!(parse_u32("+"), Err(IntErrorKind::InvalidDigit));
    assert_eq!(parse_u32("12 "), Err(IntErrorKind::InvalidDigit));
}

#[test]
fn parse_decimal_respects_the_limit() {
    assert_eq!(parse_decimal_u64(b"100", 100), Ok(100));
    assert_eq!(parse_decimal_u64(b"101", 100), Err(IntErrorKind::PosOverflow));
    assert_eq!(parse_decimal_u64(b"0", 0), Ok(0));
    assert_eq!(parse_decimal_u64(b"1", 0), Err(IntErrorKind::PosOverflow));
    assert_eq!(parse_decimal_u64(b"18446744073709551615", u64::MAX), Ok(u64::MAX));
    assert_eq!(
        parse_decimal_u64(b"18446744073709551616", u64::MAX),
        Err(IntErrorKind::PosOverflow)
    );
}

#[test]
fn overflow_before_an_invalid_digit_is_an_overflow() {
    assert_eq!(parse_u32("99999999999x"), Err(IntErrorKind::PosOverflow));
    assert_eq!(parse_u32("999x99999999"), Err(IntErrorKind::InvalidDigit));
}

#[test]
fn hex_digit_values() {
    assert_eq!(hex_digit(b'0'), Some(0));
    assert_eq!(hex_digit(b'9'), Some(9));
    assert_eq!(hex_digit(b'a'), Some(10));
    assert_eq!(hex_digit(b'f'), Some(15));
    assert_eq!(hex_digit(b'A'), Some(10));
    assert_eq!(hex_digit(b'F'), Some(15));
    assert_eq!(hex_digit(b'g'), None);
    assert_eq!(hex_digit(b'G'), None);
    assert_eq!(hex_digit(b'/'), None);
    assert_eq!(hex_digit(b':'), None);
    assert_eq!(hex_digit(b'@'), None);
    assert_eq!(hex_digit(b'`'), None);
    assert_eq!(hex_digit(b'+'), None);
    assert_eq!(hex_digit(0xc3), None);
}

#[test]
fn parse_hex16_exact_value() {
    assert_eq!(
        parse_hex16_bytes(b"47e9e06f8371afb141e22614a912acc8"),
        Ok([
            0x47, 0xe9, 0xe0, 0x6f, 0x83, 0x71, 0xaf, 0xb1, 0x41, 0xe2, 0x26, 0x14, 0xa9, 0x12,
            0xac, 0xc8
        ])
    );
    assert_eq!(
        parse_hex16_bytes(b"000102030405060708090A0B0C0D0E0F"),
        Ok([0, 1, 2, 3, 4, 5, 6, 7, 8, 9, 10, 11, 12, 13, 14, 15])
    );
    assert_eq!(parse_hex16_bytes(b"ffffffffffffffffffffffffffffffff"), Ok([0xff; 16]));
}

#[test]
fn parse_hex16_wants_sixteen_pairs() {
    assert_eq!(parse_hex16_bytes(b""), Err(IntErrorKind::Empty));
    assert_eq!(parse_hex16_bytes(b"ab"), Err(IntErrorKind::Empty));
    assert_eq!(
        parse_hex16_bytes(b"47e9e06f8371afb141e22614a912acc"),
        Err(IntErrorKind::Empty)
    );
    assert_eq!(
        parse_hex16_bytes(b"47e9e06f8371afb141e22614a912acc8a"),
        Err(IntErrorKind::PosOverflow)
    );
    assert_eq!(
        parse_hex16_bytes(b"47e9e06f8371afb141e22614a912acc800"),
        Err(IntErrorKind::PosOverflow)
    );
}

#[test]
fn parse_hex16_wants_hex_digits() {
    assert_eq!(
        parse_hex16_bytes(b"47e9e06f8371afb141e22614a912acg8"),
        Err(IntErrorKind::InvalidDigit)
    );
    assert_eq!(
        parse_hex16_bytes(b"+7e9e06f8371afb141e22614a912acc8"),
        Err(IntErrorKind::InvalidDigit)
    );
    assert_eq!(parse_hex16_bytes(b"4x"), Err(IntErrorKind::InvalidDigit));
    assert_eq!(parse_hex16_bytes(b"x"), Err(IntErrorKind::InvalidDigit));
    assert_eq!(
        parse_hex16_bytes(b"47e9e06f8371afb141e22614a912acc8zz"),
        Err(IntErrorKind::PosOverflow)
    );
    assert_eq!(
        parse_hex16_bytes(b"47e9e06f8371afb141e22614a912accz00"),
        Err(IntErrorKind::InvalidDigit)
    );
}

#[test]
fn push_decimal_writes_what_std_writes() {
    for n in [0usize, 1, 9, 10, 11, 16, 99, 100, 101, 4096, 53584, 1_000_000, usize::MAX] {
        let mut out = String::from("HEX:");
        push_decimal(&mut out, n);
        assert_eq!(out, format!("HEX:{}", n));
    }
}

#[test]
fn decimal_numerals_round_trip() {
    for n in [0usize, 4, 16, 907, 65535, 4_294_967_295] {
        let mut out = String::new();
        push_decimal(&mut out, n);
        assert_eq!(parse_usize(&out), Ok(n));
    }
}
