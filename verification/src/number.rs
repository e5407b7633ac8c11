//! Unsigned numbers in text: decimal numerals, pairs of hexadecimal digits,
//! and the decimal numeral of a number.

use vstd::prelude::*;
use vstd::string::StringExecFns;
use vstd::string::StringSliceAdditionalSpecFns;
use vstd::utf8::encode_utf8;
use vstd::utf8::is_ascii_chars;
use vstd::utf8::is_ascii_chars_encode_utf8;

verus! {

/// Why a numeral could not be read.
#[derive(Debug, Clone, Copy, PartialEq, Eq, Structural)]
pub enum IntErrorKind {
    /// The text holds nothing where a digit is needed.
    Empty,
    /// The text holds something that is not a digit.
    InvalidDigit,
    /// The number is too large for its type.
    PosOverflow,
}

pub open spec fn is_digit(b: u8) -> bool {
    0x30 <= b <= 0x39
}

/// The number of digits that `s` begins with.
pub open spec fn digit_prefix_len(s: Seq<u8>) -> int
    decreases s.len(),
{
    if s.len() == 0 || !is_digit(s[0]) {
        0
    } else {
        1 + digit_prefix_len(s.drop_first())
    }
}

/// The number that the decimal digits `s` denote, most significant first.
pub open spec fn decimal_value(s: Seq<u8>) -> nat
    decreases s.len(),
{
    if s.len() == 0 {
        0
    } else {
        decimal_value(s.drop_last()) * 10 + (s.last() - 0x30) as nat
    }
}

/// What follows the optional plus sign of a numeral.
pub open spec fn unsigned_digits(s: Seq<u8>) -> Seq<u8> {
    if s.len() > 0 && s[0] == 0x2b {
        s.drop_first()
    } else {
        s
    }
}

/// Reads `s` as an unsigned decimal numeral of at most `max`: an optional
/// plus sign, then one or more digits and nothing else. Of two faults the one
/// that a reader meets first, going from left to right, is reported: a number
/// that has grown beyond `max` before anything but a digit was met is an
/// overflow.
pub open spec fn parse_decimal(s: Seq<u8>, max: nat) -> Result<nat, IntErrorKind> {
    let digits = unsigned_digits(s);
    let k = digit_prefix_len(digits);
    if s.len() == 0 {
        Err(IntErrorKind::Empty)
    } else if digits.len() == 0 {
        Err(IntErrorKind::InvalidDigit)
    } else if decimal_value(digits.take(k)) > max {
        Err(IntErrorKind::PosOverflow)
    } else if k < digits.len() {
        Err(IntErrorKind::InvalidDigit)
    } else {
        Ok(decimal_value(digits))
    }
}

/// `digit_prefix_len` lies within the sequence, everything before it is a
/// digit, and it points at something else unless it is the length.
pub proof fn lemma_digit_prefix_len(s: Seq<u8>)
    ensures
        0 <= digit_prefix_len(s) <= s.len(),
        forall|j: int| 0 <= j < digit_prefix_len(s) ==> is_digit(s[j]),
        digit_prefix_len(s) < s.len() ==> !is_digit(s[digit_prefix_len(s)]),
    decreases s.len(),
{
    if s.len() == 0 || !is_digit(s[0]) {
    } else {
        let t = s.drop_first();
        lemma_digit_prefix_len(t);
        assert forall|j: int| 0 <= j < digit_prefix_len(s) implies is_digit(s[j]) by {
            if j > 0 {
                assert(s[j] == t[j - 1]);
            }
        }
        assert(digit_prefix_len(s) < s.len() ==> s[digit_prefix_len(s)] == t[digit_prefix_len(t)]);
    }
}

/// Any index with only digits before it and none at it is `digit_prefix_len`.
pub proof fn lemma_digit_prefix_len_unique(s: Seq<u8>, k: int)
    requires
        0 <= k <= s.len(),
        forall|j: int| 0 <= j < k ==> is_digit(s[j]),
        k < s.len() ==> !is_digit(s[k]),
    ensures
        digit_prefix_len(s) == k,
{
    lemma_digit_prefix_len(s);
    let p = digit_prefix_len(s);
    if p < k {
        assert(is_digit(s[p]));
    } else if k < p {
        assert(is_digit(s[k]));
    }
}

/// A numeral of digits denotes no less than any of its prefixes.
pub proof fn lemma_decimal_value_monotone(s: Seq<u8>, j: int, k: int)
    requires
        0 <= j <= k <= s.len(),
        forall|i: int| 0 <= i < k ==> is_digit(s[i]),
    ensures
        decimal_value(s.take(j)) <= decimal_value(s.take(k)),
    decreases k - j,
{
    if j < k {
        lemma_decimal_value_monotone(s, j, k - 1);
        assert(s.take(k).drop_last() =~= s.take(k - 1));
        assert(s.take(k).last() == s[k - 1]);
    }
}

/// A numeral that is read denotes no more than `max`.
pub proof fn lemma_parse_decimal_bound(s: Seq<u8>, max: nat)
    ensures
        parse_decimal(s, max) matches Ok(v) ==> v <= max,
{
    let digits = unsigned_digits(s);
    lemma_digit_prefix_len(digits);
    assert(digits.take(digits.len() as int) =~= digits);
}

/// Reads an unsigned decimal numeral of at most `max`.
pub fn parse_decimal_u64(s: &[u8], max: u64) -> (res: Result<u64, IntErrorKind>)
    ensures
        res matches Ok(v) ==> v <= max && parse_decimal(s@, max as nat) == Ok::<nat, IntErrorKind>(
            v as nat,
        ),
        res matches Err(e) ==> parse_decimal(s@, max as nat) == Err::<nat, IntErrorKind>(e),
{
    if s.len() == 0 {
        return Err(IntErrorKind::Empty);
    }
    let start: usize = if s[0] == 0x2b { 1 } else { 0 };
    let ghost digits = unsigned_digits(s@);
    proof {
        assert(digits =~= s@.skip(start as int));
    }
    if start == s.len() {
        return Err(IntErrorKind::InvalidDigit);
    }
    let mut acc: u64 = 0;
    let mut i: usize = start;
    proof {
        assert(digits.take(0) =~= Seq::<u8>::empty());
    }
    while i < s.len()
        invariant
            start <= i <= s@.len(),
            digits == s@.skip(start as int),
            digits == unsigned_digits(s@),
            digits.len() > 0,
            forall|j: int| 0 <= j < i - start ==> is_digit(digits[j]),
            acc as nat == decimal_value(digits.take(i - start)),
            acc <= max,
        decreases s@.len() - i,
    {
        let b = s[i];
        proof {
            assert(digits[i - start] == b);
        }
        if b < 0x30 || b > 0x39 {
            proof {
                lemma_digit_prefix_len_unique(digits, i - start);
            }
            return Err(IntErrorKind::InvalidDigit);
        }
        let next: u128 = (acc as u128) * 10 + ((b - 0x30) as u128);
        proof {
            assert(digits.take(i - start + 1).drop_last() =~= digits.take(i - start));
            assert(digits.take(i - start + 1).last() == b);
            assert(next as nat == decimal_value(digits.take(i - start + 1)));
        }
        if next > max as u128 {
            proof {
                lemma_digit_prefix_len(digits);
                let k = digit_prefix_len(digits);
                if k < i - start + 1 {
                    assert(is_digit(digits[k]));
                }
                lemma_decimal_value_monotone(digits, i - start + 1, k);
            }
            return Err(IntErrorKind::PosOverflow);
        }
        acc = next as u64;
        i += 1;
    }
    proof {
        lemma_digit_prefix_len_unique(digits, digits.len() as int);
        assert(digits.take(digits.len() as int) =~= digits);
    }
    Ok(acc)
}

/// Reads an unsigned decimal numeral that fits 32 bits.
pub fn parse_u32(s: &str) -> (res: Result<u32, IntErrorKind>)
    ensures
        res matches Ok(v) ==> parse_decimal(s.spec_bytes(), u32::MAX as nat) == Ok::<
            nat,
            IntErrorKind,
        >(v as nat),
        res matches Err(e) ==> parse_decimal(s.spec_bytes(), u32::MAX as nat) == Err::<
            nat,
            IntErrorKind,
        >(e),
{
    match parse_decimal_u64(s.as_bytes(), 0xffff_ffff) {
        Ok(v) => Ok(v as u32),
        Err(e) => Err(e),
    }
}

/// Reads an unsigned decimal numeral that fits a machine word.
pub fn parse_usize(s: &str) -> (res: Result<usize, IntErrorKind>)
    ensures
        res matches Ok(v) ==> parse_decimal(s.spec_bytes(), usize::MAX as nat) == Ok::<
            nat,
            IntErrorKind,
        >(v as nat),
        res matches Err(e) ==> parse_decimal(s.spec_bytes(), usize::MAX as nat) == Err::<
            nat,
            IntErrorKind,
        >(e),
{
    match parse_decimal_u64(s.as_bytes(), usize::MAX as u64) {
        Ok(v) => Ok(v as usize),
        Err(e) => Err(e),
    }
}

pub open spec fn is_hex_digit(b: u8) -> bool {
    is_digit(b) || 0x41 <= b <= 0x46 || 0x61 <= b <= 0x66
}

/// The value of a hexadecimal digit, in either case.
pub open spec fn hex_digit_value(b: u8) -> nat {
    if is_digit(b) {
        (b - 0x30) as nat
    } else if 0x41 <= b <= 0x46 {
        (b - 0x41 + 10) as nat
    } else {
        (b - 0x61 + 10) as nat
    }
}

/// The bytes that the pairs of hexadecimal digits of `s` denote, the first
/// digit of a pair being the upper half.
pub open spec fn hex_pairs(s: Seq<u8>) -> Seq<u8> {
    Seq::new(
        s.len() / 2,
        |i: int| (hex_digit_value(s[2 * i]) * 16 + hex_digit_value(s[2 * i + 1])) as u8,
    )
}

/// Reads `s` as sixteen bytes, each written as two hexadecimal digits. Going
/// from left to right, anything but a hexadecimal digit among the first
/// thirty-two bytes is an invalid digit; a text that ends before them is
/// empty where a digit is needed; one that goes on after them overflows.
pub open spec fn parse_hex16(s: Seq<u8>) -> Result<Seq<u8>, IntErrorKind> {
    let n = if s.len() < 32 { s.len() as int } else { 32 };
    if exists|i: int| 0 <= i < n && !is_hex_digit(#[trigger] s[i]) {
        Err(IntErrorKind::InvalidDigit)
    } else if s.len() < 32 {
        Err(IntErrorKind::Empty)
    } else if s.len() > 32 {
        Err(IntErrorKind::PosOverflow)
    } else {
        Ok(hex_pairs(s))
    }
}

/// The value of a hexadecimal digit; `None` for any other byte.
pub fn hex_digit(b: u8) -> (res: Option<u8>)
    ensures
        res is Some <==> is_hex_digit(b),
        res matches Some(v) ==> v as nat == hex_digit_value(b),
{
    if 0x30 <= b && b <= 0x39 {
        Some(b - 0x30)
    } else if 0x41 <= b && b <= 0x46 {
        Some(b - 0x41 + 10)
    } else if 0x61 <= b && b <= 0x66 {
        Some(b - 0x61 + 10)
    } else {
        None
    }
}

/// Reads sixteen bytes, each written as two hexadecimal digits.
pub fn parse_hex16_bytes(s: &[u8]) -> (res: Result<[u8; 16], IntErrorKind>)
    ensures
        res matches Ok(v) ==> parse_hex16(s@) == Ok::<Seq<u8>, IntErrorKind>(v@),
        res matches Err(e) ==> parse_hex16(s@) == Err::<Seq<u8>, IntErrorKind>(e),
{
    let mut out: [u8; 16] = [0u8; 16];
    let mut i: usize = 0;
    while i < 16
        invariant
            i <= 16,
            2 * i <= s@.len(),
            forall|j: int| 0 <= j < 2 * i ==> is_hex_digit(#[trigger] s@[j]),
            forall|j: int|
                0 <= j < i ==> #[trigger] out@[j] as nat == hex_digit_value(s@[2 * j]) * 16
                    + hex_digit_value(s@[2 * j + 1]),
        decreases 16 - i,
    {
        if 2 * i >= s.len() {
            return Err(IntErrorKind::Empty);
        }
        let hi = match hex_digit(s[2 * i]) {
            Some(v) => v,
            None => {
                assert(!is_hex_digit(s@[2 * i as int]));
                return Err(IntErrorKind::InvalidDigit);
            },
        };
        if 2 * i + 1 >= s.len() {
            return Err(IntErrorKind::Empty);
        }
        let lo = match hex_digit(s[2 * i + 1]) {
            Some(v) => v,
            None => {
                assert(!is_hex_digit(s@[2 * i + 1]));
                return Err(IntErrorKind::InvalidDigit);
            },
        };
        out[i] = hi * 16 + lo;
        i += 1;
    }
    if s.len() > 32 {
        return Err(IntErrorKind::PosOverflow);
    }
    assert(out@ =~= hex_pairs(s@));
    Ok(out)
}

/// The character of a decimal digit.
pub open spec fn digit_char(d: nat) -> char {
    if d == 0 {
        '0'
    } else if d == 1 {
        '1'
    } else if d == 2 {
        '2'
    } else if d == 3 {
        '3'
    } else if d == 4 {
        '4'
    } else if d == 5 {
        '5'
    } else if d == 6 {
        '6'
    } else if d == 7 {
        '7'
    } else if d == 8 {
        '8'
    } else {
        '9'
    }
}

/// The decimal numeral of `n`: no sign and no leading zero, but for zero itself.
pub open spec fn decimal_digits(n: nat) -> Seq<char>
    decreases n,
{
    if n < 10 {
        seq![digit_char(n)]
    } else {
        decimal_digits(n / 10) + seq![digit_char(n % 10)]
    }
}

/// The decimal numeral of a number is made of ASCII digits, as many bytes as
/// characters, and without its last digit it is the numeral of a tenth of
/// the number.
pub proof fn lemma_decimal_digits(n: nat)
    ensures
        decimal_digits(n).len() >= 1,
        is_ascii_chars(decimal_digits(n)),
        encode_utf8(decimal_digits(n)).len() == decimal_digits(n).len(),
        forall|i: int|
            0 <= i < decimal_digits(n).len() ==> is_digit(
                #[trigger] encode_utf8(decimal_digits(n))[i],
            ),
        n >= 10 ==> encode_utf8(decimal_digits(n)).drop_last() == encode_utf8(
            decimal_digits(n / 10),
        ),
        encode_utf8(decimal_digits(n)).last() == 0x30 + n % 10,
    decreases n,
{
    let chars = decimal_digits(n);
    if n >= 10 {
        lemma_decimal_digits(n / 10);
        let before = decimal_digits(n / 10);
        assert forall|i: int| 0 <= i < chars.len() implies '\0' <= #[trigger] chars[i]
            <= '\u{7f}' by {
            if i < before.len() {
                assert(chars[i] == before[i]);
            }
        }
        is_ascii_chars_encode_utf8(chars);
        is_ascii_chars_encode_utf8(before);
        assert forall|i: int| 0 <= i < chars.len() implies is_digit(
            #[trigger] encode_utf8(chars)[i],
        ) by {
            if i < before.len() {
                assert(chars[i] == before[i]);
                assert(is_digit(encode_utf8(before)[i]));
            } else {
                assert(chars[i] == digit_char(n % 10));
            }
        }
        assert(encode_utf8(chars).drop_last() =~= encode_utf8(before)) by {
            assert forall|i: int| 0 <= i < before.len() implies encode_utf8(chars).drop_last()[i]
                == encode_utf8(before)[i] by {
                assert(chars[i] == before[i]);
            }
        }
        assert(chars[chars.len() - 1] == digit_char(n % 10));
    } else {
        is_ascii_chars_encode_utf8(chars);
        assert(chars[0] == digit_char(n));
    }
}

/// The decimal numeral of a number is read as that number.
pub proof fn lemma_decimal_round_trip(n: nat, max: nat)
    requires
        n <= max,
    ensures
        parse_decimal(encode_utf8(decimal_digits(n)), max) == Ok::<nat, IntErrorKind>(n),
{
    let bytes = encode_utf8(decimal_digits(n));
    lemma_decimal_digits(n);
    lemma_decimal_digits_value(n);
    assert(is_digit(bytes[0]));
    lemma_digit_prefix_len_unique(bytes, bytes.len() as int);
    assert(bytes.take(bytes.len() as int) =~= bytes);
}

/// The digits of the decimal numeral of a number denote that number.
pub proof fn lemma_decimal_digits_value(n: nat)
    ensures
        decimal_value(encode_utf8(decimal_digits(n))) == n,
    decreases n,
{
    let bytes = encode_utf8(decimal_digits(n));
    lemma_decimal_digits(n);
    assert(bytes.len() >= 1);
    assert(decimal_value(bytes) == decimal_value(bytes.drop_last()) * 10 + (bytes.last() - 0x30));
    if n >= 10 {
        lemma_decimal_digits_value(n / 10);
        assert(n == (n / 10) * 10 + n % 10);
    } else {
        assert(decimal_digits(n).len() == 1);
        assert(bytes.drop_last().len() == 0);
        assert(decimal_value(bytes.drop_last()) == 0);
    }
}

fn digit_str(d: usize) -> (s: &'static str)
    requires
        d < 10,
    ensures
        s@ == seq![digit_char(d as nat)],
{
    proof {
        reveal_strlit("0");
        reveal_strlit("1");
        reveal_strlit("2");
        reveal_strlit("3");
        reveal_strlit("4");
        reveal_strlit("5");
        reveal_strlit("6");
        reveal_strlit("7");
        reveal_strlit("8");
        reveal_strlit("9");
    }
    let s = match d {
        0 => "0",
        1 => "1",
        2 => "2",
        3 => "3",
        4 => "4",
        5 => "5",
        6 => "6",
        7 => "7",
        8 => "8",
        _ => "9",
    };
    assert(s@ =~= seq![digit_char(d as nat)]);
    s
}

/// Appends the decimal numeral of `n` to `out`.
pub fn push_decimal(out: &mut String, n: usize)
    ensures
        final(out)@ == old(out)@ + decimal_digits(n as nat),
    decreases n,
{
    if n >= 10 {
        push_decimal(out, n / 10);
    }
    out.append(digit_str(n % 10));
    assert(out@ =~= old(out)@ + decimal_digits(n as nat));
}

} // verus!
