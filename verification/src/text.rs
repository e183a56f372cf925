//! Text: UTF-8, and numbers in words.

use vstd::prelude::*;

verus! {

/// `String::push` appends one character at the end of the string.
pub assume_specification[ String::push ](s: &mut String, c: char)
    ensures
        final(s)@ == old(s)@.push(c),
;

/// The text of the error with which UTF-8 validation refuses `bytes`.
pub uninterp spec fn utf8_fault(bytes: Seq<u8>) -> Seq<char>;

/// `std::str::from_utf8` accepts exactly the byte sequences that are valid
/// UTF-8, and gives the characters that they encode. Of a refusal only the
/// text of its error is kept, under the name [`utf8_fault`].
#[verifier::external_body]
pub(crate) fn checked_utf8<'a>(bytes: &'a [u8]) -> (r: Result<&'a str, String>)
    ensures
        r is Ok <==> vstd::utf8::valid_utf8(bytes@),
        r matches Ok(s) ==> s@ == vstd::utf8::decode_utf8(bytes@),
        r matches Err(message) ==> message@ == utf8_fault(bytes@),
{
    match std::str::from_utf8(bytes) {
        Ok(s) => Ok(s),
        Err(e) => Err(e.to_string()),
    }
}

/// The character of a digit below sixteen, in lower case.
pub open spec fn digit(d: int) -> char {
    if d < 10 {
        (0x30 + d) as char
    } else {
        (0x57 + d) as char
    }
}

/// A byte as two lower-case hexadecimal digits.
pub open spec fn hex2(b: u8) -> Seq<char> {
    seq![digit(b as int / 16), digit(b as int % 16)]
}

/// `width` bytes of `value`, most significant first, in hexadecimal.
pub open spec fn hex(value: int, width: nat) -> Seq<char>
    decreases width,
{
    if width == 0 {
        seq![]
    } else {
        hex(value / 256, (width - 1) as nat) + hex2((value % 256) as u8)
    }
}

/// A natural number in decimal, without leading zeros.
pub open spec fn decimal_nat(n: nat) -> Seq<char>
    decreases n,
{
    if n < 10 {
        seq![digit(n as int)]
    } else {
        decimal_nat(n / 10).push(digit(n as int % 10))
    }
}

/// A number in decimal, with a leading minus sign if it is negative.
pub open spec fn decimal(n: int) -> Seq<char> {
    if n < 0 {
        seq!['-'] + decimal_nat((-n) as nat)
    } else {
        decimal_nat(n as nat)
    }
}

fn push_digit(s: &mut String, d: u8)
    requires
        d < 16,
    ensures
        final(s)@ == old(s)@.push(digit(d as int)),
{
    let c: u8 = if d < 10 { 0x30 + d } else { 0x57 + d };
    s.push(c as char);
}

/// Appends `b` as two hexadecimal digits.
pub fn push_hex2(s: &mut String, b: u8)
    ensures
        final(s)@ == old(s)@ + hex2(b),
{
    push_digit(s, b / 16);
    push_digit(s, b % 16);
}

/// Appends the low `width` bytes of `value` in hexadecimal.
pub fn push_hex(s: &mut String, value: u64, width: u8)
    ensures
        final(s)@ == old(s)@ + hex(value as int, width as nat),
    decreases width,
{
    if width > 0 {
        push_hex(s, value / 256, width - 1);
        push_hex2(s, (value % 256) as u8);
    }
}

fn push_decimal_nat(s: &mut String, n: u64)
    ensures
        final(s)@ == old(s)@ + decimal_nat(n as nat),
    decreases n,
{
    if n >= 10 {
        push_decimal_nat(s, n / 10);
    }
    push_digit(s, (n % 10) as u8);
}

/// Appends `n` in decimal.
pub fn push_decimal(s: &mut String, n: i64)
    ensures
        final(s)@ == old(s)@ + decimal(n as int),
{
    if n < 0 {
        s.push('-');
        let magnitude: u64 = (-(n + 1)) as u64 + 1;
        push_decimal_nat(s, magnitude);
    } else {
        push_decimal_nat(s, n as u64);
    }
}

/// A number below ten is its digit; dropping the last digit of a number is
/// dividing it by ten, and the digit is the remainder; and a minus sign stands
/// in front of a negative number.
pub proof fn law_decimal(n: int)
    ensures
        0 <= n < 10 ==> decimal(n) == seq![(48 + n) as char],
        n >= 10 ==> decimal(n) == decimal(n / 10).push((48 + n % 10) as char),
        n < 0 ==> decimal(n) == seq!['-'] + decimal(-n),
        n >= 0 ==> decimal_nat(n as nat) == decimal(n),
{
}

/// A byte in hexadecimal: its high four bits and its low four bits, each as a
/// digit from 0 to 9 or a letter from a to f. A longer number has its last byte
/// at the end.
pub proof fn law_hexadecimal(b: u8, value: int, width: nat)
    ensures
        hex2(b).len() == 2,
        b < 0xA0 ==> hex2(b)[0] == (48 + b as int / 16) as char,
        b >= 0xA0 ==> hex2(b)[0] == (97 + (b as int / 16 - 10)) as char,
        b % 16 < 10 ==> hex2(b)[1] == (48 + b as int % 16) as char,
        b % 16 >= 10 ==> hex2(b)[1] == (97 + (b as int % 16 - 10)) as char,
        hex(value, 0) == Seq::<char>::empty(),
        hex(value, width + 1) == hex(value / 256, width) + hex2((value % 256) as u8),
{
}

} // verus!
