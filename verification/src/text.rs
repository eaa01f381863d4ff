//! Text rendering used in diagnostics: hexadecimal and decimal digits and the
//! printable form of a byte.

use vstd::prelude::*;

verus! {

/// `String::push` appends the character to the end of the string.
pub assume_specification[ String::push ](s: &mut String, c: char)
    ensures
        final(s)@ == old(s)@.push(c),
;

/// The character shown in place of a control byte.
pub const PLACEHOLDER: char = '\u{263A}';

/// The character with the same code point as the byte.
pub open spec fn byte_char(b: u8) -> char {
    b as char
}

/// The upper-case hexadecimal digit of a value below sixteen.
pub open spec fn hex_digit(n: u8) -> char {
    if n < 10 {
        (0x30 + n) as char
    } else {
        (0x41 + n - 10) as char
    }
}

/// The two upper-case hexadecimal digits of a byte, high nibble first.
pub open spec fn hex_byte(b: u8) -> Seq<char> {
    seq![hex_digit(b / 16), hex_digit(b % 16)]
}

/// Whether the byte, read as a code point, is a control character.
pub open spec fn is_control(b: u8) -> bool {
    b < 0x20 || (0x7F <= b && b <= 0x9F)
}

/// The character printed for a byte: itself, or the placeholder for a control byte.
pub open spec fn printable(b: u8) -> char {
    if is_control(b) {
        PLACEHOLDER
    } else {
        byte_char(b)
    }
}

/// The text that names a byte in a diagnostic: its two hexadecimal digits, a colon,
/// and its printable form in single quotes.
pub open spec fn byte_text(b: u8) -> Seq<char> {
    hex_byte(b) + seq![':', '\'', printable(b), '\'']
}

/// The decimal digits of a number, most significant first, without leading zeros.
pub open spec fn decimal(n: nat) -> Seq<char>
    decreases n,
{
    if n < 10 {
        seq![(0x30 + n) as char]
    } else {
        decimal(n / 10).push((0x30 + n % 10) as char)
    }
}

fn hex_digit_char(n: u8) -> (c: char)
    requires
        n < 16,
    ensures
        c == hex_digit(n),
{
    if n < 10 {
        (0x30u8 + n) as char
    } else {
        (0x41u8 + (n - 10)) as char
    }
}

/// Appends the two hexadecimal digits of `b` to `s`.
pub fn push_hex(s: &mut String, b: u8)
    ensures
        final(s)@ == old(s)@ + hex_byte(b),
{
    s.push(hex_digit_char(b / 16));
    s.push(hex_digit_char(b % 16));
}

/// Renders a byte for a diagnostic.
pub fn byte_2_print(byte: &u8) -> (s: String)
    ensures
        s@ == byte_text(*byte),
{
    let b: u8 = *byte;
    let mut s = String::new();
    push_hex(&mut s, b);
    s.push(':');
    s.push('\'');
    if b < 0x20 || (0x7F <= b && b <= 0x9F) {
        s.push(PLACEHOLDER);
    } else {
        s.push(b as char);
    }
    s.push('\'');
    s
}

/// Appends the decimal digits of `n` to `s`.
pub fn push_decimal(s: &mut String, n: usize)
    ensures
        final(s)@ == old(s)@ + decimal(n as nat),
    decreases n,
{
    if n >= 10 {
        push_decimal(s, n / 10);
    }
    let d: u8 = (n % 10) as u8;
    s.push((0x30u8 + d) as char);
}

} // verus!
