//! Classification of single bytes of UTF-8 text: how many bytes the character
//! that starts at a byte occupies, and whether an ASCII byte is a letter or a
//! digit.
use vstd::prelude::*;

verus! {

/// The bytes that can start a character in well-formed UTF-8: the ASCII
/// range, and the leading bytes `0xC2..=0xF4` of multi-byte characters.
pub open spec fn is_leading_byte(byte: u8) -> bool {
    byte <= 0x7F || 0xC2 <= byte <= 0xF4
}

/// The number of bytes of the character whose first byte is `byte`.
pub open spec fn width_of(byte: u8) -> int {
    if byte <= 0x7F {
        1
    } else if byte <= 0xDF {
        2
    } else if byte <= 0xEF {
        3
    } else {
        4
    }
}

/// The ASCII letters and digits.
pub open spec fn is_alphanumeric_char(c: char) -> bool {
    ||| '0' <= c <= '9'
    ||| 'A' <= c <= 'Z'
    ||| 'a' <= c <= 'z'
}

/// The bytes that encode an ASCII letter or digit.
pub open spec fn is_alphanumeric_byte(byte: u8) -> bool {
    is_alphanumeric_char(byte as char)
}

/// Returns the width in bytes (1 to 4) of the character that starts with
/// `byte`, read off the byte's bit pattern alone.
///
/// The byte has to be one that starts a character in well-formed UTF-8.
/// Callers discharge that statically, so nothing is validated at run time
/// and no input is left on which the result would be unspecified.
pub fn get_width_assume_valid(byte: u8) -> (width: usize)
    requires
        is_leading_byte(byte),
    ensures
        width == width_of(byte),
        1 <= width <= 4,
{
    if byte <= 0x7F {
        1
    } else if byte <= 0xDF {
        2
    } else if byte <= 0xEF {
        3
    } else {
        4
    }
}

/// Tells whether an ASCII byte is a letter (`A`-`Z`, `a`-`z`) or a digit
/// (`0`-`9`).
pub fn is_alphanumeric(e: u8) -> (r: bool)
    ensures
        r == is_alphanumeric_byte(e),
{
    (e >= 0x30 && e <= 0x39) || (e >= 0x41 && e <= 0x5A) || (e >= 0x61 && e <= 0x7A)
}

} // verus!
