//! Classification and decoding of hexadecimal digit bytes. The alphabet is
//! case-insensitive: `0-9`, `A-F` and `a-f`; every other byte is a non-digit
//! and triggers a counter reset.

use vstd::prelude::*;

verus! {

/// ASCII `'0'`.
pub const BYTE_DIGIT_ZERO: u8 = 48;

/// ASCII `'9'`.
pub const BYTE_DIGIT_NINE: u8 = 57;

/// ASCII `'A'`.
pub const BYTE_UPPER_A: u8 = 65;

/// ASCII `'F'`.
pub const BYTE_UPPER_F: u8 = 70;

/// ASCII `'a'`.
pub const BYTE_LOWER_A: u8 = 97;

/// ASCII `'f'`.
pub const BYTE_LOWER_F: u8 = 102;

/// A byte is a hexadecimal digit when it is `0-9`, `A-F` or `a-f`.
pub open spec fn is_hex_digit(b: u8) -> bool {
    (BYTE_DIGIT_ZERO <= b && b <= BYTE_DIGIT_NINE) || (BYTE_UPPER_A <= b && b <= BYTE_UPPER_F) || (
    BYTE_LOWER_A <= b && b <= BYTE_LOWER_F)
}

/// The 4-bit value of a hexadecimal digit byte, folding case.
/// Meaningful only when `is_hex_digit(b)` holds.
pub open spec fn hex_digit_value(b: u8) -> u8 {
    if BYTE_DIGIT_ZERO <= b && b <= BYTE_DIGIT_NINE {
        (b - BYTE_DIGIT_ZERO) as u8
    } else if BYTE_UPPER_A <= b && b <= BYTE_UPPER_F {
        (b - BYTE_UPPER_A + 10) as u8
    } else {
        (b - BYTE_LOWER_A + 10) as u8
    }
}

/// Decodes a byte to its 4-bit hexadecimal value, or `None` for a non-digit.
pub fn decode_hex_digit(b: u8) -> (r: Option<u8>)
    ensures
        r == if is_hex_digit(b) {
            Some(hex_digit_value(b))
        } else {
            None::<u8>
        },
        r matches Some(d) ==> d < 16,
{
    if BYTE_DIGIT_ZERO <= b && b <= BYTE_DIGIT_NINE {
        Some(b - BYTE_DIGIT_ZERO)
    } else if BYTE_UPPER_A <= b && b <= BYTE_UPPER_F {
        Some(b - BYTE_UPPER_A + 10)
    } else if BYTE_LOWER_A <= b && b <= BYTE_LOWER_F {
        Some(b - BYTE_LOWER_A + 10)
    } else {
        None
    }
}

} // verus!
