//! Validation of the maximum-window-length argument: a decimal number
//! (optionally with a leading `+`, as the platform's integer parsing accepts)
//! that must lie in `1..=LARGEST_SEQUENCE_LENGTH`. Configuration errors are
//! detected here, before any counting begins.

use vstd::prelude::*;

use crate::counter::LARGEST_SEQUENCE_LENGTH;
use crate::digits::BYTE_DIGIT_NINE;
use crate::digits::BYTE_DIGIT_ZERO;

verus! {

/// ASCII `'+'`.
pub const BYTE_PLUS: u8 = 43;

/// A configuration error in the maximum-window-length argument.
#[derive(Debug, Clone, Copy, PartialEq, Eq)]
pub enum ConfigError {
    /// The argument is not a decimal number.
    NotANumber,
    /// The argument is a number outside `1..=LARGEST_SEQUENCE_LENGTH`.
    OutOfRange,
}

/// A byte is a decimal digit when it is `0-9`.
pub open spec fn is_decimal_digit(b: u8) -> bool {
    BYTE_DIGIT_ZERO <= b && b <= BYTE_DIGIT_NINE
}

/// The digit part of a decimal argument: an optional leading `+` is skipped.
pub open spec fn decimal_digits_of(s: Seq<u8>) -> Seq<u8> {
    if s.len() > 0 && s[0] == BYTE_PLUS {
        s.drop_first()
    } else {
        s
    }
}

/// A well-formed decimal argument: at least one byte after the optional `+`,
/// all of them decimal digits.
pub open spec fn is_decimal_literal(s: Seq<u8>) -> bool {
    let d = decimal_digits_of(s);
    d.len() > 0 && forall|i: int| 0 <= i < d.len() ==> is_decimal_digit(#[trigger] d[i])
}

/// The value of a sequence of decimal digit bytes, most significant first.
pub open spec fn decimal_value(d: Seq<u8>) -> nat
    decreases d.len(),
{
    if d.len() == 0 {
        0
    } else {
        (decimal_value(d.drop_last()) * 10 + (d.last() - BYTE_DIGIT_ZERO)) as nat
    }
}

/// Parses the maximum-window-length argument. Returns the value exactly when
/// the argument is a decimal number in `1..=LARGEST_SEQUENCE_LENGTH`;
/// `NotANumber` exactly when it is not a decimal number at all; `OutOfRange`
/// exactly when it is a decimal number equal to 0 or above the largest
/// supported window length.
pub fn parse_max_sequence_length(arg: &Vec<u8>) -> (r: Result<usize, ConfigError>)
    ensures
        r matches Ok(v) ==> is_decimal_literal(arg@) && v == decimal_value(decimal_digits_of(arg@))
            && 1 <= v <= LARGEST_SEQUENCE_LENGTH,
        is_decimal_literal(arg@) && 1 <= decimal_value(decimal_digits_of(arg@))
            <= LARGEST_SEQUENCE_LENGTH ==> r == Ok::<usize, ConfigError>(
            decimal_value(decimal_digits_of(arg@)) as usize,
        ),
        r == Err::<usize, ConfigError>(ConfigError::NotANumber) <==> !is_decimal_literal(arg@),
        r == Err::<usize, ConfigError>(ConfigError::OutOfRange) <==> is_decimal_literal(arg@) && !(
        1 <= decimal_value(decimal_digits_of(arg@)) <= LARGEST_SEQUENCE_LENGTH),
{
    let n: usize = arg.len();
    let start: usize = if n > 0 && arg[0] == BYTE_PLUS {
        1
    } else {
        0
    };
    if n == start {
        return Err(ConfigError::NotANumber);
    }
    let mut value: usize = 0;
    let mut i: usize = start;
    while i < n
        invariant
            start <= i <= n,
            n == arg@.len(),
            n > start,
            start == if n > 0 && arg@[0] == BYTE_PLUS {
                1int
            } else {
                0int
            },
            forall|j: int| start <= j < i ==> is_decimal_digit(#[trigger] arg@[j]),
            value == ({
                let v = decimal_value(arg@.subrange(start as int, i as int));
                if v > LARGEST_SEQUENCE_LENGTH {
                    (LARGEST_SEQUENCE_LENGTH + 1) as nat
                } else {
                    v
                }
            }),
        decreases n - i,
    {
        let b: u8 = arg[i];
        if b < BYTE_DIGIT_ZERO || b > BYTE_DIGIT_NINE {
            proof {
                assert(decimal_digits_of(arg@)[i - start] == arg@[i as int]);
            }
            return Err(ConfigError::NotANumber);
        }
        proof {
            assert(arg@.subrange(start as int, i + 1).drop_last() =~= arg@.subrange(
                start as int,
                i as int,
            ));
            assert(arg@.subrange(start as int, i + 1).last() == arg@[i as int]);
        }
        value = value * 10 + (b - BYTE_DIGIT_ZERO) as usize;
        if value > LARGEST_SEQUENCE_LENGTH {
            value = LARGEST_SEQUENCE_LENGTH + 1;
        }
        i = i + 1;
    }
    proof {
        assert(arg@.subrange(start as int, n as int) =~= decimal_digits_of(arg@));
    }
    if value == 0 || value > LARGEST_SEQUENCE_LENGTH {
        Err(ConfigError::OutOfRange)
    } else {
        Ok(value)
    }
}

} // verus!
