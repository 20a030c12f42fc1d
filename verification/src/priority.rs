//! Priorities as they stand in a record: decimal numbers that fit in eight
//! bits with sign.

use crate::records::FormatError;
use vstd::prelude::*;
use vstd::utf8::*;

verus! {

/// `b` is one of the characters `0` to `9`.
pub open spec fn is_digit(b: u8) -> bool {
    0x30 <= b <= 0x39
}

/// The number that the digit `b` stands for.
pub open spec fn digit_of(b: u8) -> nat {
    if b >= 0x30 {
        (b - 0x30) as nat
    } else {
        0
    }
}

/// Every one of `digits` is a digit.
pub open spec fn all_digits(digits: Seq<u8>) -> bool {
    forall|i: int| 0 <= i < digits.len() ==> is_digit(#[trigger] digits[i])
}

/// The number that `digits` write in base ten.
pub open spec fn digits_value(digits: Seq<u8>) -> nat
    decreases digits.len(),
{
    if digits.len() == 0 {
        0
    } else {
        digits_value(digits.drop_last()) * 10 + digit_of(digits.last())
    }
}

/// `field` starts with a sign, `+` or `-`.
pub open spec fn has_sign(field: Seq<u8>) -> bool {
    field.len() > 0 && (field[0] == 0x2B || field[0] == 0x2D)
}

/// The priority that `field` writes: an optional sign, then one digit or
/// more, for a number from -128 to 127. `None` for any other field.
pub open spec fn priority_value(field: Seq<u8>) -> Option<int> {
    let digits = if has_sign(field) {
        field.drop_first()
    } else {
        field
    };
    let value = if has_sign(field) && field[0] == 0x2D {
        -digits_value(digits)
    } else {
        digits_value(digits) as int
    };
    if digits.len() > 0 && all_digits(digits) && -128 <= value <= 127 {
        Some(value)
    } else {
        None
    }
}

/// The digits of `n` in base ten, without leading zeros.
pub open spec fn magnitude_digits(n: nat) -> Seq<u8>
    decreases n,
{
    if n < 10 {
        seq![(0x30 + n) as u8]
    } else {
        magnitude_digits(n / 10).push((0x30 + n % 10) as u8)
    }
}

/// The way `p` is written in a record: a `-` where it is negative, then its
/// digits.
pub open spec fn decimal_bytes(p: int) -> Seq<u8> {
    if p < 0 {
        seq![0x2Du8] + magnitude_digits((-p) as nat)
    } else {
        magnitude_digits(p as nat)
    }
}

/// The text of `p` as it is written in a record.
pub open spec fn decimal_chars(p: int) -> Seq<char> {
    decimal_bytes(p).map_values(|b: u8| b as char)
}

/// A number of digits is worth at least as much as any of its prefixes.
pub proof fn lemma_digits_value_prefix(digits: Seq<u8>, k: int)
    requires
        0 <= k <= digits.len(),
    ensures
        digits_value(digits.take(k)) <= digits_value(digits),
    decreases digits.len(),
{
    if k == digits.len() {
        assert(digits.take(k) =~= digits);
    } else {
        lemma_digits_value_prefix(digits.drop_last(), k);
        assert(digits.drop_last().take(k) =~= digits.take(k));
    }
}

/// The digits of a number write that number.
pub proof fn lemma_magnitude_digits(n: nat)
    ensures
        magnitude_digits(n).len() > 0,
        all_digits(magnitude_digits(n)),
        digits_value(magnitude_digits(n)) == n,
    decreases n,
{
    if n < 10 {
        let d = magnitude_digits(n);
        assert(d.drop_last() =~= Seq::<u8>::empty());
        assert(digits_value(d.drop_last()) == 0);
    } else {
        lemma_magnitude_digits(n / 10);
        let d = magnitude_digits(n);
        assert(d.drop_last() =~= magnitude_digits(n / 10));
    }
}

/// Reading what was written gives the priority back.
pub proof fn lemma_priority_round_trip(p: int)
    requires
        -128 <= p <= 127,
    ensures
        priority_value(decimal_bytes(p)) == Some(p),
{
    let field = decimal_bytes(p);
    if p < 0 {
        lemma_magnitude_digits((-p) as nat);
        assert(field.drop_first() =~= magnitude_digits((-p) as nat));
    } else {
        lemma_magnitude_digits(p as nat);
        assert(is_digit(field[0]));
    }
}

/// The text of a priority takes one byte for each character, and these
/// bytes are the priority as it is written in a record.
pub proof fn lemma_decimal_chars_encoded(p: int)
    ensures
        encode_utf8(decimal_chars(p)) == decimal_bytes(p),
{
    let chars = decimal_chars(p);
    if p < 0 {
        lemma_magnitude_digits((-p) as nat);
    } else {
        lemma_magnitude_digits(p as nat);
    }
    assert forall|i: int| 0 <= i < chars.len() implies 0 <= #[trigger] chars[i] as u32 <= 0x7F
        && chars[i] as u8 == decimal_bytes(p)[i] by {
        let b = decimal_bytes(p)[i];
        if p < 0 && i > 0 {
            assert(is_digit(magnitude_digits((-p) as nat)[i - 1]));
        }
        assert(b <= 0x39);
    }
    is_ascii_chars_encode_utf8(chars);
    assert(encode_utf8(chars) =~= decimal_bytes(p));
}

/// The character of the digit `d`.
fn digit_char(d: u8) -> (c: char)
    requires
        d < 10,
    ensures
        c == ((0x30 + d) as u8) as char,
{
    (0x30 + d) as char
}

/// Writes `p` as it stands in a record.
pub fn priority_text(p: i8) -> (text: String)
    ensures
        text@ == decimal_chars(p as int),
        encode_utf8(text@) == decimal_bytes(p as int),
        priority_value(encode_utf8(text@)) == Some(p as int),
{
    let mut text = String::new();
    let m: u8 = if p < 0 {
        text.push('-');
        (-(p as i16)) as u8
    } else {
        p as u8
    };
    if m >= 100 {
        text.push(digit_char(m / 100));
    }
    if m >= 10 {
        text.push(digit_char((m / 10) % 10));
    }
    text.push(digit_char(m % 10));
    proof {
        reveal_with_fuel(magnitude_digits, 3);
        assert(text@ =~= decimal_chars(p as int));
        lemma_decimal_chars_encoded(p as int);
        lemma_priority_round_trip(p as int);
    }
    text
}

/// Reads `field` as a priority.
pub fn parse_priority(field: &Vec<u8>) -> (priority: Result<i8, FormatError>)
    ensures
        match priority {
            Ok(p) => priority_value(field@) == Some(p as int),
            Err(e) => e == FormatError::InvalidPriority && priority_value(field@) is None,
        },
{
    let n = field.len();
    if n == 0 {
        return Err(FormatError::InvalidPriority);
    }
    let negative = field[0] == 0x2D;
    let start: usize = if field[0] == 0x2B || field[0] == 0x2D {
        1
    } else {
        0
    };
    let ghost digits = field@.skip(start as int);
    assert(digits =~= if has_sign(field@) {
        field@.drop_first()
    } else {
        field@
    });
    if start == n {
        return Err(FormatError::InvalidPriority);
    }
    let mut value: i16 = 0;
    let mut i: usize = start;
    assert(digits.take(0) =~= Seq::<u8>::empty());
    while i < n
        invariant
            start <= i <= n,
            n == field.len(),
            digits == field@.skip(start as int),
            digits == if has_sign(field@) {
                field@.drop_first()
            } else {
                field@
            },
            all_digits(digits.take(i - start)),
            value == digits_value(digits.take(i - start)),
            0 <= value <= 128,
        decreases n - i,
    {
        let b = field[i];
        if b < 0x30 || b > 0x39 {
            assert(!is_digit(digits[i - start]));
            return Err(FormatError::InvalidPriority);
        }
        let next: i16 = value * 10 + (b - 0x30) as i16;
        proof {
            assert(digits.take(i + 1 - start).drop_last() =~= digits.take(i - start));
        }
        if next > 128 {
            proof {
                lemma_digits_value_prefix(digits, i + 1 - start);
            }
            return Err(FormatError::InvalidPriority);
        }
        value = next;
        i += 1;
    }
    assert(digits.take(n - start) =~= digits);
    if negative {
        Ok((-value) as i8)
    } else if value <= 127 {
        Ok(value as i8)
    } else {
        Err(FormatError::InvalidPriority)
    }
}

} // verus!
