//! Decimal numbers as they appear in RESP headers and integer replies.

use vstd::prelude::*;
use vstd::string::StringSliceAdditionalSpecFns;
use vstd::utf8::{
    is_leading_byte_width_1, partial_valid_utf8, partial_valid_utf8_extend_ascii_block, valid_utf8,
};

verus! {

/// Why a piece of text is not a decimal number of the wanted type.
#[derive(Debug, PartialEq, Eq, Clone, Copy)]
pub enum DecimalError {
    /// The text has no characters at all.
    Empty,
    /// A character is not a decimal digit, or a sign is followed by nothing.
    InvalidDigit,
    /// The number is written correctly but does not fit the type.
    Overflow,
}

pub open spec fn is_digit(b: u8) -> bool {
    0x30 <= b <= 0x39
}

pub open spec fn all_digits(s: Seq<u8>) -> bool {
    forall|i: int| 0 <= i < s.len() ==> is_digit(#[trigger] s[i])
}

/// The number that a run of decimal digits writes, most significant first.
pub open spec fn digits_value(s: Seq<u8>) -> nat
    decreases s.len(),
{
    if s.len() == 0 {
        0
    } else {
        digits_value(s.drop_last()) * 10 + (s.last() - 0x30) as nat
    }
}

/// The shortest run of decimal digits that writes `n`.
pub open spec fn digits_of(n: nat) -> Seq<u8>
    decreases n,
{
    if n < 10 {
        seq![(0x30 + n) as u8]
    } else {
        digits_of(n / 10).push((0x30 + n % 10) as u8)
    }
}

/// The text of a signed number: a minus sign where it is negative, then its digits.
pub open spec fn integer_text(n: int) -> Seq<u8> {
    if n < 0 {
        seq![0x2du8] + digits_of((-n) as nat)
    } else {
        digits_of(n as nat)
    }
}

/// What `text` says as an unsigned size: one or more digits, and nothing
/// else, whose value fits `usize`.
pub open spec fn size_of_text(text: Seq<u8>) -> Result<usize, DecimalError> {
    if text.len() == 0 {
        Err(DecimalError::Empty)
    } else if !all_digits(text) {
        Err(DecimalError::InvalidDigit)
    } else if digits_value(text) > usize::MAX {
        Err(DecimalError::Overflow)
    } else {
        Ok(digits_value(text) as usize)
    }
}

/// What `text` says as a signed integer: an optional `+` or `-`, then one or
/// more digits whose signed value fits `i64`.
pub open spec fn integer_of_text(text: Seq<u8>) -> Result<i64, DecimalError> {
    if text.len() == 0 {
        Err(DecimalError::Empty)
    } else {
        let signed = text[0] == 0x2bu8 || text[0] == 0x2du8;
        let digits = if signed {
            text.skip(1)
        } else {
            text
        };
        let value = if text[0] == 0x2du8 {
            -(digits_value(digits) as int)
        } else {
            digits_value(digits) as int
        };
        if digits.len() == 0 || !all_digits(digits) {
            Err(DecimalError::InvalidDigit)
        } else if value < i64::MIN || value > i64::MAX {
            Err(DecimalError::Overflow)
        } else {
            Ok(value as i64)
        }
    }
}

/// A prefix of a run of digits never writes a larger number than the whole run.
pub proof fn lemma_prefix_value(s: Seq<u8>, i: int)
    requires
        0 <= i <= s.len(),
    ensures
        digits_value(s.take(i)) <= digits_value(s),
    decreases s.len(),
{
    if i == s.len() {
        assert(s.take(i) =~= s);
    } else {
        lemma_prefix_value(s.drop_last(), i);
        assert(s.drop_last().take(i) =~= s.take(i));
    }
}

/// `digits_of(n)` is a non-empty run of digits that writes `n`.
pub proof fn lemma_digits_of(n: nat)
    ensures
        digits_of(n).len() >= 1,
        all_digits(digits_of(n)),
        digits_value(digits_of(n)) == n,
    decreases n,
{
    if n < 10 {
        let s = digits_of(n);
        assert(s.drop_last() =~= Seq::<u8>::empty());
        assert(digits_value(s.drop_last()) == 0);
    } else {
        lemma_digits_of(n / 10);
        let s = digits_of(n);
        assert(s.drop_last() =~= digits_of(n / 10));
        assert(s.last() == (0x30 + n % 10) as u8);
    }
}

/// Bytes below 0x80 are UTF-8 text as they stand.
pub proof fn lemma_ascii_is_utf8(s: Seq<u8>)
    requires
        forall|i: int| 0 <= i < s.len() ==> #[trigger] s[i] <= 0x7f,
    ensures
        valid_utf8(s),
{
    assert(s.subrange(0, 0) =~= Seq::<u8>::empty());
    assert(partial_valid_utf8(s, 0));
    assert forall|i: int| 0 <= 0 <= i < s.len() <= s.len() implies #[trigger] is_leading_byte_width_1(
        s[i],
    ) by {}
    partial_valid_utf8_extend_ascii_block(s, 0, s.len() as int);
    assert(s.subrange(0, s.len() as int) =~= s);
}

/// Text that reads as a size is UTF-8 text.
pub proof fn lemma_size_text_is_utf8(text: Seq<u8>)
    requires
        size_of_text(text) is Ok,
    ensures
        valid_utf8(text),
{
    assert forall|i: int| 0 <= i < text.len() implies #[trigger] text[i] <= 0x7f by {
        assert(is_digit(text[i]));
    }
    lemma_ascii_is_utf8(text);
}

/// Text that reads as an integer is UTF-8 text.
pub proof fn lemma_integer_text_is_utf8(text: Seq<u8>)
    requires
        integer_of_text(text) is Ok,
    ensures
        valid_utf8(text),
{
    let signed = text[0] == 0x2bu8 || text[0] == 0x2du8;
    let digits = if signed {
        text.skip(1)
    } else {
        text
    };
    assert forall|i: int| 0 <= i < text.len() implies #[trigger] text[i] <= 0x7f by {
        if signed {
            if i > 0 {
                assert(is_digit(digits[i - 1]));
            }
        } else {
            assert(is_digit(digits[i]));
        }
    }
    lemma_ascii_is_utf8(text);
}

/// Whether every byte from `start` on is a decimal digit.
fn digits_only(bytes: &[u8], start: usize) -> (yes: bool)
    requires
        start <= bytes@.len(),
    ensures
        yes == all_digits(bytes@.skip(start as int)),
{
    let mut i: usize = start;
    while i < bytes.len()
        invariant
            start <= i <= bytes@.len(),
            forall|j: int| start <= j < i ==> is_digit(#[trigger] bytes@[j]),
        decreases bytes@.len() - i,
    {
        if bytes[i] < 0x30 || bytes[i] > 0x39 {
            assert(bytes@.skip(start as int)[i - start] == bytes@[i as int]);
            return false;
        }
        i += 1;
    }
    true
}

/// The value of the digits from `start` on, or `None` where it exceeds `u64`.
fn accumulate(bytes: &[u8], start: usize) -> (total: Option<u64>)
    requires
        start <= bytes@.len(),
        all_digits(bytes@.skip(start as int)),
    ensures
        match total {
            Some(v) => v == digits_value(bytes@.skip(start as int)),
            None => digits_value(bytes@.skip(start as int)) > u64::MAX,
        },
{
    let ghost digits = bytes@.skip(start as int);
    let mut acc: u64 = 0;
    let mut i: usize = start;
    while i < bytes.len()
        invariant
            start <= i <= bytes@.len(),
            digits == bytes@.skip(start as int),
            all_digits(digits),
            acc == digits_value(digits.take(i - start)),
        decreases bytes@.len() - i,
    {
        proof {
            let next = digits.take(i - start + 1);
            assert(next.drop_last() =~= digits.take(i - start));
            assert(next.last() == bytes@[i as int]);
            assert(is_digit(digits[i - start]));
            lemma_prefix_value(digits, i - start + 1);
        }
        let d: u64 = (bytes[i] - 0x30) as u64;
        let shifted = match acc.checked_mul(10) {
            Some(v) => v,
            None => {
                return None;
            },
        };
        acc = match shifted.checked_add(d) {
            Some(v) => v,
            None => {
                return None;
            },
        };
        i += 1;
    }
    assert(digits.take(i - start) =~= digits);
    Some(acc)
}

/// Reads an unsigned decimal size. No sign is accepted, not even `+`.
pub fn decimal_size(input: &str) -> (size: Result<usize, DecimalError>)
    ensures
        size == size_of_text(input.spec_bytes()),
{
    let bytes = input.as_bytes();
    if bytes.len() == 0 {
        return Err(DecimalError::Empty);
    }
    assert(bytes@.skip(0) =~= bytes@);
    if !digits_only(bytes, 0) {
        return Err(DecimalError::InvalidDigit);
    }
    match accumulate(bytes, 0) {
        Some(v) => {
            if v > usize::MAX as u64 {
                Err(DecimalError::Overflow)
            } else {
                Ok(v as usize)
            }
        },
        None => Err(DecimalError::Overflow),
    }
}

/// Reads a signed decimal integer.
pub fn decimal_integer(input: &str) -> (number: Result<i64, DecimalError>)
    ensures
        number == integer_of_text(input.spec_bytes()),
{
    let bytes = input.as_bytes();
    if bytes.len() == 0 {
        return Err(DecimalError::Empty);
    }
    let negative = bytes[0] == 0x2d;
    let start: usize = if negative || bytes[0] == 0x2b {
        1
    } else {
        0
    };
    assert(bytes@.skip(0) =~= bytes@);
    if start == bytes.len() || !digits_only(bytes, start) {
        return Err(DecimalError::InvalidDigit);
    }
    match accumulate(bytes, start) {
        Some(v) => {
            if negative {
                if v > 0x8000_0000_0000_0000u64 {
                    Err(DecimalError::Overflow)
                } else {
                    Ok((-(v as i128)) as i64)
                }
            } else {
                if v > 0x7fff_ffff_ffff_ffffu64 {
                    Err(DecimalError::Overflow)
                } else {
                    Ok(v as i64)
                }
            }
        },
        None => Err(DecimalError::Overflow),
    }
}

/// Appends the digits of `n` to `out`.
pub fn push_digits(out: &mut Vec<u8>, n: u64)
    ensures
        final(out)@ == old(out)@ + digits_of(n as nat),
    decreases n,
{
    if n >= 10 {
        push_digits(out, n / 10);
    }
    let d: u8 = (n % 10) as u8;
    out.push(0x30 + d);
    proof {
        if n < 10 {
            assert(final(out)@ =~= old(out)@ + digits_of(n as nat));
        } else {
            assert(final(out)@ =~= old(out)@ + digits_of(n as nat));
        }
    }
}

/// Appends the text of the signed number `n` to `out`.
pub fn push_integer(out: &mut Vec<u8>, n: i64)
    ensures
        final(out)@ == old(out)@ + integer_text(n as int),
{
    if n < 0 {
        out.push(0x2d);
        let magnitude: u64 = (-(n as i128)) as u64;
        push_digits(out, magnitude);
        assert(final(out)@ =~= old(out)@ + integer_text(n as int));
    } else {
        push_digits(out, n as u64);
    }
}

} // verus!
