//! Reading an unsigned 32-bit number from its decimal text.

use vstd::prelude::*;

verus! {

/// The byte `+`, which may stand before the digits.
pub const PLUS: u8 = 0x2b;

/// The byte `0`.
pub const ZERO_DIGIT: u8 = 0x30;

/// The byte `9`.
pub const NINE_DIGIT: u8 = 0x39;

/// Whether a byte is one of the ten decimal digits.
pub open spec fn is_digit(byte: u8) -> bool {
    ZERO_DIGIT <= byte <= NINE_DIGIT
}

/// Whether every byte of `s` is a decimal digit.
pub open spec fn all_digits(s: Seq<u8>) -> bool {
    forall|i: int| 0 <= i < s.len() ==> is_digit(#[trigger] s[i])
}

/// The number that a run of decimal digits denotes, most significant digit
/// first. Leading zeros do not change it.
pub open spec fn digits_value(s: Seq<u8>) -> nat
    decreases s.len(),
{
    if s.len() == 0 {
        0
    } else {
        (digits_value(s.drop_last()) * 10 + (s.last() - ZERO_DIGIT)) as nat
    }
}

/// The digits of a number's text: the text itself, without one leading `+`
/// if it has one.
pub open spec fn unsigned_digits(text: Seq<u8>) -> Seq<u8> {
    if text.len() > 0 && text[0] == PLUS {
        text.skip(1)
    } else {
        text
    }
}

/// The number that a text denotes: an optional `+`, then one or more decimal
/// digits whose value fits in 32 bits. Any other text denotes none.
pub open spec fn u32_of_text(text: Seq<u8>) -> Option<u32> {
    let digits = unsigned_digits(text);
    if digits.len() > 0 && all_digits(digits) && digits_value(digits) <= u32::MAX {
        Some(digits_value(digits) as u32)
    } else {
        None
    }
}

/// A run of digits is worth at least as much as any of its prefixes.
pub proof fn lemma_digits_value_grows(s: Seq<u8>, n: int)
    requires
        all_digits(s),
        0 <= n <= s.len(),
    ensures
        digits_value(s.take(n)) <= digits_value(s),
    decreases s.len() - n,
{
    if n == s.len() {
        assert(s.take(n) =~= s);
    } else {
        lemma_digits_value_grows(s, n + 1);
        let longer = s.take(n + 1);
        assert(longer.drop_last() =~= s.take(n));
        assert(is_digit(longer.last()));
    }
}

/// Reads an unsigned 32-bit number from its decimal text.
pub fn parse_u32(text: &[u8]) -> (number: Option<u32>)
    ensures
        number == u32_of_text(text@),
{
    let start: usize = if text.len() > 0 && text[0] == PLUS {
        1
    } else {
        0
    };
    let ghost digits = unsigned_digits(text@);
    assert(digits =~= text@.skip(start as int));
    if start == text.len() {
        return None;
    }
    let mut value: u32 = 0;
    let mut i: usize = start;
    while i < text.len()
        invariant
            start <= i <= text@.len(),
            digits == text@.skip(start as int),
            digits == unsigned_digits(text@),
            digits.len() > 0,
            all_digits(digits.take(i - start)),
            value == digits_value(digits.take(i - start)),
        decreases text@.len() - i,
    {
        let byte = text[i];
        let ghost read = digits.take(i - start);
        let ghost next = digits.take(i - start + 1);
        assert(next.drop_last() =~= read);
        assert(next.last() == byte);
        if byte < ZERO_DIGIT || byte > NINE_DIGIT {
            assert(!is_digit(digits[i - start]));
            return None;
        }
        let digit: u32 = (byte - ZERO_DIGIT) as u32;
        if value > (u32::MAX - digit) / 10 {
            proof {
                assert(all_digits(digits) ==> digits_value(digits) > u32::MAX) by {
                    if all_digits(digits) {
                        lemma_digits_value_grows(digits, i - start + 1);
                    }
                }
            }
            return None;
        }
        value = value * 10 + digit;
        i += 1;
        assert(all_digits(next)) by {
            assert forall|j: int| 0 <= j < next.len() implies is_digit(#[trigger] next[j]) by {
                if j < read.len() {
                    assert(next[j] == read[j]);
                }
            }
        }
    }
    assert(digits.take(i - start) =~= digits);
    Some(value)
}

/// The decimal text of a number: its digits, most significant first, with
/// no sign and no leading zero.
pub open spec fn decimal_text(n: nat) -> Seq<u8>
    decreases n,
{
    if n < 10 {
        seq![(ZERO_DIGIT + n) as u8]
    } else {
        decimal_text(n / 10).push((ZERO_DIGIT + n % 10) as u8)
    }
}

/// The decimal text of a number is a run of digits worth the number.
pub proof fn lemma_decimal_text(n: nat)
    ensures
        decimal_text(n).len() > 0,
        all_digits(decimal_text(n)),
        digits_value(decimal_text(n)) == n,
    decreases n,
{
    let text = decimal_text(n);
    if n < 10 {
        assert(text.drop_last() =~= Seq::<u8>::empty());
        assert(digits_value(text.drop_last()) == 0);
    } else {
        lemma_decimal_text(n / 10);
        let front = decimal_text(n / 10);
        assert(text.drop_last() =~= front);
        assert forall|i: int| 0 <= i < text.len() implies is_digit(#[trigger] text[i]) by {
            if i < front.len() {
                assert(text[i] == front[i]);
            }
        }
    }
}

/// Reading the decimal text of a 32-bit number gives the number back.
pub proof fn lemma_decimal_text_reads_back(n: u32)
    ensures
        u32_of_text(decimal_text(n as nat)) == Some(n),
{
    lemma_decimal_text(n as nat);
    let text = decimal_text(n as nat);
    assert(is_digit(text[0]));
}

/// A text that denotes a number is made of digits and at most a `+`: it is
/// ASCII and holds neither a comma nor `=`.
pub proof fn lemma_number_text_is_plain(text: Seq<u8>)
    requires
        u32_of_text(text) is Some,
    ensures
        forall|i: int| 0 <= i < text.len() ==> (#[trigger] text[i] == PLUS || is_digit(text[i])),
{
    let digits = unsigned_digits(text);
    assert forall|i: int| 0 <= i < text.len() implies (#[trigger] text[i] == PLUS || is_digit(
        text[i],
    )) by {
        if text[0] == PLUS {
            if i > 0 {
                assert(digits[i - 1] == text[i]);
            }
        } else {
            assert(digits[i] == text[i]);
        }
    }
}

} // verus!
