//! Fixed-width numerals in file names.
use vstd::prelude::*;

verus! {

/// The last `width` decimal digits of `value`, in ASCII.
pub open spec fn decimal(value: nat, width: nat) -> Seq<u8>
    decreases width,
{
    if width == 0 {
        Seq::empty()
    } else {
        decimal(value / 10, (width - 1) as nat).push((48 + value % 10) as u8)
    }
}

/// The ASCII code of a hexadecimal digit.
pub open spec fn hex_digit(value: nat) -> u8 {
    if value < 10 {
        (48 + value) as u8
    } else {
        (87 + value) as u8
    }
}

/// The last `width` hexadecimal digits of `value`, in ASCII.
pub open spec fn hexadecimal(value: nat, width: nat) -> Seq<u8>
    decreases width,
{
    if width == 0 {
        Seq::empty()
    } else {
        hexadecimal(value / 16, (width - 1) as nat).push(hex_digit(value % 16))
    }
}

/// Two hexadecimal digits for each byte.
pub open spec fn hex_bytes(bytes: Seq<u8>) -> Seq<u8>
    decreases bytes.len(),
{
    if bytes.len() == 0 {
        Seq::empty()
    } else {
        hex_bytes(bytes.drop_last()) + hexadecimal(bytes.last() as nat, 2)
    }
}

/// Whether every byte is a decimal digit.
pub open spec fn all_digits(text: Seq<u8>) -> bool {
    forall|i: int| 0 <= i < text.len() ==> 48 <= #[trigger] text[i] <= 57
}

/// The number that a string of decimal digits denotes.
pub open spec fn decimal_value(text: Seq<u8>) -> nat
    decreases text.len(),
{
    if text.len() == 0 {
        0
    } else {
        decimal_value(text.drop_last()) * 10 + (text.last() - 48) as nat
    }
}

/// The digits after an optional plus sign.
pub open spec fn unsigned_digits(text: Seq<u8>) -> Seq<u8> {
    if text.len() > 0 && text[0] == 43 {
        text.skip(1)
    } else {
        text
    }
}

/// The unsigned number that a text denotes: an optional plus sign and at least one digit.
pub open spec fn parsed(text: Seq<u8>) -> Option<u64> {
    let digits = unsigned_digits(text);
    if digits.len() > 0 && all_digits(digits) && decimal_value(digits) <= u64::MAX {
        Some(decimal_value(digits) as u64)
    } else {
        None
    }
}

pub open spec fn ten_to(width: nat) -> nat
    decreases width,
{
    if width == 0 {
        1
    } else {
        10 * ten_to((width - 1) as nat)
    }
}

/// A numeral wide enough for its number denotes it.
pub(crate) proof fn decimal_denotes(value: nat, width: nat)
    requires
        value < ten_to(width),
    ensures
        decimal(value, width).len() == width,
        all_digits(decimal(value, width)),
        decimal_value(decimal(value, width)) == value,
    decreases width,
{
    if width > 0 {
        decimal_denotes(value / 10, (width - 1) as nat);
        let prefix = decimal(value / 10, (width - 1) as nat);
        assert(decimal(value, width).drop_last() =~= prefix);
    }
}

/// Twenty digits hold every 64-bit number.
pub(crate) proof fn twenty_digits_suffice()
    ensures
        u64::MAX < ten_to(20),
{
    reveal_with_fuel(ten_to, 21);
}

pub open spec fn sixteen_to(width: nat) -> nat
    decreases width,
{
    if width == 0 {
        1
    } else {
        16 * sixteen_to((width - 1) as nat)
    }
}

/// Numerals of one width denote different numbers, where they are wide enough.
pub(crate) proof fn hexadecimal_is_injective(left: nat, right: nat, width: nat)
    requires
        left < sixteen_to(width),
        right < sixteen_to(width),
        hexadecimal(left, width) == hexadecimal(right, width),
    ensures
        left == right,
    decreases width,
{
    if width > 0 {
        let less = (width - 1) as nat;
        let front = hexadecimal(left / 16, less);
        let other = hexadecimal(right / 16, less);
        assert(front.push(hex_digit(left % 16)).drop_last() =~= front);
        assert(other.push(hex_digit(right % 16)).drop_last() =~= other);
        assert(front.push(hex_digit(left % 16)).last() == hex_digit(left % 16));
        assert(other.push(hex_digit(right % 16)).last() == hex_digit(right % 16));
        hexadecimal_is_injective(left / 16, right / 16, less);
    }
}

/// A numeral has as many digits as it is wide.
pub(crate) proof fn hexadecimal_width(value: nat, width: nat)
    ensures
        hexadecimal(value, width).len() == width,
    decreases width,
{
    if width > 0 {
        hexadecimal_width(value / 16, (width - 1) as nat);
    }
}

/// Sixteen digits hold every 64-bit number.
pub(crate) proof fn sixteen_digits_suffice()
    ensures
        u64::MAX < sixteen_to(16),
{
    reveal_with_fuel(sixteen_to, 17);
}

proof fn value_of_prefix(text: Seq<u8>, n: int)
    requires
        0 <= n <= text.len(),
    ensures
        decimal_value(text.take(n)) <= decimal_value(text),
    decreases text.len() - n,
{
    if n < text.len() {
        value_of_prefix(text, n + 1);
        assert(text.take(n + 1).drop_last() =~= text.take(n));
    } else {
        assert(text.take(n) =~= text);
    }
}

/// Appends `width` decimal digits of `value`.
pub fn put_decimal(output: &mut Vec<u8>, value: u64, width: usize)
    ensures
        final(output)@ == old(output)@ + decimal(value as nat, width as nat),
    decreases width,
{
    if width > 0 {
        put_decimal(output, value / 10, width - 1);
        output.push(48 + (value % 10) as u8);
        assert(output@ =~= old(output)@ + decimal(value as nat, width as nat));
    } else {
        assert(output@ =~= old(output)@ + decimal(value as nat, 0));
    }
}

/// Appends `width` hexadecimal digits of `value`.
pub fn put_hexadecimal(output: &mut Vec<u8>, value: u64, width: usize)
    ensures
        final(output)@ == old(output)@ + hexadecimal(value as nat, width as nat),
    decreases width,
{
    if width > 0 {
        put_hexadecimal(output, value / 16, width - 1);
        let digit: u8 = (value % 16) as u8;
        output.push(if digit < 10 {
            48 + digit
        } else {
            87 + digit
        });
        assert(output@ =~= old(output)@ + hexadecimal(value as nat, width as nat));
    } else {
        assert(output@ =~= old(output)@ + hexadecimal(value as nat, 0));
    }
}

/// Appends two hexadecimal digits for each byte.
pub fn put_hex_bytes(output: &mut Vec<u8>, bytes: &[u8])
    ensures
        final(output)@ == old(output)@ + hex_bytes(bytes@),
{
    let mut index: usize = 0;
    assert(bytes@.take(0) =~= Seq::<u8>::empty());
    assert(output@ =~= old(output)@ + hex_bytes(bytes@.take(0)));
    while index < bytes.len()
        invariant
            index <= bytes@.len(),
            output@ == old(output)@ + hex_bytes(bytes@.take(index as int)),
        decreases bytes@.len() - index,
    {
        put_hexadecimal(output, bytes[index] as u64, 2);
        proof {
            let next = bytes@.take(index + 1);
            assert(next.drop_last() =~= bytes@.take(index as int));
            assert(output@ =~= old(output)@ + hex_bytes(next));
        }
        index += 1;
    }
    assert(bytes@.take(bytes@.len() as int) =~= bytes@);
}

/// Reads an unsigned number: an optional plus sign and at least one digit.
pub fn parse_u64(text: &[u8]) -> (value: Option<u64>)
    ensures
        value == parsed(text@),
{
    let start: usize = if text.len() > 0 && text[0] == 43 {
        1
    } else {
        0
    };
    let ghost digits = unsigned_digits(text@);
    assert(digits =~= text@.skip(start as int));
    if text.len() == start {
        return None;
    }
    let mut index: usize = start;
    let mut value: u64 = 0;
    assert(digits.take(0) =~= Seq::<u8>::empty());
    while index < text.len()
        invariant
            start <= index <= text@.len(),
            start < text@.len(),
            digits == unsigned_digits(text@),
            digits == text@.skip(start as int),
            all_digits(digits.take(index - start)),
            value == decimal_value(digits.take(index - start)),
        decreases text@.len() - index,
    {
        let byte: u8 = text[index];
        assert(byte == digits[index - start]);
        if byte < 48 || byte > 57 {
            return None;
        }
        proof {
            let next = digits.take(index - start + 1);
            assert(next.drop_last() =~= digits.take(index - start));
            value_of_prefix(digits, index - start + 1);
            assert forall|i: int| 0 <= i < next.len() implies 48 <= #[trigger] next[i] <= 57 by {
                if i < next.len() - 1 {
                    assert(digits.take(index - start)[i] == next[i]);
                }
            }
        }
        let digit: u64 = (byte - 48) as u64;
        if value > (u64::MAX - digit) / 10 {
            return None;
        }
        value = value * 10 + digit;
        index += 1;
    }
    assert(digits.take(digits.len() as int) =~= digits);
    Some(value)
}

/// A numeral of a number is read back as the number, with or without a plus sign before it.
pub proof fn numerals_are_read_back(value: u64, width: nat)
    requires
        value < ten_to(width),
        width > 0,
    ensures
        parsed(decimal(value as nat, width)) == Some(value),
        parsed(seq![43u8] + decimal(value as nat, width)) == Some(value),
{
    decimal_denotes(value as nat, width);
    let digits = decimal(value as nat, width);
    assert((seq![43u8] + digits).skip(1) =~= digits);
    assert(48 <= digits[0] <= 57);
}

/// A text is a number only if it has a digit and, behind an optional plus sign, nothing else.
pub proof fn other_texts_are_no_numbers(text: Seq<u8>, at: int)
    requires
        text.len() == 0 || text == seq![43u8] || (0 <= at < text.len() && !(48 <= text[at] <= 57)
            && !(at == 0 && text[at] == 43)),
    ensures
        parsed(text) is None,
{
    let digits = unsigned_digits(text);
    if 0 <= at < text.len() && !(48 <= text[at] <= 57) && !(at == 0 && text[at] == 43) {
        if text[0] == 43 {
            assert(digits[at - 1] == text[at]);
        } else {
            assert(digits[at] == text[at]);
        }
    }
}

} // verus!
