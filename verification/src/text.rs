//! Hexadecimal and decimal text.

use vstd::prelude::*;

verus! {

/// `String::push` appends one character at the end of the string.
pub assume_specification[ String::push ](text: &mut String, character: char)
    ensures
        final(text)@ == old(text)@.push(character),
;

/// The lowercase hexadecimal digit of a number below sixteen.
pub open spec fn digit(value: nat) -> char {
    if value == 0 {
        '0'
    } else if value == 1 {
        '1'
    } else if value == 2 {
        '2'
    } else if value == 3 {
        '3'
    } else if value == 4 {
        '4'
    } else if value == 5 {
        '5'
    } else if value == 6 {
        '6'
    } else if value == 7 {
        '7'
    } else if value == 8 {
        '8'
    } else if value == 9 {
        '9'
    } else if value == 10 {
        'a'
    } else if value == 11 {
        'b'
    } else if value == 12 {
        'c'
    } else if value == 13 {
        'd'
    } else if value == 14 {
        'e'
    } else {
        'f'
    }
}

/// Two hexadecimal digits for each byte, high digit first.
pub open spec fn hex(bytes: Seq<u8>) -> Seq<char>
    decreases bytes.len(),
{
    if bytes.len() == 0 {
        Seq::empty()
    } else {
        hex(bytes.drop_last()).push(digit((bytes.last() / 16) as nat)).push(
            digit((bytes.last() % 16) as nat),
        )
    }
}

/// The decimal digits of a number, without leading zeros.
pub open spec fn decimal(value: nat) -> Seq<char>
    decreases value,
{
    if value < 10 {
        seq![digit(value)]
    } else {
        decimal(value / 10).push(digit(value % 10))
    }
}

fn digit_of(value: u8) -> (character: char)
    requires
        value < 16,
    ensures
        character == digit(value as nat),
{
    match value {
        0 => '0',
        1 => '1',
        2 => '2',
        3 => '3',
        4 => '4',
        5 => '5',
        6 => '6',
        7 => '7',
        8 => '8',
        9 => '9',
        10 => 'a',
        11 => 'b',
        12 => 'c',
        13 => 'd',
        14 => 'e',
        _ => 'f',
    }
}

/// The bytes as lowercase hexadecimal text.
pub fn encode_hex(bytes: &[u8]) -> (text: String)
    ensures
        text@ == hex(bytes@),
{
    let mut text = String::new();
    let mut index: usize = 0;
    while index < bytes.len()
        invariant
            index <= bytes@.len(),
            text@ == hex(bytes@.take(index as int)),
        decreases bytes@.len() - index,
    {
        let byte = bytes[index];
        text.push(digit_of(byte / 16));
        text.push(digit_of(byte % 16));
        proof {
            assert(bytes@.take(index as int + 1).drop_last() =~= bytes@.take(index as int));
        }
        index += 1;
    }
    assert(bytes@.take(bytes@.len() as int) =~= bytes@);
    text
}

/// A number as decimal text.
pub fn encode_decimal(value: u64) -> (text: String)
    ensures
        text@ == decimal(value as nat),
    decreases value,
{
    if value < 10 {
        let mut text = String::new();
        text.push(digit_of(value as u8));
        assert(text@ =~= decimal(value as nat));
        text
    } else {
        let mut text = encode_decimal(value / 10);
        text.push(digit_of((value % 10) as u8));
        text
    }
}

/// The value of a decimal digit.
pub open spec fn digit_value(character: char) -> nat {
    (character as u32 - '0' as u32) as nat
}

/// Whether a character is a decimal digit.
pub open spec fn is_digit(character: char) -> bool {
    '0' as u32 <= character as u32 <= '9' as u32
}

/// Whether text is one or more decimal digits.
pub open spec fn is_number(text: Seq<char>) -> bool {
    text.len() > 0 && forall|i: int| 0 <= i < text.len() ==> is_digit(#[trigger] text[i])
}

/// The number that decimal digits spell.
pub open spec fn number(text: Seq<char>) -> nat
    decreases text.len(),
{
    if text.len() == 0 {
        0
    } else {
        10 * number(text.drop_last()) + digit_value(text.last())
    }
}

/// Decimal text spells the number that it was made from.
pub proof fn law_decimal_round_trip(value: nat)
    ensures
        is_number(decimal(value)),
        number(decimal(value)) == value,
    decreases value,
{
    reveal_with_fuel(number, 2);
    if value >= 10 {
        law_decimal_round_trip(value / 10);
        let text = decimal(value);
        assert(text.drop_last() =~= decimal(value / 10));
        assert forall|i: int| 0 <= i < text.len() implies is_digit(#[trigger] text[i]) by {
            if i < text.len() - 1 {
                assert(text[i] == decimal(value / 10)[i]);
            }
        }
    } else {
        assert(decimal(value).drop_last() =~= Seq::<char>::empty());
    }
}

/// Distinct numbers below sixteen have distinct digits, and those below ten the
/// decimal ones.
pub proof fn law_digits_are_distinct(left: nat, right: nat)
    requires
        left < 16,
        right < 16,
    ensures
        digit(left) == digit(right) ==> left == right,
        left < 10 ==> is_digit(digit(left)) && digit_value(digit(left)) == left,
        left >= 10 ==> digit(left) as u32 == 'a' as u32 + (left - 10),
{
}

/// The text of bytes has two digits for each of them, in order: that of the upper
/// half, then that of the lower half.
pub proof fn law_hex_spells_each_byte(bytes: Seq<u8>, index: int)
    requires
        0 <= index < bytes.len(),
    ensures
        hex(bytes).len() == 2 * bytes.len(),
        hex(bytes)[2 * index] == digit((bytes[index] / 16) as nat),
        hex(bytes)[2 * index + 1] == digit((bytes[index] % 16) as nat),
    decreases bytes.len(),
{
    lemma_hex_len(bytes);
    lemma_hex_len(bytes.drop_last());
    if index < bytes.len() - 1 {
        law_hex_spells_each_byte(bytes.drop_last(), index);
    }
}

proof fn lemma_hex_len(bytes: Seq<u8>)
    ensures
        hex(bytes).len() == 2 * bytes.len(),
    decreases bytes.len(),
{
    if bytes.len() > 0 {
        lemma_hex_len(bytes.drop_last());
    }
}

/// Only the same bytes have the same text.
pub proof fn law_hex_tells_bytes_apart(left: Seq<u8>, right: Seq<u8>)
    requires
        hex(left) == hex(right),
    ensures
        left == right,
{
    lemma_hex_len(left);
    lemma_hex_len(right);
    assert forall|i: int| 0 <= i < left.len() implies left[i] == right[i] by {
        law_hex_spells_each_byte(left, i);
        law_hex_spells_each_byte(right, i);
        law_digits_are_distinct((left[i] / 16) as nat, (right[i] / 16) as nat);
        law_digits_are_distinct((left[i] % 16) as nat, (right[i] % 16) as nat);
        assert(left[i] == left[i] / 16 * 16 + left[i] % 16);
    }
    assert(left =~= right);
}

/// Decimal text has no leading zero.
pub proof fn law_decimals_are_plain(value: nat)
    requires
        value > 0,
    ensures
        decimal(value)[0] != '0',
    decreases value,
{
    if value >= 10 {
        law_decimals_are_plain(value / 10);
        law_decimal_round_trip(value / 10);
    }
}

} // verus!
