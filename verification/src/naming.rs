//! How segments are named on disk: a segment's file bears its generation
//! number in decimal digits.

use vstd::prelude::*;
use vstd::string::{StringExecFns, StringSliceAdditionalSpecFns};
use vstd::utf8::{encode_utf8, is_ascii_chars, is_ascii_chars_encode_utf8};

verus! {

/// `b` is an ASCII digit.
pub open spec fn is_digit(b: u8) -> bool {
    48 <= b <= 57
}

/// The number that the ASCII digits `digits` spell in base ten.
pub open spec fn decimal_value(digits: Seq<u8>) -> nat
    decreases digits.len(),
{
    if digits.len() == 0 {
        0
    } else {
        decimal_value(digits.drop_last()) * 10 + (digits.last() - 48) as nat
    }
}

/// The digits of a segment's file name: the name without a leading `+`.
pub open spec fn name_digits(name: Seq<u8>) -> Seq<u8> {
    if name.len() > 0 && name[0] == 43 {
        name.drop_first()
    } else {
        name
    }
}

/// The generation number that a file name stands for: the name is one or
/// more ASCII digits, with or without a `+` before them, and spells a
/// number that a `usize` holds. Any other name stands for none.
pub open spec fn segment_id_of(name: Seq<u8>) -> Option<usize> {
    let digits = name_digits(name);
    if digits.len() > 0 && (forall|i: int| 0 <= i < digits.len() ==> is_digit(#[trigger] digits[i]))
        && decimal_value(digits) <= usize::MAX {
        Some(decimal_value(digits) as usize)
    } else {
        None
    }
}

/// The digits read so far never spell more than all the digits do.
proof fn lemma_decimal_value_grows(digits: Seq<u8>, n: int)
    requires
        0 <= n <= digits.len(),
        forall|i: int| 0 <= i < digits.len() ==> is_digit(#[trigger] digits[i]),
    ensures
        decimal_value(digits.take(n)) <= decimal_value(digits),
    decreases digits.len() - n,
{
    if n == digits.len() {
        assert(digits.take(n) =~= digits);
    } else {
        lemma_decimal_value_grows(digits, n + 1);
        assert(digits.take(n + 1).drop_last() =~= digits.take(n));
    }
}

/// Reads the generation number out of a segment's file name.
pub fn get_segment_id_from_path(name: &str) -> (r: Result<usize, ()>)
    ensures
        match r {
            Ok(id) => segment_id_of(name.spec_bytes()) == Some(id),
            Err(_) => segment_id_of(name.spec_bytes()) is None,
        },
{
    let bytes = name.as_bytes();
    let start: usize = if bytes.len() > 0 && bytes[0] == 43 {
        1
    } else {
        0
    };
    let ghost digits = name_digits(bytes@);
    if start == bytes.len() {
        return Err(());
    }
    let mut value: usize = 0;
    let mut i: usize = start;
    while i < bytes.len()
        invariant
            start <= i <= bytes.len(),
            start < bytes.len(),
            digits == name_digits(name.spec_bytes()),
            digits == bytes@.skip(start as int),
            forall|j: int| 0 <= j < i - start ==> is_digit(#[trigger] digits[j]),
            value == decimal_value(digits.take(i - start)),
        decreases bytes.len() - i,
    {
        let b: u8 = bytes[i];
        assert(digits[i - start] == b);
        if b < 48 || b > 57 {
            return Err(());
        }
        let d: usize = (b - 48) as usize;
        assert(digits.take(i - start + 1).drop_last() =~= digits.take(i - start));
        if value > (usize::MAX - d) / 10 {
            proof {
                if forall|j: int| 0 <= j < digits.len() ==> is_digit(#[trigger] digits[j]) {
                    lemma_decimal_value_grows(digits, i - start + 1);
                }
            }
            return Err(());
        }
        value = value * 10 + d;
        i += 1;
    }
    assert(digits.take(i - start) =~= digits);
    Ok(value)
}

/// The character of the decimal digit `d`.
pub open spec fn digit_char(d: nat) -> char {
    if d == 0 {
        '0'
    } else if d == 1 {
        '1'
    } else if d == 2 {
        '2'
    } else if d == 3 {
        '3'
    } else if d == 4 {
        '4'
    } else if d == 5 {
        '5'
    } else if d == 6 {
        '6'
    } else if d == 7 {
        '7'
    } else if d == 8 {
        '8'
    } else {
        '9'
    }
}

/// The decimal digits of `n`, without leading zeros.
pub open spec fn decimal_text(n: nat) -> Seq<char>
    decreases n,
{
    if n < 10 {
        seq![digit_char(n)]
    } else {
        decimal_text(n / 10).push(digit_char(n % 10))
    }
}

/// The name of a segment's file is read back as the segment's generation
/// number.
pub proof fn lemma_file_name_round_trip(id: usize)
    ensures
        segment_id_of(encode_utf8(decimal_text(id as nat))) == Some(id),
{
    lemma_decimal_text_value(id as nat);
}

/// The bytes of the decimal digits of `n` are ASCII digits that spell `n`,
/// and there is at least one.
proof fn lemma_decimal_text_value(n: nat)
    ensures
        encode_utf8(decimal_text(n)).len() == decimal_text(n).len(),
        decimal_text(n).len() > 0,
        is_ascii_chars(decimal_text(n)),
        forall|i: int|
            0 <= i < decimal_text(n).len() ==> is_digit(#[trigger] encode_utf8(decimal_text(n))[i]),
        decimal_value(encode_utf8(decimal_text(n))) == n,
    decreases n,
{
    let text = decimal_text(n);
    if n < 10 {
        is_ascii_chars_encode_utf8(text);
        let bytes = encode_utf8(text);
        assert(bytes.drop_last() =~= Seq::<u8>::empty());
        assert(decimal_value(bytes.drop_last()) == 0);
    } else {
        let front = decimal_text(n / 10);
        lemma_decimal_text_value(n / 10);
        is_ascii_chars_encode_utf8(front);
        assert forall|i: int| 0 <= i < text.len() implies '\0' <= #[trigger] text[i] <= '\u{7f}' by {
            if i < front.len() {
                assert(text[i] == front[i]);
            }
        }
        is_ascii_chars_encode_utf8(text);
        let bytes = encode_utf8(text);
        assert(bytes.drop_last() =~= encode_utf8(front)) by {
            assert forall|i: int| 0 <= i < front.len() implies bytes[i] == encode_utf8(front)[i] by {
                assert(text[i] == front[i]);
            }
        }
        assert(bytes.last() == text[text.len() - 1] as u8);
    }
}

/// The text of one decimal digit.
fn digit_text(d: usize) -> (text: &'static str)
    requires
        d < 10,
    ensures
        text@ == seq![digit_char(d as nat)],
{
    proof {
        reveal_strlit("0");
        reveal_strlit("1");
        reveal_strlit("2");
        reveal_strlit("3");
        reveal_strlit("4");
        reveal_strlit("5");
        reveal_strlit("6");
        reveal_strlit("7");
        reveal_strlit("8");
        reveal_strlit("9");
    }
    let text = if d == 0 {
        "0"
    } else if d == 1 {
        "1"
    } else if d == 2 {
        "2"
    } else if d == 3 {
        "3"
    } else if d == 4 {
        "4"
    } else if d == 5 {
        "5"
    } else if d == 6 {
        "6"
    } else if d == 7 {
        "7"
    } else if d == 8 {
        "8"
    } else {
        "9"
    };
    assert(text@ =~= seq![digit_char(d as nat)]);
    text
}

/// Writes the decimal digits of `n` behind `text`.
fn push_decimal(text: &mut String, n: usize)
    ensures
        final(text)@ == old(text)@ + decimal_text(n as nat),
    decreases n,
{
    if n >= 10 {
        push_decimal(text, n / 10);
    }
    text.append(digit_text(n % 10));
    proof {
        if n >= 10 {
            assert(old(text)@ + decimal_text((n / 10) as nat) + seq![digit_char((n % 10) as nat)]
                =~= old(text)@ + decimal_text(n as nat));
        }
    }
}

/// The name of the file of the segment with the generation number `id`:
/// the number in decimal digits.
pub fn segment_file_name(id: usize) -> (name: String)
    ensures
        name@ == decimal_text(id as nat),
{
    let mut name = String::new();
    push_decimal(&mut name, id);
    assert(Seq::<char>::empty() + decimal_text(id as nat) =~= decimal_text(id as nat));
    name
}

} // verus!
