//! Errors put into words.

use crate::{DecodeError, EncodeError};
use vstd::prelude::*;
use vstd::string::StringExecFns;

verus! {

/// The hexadecimal digit for `n`, in lower case.
pub open spec fn hex_char(n: nat) -> char {
    if n == 0 {
        '0'
    } else if n == 1 {
        '1'
    } else if n == 2 {
        '2'
    } else if n == 3 {
        '3'
    } else if n == 4 {
        '4'
    } else if n == 5 {
        '5'
    } else if n == 6 {
        '6'
    } else if n == 7 {
        '7'
    } else if n == 8 {
        '8'
    } else if n == 9 {
        '9'
    } else if n == 10 {
        'a'
    } else if n == 11 {
        'b'
    } else if n == 12 {
        'c'
    } else if n == 13 {
        'd'
    } else if n == 14 {
        'e'
    } else {
        'f'
    }
}

/// `value` in hexadecimal, with zeros in front where it has fewer than
/// `width` digits.
pub open spec fn hex_digits(value: nat, width: nat) -> Seq<char>
    decreases value, width,
{
    if value < 16 && width <= 1 {
        seq![hex_char(value)]
    } else {
        hex_digits(
            value / 16,
            if width > 0 {
                (width - 1) as nat
            } else {
                0
            },
        ).push(hex_char(value % 16))
    }
}

/// The words for an encoder error.
pub open spec fn encode_error_words(error: EncodeError) -> Seq<char> {
    match error {
        EncodeError::InputTooLarge => "ENCODE ERROR: InputTooLarge"@,
    }
}

/// The words for a decoder error.
pub open spec fn decode_error_words(error: DecodeError) -> Seq<char> {
    match error {
        DecodeError::InvalidData => "DECODE ERROR: InvalidData"@,
        DecodeError::OutOfMemory => "DECODE ERROR: OutOfMemory"@,
    }
}

/// The words for a decoded byte `found` at `index` where `expected` was
/// encoded: both bytes in two hexadecimal digits, the position in eight.
pub open spec fn mismatch_words(expected: u8, found: u8, index: nat) -> Seq<char> {
    "DECODE ERROR: expected "@ + hex_digits(expected as nat, 2) + " but "@ + hex_digits(
        found as nat,
        2,
    ) + " at "@ + hex_digits(index, 8)
}

/// The words for two buffers that differ though no byte of one differs
/// from the byte of the other at its place.
pub open spec fn unknown_mismatch_words() -> Seq<char> {
    "DECODE ERROR: unknown match error"@
}

/// The first place from `from` on at which both `a` and `b` have a byte
/// and the bytes differ.
pub open spec fn first_difference(a: Seq<u8>, b: Seq<u8>, from: int) -> Option<int>
    decreases a.len() - from,
{
    if from < 0 || from >= a.len() || from >= b.len() {
        None
    } else if a[from] != b[from] {
        Some(from)
    } else {
        first_difference(a, b, from + 1)
    }
}

/// Buffers are equal just where they are as long as each other and no
/// byte differs.
pub proof fn lemma_first_difference(a: Seq<u8>, b: Seq<u8>, from: int)
    requires
        0 <= from,
        forall|i: int| 0 <= i < from && i < a.len() && i < b.len() ==> a[i] == b[i],
    ensures
        a == b <==> a.len() == b.len() && first_difference(a, b, from) is None,
        first_difference(a, b, from) matches Some(i) ==> from <= i < a.len() && i < b.len() && a[i]
            != b[i],
    decreases a.len() - from,
{
    if from >= a.len() || from >= b.len() {
        if a.len() == b.len() {
            assert(a =~= b);
        }
    } else if a[from] == b[from] {
        lemma_first_difference(a, b, from + 1);
    }
}

/// The hexadecimal digit for `n`, as a string.
fn hex_digit(n: u8) -> (r: &'static str)
    requires
        n < 16,
    ensures
        r@ == seq![hex_char(n as nat)],
{
    proof {
        reveal_strlit("0");
        reveal_strlit("1");
        reveal_strlit("2");
        reveal_strlit("3");
        reveal_strlit("4");
        reveal_strlit("5");
        reveal_strlit("6");
        reveal_strlit("7");
        reveal_strlit("8");
        reveal_strlit("9");
        reveal_strlit("a");
        reveal_strlit("b");
        reveal_strlit("c");
        reveal_strlit("d");
        reveal_strlit("e");
        reveal_strlit("f");
    }
    let r = match n {
        0 => "0",
        1 => "1",
        2 => "2",
        3 => "3",
        4 => "4",
        5 => "5",
        6 => "6",
        7 => "7",
        8 => "8",
        9 => "9",
        10 => "a",
        11 => "b",
        12 => "c",
        13 => "d",
        14 => "e",
        _ => "f",
    };
    assert(r@ =~= seq![hex_char(n as nat)]);
    r
}

/// Appends `value` in hexadecimal, in at least `width` digits.
fn push_hex(text: &mut String, value: usize, width: usize)
    ensures
        final(text)@ == old(text)@ + hex_digits(value as nat, width as nat),
    decreases value, width,
{
    if value >= 16 || width > 1 {
        let less = if width > 0 {
            width - 1
        } else {
            0
        };
        push_hex(text, value / 16, less);
    }
    text.append(hex_digit((value % 16) as u8));
    assert(text@ =~= old(text)@ + hex_digits(value as nat, width as nat));
}

/// The words for an encoder error.
pub fn encode_error_text(error: &EncodeError) -> (r: String)
    ensures
        r@ == encode_error_words(*error),
{
    match error {
        EncodeError::InputTooLarge => "ENCODE ERROR: InputTooLarge".to_owned(),
    }
}

/// The words for a decoder error.
pub fn decode_error_text(error: &DecodeError) -> (r: String)
    ensures
        r@ == decode_error_words(*error),
{
    match error {
        DecodeError::InvalidData => "DECODE ERROR: InvalidData".to_owned(),
        DecodeError::OutOfMemory => "DECODE ERROR: OutOfMemory".to_owned(),
    }
}

/// The words for a decoded byte that differs from the byte that was
/// encoded.
pub fn mismatch_text(expected: u8, found: u8, index: usize) -> (r: String)
    ensures
        r@ == mismatch_words(expected, found, index as nat),
{
    let mut text = "DECODE ERROR: expected ".to_owned();
    push_hex(&mut text, expected as usize, 2);
    text.append(" but ");
    push_hex(&mut text, found as usize, 2);
    text.append(" at ");
    push_hex(&mut text, index, 8);
    text
}

/// Compares what was decoded with what was encoded.  Where the buffers
/// differ, the error names the first byte that differs, or says that none
/// does where one buffer is the start of the other.
pub fn compare(expected: &[u8], decoded: &[u8]) -> (r: Result<(), String>)
    ensures
        r is Ok <==> expected@ == decoded@,
        r matches Err(text) ==> text@ == match first_difference(expected@, decoded@, 0) {
            Some(i) => mismatch_words(expected@[i], decoded@[i], i as nat),
            None => unknown_mismatch_words(),
        },
{
    proof {
        lemma_first_difference(expected@, decoded@, 0);
    }
    let mut index: usize = 0;
    while index < expected.len() && index < decoded.len()
        invariant
            first_difference(expected@, decoded@, index as int) == first_difference(
                expected@,
                decoded@,
                0,
            ),
        decreases expected@.len() - index,
    {
        if expected[index] != decoded[index] {
            return Err(mismatch_text(expected[index], decoded[index], index));
        }
        index += 1;
    }
    if expected.len() != decoded.len() {
        return Err("DECODE ERROR: unknown match error".to_owned());
    }
    Ok(())
}

} // verus!
