use libstk1::report::{compare, decode_error_text, encode_error_text, mismatch_text};
use libstk1::{DecodeError, EncodeError};

#[test]
fn equal_buffers_compare_equal() {
    assert_eq!(compare(b"abc", b"abc"), Ok(()));
    assert_eq!(compare(b"", b""), Ok(()));
}

#[test]
fn compare_names_the_first_difference() {
    assert_eq!(
        compare(b"abcd", b"abXY"),
        Err(String::from("DECODE ERROR: expected 63 but 58 at 00000002"))
    );
    assert_eq!(
        compare(b"\x00", b"\xff"),
        Err(String::from("DECODE ERROR: expected 00 but ff at 00000000"))
    );
    assert_eq!(
        compare(b"abc", b"xb"),
        Err(String::from("DECODE ERROR: expected 61 but 78 at 00000000"))
    );
}

#[test]
fn compare_of_a_buffer_with_its_start() {
    assert_eq!(
        compare(b"abc", b"ab"),
        Err(String::from("DECODE ERROR: unknown match error"))
    );
    assert_eq!(
        compare(b"", b"a"),
        Err(String::from("DECODE ERROR: unknown match error"))
    );
}

#[test]
fn mismatch_text_is_what_format_gives() {
    let bytes: [u8; 6] = [0x00, 0x09, 0x0a, 0x10, 0x7f, 0xff];
    let places: [usize; 8] = [
        0,
        9,
        0xf,
        0x10,
        0x1234,
        0xfffffff,
        0x10000000,
        0xffffffff,
    ];
    for expected in bytes {
        for found in bytes {
            for index in places {
                assert_eq!(
                    mismatch_text(expected, found, index),
                    format!(
                        "DECODE ERROR: expected {:02x} but {:02x} at {:08x}",
                        expected, found, index
                    )
                );
            }
        }
    }
    assert_eq!(
        mismatch_text(0xab, 0xcd, 0x1234),
        "DECODE ERROR: expected ab but cd at 00001234"
    );
    assert_eq!(
        mismatch_text(1, 2, usize::MAX),
        format!("DECODE ERROR: expected 01 but 02 at {:08x}", usize::MAX)
    );
}

#[test]
fn error_texts_are_what_format_gives() {
    assert_eq!(
        encode_error_text(&EncodeError::InputTooLarge),
        format!("ENCODE ERROR: {:?}", EncodeError::InputTooLarge)
    );
    assert_eq!(
        decode_error_text(&DecodeError::InvalidData),
        format!("DECODE ERROR: {:?}", DecodeError::InvalidData)
    );
    assert_eq!(
        decode_error_text(&DecodeError::OutOfMemory),
        format!("DECODE ERROR: {:?}", DecodeError::OutOfMemory)
    );
    assert_eq!(
        decode_error_text(&DecodeError::InvalidData),
        "DECODE ERROR: InvalidData"
    );
}
