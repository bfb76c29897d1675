use libstk1::S7s;

fn written(value: usize) -> Vec<u8> {
    let mut vec = Vec::new();
    S7s::write(&mut vec, value);
    vec
}

#[test]
fn scaled_value() {
    for scale in 1..=32 {
        for source in [
            0, 0x55555555, 0xaaaaaaaa, 1234578, 87654321, 0xEDB88320, 0x04C11DB7, 0xFFFFFFFF,
        ] {
            let mask = 1usize.wrapping_shl(scale).wrapping_sub(1);
            let value = source & mask;

            let mut vec = Vec::new();
            S7s::write(&mut vec, value);

            let mut iter = vec.iter();
            let decoded = S7s::read(&mut iter).unwrap();

            assert_eq!(value, decoded);
        }
    }
}

#[test]
fn s7s_lengths_and_round_trip() {
    let values: [usize; 9] = [0, 1, 127, 128, 16383, 16384, 2097151, 2097152, 0xFFFFFFFF];
    let lengths: [usize; 9] = [1, 1, 1, 2, 2, 3, 3, 4, 5];
    for (value, length) in values.iter().zip(lengths.iter()) {
        let bytes = written(*value);
        assert_eq!(bytes.len(), *length);
        let mut iter = bytes.iter();
        assert_eq!(S7s::read(&mut iter), Some(*value));
        assert_eq!(iter.next(), None);
    }
}

#[test]
fn s7s_exact_bytes() {
    assert_eq!(written(0), vec![0x01]);
    assert_eq!(written(1), vec![0x03]);
    assert_eq!(written(127), vec![0xFF]);
    assert_eq!(written(128), vec![0x02, 0x01]);
    assert_eq!(written(255), vec![0x02, 0xFF]);
    assert_eq!(written(9998), vec![0x9C, 0x1D]);
    assert_eq!(written(16384), vec![0x02, 0x00, 0x01]);
    assert_eq!(written(0xFFFFFFFF), vec![0x1E, 0xFE, 0xFE, 0xFE, 0xFF]);
}

#[test]
fn s7s_write_appends() {
    let mut vec = vec![0xAA, 0xBB];
    S7s::write(&mut vec, 300);
    assert_eq!(vec, vec![0xAA, 0xBB, 0x04, 0x59]);
}

#[test]
fn s7s_all_bits_but_one_round_trip() {
    let value = usize::MAX / 2;
    let bytes = written(value);
    let mut iter = bytes.iter();
    assert_eq!(S7s::read(&mut iter), Some(value));
}

#[test]
fn s7s_full_width_values_round_trip() {
    for value in [
        usize::MAX / 2 + 1,
        usize::MAX / 2 + 2,
        usize::MAX - 128,
        usize::MAX - 1,
        usize::MAX,
    ] {
        let bytes = written(value);
        let mut iter = bytes.iter();
        assert_eq!(S7s::read(&mut iter), Some(value));
        assert_eq!(iter.next(), None);
    }
}

#[test]
fn s7s_every_bit_round_trips() {
    for bit in 0..usize::BITS {
        for value in [1usize << bit, (1usize << bit) - 1, usize::MAX >> bit] {
            let bytes = written(value);
            let mut iter = bytes.iter();
            assert_eq!(S7s::read(&mut iter), Some(value));
            assert_eq!(iter.next(), None);
        }
    }
}

#[test]
fn s7s_over_long_code_gives_the_low_bits() {
    let mut bytes = vec![0x02];
    bytes.extend_from_slice(&[0x00; 9]);
    bytes.push(0x0B);
    let mut iter = bytes.iter();
    assert_eq!(S7s::read(&mut iter), Some(5));
    assert_eq!(iter.next(), None);

    let mut bytes = vec![0xFE; 30];
    bytes.push(0xFF);
    let mut iter = bytes.iter();
    assert_eq!(S7s::read(&mut iter), Some(usize::MAX));
}

#[test]
fn s7s_seed_with_all_bits_set_is_finished() {
    let bytes = vec![0x55];
    let mut iter = bytes.iter();
    assert_eq!(S7s::read_with_acc(&mut iter, usize::MAX), Some(usize::MAX / 2));
    assert_eq!(iter.next(), Some(&0x55));
}

#[test]
fn s7s_wide_seed_is_read_on() {
    let bytes = vec![0xFF];
    let mut iter = bytes.iter();
    assert_eq!(
        S7s::read_with_acc(&mut iter, usize::MAX - 1),
        Some((usize::MAX / 2) << 7 | 0x7F)
    );
}

#[test]
fn s7s_full_word_takes_ten_bytes() {
    let bytes = written(u64::MAX as usize);
    assert_eq!(bytes.len(), 10);
    assert_eq!(bytes[0], 0x02);
    assert_eq!(bytes[9], 0xFF);
}

#[test]
fn s7s_read_leaves_the_rest() {
    let bytes = vec![0x02, 0x01, 0x77, 0x88];
    let mut iter = bytes.iter();
    assert_eq!(S7s::read(&mut iter), Some(128));
    assert_eq!(iter.next(), Some(&0x77));
}

#[test]
fn s7s_read_without_terminator() {
    let bytes = vec![0x02, 0x04, 0x06];
    let mut iter = bytes.iter();
    assert_eq!(S7s::read(&mut iter), None);
    assert_eq!(iter.next(), None);
}

#[test]
fn s7s_read_of_nothing() {
    let bytes: Vec<u8> = Vec::new();
    let mut iter = bytes.iter();
    assert_eq!(S7s::read(&mut iter), None);
}

#[test]
fn s7s_read_with_finished_accumulator() {
    let bytes = vec![0x55];
    let mut iter = bytes.iter();
    assert_eq!(S7s::read_with_acc(&mut iter, 7), Some(3));
    assert_eq!(iter.next(), Some(&0x55));
}

#[test]
fn s7s_read_with_seeded_accumulator() {
    let bytes = vec![0xFF, 0x10];
    let mut iter = bytes.iter();
    assert_eq!(S7s::read_with_acc(&mut iter, 2), Some(0xFF));
    assert_eq!(iter.next(), Some(&0x10));
}

#[test]
fn s7s_non_minimal_code_is_read() {
    let bytes = vec![0x00, 0x00, 0x0B];
    let mut iter = bytes.iter();
    assert_eq!(S7s::read(&mut iter), Some(5));
}
