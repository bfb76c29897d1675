use libstk1::{Configuration, DecodeError, S7s, Stk1};

fn round_trip(input: &[u8], config: Configuration) -> Vec<u8> {
    let encoded = Stk1::encode(input, config).unwrap();
    let mut decoded = vec![0u8; input.len()];
    Stk1::decode(&encoded, &mut decoded).unwrap();
    assert_eq!(decoded, input);
    assert_eq!(Stk1::decode_to_vec(&encoded, input.len()).unwrap(), input);
    encoded
}

fn noise(len: usize) -> Vec<u8> {
    let mut state: u64 = 0x2545_F491_4F6C_DD1D;
    let mut bytes = Vec::with_capacity(len);
    for _ in 0..len {
        state ^= state << 13;
        state ^= state >> 7;
        state ^= state << 17;
        bytes.push((state >> 32) as u8);
    }
    bytes
}

#[test]
fn empty_input_gives_no_output() {
    let encoded = Stk1::encode(&[], Configuration::default()).unwrap();
    assert!(encoded.is_empty());
    let mut output: [u8; 0] = [];
    assert!(Stk1::decode(&encoded, &mut output).is_ok());
    assert_eq!(Stk1::decode_to_vec(&[], 0).unwrap(), Vec::<u8>::new());
}

#[test]
fn decode_of_nothing_wanted_ignores_the_stream() {
    let mut output: [u8; 0] = [];
    assert!(Stk1::decode(&[0x00, 0x00], &mut output).is_ok());
}

#[test]
fn one_byte_is_one_literal_block() {
    assert_eq!(round_trip(b"a", Configuration::default()), vec![0x01, 0x01, b'a']);
}

#[test]
fn two_equal_bytes_are_literals() {
    assert_eq!(round_trip(b"aa", Configuration::default()), vec![0x02, 0x01, b'a', b'a']);
}

#[test]
fn three_bytes_are_one_literal_block() {
    assert_eq!(round_trip(b"abc", Configuration::default()), vec![0x03, 0x01, b'a', b'b', b'c']);
}

#[test]
fn three_equal_bytes_use_the_short_distance() {
    assert_eq!(round_trip(b"aaa", Configuration::default()), vec![0x11, b'a', 0x11]);
}

#[test]
fn hello_is_literals_only() {
    let encoded = round_trip(b"hello", Configuration::default());
    assert!(encoded.len() <= 7);
    assert_eq!(encoded, vec![0x05, 0x01, b'h', b'e', b'l', b'l', b'o']);
}

#[test]
fn long_literal_run_uses_the_long_count() {
    let input: Vec<u8> = (0u8..20).collect();
    let encoded = round_trip(&input, Configuration::default());
    let mut expected = vec![0x00, 0x29, 0x01];
    expected.extend_from_slice(&input);
    assert_eq!(encoded, expected);
}

#[test]
fn repeated_byte_is_one_match_at_distance_one() {
    let input = vec![0x41u8; 1024];
    let encoded = round_trip(&input, Configuration::default());
    assert!(encoded.len() < 20);
    assert_eq!(encoded, vec![0x11, 0x41, 0x01, 0x0E, 0xFD]);
}

#[test]
fn ten_thousand_equal_bytes() {
    let input = vec![0x41u8; 10_000];
    let encoded = round_trip(&input, Configuration::default());
    assert_eq!(encoded, vec![0x11, 0x41, 0x01, 0x9C, 0x1D]);
}

#[test]
fn match_length_is_capped() {
    let input = vec![0x41u8; 0x4000 + 0x4000 + 1];
    let encoded = round_trip(&input, Configuration::tiny());
    assert_eq!(
        encoded,
        vec![0x21, 0x41, 0x01, 0xFE, 0xFF, 0x01, 0xFE, 0xFF]
    );
}

#[test]
fn second_half_is_one_long_match() {
    let mut input: Vec<u8> = (0..=255u8).collect();
    input.extend(0..=255u8);
    let encoded = round_trip(&input, Configuration::default());
    let mut expected = vec![0x10, 0x04, 0x01];
    expected.extend(0..=255u8);
    expected.extend_from_slice(&[0x02, 0xFF, 0x02, 0xFF]);
    assert_eq!(encoded, expected);
}

#[test]
fn abc_repeated_matches_at_distance_three() {
    let encoded = round_trip(b"abcabcabcabc", Configuration::default());
    assert_eq!(encoded, vec![0x13, b'a', b'b', b'c', 0x85]);
}

#[test]
fn literal_after_matches_starts_a_new_block() {
    let encoded = round_trip(b"aaaab", Configuration::default());
    assert_eq!(encoded, vec![0x11, b'a', 0x21, 0x01, 0x01, b'b']);
}

#[test]
fn distance_of_three_bytes_round_trips() {
    let block = noise(0x500);
    let mut input = block.clone();
    input.extend_from_slice(&block);
    let encoded = round_trip(&input, Configuration::default());
    assert!(encoded.len() < block.len() + 64);
}

#[test]
fn distance_with_the_seventh_bit_round_trips() {
    let block = noise(0x441);
    let mut input = block.clone();
    input.extend_from_slice(&block);
    let encoded = round_trip(&input, Configuration::default());
    let tail = &encoded[encoded.len() - 5..];
    assert_eq!(tail, &[0x00, 0x10, 0x81, 0x10, 0x81][..]);
}

#[test]
fn widest_distance_round_trips() {
    let block = noise(0x20000);
    let mut input = block.clone();
    input.extend_from_slice(&block[..100]);
    let encoded = round_trip(&input, Configuration::default());
    assert!(encoded.len() < block.len() + 64);
    let wider = noise(0x20001);
    let mut input = wider.clone();
    input.extend_from_slice(&wider[..100]);
    round_trip(&input, Configuration::max());
}

#[test]
fn noise_round_trips_with_either_dictionary() {
    let input = noise(64 * 1024);
    let tiny = round_trip(&input, Configuration::tiny());
    let default = round_trip(&input, Configuration::default());
    assert!(tiny.len() >= default.len());
}

#[test]
fn text_round_trips_with_every_dictionary() {
    let mut input = Vec::new();
    for i in 0..2000u32 {
        input.extend_from_slice(b"the quick brown fox ");
        input.extend_from_slice(format!("{}", i % 37).as_bytes());
        input.extend_from_slice(b" jumps over the lazy dog\n");
    }
    let tiny = round_trip(&input, Configuration::tiny());
    let default = round_trip(&input, Configuration::default());
    let max = round_trip(&input, Configuration::max());
    assert!(tiny.len() < input.len() / 2);
    assert!(default.len() < input.len() / 2);
    assert!(max.len() < input.len() / 2);
}

#[test]
fn many_small_inputs_round_trip() {
    let mut state: u32 = 12345;
    for round in 0..400usize {
        let len = round % 97;
        let letters = 2 + round % 3;
        let mut input = Vec::with_capacity(len);
        for _ in 0..len {
            state = state.wrapping_mul(1664525).wrapping_add(1013904223);
            input.push(b'a' + ((state >> 24) as usize % letters) as u8);
        }
        let tiny = round_trip(&input, Configuration::tiny());
        let default = round_trip(&input, Configuration::default());
        let max = round_trip(&input, Configuration::max());
        assert_eq!(tiny, default);
        assert_eq!(default, max);
    }
}

#[test]
fn repeats_beyond_the_tiny_window_are_found_by_the_wider_one() {
    let block = noise(0x4100);
    let mut input = block.clone();
    input.extend_from_slice(&block);
    let tiny = round_trip(&input, Configuration::tiny());
    let default = round_trip(&input, Configuration::default());
    assert!(tiny.len() > input.len());
    assert!(default.len() < block.len() + 300);
}

#[test]
fn encode_with_test_gives_the_stream() {
    let input = noise(3000);
    let checked = Stk1::encode_with_test(&input, Configuration::default()).unwrap();
    let plain = Stk1::encode(&input, Configuration::default()).unwrap();
    assert_eq!(checked, plain);
    assert_eq!(
        Stk1::encode_with_test(b"abcabcabcabc", Configuration::tiny()).unwrap(),
        vec![0x13, b'a', b'b', b'c', 0x85]
    );
    assert_eq!(Stk1::encode_with_test(&[], Configuration::max()).unwrap(), Vec::<u8>::new());
}

#[test]
fn overlapping_match_repeats_what_it_wrote() {
    let stream = [0x12, b'a', b'b', 0x53];
    let mut output = [0u8; 8];
    Stk1::decode(&stream, &mut output).unwrap();
    assert_eq!(&output, b"abababab");
}

#[test]
fn match_at_distance_one_repeats_one_byte() {
    let stream = [0x11, b'x', 0x01, 0x27];
    let mut output = [0u8; 21];
    Stk1::decode(&stream, &mut output).unwrap();
    assert_eq!(output, [b'x'; 21]);
}

#[test]
fn last_match_is_cut_to_the_output() {
    let stream = [0x11, b'x', 0xF1];
    let mut output = [0u8; 5];
    Stk1::decode(&stream, &mut output).unwrap();
    assert_eq!(&output, b"xxxxx");
}

#[test]
fn length_of_a_full_word_is_cut_to_the_output() {
    let mut stream = vec![0x11, b'x', 0x01];
    S7s::write(&mut stream, usize::MAX);
    let mut output = [0u8; 5];
    Stk1::decode(&stream, &mut output).unwrap();
    assert_eq!(&output, b"xxxxx");
}

#[test]
fn distance_of_a_full_word_is_invalid() {
    let mut stream = vec![0x11, b'x', 0x10];
    S7s::write(&mut stream, usize::MAX);
    let mut output = [0u8; 5];
    assert_eq!(Stk1::decode(&stream, &mut output), Err(DecodeError::InvalidData));
    let mut stream = vec![0x11, b'x', 0x10];
    S7s::write(&mut stream, usize::MAX - 1);
    assert_eq!(Stk1::decode(&stream, &mut output), Err(DecodeError::InvalidData));
}

#[test]
fn literal_count_of_a_full_word_is_invalid() {
    let mut stream = vec![0x10];
    S7s::write(&mut stream, usize::MAX);
    stream.extend_from_slice(b"abcdef");
    let mut output = [0u8; 5];
    assert_eq!(Stk1::decode(&stream, &mut output), Err(DecodeError::InvalidData));
}

#[test]
fn match_count_of_a_full_word_wants_its_matches() {
    let mut stream = vec![0x01];
    S7s::write(&mut stream, usize::MAX);
    stream.extend_from_slice(&[b'x', 0x31]);
    let mut output = [0u8; 5];
    assert_eq!(Stk1::decode(&stream, &mut output), Err(DecodeError::InvalidData));
    let mut output = [0u8; 1];
    Stk1::decode(&stream, &mut output).unwrap();
    assert_eq!(&output, b"x");
}

#[test]
fn wider_window_can_give_the_longer_stream() {
    let mut input = noise(0x4400 + 64);
    let head = input[..4].to_vec();
    input.splice(0x4400..0x4400, head);
    let tiny = round_trip(&input, Configuration::tiny());
    let default = round_trip(&input, Configuration::default());
    assert_eq!(default.len(), tiny.len() + 1);
}

#[test]
fn stream_behind_the_last_literal_is_ignored() {
    let stream = [0x13, b'a', b'b', b'c', 0xFF, 0xFF];
    let mut output = [0u8; 3];
    Stk1::decode(&stream, &mut output).unwrap();
    assert_eq!(&output, b"abc");
}

#[test]
fn matches_behind_a_full_output_are_still_read() {
    let mut output = [0u8; 3];
    assert!(Stk1::decode(&[0x21, b'a', 0x11, 0x11], &mut output).is_ok());
    assert_eq!(&output, b"aaa");
    let mut output = [0u8; 3];
    assert_eq!(
        Stk1::decode(&[0x21, b'a', 0x11], &mut output),
        Err(DecodeError::InvalidData)
    );
}

#[test]
fn block_of_no_literals_is_read() {
    let stream = [0x11, b'a', 0x10, 0x01, 0x11];
    let mut output = [0u8; 3];
    Stk1::decode(&stream, &mut output).unwrap();
    assert_eq!(&output, b"aaa");
}

#[test]
fn empty_stream_for_wanted_bytes_is_invalid() {
    let mut output = [0u8; 4];
    assert_eq!(Stk1::decode(&[], &mut output), Err(DecodeError::InvalidData));
    assert_eq!(Stk1::decode_to_vec(&[], 4), Err(DecodeError::InvalidData));
}

#[test]
fn distance_beyond_the_output_is_invalid() {
    let stream = [0x11, b'a', 0x13];
    let mut output = [0u8; 3];
    assert_eq!(Stk1::decode(&stream, &mut output), Err(DecodeError::InvalidData));
    assert_eq!(Stk1::decode_to_vec(&stream, 3), Err(DecodeError::InvalidData));
}

#[test]
fn endless_s7s_is_invalid() {
    let mut output = [0u8; 4];
    assert_eq!(
        Stk1::decode(&[0x00, 0x00, 0x00, 0x00], &mut output),
        Err(DecodeError::InvalidData)
    );
    assert_eq!(
        Stk1::decode(&[0x11, b'a', 0x00, 0x00], &mut output),
        Err(DecodeError::InvalidData)
    );
    assert_eq!(
        Stk1::decode(&[0x11, b'a', 0x01, 0x00], &mut output),
        Err(DecodeError::InvalidData)
    );
}

#[test]
fn truncated_literals_are_invalid() {
    let mut output = [0u8; 4];
    assert_eq!(
        Stk1::decode(&[0x04, 0x01, b'a', b'b'], &mut output),
        Err(DecodeError::InvalidData)
    );
    let mut output = [0u8; 2];
    assert_eq!(
        Stk1::decode(&[0x04, 0x01, b'a', b'b'], &mut output),
        Err(DecodeError::InvalidData)
    );
}

#[test]
fn literals_beyond_the_output_are_invalid() {
    let mut output = [0u8; 2];
    assert_eq!(
        Stk1::decode(&[0x03, 0x01, b'a', b'b', b'c'], &mut output),
        Err(DecodeError::InvalidData)
    );
}

#[test]
fn missing_match_is_invalid() {
    let mut output = [0u8; 4];
    assert_eq!(Stk1::decode(&[0x11, b'a'], &mut output), Err(DecodeError::InvalidData));
    assert_eq!(Stk1::decode(&[0x01, 0x01, b'a'], &mut output), Err(DecodeError::InvalidData));
}

#[test]
fn buffer_that_cannot_be_had_is_out_of_memory() {
    assert_eq!(Stk1::decode_to_vec(&[], usize::MAX), Err(DecodeError::OutOfMemory));
    let refused = Vec::<u8>::new().try_reserve_exact(usize::MAX);
    assert!(refused.is_err());
    assert_eq!(
        Stk1::decode_reserved(&[0x01, 0x01, b'a'], 1, Vec::new(), refused),
        Err(DecodeError::OutOfMemory)
    );
}

#[test]
fn reserved_buffer_is_decoded_into() {
    assert_eq!(
        Stk1::decode_reserved(&[0x01, 0x01, b'a'], 1, Vec::new(), Ok(())),
        Ok(vec![b'a'])
    );
    assert_eq!(
        Stk1::decode_reserved(&[0x01, 0x01, b'a'], 1, vec![9, 9, 9], Ok(())),
        Ok(vec![b'a'])
    );
    assert_eq!(
        Stk1::decode_reserved(&[], 1, Vec::new(), Ok(())),
        Err(DecodeError::InvalidData)
    );
}

#[test]
fn configurations() {
    assert_eq!(Configuration::tiny().max_distance(), 0x4000);
    assert_eq!(Configuration::tiny().max_len(), 0x4000);
    assert_eq!(Configuration::default().max_distance(), 0x20000);
    assert_eq!(Configuration::default().max_len(), 0x800000);
    assert_eq!(Configuration::max().max_distance(), 0x20000);
    assert_eq!(Configuration::max().max_len(), 0xFFFFFFFF);
}
