use ascii85::codec::ascii85_decode;
use ascii85::codec::ascii85_encode;
use ascii85::codec::DecodeError;

#[test]
fn empty_input() {
    assert_eq!(ascii85_encode(&vec![]), Vec::<u8>::new());
    assert_eq!(ascii85_decode(&vec![]), Ok(Vec::new()));
}

#[test]
fn encode_full_group() {
    assert_eq!(ascii85_encode(&b"Man ".to_vec()), b"9jqo^".to_vec());
}

#[test]
fn encode_two_byte_tail() {
    // 2-byte input: one group padded with two zero bytes, 5 characters
    // produced, 2 trimmed
    assert_eq!(ascii85_encode(&b"Ma".to_vec()), b"9jn".to_vec());
}

#[test]
fn decode_full_group() {
    assert_eq!(ascii85_decode(&b"9jqo^".to_vec()), Ok(b"Man ".to_vec()));
}

#[test]
fn encode_single_bytes() {
    assert_eq!(ascii85_encode(&vec![0]), b"!!".to_vec());
    assert_eq!(ascii85_encode(&vec![1]), b"!<".to_vec());
    assert_eq!(ascii85_encode(&vec![65]), b"5l".to_vec());
    assert_eq!(ascii85_encode(&vec![255]), b"rr".to_vec());
}

#[test]
fn single_bytes_round_trip() {
    for b in [0u8, 1, 65, 255] {
        let encoded = ascii85_encode(&vec![b]);
        assert_eq!(ascii85_decode(&encoded), Ok(vec![b]));
    }
}

#[test]
fn output_char_range() {
    let data: Vec<u8> = (0u16..=255).map(|x| x as u8).collect();
    for c in ascii85_encode(&data) {
        assert!(33 <= c && c <= 117);
    }
}

#[test]
fn length_formula() {
    for n in 0usize..41 {
        let data: Vec<u8> = (0..n).map(|i| (i * 37 + 11) as u8).collect();
        let encoded = ascii85_encode(&data);
        if n == 0 {
            assert_eq!(encoded.len(), 0);
        } else {
            assert_eq!(encoded.len(), 5 * ((n + 3) / 4) - (4 - n % 4) % 4);
        }
    }
}

#[test]
fn round_trip_all_length_classes() {
    // pseudo-random inputs covering lengths congruent to 0, 1, 2 and 3
    // modulo 4, up to a few thousand bytes
    let mut state: u32 = 0x1234_5678;
    for n in [0usize, 1, 2, 3, 4, 5, 6, 7, 8, 15, 16, 17, 255, 256, 1000, 4093, 4094, 4095, 4096]
    {
        let mut data: Vec<u8> = Vec::with_capacity(n);
        for _ in 0..n {
            state = state.wrapping_mul(1664525).wrapping_add(1013904223);
            data.push((state >> 24) as u8);
        }
        let encoded = ascii85_encode(&data);
        assert_eq!(ascii85_decode(&encoded), Ok(data));
    }
}

#[test]
fn rejects_character_below_range() {
    // code point 32 sits just below the valid range and is reported,
    // never wrapped
    assert_eq!(ascii85_decode(&vec![32]), Err(DecodeError::InvalidCharacter));
    assert_eq!(ascii85_decode(&vec![57, 32, 57]), Err(DecodeError::InvalidCharacter));
    assert_eq!(ascii85_decode(&vec![0]), Err(DecodeError::InvalidCharacter));
}

#[test]
fn rejects_character_above_range() {
    assert_eq!(ascii85_decode(&vec![118]), Err(DecodeError::InvalidCharacter));
    assert_eq!(ascii85_decode(&b"9jqo^~".to_vec()), Err(DecodeError::InvalidCharacter));
}

#[test]
fn oversized_group_wraps() {
    // "uuuuu" holds five maximum digits: its base-85 value 85^5 - 1
    // exceeds the 32-bit range and wraps to 142085828 = 0x0878_0EC4
    assert_eq!(ascii85_decode(&b"uuuuu".to_vec()), Ok(vec![8, 120, 14, 196]));
}

#[test]
fn decode_single_character() {
    // one character becomes one group of four filler digits and decodes
    // to nothing
    assert_eq!(ascii85_decode(&vec![33]), Ok(vec![]));
}
