use libsteg::codec::{
    bit_at, bit_set_at, decode_character, decode_message, encode_character, encode_message, lsb,
    CodecError,
};

#[test]
fn bit_helpers() {
    // 'A' is 0b0100_0001: bit 1 and bit 7 are set, counting from the
    // most significant bit as bit 0.
    let c = b'A';
    assert_eq!(bit_at(c, 0), 0);
    assert_eq!(bit_at(c, 1), 1);
    assert_eq!(bit_at(c, 7), 1);
    assert!(!bit_set_at(c, 0));
    assert!(bit_set_at(c, 1));
    assert!(bit_set_at(c, 7));
    assert!(lsb(1));
    assert!(lsb(255));
    assert!(!lsb(0));
    assert!(!lsb(254));
}

#[test]
fn encode_character_patches_only_lsbs() {
    let carrier = [0xFFu8; 8];
    let out = encode_character(b'A', &carrier);
    assert_eq!(out, vec![0xFE, 0xFF, 0xFE, 0xFE, 0xFE, 0xFE, 0xFE, 0xFF]);
    let carrier = [0u8; 8];
    let out = encode_character(b'A', &carrier);
    assert_eq!(out, vec![0, 1, 0, 0, 0, 0, 0, 1]);
}

#[test]
fn decode_character_reads_lsbs() {
    let chunk = [0u8, 1, 0, 0, 0, 0, 0, 1];
    assert_eq!(decode_character(&chunk), b'A');
    let chunk = [0xFEu8, 0xFF, 0xFE, 0xFE, 0xFE, 0xFE, 0xFE, 0xFF];
    assert_eq!(decode_character(&chunk), b'A');
    let chunk = [0xFFu8; 8];
    assert_eq!(decode_character(&chunk), 255);
    let chunk = [0u8; 8];
    assert_eq!(decode_character(&chunk), 0);
}

#[test]
fn encode_decode_round_trip() {
    let pixels: Vec<u8> = (0u8..=31).collect();
    let out = encode_message("Hi", &pixels, 0).unwrap();
    assert_eq!(out.len(), pixels.len());
    let decoded = decode_message(&out).unwrap();
    assert_eq!(decoded, "Hi");
}

#[test]
fn round_trip_with_offset() {
    let pixels = vec![0xA5u8; 40];
    let start = 5;
    let out = encode_message("abc", &pixels, start).unwrap();
    let decoded = decode_message(&out[start..]).unwrap();
    assert_eq!(decoded, "abc");
}

#[test]
fn capacity_boundary() {
    // One character plus the terminator needs exactly 16 bytes.
    let pixels = vec![0u8; 16];
    assert!(encode_message("A", &pixels, 0).is_ok());
    let pixels = vec![0u8; 15];
    assert_eq!(
        encode_message("A", &pixels, 0).unwrap_err(),
        CodecError::CapacityError
    );
}

#[test]
fn capacity_counts_from_start_offset() {
    // 16 bytes in all, but only 13 usable after the offset.
    let pixels = vec![0u8; 16];
    assert_eq!(
        encode_message("A", &pixels, 3).unwrap_err(),
        CodecError::CapacityError
    );
    let pixels = vec![0u8; 19];
    assert!(encode_message("A", &pixels, 3).is_ok());
}

#[test]
fn empty_message_is_rejected() {
    let pixels = vec![0u8; 64];
    assert_eq!(
        encode_message("", &pixels, 0).unwrap_err(),
        CodecError::EmptyMessageError
    );
}

#[test]
fn decode_stops_at_terminator_and_ignores_trailing_bytes() {
    let mut pixels = vec![0x10u8; 24];
    // Arbitrary garbage after the space the message and terminator use.
    pixels.extend([0xFF, 0x01, 0xAB, 0x33, 0x77, 0x02, 0x04, 0x08, 0x7F]);
    let out = encode_message("A", &pixels, 0).unwrap();
    assert_eq!(decode_message(&out).unwrap(), "A");
}

#[test]
fn untouched_region_is_copied_through() {
    let pixels: Vec<u8> = (0u8..=63).collect();
    let start = 4;
    let out = encode_message("xy", &pixels, start).unwrap();
    // (2 + 1) * 8 bytes are consumed from the start offset.
    let region_end = start + 24;
    assert_eq!(out[..start], pixels[..start]);
    assert_eq!(out[region_end..], pixels[region_end..]);
    // Inside the region only the least-significant bits may differ.
    for j in start..region_end {
        assert_eq!(out[j] & 0xFE, pixels[j] & 0xFE);
    }
}

#[test]
fn decode_truncated_data_is_reported() {
    let pixels = vec![0u8; 7];
    assert_eq!(
        decode_message(&pixels).unwrap_err(),
        CodecError::TruncatedDataError
    );
    let empty: Vec<u8> = Vec::new();
    assert_eq!(
        decode_message(&empty).unwrap_err(),
        CodecError::TruncatedDataError
    );
    // A chunk that spells 'A' but no terminator afterwards.
    let pixels = vec![0u8, 1, 0, 0, 0, 0, 0, 1];
    assert_eq!(
        decode_message(&pixels).unwrap_err(),
        CodecError::TruncatedDataError
    );
}

#[test]
fn decode_of_immediate_terminator_is_empty() {
    // Eight bytes with clear least-significant bits spell the terminator
    // right away: the embedded message is empty.
    let pixels = vec![0x42u8; 16];
    assert_eq!(decode_message(&pixels).unwrap(), "");
}

#[test]
fn round_trip_at_ascii_edges() {
    // The lowest and highest ASCII values a message may carry.
    let message = "\u{1}\u{7f}";
    let pixels = vec![0x55u8; 24];
    let out = encode_message(message, &pixels, 0).unwrap();
    assert_eq!(decode_message(&out).unwrap(), message);
}

#[test]
fn decode_non_ascii_is_reported() {
    let pixels = vec![0xFFu8; 8];
    assert_eq!(
        decode_message(&pixels).unwrap_err(),
        CodecError::NonAsciiDecodeError
    );
}
