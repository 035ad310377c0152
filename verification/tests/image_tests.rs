use libsteg::codec::CodecError;
use libsteg::header::PPMError;
use libsteg::image::{decode_message_from_bytes, manipulate_image_in_memory, StegError, PPM};

fn minimal_image() -> Vec<u8> {
    // A 1-by-1 P6 image with maxval 255 and 24 pixel bytes: exactly the
    // room a 2-character message and its terminator need.
    let mut data = b"P6 1 1 255 ".to_vec();
    data.extend((100u8..124).collect::<Vec<u8>>());
    assert_eq!(data.len(), 11 + 24);
    data
}

#[test]
fn ppm_new_splits_header_and_pixels() {
    let data = minimal_image();
    let ppm = PPM::new(&data).unwrap();
    assert_eq!(ppm.header.width, 1);
    assert_eq!(ppm.header.height, 1);
    assert_eq!(ppm.header.max_color_value, 255);
    assert_eq!(ppm.pixels, (100u8..124).collect::<Vec<u8>>());
}

#[test]
fn ppm_new_rejects_bad_streams() {
    let data = b"P5 1 1 255 ".to_vec();
    assert!(matches!(PPM::new(&data), Err(PPMError::BadHeader(_))));
}

#[test]
fn minimal_image_round_trip() {
    // The 2-character message and its terminator need (2 + 1) * 8 = 24
    // bytes: exactly the pixel data available.
    let data = minimal_image();
    let encoded = manipulate_image_in_memory("Hi", &data).unwrap();
    assert_eq!(encoded.len(), data.len());
    // The header bytes are untouched.
    assert_eq!(&encoded[..11], &data[..11]);
    assert_eq!(decode_message_from_bytes(&encoded).unwrap(), "Hi");
}

#[test]
fn message_one_byte_too_long_is_rejected() {
    let data = minimal_image();
    match manipulate_image_in_memory("Hi!", &data) {
        Err(StegError::Codec(c)) => assert_eq!(c, CodecError::CapacityError),
        _ => panic!("a 3-character message needs 32 pixel bytes, not 24"),
    }
}

#[test]
fn empty_message_is_rejected_at_image_level() {
    let data = minimal_image();
    match manipulate_image_in_memory("", &data) {
        Err(StegError::Codec(c)) => assert_eq!(c, CodecError::EmptyMessageError),
        _ => panic!("an empty message must be rejected"),
    }
}

#[test]
fn bad_header_is_rejected_at_image_level() {
    let mut data = minimal_image();
    data[1] = b'5';
    assert!(matches!(
        manipulate_image_in_memory("Hi", &data),
        Err(StegError::Header(PPMError::BadHeader(_)))
    ));
    assert!(matches!(
        decode_message_from_bytes(&data),
        Err(StegError::Header(PPMError::BadHeader(_)))
    ));
}

#[test]
fn decode_without_terminator_is_truncated() {
    // A well-formed header, but pixel bytes whose least-significant bits
    // never spell a terminator chunk.
    let mut data = b"P6 1 1 255 ".to_vec();
    data.extend([0x01u8; 24]);
    match decode_message_from_bytes(&data) {
        Err(StegError::Codec(c)) => assert_eq!(c, CodecError::NonAsciiDecodeError),
        _ => panic!("all-ones chunks decode to 255, which is not ASCII"),
    }
    let mut data = b"P6 1 1 255 ".to_vec();
    data.extend([0x00u8; 7]);
    match decode_message_from_bytes(&data) {
        Err(StegError::Codec(c)) => assert_eq!(c, CodecError::TruncatedDataError),
        _ => panic!("seven pixel bytes cannot hold a chunk"),
    }
}

#[test]
fn longer_round_trip_through_an_image() {
    let mut data = b"P6\n4 4\n255\n".to_vec();
    data.extend(vec![0xC3u8; 48]);
    let encoded = manipulate_image_in_memory("hello", &data).unwrap();
    assert_eq!(decode_message_from_bytes(&encoded).unwrap(), "hello");
}
