use libsteg::header::{is_digit, is_white_space, parse_header, PPMError, PPMHeader};

fn minimal_header() -> Vec<u8> {
    b"P6 1 1 255 ".to_vec()
}

#[test]
fn parse_minimal_header() {
    let data = minimal_header();
    let (h, off) = parse_header(&data).unwrap();
    assert_eq!(h.magic_number, [80u8, 54u8]);
    assert_eq!(h.width, 1);
    assert_eq!(h.height, 1);
    assert_eq!(h.max_color_value, 255);
    assert_eq!(off, 11);
}

#[test]
fn parse_header_with_newlines() {
    let data = b"P6\n640 480\n255\n".to_vec();
    let (h, off) = parse_header(&data).unwrap();
    assert_eq!(h.width, 640);
    assert_eq!(h.height, 480);
    assert_eq!(h.max_color_value, 255);
    assert_eq!(off, data.len());
}

#[test]
fn parse_header_with_extra_whitespace_before_maxval() {
    let data = b"P6 12 34   99 ".to_vec();
    let (h, off) = parse_header(&data).unwrap();
    assert_eq!(h.width, 12);
    assert_eq!(h.height, 34);
    assert_eq!(h.max_color_value, 99);
    assert_eq!(off, data.len());
}

#[test]
fn bad_magic_is_rejected() {
    let data = b"P5 1 1 255 ".to_vec();
    match parse_header(&data) {
        Err(PPMError::BadHeader(m)) => assert_eq!(m, "bad magic number"),
        _ => panic!("a P5 stream must be rejected"),
    }
    let empty: Vec<u8> = Vec::new();
    assert!(matches!(parse_header(&empty), Err(PPMError::BadHeader(_))));
    let data = b"X6 1 1 255 ".to_vec();
    assert!(matches!(parse_header(&data), Err(PPMError::BadHeader(_))));
}

#[test]
fn maxval_boundaries() {
    // 256 needs three digits but is above 255: rejected.
    let data = b"P6 1 1 256 ".to_vec();
    match parse_header(&data) {
        Err(PPMError::BadHeader(m)) => assert_eq!(m, "max color value too large"),
        _ => panic!("maxval 256 must be rejected"),
    }
    // 255 is the largest accepted three-digit value.
    let data = b"P6 1 1 255 ".to_vec();
    assert_eq!(parse_header(&data).unwrap().0.max_color_value, 255);
    // Two-digit values are always accepted.
    let data = b"P6 1 1 99 ".to_vec();
    assert_eq!(parse_header(&data).unwrap().0.max_color_value, 99);
    // Four digits can never be accepted, whatever the value.
    let data = b"P6 1 1 0255 ".to_vec();
    assert!(matches!(parse_header(&data), Err(PPMError::BadHeader(_))));
}

#[test]
fn truncated_header_is_rejected() {
    for prefix in [
        &b"P6"[..],
        &b"P6 "[..],
        &b"P6 1"[..],
        &b"P6 1 "[..],
        &b"P6 1 1"[..],
        &b"P6 1 1 "[..],
        &b"P6 1 1 255"[..],
    ] {
        assert!(
            matches!(parse_header(prefix), Err(PPMError::BadHeader(_))),
            "an incomplete header must be rejected"
        );
    }
}

#[test]
fn garbage_in_header_is_rejected() {
    let data = b"P6 x 1 255 ".to_vec();
    assert!(matches!(parse_header(&data), Err(PPMError::BadHeader(_))));
    let data = b"P6 1x 1 255 ".to_vec();
    assert!(matches!(parse_header(&data), Err(PPMError::BadHeader(_))));
    let data = b"P6 1 1 2x5 ".to_vec();
    assert!(matches!(parse_header(&data), Err(PPMError::BadHeader(_))));
}

#[test]
fn missing_whitespace_after_magic_is_rejected() {
    let data = b"P61 1 255 ".to_vec();
    assert!(matches!(parse_header(&data), Err(PPMError::BadHeader(_))));
}

#[test]
fn width_overflow_is_rejected() {
    let data = b"P6 4294967295 1 255 ".to_vec();
    assert_eq!(parse_header(&data).unwrap().0.width, 4294967295);
    let data = b"P6 4294967296 1 255 ".to_vec();
    assert!(matches!(parse_header(&data), Err(PPMError::BadHeader(_))));
}

#[test]
fn string_to_u32_accepts_digit_strings() {
    assert_eq!(PPMHeader::string_to_u32("0".to_string()).unwrap(), 0);
    assert_eq!(PPMHeader::string_to_u32("123".to_string()).unwrap(), 123);
    assert_eq!(
        PPMHeader::string_to_u32("4294967295".to_string()).unwrap(),
        4294967295
    );
}

#[test]
fn string_to_u32_rejects_bad_strings() {
    assert!(matches!(
        PPMHeader::string_to_u32(String::new()),
        Err(PPMError::BadHeader(_))
    ));
    assert!(matches!(
        PPMHeader::string_to_u32("12a".to_string()),
        Err(PPMError::BadHeader(_))
    ));
    assert!(matches!(
        PPMHeader::string_to_u32("-1".to_string()),
        Err(PPMError::BadHeader(_))
    ));
    assert!(matches!(
        PPMHeader::string_to_u32("4294967296".to_string()),
        Err(PPMError::BadHeader(_))
    ));
}

#[test]
fn whitespace_and_digit_classes() {
    assert!(is_white_space(b' '));
    assert!(is_white_space(b'\t'));
    assert!(is_white_space(b'\n'));
    assert!(is_white_space(b'\r'));
    assert!(!is_white_space(b'0'));
    assert!(is_digit(b'0'));
    assert!(is_digit(b'9'));
    assert!(!is_digit(b'a'));
    assert!(!is_digit(b' '));
}
