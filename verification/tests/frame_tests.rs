use rranch::frame::{decode_frame, encode_frame, parse_len, render_len, ProtocolError};

#[test]
fn encodes_length_prefix_and_payload() {
    let frame = encode_frame("hello");
    assert_eq!(frame, b"5 hello".to_vec());
}

#[test]
fn encodes_empty_message() {
    let frame = encode_frame("");
    assert_eq!(frame, b"0 ".to_vec());
}

#[test]
fn length_prefix_counts_bytes_not_characters() {
    // one character, two UTF-8 bytes
    let frame = encode_frame("\u{e9}");
    assert_eq!(frame, vec![0x32, 0x20, 0xC3, 0xA9]);
    // mixed text: 4 characters, 5 bytes
    let frame = encode_frame("h\u{f6}he");
    assert_eq!(frame[0], b'5');
    assert_eq!(frame[1], b' ');
}

#[test]
fn decoding_an_encoded_frame_returns_the_message() {
    let msg = "checkout thunar \u{1F600} now";
    let frame = encode_frame(msg);
    let (text, used) = decode_frame(&frame).unwrap();
    assert_eq!(text, msg);
    assert_eq!(used, frame.len());
}

#[test]
fn decode_reads_exactly_the_announced_bytes() {
    let mut frame = encode_frame("ab");
    frame.extend_from_slice(b"TRAILING");
    let (text, used) = decode_frame(&frame).unwrap();
    assert_eq!(text, "ab");
    assert_eq!(used, 4);
}

#[test]
fn nonnumeric_length_prefix_is_invalid() {
    let buf = b"x5 hello".to_vec();
    assert_eq!(decode_frame(&buf).unwrap_err(), ProtocolError::InvalidLength);
}

#[test]
fn missing_space_is_invalid() {
    let buf = b"5hello".to_vec();
    assert_eq!(decode_frame(&buf).unwrap_err(), ProtocolError::InvalidLength);
}

#[test]
fn short_payload_is_truncated() {
    let buf = b"10 abc".to_vec();
    assert_eq!(decode_frame(&buf).unwrap_err(), ProtocolError::Truncated);
}

#[test]
fn invalid_utf8_payload_decodes_to_the_empty_string() {
    let buf = vec![b'2', b' ', 0xFF, 0xFE];
    let (text, used) = decode_frame(&buf).unwrap();
    assert_eq!(text, "");
    assert_eq!(used, 4);
}

#[test]
fn parse_len_accepts_digits_only() {
    assert_eq!(parse_len(&b"42".to_vec()).unwrap(), 42);
    assert_eq!(parse_len(&b"0".to_vec()).unwrap(), 0);
    assert!(parse_len(&b"".to_vec()).is_err());
    assert!(parse_len(&b"+7".to_vec()).is_err());
    assert!(parse_len(&b"-7".to_vec()).is_err());
    assert!(parse_len(&b"4 2".to_vec()).is_err());
}

#[test]
fn render_len_writes_decimal_digits() {
    assert_eq!(render_len(0), b"0".to_vec());
    assert_eq!(render_len(27015), b"27015".to_vec());
}
