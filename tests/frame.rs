use ntex_pool::frame::Parser;
use ntex_pool::proto::{CloseCode, CloseReason, OpCode, ProtocolError};

struct F {
    finished: bool,
    opcode: OpCode,
    payload: Vec<u8>,
}

type Parsed = Result<Option<(bool, OpCode, Option<Vec<u8>>)>, ProtocolError>;

fn is_none(frm: &Parsed) -> bool {
    matches!(*frm, Ok(None))
}

fn extract(frm: Parsed) -> F {
    match frm {
        Ok(Some((finished, opcode, payload))) => F {
            finished,
            opcode,
            payload: payload.unwrap_or_default(),
        },
        _ => unreachable!("error"),
    }
}

#[test]
fn test_parse() {
    let mut buf = Vec::from(&[0b0000_0001u8, 0b0000_0001u8][..]);
    assert!(is_none(&Parser::parse(&mut buf, false, 1024)));

    let mut buf = Vec::from(&[0b0000_0001u8, 0b0000_0001u8][..]);
    buf.extend(b"1");

    let frame = extract(Parser::parse(&mut buf, false, 1024));
    assert!(!frame.finished);
    assert_eq!(frame.opcode, OpCode::Text);
    assert_eq!(&frame.payload[..], &b"1"[..]);
}

#[test]
fn test_parse_length0() {
    let mut buf = Vec::from(&[0b0000_0001u8, 0b0000_0000u8][..]);
    let frame = extract(Parser::parse(&mut buf, false, 1024));
    assert!(!frame.finished);
    assert_eq!(frame.opcode, OpCode::Text);
    assert!(frame.payload.is_empty());
}

#[test]
fn test_parse_length2() {
    let mut buf = Vec::from(&[0b0000_0001u8, 126u8][..]);
    assert!(is_none(&Parser::parse(&mut buf, false, 1024)));

    let mut buf = Vec::from(&[0b0000_0001u8, 126u8][..]);
    buf.extend(&[0u8, 4u8][..]);
    buf.extend(b"1234");

    let frame = extract(Parser::parse(&mut buf, false, 1024));
    assert!(!frame.finished);
    assert_eq!(frame.opcode, OpCode::Text);
    assert_eq!(&frame.payload[..], &b"1234"[..]);
}

#[test]
fn test_parse_length4() {
    let mut buf = Vec::from(&[0b0000_0001u8, 127u8][..]);
    assert!(is_none(&Parser::parse(&mut buf, false, 1024)));

    let mut buf = Vec::from(&[0b0000_0001u8, 127u8][..]);
    buf.extend(&[0u8, 0u8, 0u8, 0u8, 0u8, 0u8, 0u8, 4u8][..]);
    buf.extend(b"1234");

    let frame = extract(Parser::parse(&mut buf, false, 1024));
    assert!(!frame.finished);
    assert_eq!(frame.opcode, OpCode::Text);
    assert_eq!(&frame.payload[..], &b"1234"[..]);
}

#[test]
fn test_parse_frame_mask() {
    let mut buf = Vec::from(&[0b0000_0001u8, 0b1000_0001u8][..]);
    buf.extend(b"0001");
    buf.extend(b"1");

    assert!(Parser::parse(&mut buf, false, 1024).is_err());

    let frame = extract(Parser::parse(&mut buf, true, 1024));
    assert!(!frame.finished);
    assert_eq!(frame.opcode, OpCode::Text);
    assert_eq!(frame.payload, vec![1u8]);
}

#[test]
fn test_parse_frame_no_mask() {
    let mut buf = Vec::from(&[0b0000_0001u8, 0b0000_0001u8][..]);
    buf.extend([1u8]);

    assert!(Parser::parse(&mut buf, true, 1024).is_err());

    let frame = extract(Parser::parse(&mut buf, false, 1024));
    assert!(!frame.finished);
    assert_eq!(frame.opcode, OpCode::Text);
    assert_eq!(frame.payload, vec![1u8]);
}

#[test]
fn test_parse_frame_max_size() {
    let mut buf = Vec::from(&[0b0000_0001u8, 0b0000_0010u8][..]);
    buf.extend([1u8, 1u8]);

    assert!(Parser::parse(&mut buf, true, 1).is_err());

    if let Err(ProtocolError::Overflow) = Parser::parse(&mut buf, false, 0) {
    } else {
        unreachable!("error");
    }
}

#[test]
fn test_ping_frame() {
    let mut buf = Vec::new();
    Parser::write_message(&mut buf, Vec::from("data"), OpCode::Ping, true, false);

    let mut v = vec![137u8, 4u8];
    v.extend(b"data");
    assert_eq!(&buf[..], &v[..]);
}

#[test]
fn test_pong_frame() {
    let mut buf = Vec::new();
    Parser::write_message(&mut buf, Vec::from("data"), OpCode::Pong, true, false);

    let mut v = vec![138u8, 4u8];
    v.extend(b"data");
    assert_eq!(&buf[..], &v[..]);
}

#[test]
fn test_close_frame() {
    let mut buf = Vec::new();
    let reason = CloseReason::new(CloseCode::Normal, "data");
    Parser::write_close(&mut buf, Some(reason), false);

    let mut v = vec![136u8, 6u8, 3u8, 232u8];
    v.extend(b"data");
    assert_eq!(&buf[..], &v[..]);
}

#[test]
fn test_empty_close_frame() {
    let mut buf = Vec::new();
    Parser::write_close(&mut buf, None, false);
    assert_eq!(&buf[..], &vec![0x88, 0x00][..]);
}

#[test]
fn unmasked_frame_to_server_fails() {
    let mut buf = vec![0x81u8, 0x01, b'a'];
    assert_eq!(Parser::parse(&mut buf, true, 1024), Err(ProtocolError::UnmaskedFrame));
    assert_eq!(buf, vec![0x81u8, 0x01, b'a']);
}

#[test]
fn masked_frame_to_client_fails() {
    let mut buf = vec![0x81u8, 0x81, 0, 0, 0, 0, b'a'];
    assert_eq!(Parser::parse(&mut buf, false, 1024), Err(ProtocolError::MaskedFrame));
}

#[test]
fn unknown_opcode_fails() {
    let mut buf = vec![0x83u8, 0x00];
    assert_eq!(Parser::parse(&mut buf, false, 1024), Err(ProtocolError::InvalidOpcode(3)));
}

#[test]
fn long_ping_fails_and_consumes_header() {
    let mut buf = vec![0x89u8, 126, 0, 126];
    buf.extend(vec![7u8; 126]);
    assert_eq!(Parser::parse(&mut buf, false, 1024), Err(ProtocolError::InvalidLength(126)));
    assert_eq!(buf.len(), 126);
}

#[test]
fn long_close_becomes_bare_close() {
    let mut buf = vec![0x08u8, 126, 0, 200];
    buf.extend(vec![7u8; 200]);
    let frame = Parser::parse(&mut buf, false, 1024);
    assert_eq!(frame, Ok(Some((true, OpCode::Close, None))));
    assert_eq!(buf.len(), 200);
}

#[test]
fn sixteen_bit_length_over_limit_overflows() {
    let mut buf = vec![0x82u8, 126, 0x01, 0x00];
    assert_eq!(Parser::parse(&mut buf, false, 255), Err(ProtocolError::Overflow));
}

#[test]
fn parse_leaves_following_bytes() {
    let mut buf = vec![0x82u8, 0x02, 9, 8, 0x81, 0x00];
    let frame = extract(Parser::parse(&mut buf, false, 1024));
    assert!(frame.finished);
    assert_eq!(frame.opcode, OpCode::Binary);
    assert_eq!(frame.payload, vec![9u8, 8]);
    assert_eq!(buf, vec![0x81u8, 0x00]);
}

#[test]
fn masked_round_trip_with_random_key() {
    let payload: Vec<u8> = (0u8..200).collect();
    let mut buf = Vec::new();
    Parser::write_message(&mut buf, payload.clone(), OpCode::Binary, false, true);
    assert_eq!(buf[0], 0x02);
    assert_eq!(buf[1], 0x80 | 126);
    assert_eq!(buf.len(), 4 + 4 + 200);
    let frame = extract(Parser::parse(&mut buf, true, 1024));
    assert!(!frame.finished);
    assert_eq!(frame.opcode, OpCode::Binary);
    assert_eq!(frame.payload, payload);
    assert!(buf.is_empty());
}

#[test]
fn write_frame_with_given_key() {
    let mut buf = Vec::new();
    Parser::write_frame(&mut buf, &[1, 2, 3, 4, 5], OpCode::Text, true, Some(0x0403_0201));
    assert_eq!(buf, vec![0x81, 0x85, 1, 2, 3, 4, 0, 0, 0, 0, 4]);
}

#[test]
fn long_payload_uses_eight_byte_length() {
    let payload = vec![5u8; 70_000];
    let mut buf = Vec::new();
    Parser::write_message(&mut buf, payload.clone(), OpCode::Binary, true, false);
    assert_eq!(&buf[..10], &[0x82, 127, 0, 0, 0, 0, 0, 0x01, 0x11, 0x70][..]);
    let frame = extract(Parser::parse(&mut buf, false, 100_000));
    assert_eq!(frame.payload, payload);
}

#[test]
fn close_payload_is_read_back() {
    let r = Parser::parse_close_payload(&[0x03, 0xE8, b'o', b'k']).unwrap();
    assert_eq!(r.code, CloseCode::Normal);
    assert_eq!(r.description, Some("ok".to_string()));
    let r = Parser::parse_close_payload(&[0x0F, 0xA0]).unwrap();
    assert_eq!(r.code, CloseCode::Other(4000));
    assert_eq!(r.description, None);
    assert!(Parser::parse_close_payload(&[0x03]).is_none());
}

#[test]
fn close_payload_decodes_invalid_utf8_lossily() {
    let r = Parser::parse_close_payload(&[0x03, 0xE9, 0xFF]).unwrap();
    assert_eq!(r.code, CloseCode::Away);
    assert_eq!(r.description, Some("\u{FFFD}".to_string()));
}
