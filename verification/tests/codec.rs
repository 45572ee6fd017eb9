use wsengine::frame::{CloseCode, Frame, Opcode};

/// A client-side encoding of one frame: mask bit set, payload XOR-masked.
fn client_frame(opcode: u8, fin: bool, payload: &[u8], key: [u8; 4]) -> Vec<u8> {
    let mut out = Vec::new();
    out.push(if fin { 0x80 | opcode } else { opcode });
    let n = payload.len();
    if n < 126 {
        out.push(0x80 | n as u8);
    } else if n < 0x10000 {
        out.push(0x80 | 126);
        out.push((n / 256) as u8);
        out.push((n % 256) as u8);
    } else {
        out.push(0x80 | 127);
        let w = n as u64;
        for shift in [56u32, 48, 40, 32, 24, 16, 8, 0] {
            out.push(((w >> shift) & 0xff) as u8);
        }
    }
    out.extend_from_slice(&key);
    for (i, b) in payload.iter().enumerate() {
        out.push(b ^ key[i % 4]);
    }
    out
}

#[test]
fn text_frame_encodes_unmasked() {
    let f = Frame::text(String::from("Hi"));
    assert_eq!(f.as_bytes(), vec![0x81, 0x02, b'H', b'i']);
}

#[test]
fn binary_frame_uses_extended_16_bit_length() {
    let payload = vec![7u8; 300];
    let f = Frame::bytes(payload.clone());
    let enc = f.as_bytes();
    assert_eq!(&enc[..4], &[0x82, 126, 1, 44]);
    assert_eq!(&enc[4..], payload.as_slice());
}

#[test]
fn ping_pong_and_close_constructors() {
    assert_eq!(Frame::ping().as_bytes(), vec![0x89, 0x00]);
    assert_eq!(Frame::pong().as_bytes(), vec![0x8A, 0x00]);
    assert_eq!(
        Frame::closing(CloseCode::ProtocolError).as_bytes(),
        vec![0x88, 0x02, 0x03, 0xEA]
    );
    assert_eq!(
        Frame::closing(CloseCode::Normal).as_bytes(),
        vec![0x88, 0x02, 0x03, 0xE8]
    );
}

#[test]
fn client_round_trip_reproduces_frame() {
    let key = [0x11u8, 0x22, 0x33, 0x44];
    let f = Frame::text(String::from("hello world"));
    let wire = f.as_client_bytes(&key);
    assert_eq!(wire, client_frame(0x1, true, b"hello world", key));
    let g = Frame::from_raw(&wire).expect("frame must parse");
    assert!(matches!(g.opcode(), Opcode::Text));
    assert!(g.fin());
    assert!(g.is_full());
    assert_eq!(g.payload().as_slice(), b"hello world");
    assert_eq!(g.current_len(), wire.len());
}

#[test]
fn round_trip_with_16_bit_length() {
    let key = [9u8, 8, 7, 6];
    let payload: Vec<u8> = (0..300u32).map(|i| (i % 251) as u8).collect();
    let f = Frame::bytes(payload.clone());
    let wire = f.as_client_bytes(&key);
    let g = Frame::from_raw(&wire).expect("frame must parse");
    assert!(matches!(g.opcode(), Opcode::Binary));
    assert!(g.is_full());
    assert_eq!(g.payload().as_slice(), payload.as_slice());
}

#[test]
fn round_trip_with_64_bit_length() {
    let key = [0xAAu8, 0xBB, 0xCC, 0xDD];
    let payload: Vec<u8> = (0..70000u32).map(|i| (i % 253) as u8).collect();
    let f = Frame::bytes(payload.clone());
    let enc = f.as_bytes();
    assert_eq!(&enc[..10], &[0x82, 127, 0, 0, 0, 0, 0, 1, 0x11, 0x70]);
    let wire = f.as_client_bytes(&key);
    let g = Frame::from_raw(&wire).expect("frame must parse");
    assert!(g.is_full());
    assert_eq!(g.payload().as_slice(), payload.as_slice());
}

#[test]
fn short_buffer_asks_for_more_bytes() {
    assert!(matches!(Frame::from_raw(&[]), Err(None)));
    assert!(matches!(Frame::from_raw(&[0x81]), Err(None)));
    // Masked frame: mask key not yet present.
    assert!(matches!(Frame::from_raw(&[0x81, 0x85, 1, 2]), Err(None)));
    // 16-bit length announced, extended bytes missing.
    assert!(matches!(Frame::from_raw(&[0x81, 0x80 | 126, 1]), Err(None)));
}

#[test]
fn unknown_opcode_is_a_protocol_error() {
    let wire = client_frame(0x3, true, b"x", [0, 0, 0, 0]);
    assert!(matches!(
        Frame::from_raw(&wire),
        Err(Some(CloseCode::ProtocolError))
    ));
}

#[test]
fn partial_payload_fills_incrementally() {
    let key = [1u8, 2, 3, 4];
    let wire = client_frame(0x2, true, b"abcdef", key);
    let (head, tail) = wire.split_at(wire.len() - 3);
    let mut f = Frame::from_raw(head).expect("header must parse");
    assert!(!f.is_full());
    let used = f.add_payload(tail);
    assert_eq!(used, 3);
    assert!(f.is_full());
    assert_eq!(f.payload().as_slice(), b"abcdef");
}

#[test]
fn closing_code_and_reason_parse() {
    let key = [5u8, 5, 5, 5];
    let wire = client_frame(0x8, true, &[0x03, 0xE8, b'b', b'y', b'e'], key);
    let f = Frame::from_raw(&wire).expect("close frame must parse");
    assert!(matches!(f.get_closing_code(), CloseCode::Normal));
    assert_eq!(f.get_closing_reason().expect("reason must decode"), "bye");
}

#[test]
fn malformed_close_payloads_yield_designated_codes() {
    let key = [0u8, 0, 0, 0];
    // Shorter than the two-byte status code.
    let short = Frame::from_raw(&client_frame(0x8, true, &[1], key)).unwrap();
    assert!(matches!(short.get_closing_code(), CloseCode::ProtocolError));
    assert!(matches!(
        short.get_closing_reason(),
        Err(CloseCode::ProtocolError)
    ));
    // Unknown numeric status.
    let unknown = Frame::from_raw(&client_frame(0x8, true, &[0xFF, 0xFF], key)).unwrap();
    assert!(matches!(unknown.get_closing_code(), CloseCode::ProtocolError));
    // Invalid UTF-8 reason bytes.
    let bad = Frame::from_raw(&client_frame(0x8, true, &[0x03, 0xE8, 0xFF, 0xFE], key)).unwrap();
    assert!(matches!(
        bad.get_closing_reason(),
        Err(CloseCode::InvalidData)
    ));
}

#[test]
fn close_code_values_match_the_rfc() {
    assert_eq!(CloseCode::Normal.value(), 1000);
    assert_eq!(CloseCode::GoingAway.value(), 1001);
    assert_eq!(CloseCode::ProtocolError.value(), 1002);
    assert_eq!(CloseCode::UnsupportedData.value(), 1003);
    assert_eq!(CloseCode::InvalidData.value(), 1007);
    assert_eq!(CloseCode::PolicyViolation.value(), 1008);
    assert_eq!(CloseCode::MessageTooBig.value(), 1009);
    assert_eq!(CloseCode::from_value(1002), Some(CloseCode::ProtocolError));
    assert_eq!(CloseCode::from_value(999), None);
}

#[test]
fn opcode_values_match_the_wire_nibbles() {
    assert_eq!(Opcode::Continuation.value(), 0);
    assert_eq!(Opcode::Text.value(), 1);
    assert_eq!(Opcode::Binary.value(), 2);
    assert_eq!(Opcode::ConnectionClose.value(), 8);
    assert_eq!(Opcode::Ping.value(), 9);
    assert_eq!(Opcode::Pong.value(), 10);
    assert!(Opcode::Ping.is_control());
    assert!(!Opcode::Text.is_control());
    assert_eq!(Opcode::from_nibble(0x8), Some(Opcode::ConnectionClose));
    assert_eq!(Opcode::from_nibble(0x5), None);
}
