use wsengine::connection::{Connection, ConnectionState, Output};
use wsengine::frame::CloseCode;
use wsengine::handshake::handshake_response;
use wsengine::http::parse_http_header;
use wsengine::packet::Packet;

const UPGRADE_REQUEST: &[u8] = b"GET /chat HTTP/1.1\r\n\
Host: example.com\r\n\
Upgrade: websocket\r\n\
Connection: Upgrade\r\n\
Sec-WebSocket-Key: dGhlIHNhbXBsZSBub25jZQ==\r\n\
Sec-WebSocket-Version: 13\r\n\
\r\n";

/// A client-side encoding of one frame: mask bit set, payload XOR-masked.
fn masked_frame(opcode: u8, fin: bool, payload: &[u8], key: [u8; 4]) -> Vec<u8> {
    let mut out = Vec::new();
    out.push(if fin { 0x80 | opcode } else { opcode });
    let n = payload.len();
    if n < 126 {
        out.push(0x80 | n as u8);
    } else {
        assert!(n < 0x10000);
        out.push(0x80 | 126);
        out.push((n / 256) as u8);
        out.push((n % 256) as u8);
    }
    out.extend_from_slice(&key);
    for (i, b) in payload.iter().enumerate() {
        out.push(b ^ key[i % 4]);
    }
    out
}

/// A connection that has completed its handshake.
fn connected() -> Connection {
    let mut c = Connection::new();
    let r = c.feed(UPGRADE_REQUEST);
    assert!(!r.done);
    assert!(matches!(c.state(), ConnectionState::WaitingForFrames));
    c
}

fn text_messages(outputs: &[Output]) -> Vec<String> {
    outputs
        .iter()
        .filter_map(|o| match o {
            Output::Message(m) => Some(m.string.clone()),
            _ => None,
        })
        .collect()
}

#[test]
fn handshake_vector_yields_rfc_accept_value() {
    let (response, parsed) = handshake_response(UPGRADE_REQUEST);
    assert!(parsed.is_some());
    let text = String::from_utf8(response.as_vec()).unwrap();
    assert!(text.starts_with("HTTP/1.1 101 Switching Protocols\r\n"));
    assert!(text.contains("Sec-WebSocket-Accept: s3pPLMBiTxaQ9kYGzzhZRbK+xOo=\r\n"));
    assert!(text.contains("Upgrade: websocket\r\n"));
    assert!(text.ends_with("\r\n\r\n"));
}

#[test]
fn handshake_without_valid_key_is_rejected() {
    let (response, parsed) = handshake_response(b"GET / HTTP/1.1\r\nHost: x\r\n\r\n");
    assert!(parsed.is_none());
    let text = String::from_utf8(response.as_vec()).unwrap();
    assert!(text.starts_with("HTTP/1.1 400 Bad Request\r\n"));
    // A key of the wrong length is rejected too.
    let (short, parsed2) =
        handshake_response(b"GET / HTTP/1.1\r\nSec-WebSocket-Key: abc\r\n\r\n");
    assert!(parsed2.is_none());
    assert_eq!(short.status_code, 400);
}

#[test]
fn engine_answers_handshake_and_enters_frame_stage() {
    let mut c = Connection::new();
    let r = c.feed(UPGRADE_REQUEST);
    assert!(!r.done);
    assert_eq!(r.outputs.len(), 1);
    match &r.outputs[0] {
        Output::Send(bytes) => {
            let text = String::from_utf8(bytes.clone()).unwrap();
            assert!(text.contains("s3pPLMBiTxaQ9kYGzzhZRbK+xOo="));
        }
        _ => panic!("expected an immediate handshake response"),
    }
    assert!(matches!(c.state(), ConnectionState::WaitingForFrames));
    assert!(c.request_header().is_some());
}

#[test]
fn bad_handshake_terminates_with_400() {
    let mut c = Connection::new();
    let r = c.feed(b"GET / HTTP/1.1\r\nHost: x\r\n\r\n");
    assert!(r.done);
    match &r.outputs[0] {
        Output::Send(bytes) => {
            assert!(String::from_utf8(bytes.clone()).unwrap().starts_with("HTTP/1.1 400"));
        }
        _ => panic!("expected the 400 response"),
    }
    assert!(matches!(c.state(), ConnectionState::Disconnected));
}

#[test]
fn fragmented_text_reassembles_and_dispatches_once() {
    let mut c = connected();
    let key = [1u8, 2, 3, 4];
    let r1 = c.feed(&masked_frame(0x1, false, b"Hel", key));
    assert!(!r1.done);
    assert!(r1.outputs.is_empty());
    let r2 = c.feed(&masked_frame(0x0, false, b"lo ", key));
    assert!(r2.outputs.is_empty());
    let r3 = c.feed(&masked_frame(0x0, true, b"world", key));
    assert!(!r3.done);
    assert_eq!(text_messages(&r3.outputs), vec![String::from("Hello world")]);
    let events: Vec<&Packet> = r3
        .outputs
        .iter()
        .filter_map(|o| match o {
            Output::Event(p) => Some(p),
            _ => None,
        })
        .collect();
    assert_eq!(events.len(), 1);
}

#[test]
fn ping_between_fragments_answers_pong_and_keeps_message() {
    let mut c = connected();
    let key = [9u8, 9, 9, 9];
    let r1 = c.feed(&masked_frame(0x2, false, &[1, 2], key));
    assert!(r1.outputs.is_empty());
    // A ping interjected mid-message must not disturb the fragment buffer.
    let r2 = c.feed(&masked_frame(0x9, true, b"abc", key));
    assert!(!r2.done);
    let flushed = c.take_outgoing();
    assert_eq!(flushed, vec![vec![0x8A, 0x03, b'a', b'b', b'c']]);
    let r3 = c.feed(&masked_frame(0x0, true, &[3, 4], key));
    let bytes: Vec<&Vec<u8>> = r3
        .outputs
        .iter()
        .filter_map(|o| match o {
            Output::Bytes(b) => Some(b),
            _ => None,
        })
        .collect();
    assert_eq!(bytes, vec![&vec![1u8, 2, 3, 4]]);
}

#[test]
fn oversized_control_frame_closes_with_protocol_error() {
    let mut c = connected();
    let big = vec![0u8; 126];
    let r = c.feed(&masked_frame(0x9, true, &big, [0, 0, 0, 0]));
    assert!(r.done);
    let flushed = c.take_outgoing();
    assert_eq!(flushed, vec![vec![0x88, 0x02, 0x03, 0xEA]]);
}

#[test]
fn continuation_without_start_closes_with_protocol_error() {
    let mut c = connected();
    let r = c.feed(&masked_frame(0x0, true, b"orphan", [0, 0, 0, 0]));
    assert!(r.done);
    let flushed = c.take_outgoing();
    assert_eq!(flushed, vec![vec![0x88, 0x02, 0x03, 0xEA]]);
}

#[test]
fn new_opcode_mid_fragment_closes_with_protocol_error() {
    let mut c = connected();
    let key = [7u8, 7, 7, 7];
    c.feed(&masked_frame(0x1, false, b"part", key));
    let r = c.feed(&masked_frame(0x1, true, b"fresh", key));
    assert!(r.done);
    assert_eq!(c.take_outgoing(), vec![vec![0x88, 0x02, 0x03, 0xEA]]);
}

#[test]
fn invalid_utf8_text_closes_with_invalid_data() {
    let mut c = connected();
    let r = c.feed(&masked_frame(0x1, true, &[0xFF, 0xFE], [0, 0, 0, 0]));
    assert!(r.done);
    assert_eq!(c.take_outgoing(), vec![vec![0x88, 0x02, 0x03, 0xEF]]);
}

#[test]
fn peer_close_is_echoed_and_ends_the_connection() {
    let mut c = connected();
    let r = c.feed(&masked_frame(0x8, true, &[0x03, 0xE8], [1, 1, 1, 1]));
    assert!(r.done);
    assert_eq!(r.outputs.len(), 2);
    assert!(matches!(&r.outputs[0], Output::Closed(CloseCode::Normal, s) if s.is_empty()));
    match &r.outputs[1] {
        Output::Send(echo) => assert_eq!(echo, &vec![0x88, 0x02, 0x03, 0xE8]),
        _ => panic!("expected the close echo"),
    }
    assert!(matches!(c.state(), ConnectionState::Disconnected));
}

#[test]
fn close_after_local_close_is_not_echoed_again() {
    let mut c = connected();
    c.close(CloseCode::Normal);
    assert!(matches!(c.state(), ConnectionState::CloseFromServer));
    // The queued close frame still flushes while closing from this side.
    assert_eq!(c.take_outgoing(), vec![vec![0x88, 0x02, 0x03, 0xE8]]);
    let r = c.feed(&masked_frame(0x8, true, &[0x03, 0xE8], [1, 1, 1, 1]));
    assert!(r.done);
    assert_eq!(r.outputs.len(), 1);
    assert!(matches!(&r.outputs[0], Output::Closed(CloseCode::Normal, _)));
    assert!(matches!(c.state(), ConnectionState::Disconnected));
}

#[test]
fn idle_timeout_pings_once_then_drops() {
    let mut c = connected();
    assert!(!c.waiting_for_pong());
    assert!(c.on_idle_timeout());
    assert!(c.waiting_for_pong());
    assert_eq!(c.take_outgoing(), vec![vec![0x89, 0x00]]);
    // A second idle timeout with the pong still owed is fatal.
    assert!(!c.on_idle_timeout());
    // A pong clears the flag and reading goes on.
    c.feed(&masked_frame(0xA, true, &[], [0, 0, 0, 0]));
    assert!(!c.waiting_for_pong());
    assert!(c.on_idle_timeout());
}

#[test]
fn read_timeout_tightens_while_closing() {
    let mut c = connected();
    assert_eq!(c.read_timeout_secs(), 60);
    c.close(CloseCode::Normal);
    assert_eq!(c.read_timeout_secs(), 2);
}

#[test]
fn split_reads_resume_at_the_byte_boundary() {
    let mut c = connected();
    let key = [3u8, 1, 4, 1];
    let wire = masked_frame(0x1, true, b"boundary", key);
    // One byte at a time: nothing is lost or reprocessed.
    let mut last = None;
    for b in &wire {
        last = Some(c.feed(&[*b]));
    }
    assert_eq!(text_messages(&last.unwrap().outputs), vec![String::from("boundary")]);
}

#[test]
fn fragments_may_split_inside_a_utf8_code_point() {
    let mut c = connected();
    let key = [1u8, 1, 2, 2];
    let bytes = "héllo".as_bytes();
    // The accent's two UTF-8 bytes are split across two fragments; decoding
    // happens only after reassembly.
    let r1 = c.feed(&masked_frame(0x1, false, &bytes[..2], key));
    assert!(r1.outputs.is_empty());
    let r2 = c.feed(&masked_frame(0x0, true, &bytes[2..], key));
    assert_eq!(text_messages(&r2.outputs), vec![String::from("héllo")]);
}

#[test]
fn two_frames_in_one_chunk_both_dispatch() {
    let mut c = connected();
    let key = [2u8, 4, 6, 8];
    let mut chunk = masked_frame(0x1, true, b"one", key);
    chunk.extend_from_slice(&masked_frame(0x1, true, b"two", key));
    let r = c.feed(&chunk);
    assert_eq!(
        text_messages(&r.outputs),
        vec![String::from("one"), String::from("two")]
    );
}

#[test]
fn send_queue_flushes_high_priority_first_in_fifo_order() {
    let mut c = connected();
    c.send_message(String::from("hi"));
    c.send_bytes(&vec![1u8, 2]);
    // A ping goes to the high-priority queue and jumps ahead.
    assert!(c.on_idle_timeout());
    let flushed = c.take_outgoing();
    assert_eq!(
        flushed,
        vec![
            vec![0x89, 0x00],
            vec![0x81, 0x02, b'h', b'i'],
            vec![0x82, 0x02, 1, 2],
        ]
    );
    assert!(c.take_outgoing().is_empty());
}

#[test]
fn queue_is_not_live_before_the_handshake() {
    let mut c = Connection::new();
    c.send_message(String::from("early"));
    assert!(c.take_outgoing().is_empty());
    c.feed(UPGRADE_REQUEST);
    assert_eq!(c.take_outgoing(), vec![vec![0x81, 5, b'e', b'a', b'r', b'l', b'y']]);
}

#[test]
fn local_close_queues_behind_pending_data() {
    let mut c = connected();
    c.send_message(String::from("bye"));
    c.close(CloseCode::Normal);
    let flushed = c.take_outgoing();
    assert_eq!(
        flushed,
        vec![vec![0x81, 3, b'b', b'y', b'e'], vec![0x88, 0x02, 0x03, 0xE8]]
    );
}

#[test]
fn emit_wraps_event_and_payload_in_the_envelope() {
    let mut c = connected();
    c.emit(String::from("a"), String::from("b"));
    assert_eq!(c.take_outgoing(), vec![vec![0x81, 3, b'a', b':', b'b']]);
}

#[test]
fn packet_envelope_splits_at_the_first_colon() {
    let p = Packet::from_string(String::from("chat:hello"));
    assert_eq!(p.event, "chat");
    assert_eq!(p.payload, "hello");
    let q = Packet::from_string(String::from("a:b:c"));
    assert_eq!(q.event, "a");
    assert_eq!(q.payload, "b:c");
    let bare = Packet::from_string(String::from("nodelimiter"));
    assert_eq!(bare.event, "nodelimiter");
    assert_eq!(bare.payload, "");
    assert_eq!(
        Packet::to_string(String::from("chat"), String::from("hello")),
        "chat:hello"
    );
}

#[test]
fn chat_message_dispatches_event_with_payload() {
    let mut c = connected();
    let r = c.feed(&masked_frame(0x1, true, b"chat:hello", [5, 4, 3, 2]));
    let events: Vec<(&str, &str)> = r
        .outputs
        .iter()
        .filter_map(|o| match o {
            Output::Event(p) => Some((p.event.as_str(), p.payload.as_str())),
            _ => None,
        })
        .collect();
    assert_eq!(events, vec![("chat", "hello")]);
}

#[test]
fn http_parser_lower_cases_names_and_trims_values() {
    let h = parse_http_header(b"GET / HTTP/1.1\r\nHost:   example.com\r\nX-A: b\r\n\r\n")
        .expect("head must parse");
    assert_eq!(h.request_line, b"GET / HTTP/1.1".to_vec());
    assert_eq!(h.get_field(b"host"), Some(&b"example.com".to_vec()));
    assert_eq!(h.get_field(b"x-a"), Some(&b"b".to_vec()));
    assert_eq!(h.get_field(b"absent"), None);
    assert!(parse_http_header(b"no terminator").is_err());
    assert!(parse_http_header(b"GET / HTTP/1.1\r\nbroken line\r\n\r\n").is_err());
}
