use suiro::codec::{
    encode_handshake, encode_request, event_message, DecodeEvent, Decoder,
};

fn b(s: &str) -> Vec<u8> {
    s.as_bytes().to_vec()
}

#[test]
fn codec_complete_frame_in_one_chunk() {
    let mut d = Decoder::new();
    let e = d.feed(&b("req-1:::5\n\n\nhello"));
    match e {
        DecodeEvent::Frame { id, payload } => {
            assert_eq!(id, b("req-1"));
            assert_eq!(payload, b("hello"));
        }
        _ => panic!("expected a complete frame"),
    }
}

#[test]
fn codec_fragmentation_three_reads() {
    let mut d = Decoder::new();
    let part1: Vec<u8> = vec![b'a'; 4000];
    let part2: Vec<u8> = vec![b'b'; 4000];
    let part3: Vec<u8> = vec![b'c'; 2000];

    let mut first = b("req-9:::10000\n\n\n");
    first.extend_from_slice(&part1);
    match d.feed(&first) {
        DecodeEvent::Pending => {}
        _ => panic!("first read must not emit"),
    }
    match d.feed(&part2) {
        DecodeEvent::Pending => {}
        _ => panic!("second read must not emit"),
    }
    match d.feed(&part3) {
        DecodeEvent::Frame { id, payload } => {
            assert_eq!(id, b("req-9"));
            assert_eq!(payload.len(), 10000);
            let mut expected = part1.clone();
            expected.extend_from_slice(&part2);
            expected.extend_from_slice(&part3);
            assert_eq!(payload, expected);
        }
        _ => panic!("third read must emit exactly the reassembled frame"),
    }
}

#[test]
fn codec_malformed_mid_frame_is_local() {
    let mut d = Decoder::new();
    match d.feed(&b("req-2:::10\n\n\nabc")) {
        DecodeEvent::Pending => {}
        _ => panic!("fragment start must not emit"),
    }
    let bad: Vec<u8> = vec![0xff, 0xfe, 0x80];
    match d.feed(&bad) {
        DecodeEvent::Malformed { pending_id } => assert_eq!(pending_id, b("req-2")),
        _ => panic!("invalid text mid-frame must report the pending id"),
    }
    match d.feed(&b("req-3:::2\n\n\nok")) {
        DecodeEvent::Frame { id, payload } => {
            assert_eq!(id, b("req-3"));
            assert_eq!(payload, b("ok"));
        }
        _ => panic!("the next frame must decode unharmed"),
    }
}

#[test]
fn codec_invalid_text_while_idle() {
    let mut d = Decoder::new();
    let bad: Vec<u8> = vec![0xc0, 0x00];
    match d.feed(&bad) {
        DecodeEvent::Malformed { pending_id } => assert_eq!(pending_id, b("")),
        _ => panic!("invalid text while idle must report an empty pending id"),
    }
}

#[test]
fn codec_header_without_separator() {
    let mut d = Decoder::new();
    match d.feed(&b("no separator here")) {
        DecodeEvent::Malformed { pending_id } => assert_eq!(pending_id, b("")),
        _ => panic!("a chunk without the separator must be malformed"),
    }
}

#[test]
fn codec_header_without_length() {
    let mut d = Decoder::new();
    match d.feed(&b("id-only\n\n\ndata")) {
        DecodeEvent::Malformed { pending_id } => assert_eq!(pending_id, b("")),
        _ => panic!("a header without ::: must be malformed"),
    }
}

#[test]
fn codec_header_with_bad_length() {
    let mut d = Decoder::new();
    match d.feed(&b("id:::12x\n\n\ndata")) {
        DecodeEvent::Malformed { pending_id } => assert_eq!(pending_id, b("")),
        _ => panic!("a non-decimal length must be malformed"),
    }
}

#[test]
fn codec_encode_request_renders_wire_text() {
    let msg = encode_request(
        &b("r1"),
        &b("GET"),
        &b("/x"),
        &b("HTTP/1.1"),
        &vec![(b("content-type"), b("text/plain"))],
        &b("hi"),
    );
    assert_eq!(
        msg,
        b("r1\nGET /x HTTP/1.1\nContent-Type: text/plain\n\nhi<<<EOF>>>")
    );
}

#[test]
fn codec_encode_request_without_body() {
    let msg = encode_request(
        &b("r2"),
        &b("PUT"),
        &b("/api/data"),
        &b("HTTP/1.1"),
        &vec![(b("host"), b("example")), (b("x-two-part"), b("v"))],
        &b(""),
    );
    assert_eq!(
        msg,
        b("r2\nPUT /api/data HTTP/1.1\nHost: example\nX-Two-Part: v\n<<<EOF>>>")
    );
}

#[test]
fn codec_header_casing_is_canonical() {
    let msg = encode_request(
        &b("r3"),
        &b("GET"),
        &b("/"),
        &b("HTTP/1.1"),
        &vec![(b("content-type"), b("text/plain")), (b("X-FOO-bar"), b("1"))],
        &b(""),
    );
    let text = String::from_utf8(msg).unwrap();
    assert!(text.contains("Content-Type: text/plain\n"));
    assert!(text.contains("X-Foo-Bar: 1\n"));
    assert!(!text.contains("content-type"));
}

#[test]
fn codec_handshake_bytes() {
    assert_eq!(encode_handshake(&b("ep-77")), b("connection\nep-77"));
}

#[test]
fn codec_event_message_maps_sentinel() {
    let m = event_message(DecodeEvent::Malformed { pending_id: b("r9") });
    assert_eq!(m, Some((b("r9"), b("EPACKFRAG"))));
    let m2 = event_message(DecodeEvent::Pending);
    assert_eq!(m2, None);
    let m3 = event_message(DecodeEvent::Frame { id: b("a"), payload: b("p") });
    assert_eq!(m3, Some((b("a"), b("p"))));
}
