use eventframe::codec::{decode_step, decode_stream, encode_frame, FramingError, Reader, StepResult};
use eventframe::server::Server;

fn frame(topic: &str, payload: &[u8]) -> Vec<u8> {
    let mut out = Vec::new();
    out.extend_from_slice(topic.as_bytes());
    out.push(b'\n');
    out.extend_from_slice(&(payload.len() as u32).to_be_bytes());
    out.extend_from_slice(payload);
    out
}

#[test]
fn scenario_orders_hello() {
    let mut input = b"orders\n".to_vec();
    input.extend_from_slice(&[0x00, 0x00, 0x00, 0x05]);
    input.extend_from_slice(b"hello");
    let (events, err) = decode_stream(&input, 1024);
    assert_eq!(events.len(), 1);
    assert_eq!(events[0].topic().as_str(), "orders");
    assert_eq!(events[0].payload().as_slice(), b"hello");
    assert_eq!(err, None);
}

#[test]
fn scenario_zero_length_payload_is_valid() {
    let mut input = b"orders\n".to_vec();
    input.extend_from_slice(&[0x00, 0x00, 0x00, 0x00]);
    let (events, err) = decode_stream(&input, 1024);
    assert_eq!(events.len(), 1);
    assert_eq!(events[0].topic().as_str(), "orders");
    assert_eq!(events[0].payload().len(), 0);
    assert_eq!(err, None);
}

#[test]
fn encode_frame_exact_bytes() {
    let encoded = encode_frame("orders", b"hello");
    let mut expected = b"orders\n".to_vec();
    expected.extend_from_slice(&[0x00, 0x00, 0x00, 0x05]);
    expected.extend_from_slice(b"hello");
    assert_eq!(encoded, expected);
}

#[test]
fn round_trip_topic_and_payload() {
    let encoded = encode_frame("metrics/cpu", &[0, 159, 146, 150]);
    let (events, err) = decode_stream(&encoded, 1024);
    assert_eq!(events.len(), 1);
    assert_eq!(events[0].topic().as_str(), "metrics/cpu");
    assert_eq!(events[0].payload().as_slice(), &[0, 159, 146, 150]);
    assert_eq!(err, None);
}

#[test]
fn round_trip_non_ascii_topic() {
    let encoded = encode_frame("zähler/温度", b"x");
    let (events, err) = decode_stream(&encoded, 1024);
    assert_eq!(events.len(), 1);
    assert_eq!(events[0].topic().as_str(), "zähler/温度");
    assert_eq!(err, None);
}

#[test]
fn incomplete_length_on_early_close() {
    let input = b"orders\n\x00\x00".to_vec();
    let (events, err) = decode_stream(&input, 1024);
    assert_eq!(events.len(), 0);
    assert_eq!(err, Some(FramingError::IncompleteLength));
}

#[test]
fn incomplete_length_on_close_right_after_topic() {
    let (events, err) = decode_stream(b"orders\n", 1024);
    assert_eq!(events.len(), 0);
    assert_eq!(err, Some(FramingError::IncompleteLength));
}

#[test]
fn incomplete_payload_on_early_close() {
    let mut input = b"orders\n".to_vec();
    input.extend_from_slice(&[0x00, 0x00, 0x00, 0x05]);
    input.extend_from_slice(b"hel");
    let (events, err) = decode_stream(&input, 1024);
    assert_eq!(events.len(), 0);
    assert_eq!(err, Some(FramingError::IncompletePayload));
}

#[test]
fn pipelined_frames_decode_in_order() {
    let mut input = frame("orders", b"hello");
    input.extend_from_slice(&frame("billing", b"world!"));
    let (events, err) = decode_stream(&input, 1024);
    assert_eq!(events.len(), 2);
    assert_eq!(events[0].topic().as_str(), "orders");
    assert_eq!(events[0].payload().as_slice(), b"hello");
    assert_eq!(events[1].topic().as_str(), "billing");
    assert_eq!(events[1].payload().as_slice(), b"world!");
    assert_eq!(err, None);
}

#[test]
fn topic_too_long_without_delimiter() {
    let input = vec![b'a'; 2000];
    let (events, err) = decode_stream(&input, 1024);
    assert_eq!(events.len(), 0);
    assert_eq!(err, Some(FramingError::TopicTooLong));
}

#[test]
fn topic_of_exactly_capacity_fails() {
    // 1023 topic bytes plus the newline need a 1025-byte line; with the
    // newline as byte 1025 it falls outside a capacity of 1024.
    let mut input = vec![b'a'; 1024];
    input.push(b'\n');
    input.extend_from_slice(&[0x00, 0x00, 0x00, 0x00]);
    let (events, err) = decode_stream(&input, 1024);
    assert_eq!(events.len(), 0);
    assert_eq!(err, Some(FramingError::TopicTooLong));
}

#[test]
fn newline_on_last_capacity_byte_is_accepted() {
    let mut input = vec![b'a'; 1023];
    input.push(b'\n');
    input.extend_from_slice(&[0x00, 0x00, 0x00, 0x00]);
    let (events, err) = decode_stream(&input, 1024);
    assert_eq!(events.len(), 1);
    assert_eq!(events[0].topic().len(), 1023);
    assert_eq!(err, None);
}

#[test]
fn invalid_topic_encoding() {
    let mut input = vec![0xff, 0xfe];
    input.push(b'\n');
    input.extend_from_slice(&[0x00, 0x00, 0x00, 0x00]);
    let (events, err) = decode_stream(&input, 1024);
    assert_eq!(events.len(), 0);
    assert_eq!(err, Some(FramingError::InvalidTopicEncoding));
}

#[test]
fn clean_close_yields_nothing() {
    let (events, err) = decode_stream(b"", 1024);
    assert_eq!(events.len(), 0);
    assert_eq!(err, None);
}

#[test]
fn trailing_crlf_is_stripped() {
    let mut input = b"orders\r\n".to_vec();
    input.extend_from_slice(&[0x00, 0x00, 0x00, 0x00]);
    let (events, err) = decode_stream(&input, 1024);
    assert_eq!(events.len(), 1);
    assert_eq!(events[0].topic().as_str(), "orders");
    assert_eq!(err, None);
}

#[test]
fn topic_ending_in_cr_loses_it() {
    // The decoder strips every trailing carriage return, so a topic that
    // itself ends in one does not survive a round trip unchanged.
    let encoded = encode_frame("orders\r", b"");
    let (events, err) = decode_stream(&encoded, 1024);
    assert_eq!(events.len(), 1);
    assert_eq!(events[0].topic().as_str(), "orders");
    assert_eq!(err, None);
}

#[test]
fn decode_step_waits_while_stream_open() {
    match decode_step(b"orders\n\x00\x00", false, 1024) {
        StepResult::NeedMore => {}
        _ => panic!("an open stream with a half-read length must wait"),
    }
}

#[test]
fn reader_decodes_frames_fed_in_pieces() {
    let mut reader = Reader::new(1024);
    reader.feed(b"orders\n\x00\x00");
    match reader.poll(false) {
        StepResult::NeedMore => {}
        _ => panic!("half a length prefix is not decidable on an open stream"),
    }
    reader.feed(b"\x00\x05hel");
    match reader.poll(false) {
        StepResult::NeedMore => {}
        _ => panic!("half a payload is not decidable on an open stream"),
    }
    reader.feed(b"lo");
    match reader.poll(false) {
        StepResult::Frame { event, used } => {
            assert_eq!(event.topic().as_str(), "orders");
            assert_eq!(event.payload().as_slice(), b"hello");
            assert_eq!(used, 16);
        }
        _ => panic!("a whole frame must decode"),
    }
    match reader.poll(true) {
        StepResult::Closed => {}
        _ => panic!("nothing is pending after the only frame"),
    }
}

#[test]
fn reader_reports_incomplete_payload_at_close() {
    let mut reader = Reader::new(1024);
    reader.feed(b"orders\n\x00\x00\x00\x05hel");
    match reader.poll(false) {
        StepResult::NeedMore => {}
        _ => panic!("an open stream may still complete the payload"),
    }
    match reader.poll(true) {
        StepResult::Fail { err } => assert_eq!(err, FramingError::IncompletePayload),
        _ => panic!("a closed stream with a short payload must fail"),
    }
}

#[test]
fn interleaved_connections_stay_isolated() {
    // Two connections arrive interleaved chunk by chunk; each reader owns
    // its own buffer, so neither stream corrupts the other's events.
    let mut first = Reader::new(1024);
    let mut second = Reader::new(1024);
    let frame_a = frame("orders", b"hello");
    let frame_b = frame("billing", b"world");
    first.feed(&frame_a[..3]);
    second.feed(&frame_b[..5]);
    first.feed(&frame_a[3..]);
    second.feed(&frame_b[5..]);
    match first.poll(false) {
        StepResult::Frame { event, .. } => {
            assert_eq!(event.topic().as_str(), "orders");
            assert_eq!(event.payload().as_slice(), b"hello");
        }
        _ => panic!("the first connection holds a whole frame"),
    }
    match second.poll(false) {
        StepResult::Frame { event, .. } => {
            assert_eq!(event.topic().as_str(), "billing");
            assert_eq!(event.payload().as_slice(), b"world");
        }
        _ => panic!("the second connection holds a whole frame"),
    }
}

#[test]
fn three_pipelined_frames_stay_in_arrival_order() {
    let mut input = frame("a", b"1");
    input.extend_from_slice(&frame("b", b"2"));
    input.extend_from_slice(&frame("c", b"3"));
    let (events, err) = decode_stream(&input, 1024);
    assert_eq!(events.len(), 3);
    assert_eq!(events[0].topic().as_str(), "a");
    assert_eq!(events[1].topic().as_str(), "b");
    assert_eq!(events[2].topic().as_str(), "c");
    assert_eq!(err, None);
}

#[test]
fn events_before_a_failure_are_still_emitted() {
    let mut input = frame("orders", b"hello");
    input.extend_from_slice(&frame("billing", b"world"));
    input.extend_from_slice(b"truncated\n\x00\x00");
    let (events, err) = decode_stream(&input, 1024);
    assert_eq!(events.len(), 2);
    assert_eq!(events[0].topic().as_str(), "orders");
    assert_eq!(events[1].topic().as_str(), "billing");
    assert_eq!(err, Some(FramingError::IncompleteLength));
}

#[test]
fn server_new_keeps_address() {
    let server = Server::new("127.0.0.1:8080");
    assert_eq!(server.address.as_str(), "127.0.0.1:8080");
}

#[test]
fn large_declared_length_fails_on_short_stream() {
    let mut input = b"orders\n".to_vec();
    input.extend_from_slice(&[0xff, 0xff, 0xff, 0xff]);
    input.extend_from_slice(&[1, 2, 3]);
    let (events, err) = decode_stream(&input, 1024);
    assert_eq!(events.len(), 0);
    assert_eq!(err, Some(FramingError::IncompletePayload));
}
