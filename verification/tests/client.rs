use line_client::client::{Client, ClientState, ConnectError, StopReason};
use line_client::decoder::{DecodeError, Line};

fn lines_to_bytes(lines: &[Line]) -> Vec<Vec<u8>> {
    lines.iter().map(|l| l.bytes.clone()).collect()
}

#[test]
fn connect_refused_stops_without_streaming() {
    let mut c = Client::new(1);
    c.start();
    assert_eq!(c.current_state(), ClientState::Connecting);
    c.on_connect_failed(ConnectError::Refused);
    assert_eq!(c.current_state(), ClientState::Stopped);
    assert_eq!(
        c.current_outcome(),
        Some(StopReason::ConnectFailed(ConnectError::Refused))
    );
    // The subscriber saw nothing: the client never entered Streaming.
    assert!(c.lines_received(0).is_empty());
}

#[test]
fn hello_world_session_ends_cleanly() {
    let mut c = Client::new(1);
    c.start();
    c.on_connect_ok();
    assert_eq!(c.current_state(), ClientState::Streaming);
    let batch = c.on_bytes(&b"hello\nworld\n".to_vec()).unwrap();
    assert_eq!(
        lines_to_bytes(&batch),
        vec![b"hello".to_vec(), b"world".to_vec()]
    );
    c.on_stream_end();
    assert_eq!(c.current_state(), ClientState::Stopped);
    assert_eq!(c.current_outcome(), Some(StopReason::EndOfStream));
    assert_eq!(
        lines_to_bytes(c.lines_received(0)),
        vec![b"hello".to_vec(), b"world".to_vec()]
    );
}

#[test]
fn empty_stream_yields_no_lines_and_clean_end() {
    let mut c = Client::new(1);
    c.start();
    c.on_connect_ok();
    c.on_stream_end();
    assert_eq!(c.current_state(), ClientState::Stopped);
    assert_eq!(c.current_outcome(), Some(StopReason::EndOfStream));
    assert!(c.lines_received(0).is_empty());
}

#[test]
fn only_terminators_yield_three_empty_lines() {
    let mut c = Client::new(1);
    c.start();
    c.on_connect_ok();
    let batch = c.on_bytes(&b"\n\n\n".to_vec()).unwrap();
    assert_eq!(
        lines_to_bytes(&batch),
        vec![Vec::new(), Vec::new(), Vec::new()]
    );
    c.on_stream_end();
    assert_eq!(c.current_outcome(), Some(StopReason::EndOfStream));
}

#[test]
fn partial_trailing_line_is_discarded() {
    let mut c = Client::new(1);
    c.start();
    c.on_connect_ok();
    c.on_bytes(&b"kept\nlost".to_vec()).unwrap();
    c.on_stream_end();
    assert_eq!(lines_to_bytes(c.lines_received(0)), vec![b"kept".to_vec()]);
}

#[test]
fn every_subscriber_sees_the_identical_sequence() {
    let mut c = Client::new(3);
    c.start();
    c.on_connect_ok();
    c.on_bytes(&b"one\ntwo\n".to_vec()).unwrap();
    c.on_bytes(&b"three\n".to_vec()).unwrap();
    c.on_stream_end();
    let expected = vec![b"one".to_vec(), b"two".to_vec(), b"three".to_vec()];
    for i in 0..c.num_subscribers() {
        assert_eq!(lines_to_bytes(c.lines_received(i)), expected);
    }
}

#[test]
fn zero_subscribers_cause_no_error() {
    let mut c = Client::new(0);
    c.start();
    c.on_connect_ok();
    let batch = c.on_bytes(&b"nobody listens\n".to_vec()).unwrap();
    assert_eq!(lines_to_bytes(&batch), vec![b"nobody listens".to_vec()]);
    c.on_stream_end();
    assert_eq!(c.current_outcome(), Some(StopReason::EndOfStream));
}

#[test]
fn subscribing_before_start_registers_in_order() {
    let mut c = Client::new(0);
    assert_eq!(c.subscribe(), 0);
    assert_eq!(c.subscribe(), 1);
    c.start();
    c.on_connect_ok();
    c.on_bytes(&b"shared\n".to_vec()).unwrap();
    assert_eq!(lines_to_bytes(c.lines_received(0)), vec![b"shared".to_vec()]);
    assert_eq!(lines_to_bytes(c.lines_received(1)), vec![b"shared".to_vec()]);
}

#[test]
fn read_error_stops_with_decode_failure() {
    let mut c = Client::new(1);
    c.start();
    c.on_connect_ok();
    c.on_bytes(&b"seen\n".to_vec()).unwrap();
    c.on_read_error();
    assert_eq!(c.current_state(), ClientState::Stopped);
    assert_eq!(
        c.current_outcome(),
        Some(StopReason::DecodeFailed(DecodeError::Io))
    );
    // Lines delivered before the failure stay delivered.
    assert_eq!(lines_to_bytes(c.lines_received(0)), vec![b"seen".to_vec()]);
}

#[test]
fn oversized_line_stops_the_client() {
    let mut c = Client::with_max_line_len(1, 8);
    c.start();
    c.on_connect_ok();
    let r = c.on_bytes(&b"0123456789abcdef\n".to_vec());
    assert_eq!(r, Err(DecodeError::LineTooLong));
    assert_eq!(c.current_state(), ClientState::Stopped);
    assert_eq!(
        c.current_outcome(),
        Some(StopReason::DecodeFailed(DecodeError::LineTooLong))
    );
    assert!(c.lines_received(0).is_empty());
}
