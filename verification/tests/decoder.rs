use line_client::decoder::{encode_lines, DecodeError, Line, LineDecoder};

fn lines_to_bytes(lines: &[Line]) -> Vec<Vec<u8>> {
    lines.iter().map(|l| l.bytes.clone()).collect()
}

#[test]
fn segments_emitted_remainder_discarded() {
    let mut d = LineDecoder::new();
    let got = d.push(&b"alpha\nbeta\ngamma".to_vec()).unwrap();
    assert_eq!(
        lines_to_bytes(&got),
        vec![b"alpha".to_vec(), b"beta".to_vec()]
    );
    // The unterminated remainder is never emitted: the stream simply ends.
    let more = d.push(&b"".to_vec()).unwrap();
    assert!(more.is_empty());
}

#[test]
fn crlf_terminator_stripped() {
    let mut d = LineDecoder::new();
    let got = d.push(&b"alpha\r\nbeta\r\n".to_vec()).unwrap();
    assert_eq!(lines_to_bytes(&got), vec![b"alpha".to_vec(), b"beta".to_vec()]);
}

#[test]
fn carriage_return_inside_line_is_kept() {
    let mut d = LineDecoder::new();
    let got = d.push(&b"al\rpha\n".to_vec()).unwrap();
    assert_eq!(lines_to_bytes(&got), vec![b"al\rpha".to_vec()]);
}

#[test]
fn empty_chunk_yields_nothing() {
    let mut d = LineDecoder::new();
    let got = d.push(&Vec::new()).unwrap();
    assert!(got.is_empty());
}

#[test]
fn only_terminators_yield_empty_lines() {
    let mut d = LineDecoder::new();
    let got = d.push(&b"\n\n\n".to_vec()).unwrap();
    assert_eq!(
        lines_to_bytes(&got),
        vec![Vec::new(), Vec::new(), Vec::new()]
    );
}

#[test]
fn empty_line_between_terminators_is_emitted() {
    let mut d = LineDecoder::new();
    let got = d.push(&b"alpha\n\nbeta\n".to_vec()).unwrap();
    assert_eq!(
        lines_to_bytes(&got),
        vec![b"alpha".to_vec(), Vec::new(), b"beta".to_vec()]
    );
}

#[test]
fn chunk_boundaries_do_not_matter() {
    let mut d = LineDecoder::new();
    let mut got = Vec::new();
    for chunk in [&b"he"[..], &b"llo\nwo"[..], &b"rld\n"[..]] {
        got.extend(d.push(&chunk.to_vec()).unwrap());
    }
    assert_eq!(lines_to_bytes(&got), vec![b"hello".to_vec(), b"world".to_vec()]);
}

#[test]
fn line_at_the_bound_is_accepted() {
    let mut d = LineDecoder::with_max_length(4);
    let got = d.push(&b"abcd\nef\n".to_vec()).unwrap();
    assert_eq!(lines_to_bytes(&got), vec![b"abcd".to_vec(), b"ef".to_vec()]);
}

#[test]
fn line_past_the_bound_is_an_error() {
    let mut d = LineDecoder::with_max_length(4);
    assert_eq!(
        d.push(&b"abcdef\n".to_vec()),
        Err(DecodeError::LineTooLong)
    );
}

#[test]
fn bound_overrun_across_chunks_is_an_error() {
    let mut d = LineDecoder::with_max_length(4);
    assert!(d.push(&b"abc".to_vec()).is_ok());
    assert_eq!(d.push(&b"de".to_vec()), Err(DecodeError::LineTooLong));
}

#[test]
fn encode_joins_with_terminators() {
    let lines = vec![
        Line { bytes: b"hello".to_vec() },
        Line { bytes: b"world".to_vec() },
    ];
    assert_eq!(encode_lines(&lines), b"hello\nworld\n".to_vec());
}

#[test]
fn encode_of_nothing_is_empty() {
    assert_eq!(encode_lines(&Vec::new()), Vec::<u8>::new());
}

#[test]
fn encode_then_decode_round_trips() {
    let originals = vec![
        b"one".to_vec(),
        b"".to_vec(),
        b"three".to_vec(),
    ];
    let lines: Vec<Line> = originals
        .iter()
        .map(|b| Line { bytes: b.clone() })
        .collect();
    let wire = encode_lines(&lines);
    let mut d = LineDecoder::new();
    let got = d.push(&wire).unwrap();
    assert_eq!(lines_to_bytes(&got), originals);
}
