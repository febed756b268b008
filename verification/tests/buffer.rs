use multra::buffer::{
    match_boundary_suffix, match_padding_and_crlf, partial_boundary_suffix_len,
};
use multra::bytes::Bytes;
use multra::{BoundaryMatch, Error, PollStep, StreamBuffer, StreamEvent};

fn filled(data: &[u8], eof: bool) -> StreamBuffer {
    let mut buf = StreamBuffer::new(u64::MAX);
    assert_eq!(
        buf.poll_stream(StreamEvent::Data(Bytes::copy_from_slice(data))).unwrap(),
        if data.is_empty() { PollStep::Again } else { PollStep::Wake }
    );
    if eof {
        assert_eq!(buf.poll_stream(StreamEvent::End).unwrap(), PollStep::Done);
    }
    buf
}

fn held(buf: &mut StreamBuffer) -> Vec<u8> {
    let n = buf.peek_exact(usize::MAX).map(|s| s.len());
    assert!(n.is_none());
    let mut len = 0;
    while buf.peek_exact(len + 1).is_some() {
        len += 1;
    }
    buf.peek_exact(len).unwrap().to_vec()
}

#[test]
fn matches_the_end_of_a_boundary_line() {
    assert_eq!(match_boundary_suffix(b"X\r\n", 1, false), BoundaryMatch::Valid);
    assert_eq!(match_boundary_suffix(b"X  \t\r\nabc", 1, false), BoundaryMatch::Valid);
    assert_eq!(match_boundary_suffix(b"X--\r\n", 1, false), BoundaryMatch::Valid);
    assert_eq!(match_boundary_suffix(b"X--", 1, true), BoundaryMatch::Valid);
    assert_eq!(match_boundary_suffix(b"X--  ", 1, true), BoundaryMatch::Valid);
    assert_eq!(match_boundary_suffix(b"X--", 1, false), BoundaryMatch::Partial);
    assert_eq!(match_boundary_suffix(b"X", 1, false), BoundaryMatch::Partial);
    assert_eq!(match_boundary_suffix(b"X", 1, true), BoundaryMatch::Invalid);
    assert_eq!(match_boundary_suffix(b"X-", 1, false), BoundaryMatch::Partial);
    assert_eq!(match_boundary_suffix(b"X-", 1, true), BoundaryMatch::Invalid);
    assert_eq!(match_boundary_suffix(b"X-x", 1, false), BoundaryMatch::Invalid);
    assert_eq!(match_boundary_suffix(b"X\r", 1, false), BoundaryMatch::Partial);
    assert_eq!(match_boundary_suffix(b"X\r", 1, true), BoundaryMatch::Invalid);
    assert_eq!(match_boundary_suffix(b"Xabc", 1, false), BoundaryMatch::Invalid);
    assert_eq!(match_padding_and_crlf(b"  ", true, false), BoundaryMatch::Invalid);
    assert_eq!(match_padding_and_crlf(b"  ", true, true), BoundaryMatch::Valid);
    assert_eq!(match_padding_and_crlf(b"\r\r", false, true), BoundaryMatch::Invalid);
}

#[test]
fn keeps_back_a_possible_start_of_the_boundary() {
    assert_eq!(partial_boundary_suffix_len(b"data\r\n--X", b"\r\n--XY"), 5);
    assert_eq!(partial_boundary_suffix_len(b"data\r", b"\r\n--XY"), 1);
    assert_eq!(partial_boundary_suffix_len(b"data", b"\r\n--XY"), 0);
    // never the whole boundary
    assert_eq!(partial_boundary_suffix_len(b"\r\n--XY", b"\r\n--XY"), 0);
    assert_eq!(partial_boundary_suffix_len(b"\r", b"\r\n--XY"), 1);
    assert_eq!(partial_boundary_suffix_len(b"abc", b""), 0);
}

#[test]
fn reads_field_data_up_to_a_complete_boundary() {
    let mut buf = filled(b"hello\r\n--XY\r\nnext", false);
    let (complete, data) = buf.read_field_data(b"\r\n--XY", Some("f")).unwrap().unwrap();
    assert!(complete);
    assert_eq!(&data[..], b"hello");
    assert_eq!(held(&mut buf), b"--XY\r\nnext".to_vec());
}

#[test]
fn reads_field_data_before_an_unfinished_boundary() {
    let mut buf = filled(b"hello\r\n--XY", false);
    let (complete, data) = buf.read_field_data(b"\r\n--XY", None).unwrap().unwrap();
    assert!(!complete);
    assert_eq!(&data[..], b"hello");
    assert_eq!(held(&mut buf), b"\r\n--XY".to_vec());
    assert_eq!(buf.read_field_data(b"\r\n--XY", None), Ok(None));
}

#[test]
fn reads_field_data_keeping_back_a_partial_boundary() {
    let mut buf = filled(b"hello\r\n--", false);
    let (complete, data) = buf.read_field_data(b"\r\n--XY", None).unwrap().unwrap();
    assert!(!complete);
    assert_eq!(&data[..], b"hello");
    assert_eq!(held(&mut buf), b"\r\n--".to_vec());
    assert_eq!(buf.read_field_data(b"\r\n--XY", None), Ok(None));
}

#[test]
fn field_data_errors() {
    let mut buf = filled(b"", true);
    assert_eq!(
        buf.read_field_data(b"\r\n--XY", Some("f")),
        Err(Error::IncompleteFieldData { field_name: Some("f".to_owned()) })
    );
    let mut buf = filled(b"abc", true);
    assert_eq!(
        buf.read_field_data(b"\r\n--XY", None),
        Err(Error::IncompleteFieldData { field_name: None })
    );
    let mut buf = filled(b"abc\r\n--XYzz", false);
    assert_eq!(buf.read_field_data(b"\r\n--XY", None), Err(Error::IncompleteStream));
    let mut buf = filled(b"", false);
    assert_eq!(buf.read_field_data(b"\r\n--XY", None), Ok(None));
}

#[test]
fn reads_and_peeks_exact_sizes() {
    let mut buf = filled(b"abcdef", false);
    assert_eq!(buf.peek_exact(2), Some(&b"ab"[..]));
    assert_eq!(buf.peek_exact(7), None);
    assert_eq!(&buf.read_exact(2).unwrap()[..], b"ab");
    assert!(buf.read_exact(5).is_none());
    assert_eq!(&buf.read_until(b"d").unwrap()[..], b"cd");
    assert!(buf.read_until(b"zz").is_none());
    assert_eq!(&buf.read_to(b"f").unwrap()[..], b"e");
    assert_eq!(held(&mut buf), b"f".to_vec());
}

#[test]
fn skips_transport_padding() {
    let mut buf = filled(b" \t x", false);
    assert!(buf.advance_past_transport_padding());
    assert_eq!(held(&mut buf), b"x".to_vec());
    let mut buf = filled(b" \t ", false);
    assert!(!buf.advance_past_transport_padding());
    assert_eq!(held(&mut buf), Vec::<u8>::new());
}

#[test]
fn polls_count_the_stream_against_its_limit() {
    let mut buf = StreamBuffer::new(5);
    assert_eq!(buf.poll_stream(StreamEvent::Data(Bytes::from_static(b"abc"))), Ok(PollStep::Wake));
    assert_eq!(buf.poll_stream(StreamEvent::Data(Bytes::new())), Ok(PollStep::Again));
    assert_eq!(buf.poll_stream(StreamEvent::Pending), Ok(PollStep::Done));
    assert_eq!(
        buf.poll_stream(StreamEvent::Data(Bytes::from_static(b"def"))),
        Err(Error::StreamSizeExceeded { limit: 5 })
    );
    assert_eq!(buf.stream_size_counter, 6);
    assert_eq!(held(&mut buf), b"abc".to_vec());
    assert_eq!(
        buf.poll_stream(StreamEvent::Failed(Error::LockFailure)),
        Err(Error::LockFailure)
    );
    assert!(!buf.eof);
    assert_eq!(buf.poll_stream(StreamEvent::End), Ok(PollStep::Done));
    assert!(buf.eof);
}

#[test]
fn boundary_decisions_before_the_end_are_final() {
    for more in [&b""[..], b"x", b"\r\n", b"--"] {
        let mut valid = b"X \r\n".to_vec();
        valid.extend_from_slice(more);
        assert_eq!(match_boundary_suffix(&valid, 1, false), BoundaryMatch::Valid);
        assert_eq!(match_boundary_suffix(&valid, 1, true), BoundaryMatch::Valid);
        let mut invalid = b"X-x".to_vec();
        invalid.extend_from_slice(more);
        assert_eq!(match_boundary_suffix(&invalid, 1, false), BoundaryMatch::Invalid);
        assert_eq!(match_boundary_suffix(&invalid, 1, true), BoundaryMatch::Invalid);
    }
    // what is still open can be completed
    assert_eq!(match_boundary_suffix(b"X-", 1, false), BoundaryMatch::Partial);
    assert_eq!(match_boundary_suffix(b"X--\r\n", 1, false), BoundaryMatch::Valid);
    assert_eq!(match_boundary_suffix(b"X--  \r", 1, false), BoundaryMatch::Partial);
    assert_eq!(match_boundary_suffix(b"X--  \r\n", 1, false), BoundaryMatch::Valid);
}

#[test]
fn nothing_is_taken_in_after_the_end() {
    let mut buf = filled(b"ab", true);
    assert_eq!(buf.poll_stream(StreamEvent::Data(Bytes::from_static(b"cd"))), Ok(PollStep::Done));
    assert_eq!(buf.poll_stream(StreamEvent::Failed(Error::LockFailure)), Ok(PollStep::Done));
    assert_eq!(buf.stream_size_counter, 2);
    assert_eq!(held(&mut buf), b"ab".to_vec());
    assert!(buf.eof);
}
