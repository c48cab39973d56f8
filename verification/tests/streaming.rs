//! The buffered streaming reader: chunked arrival, trailing bytes, and the
//! end-of-stream decision.
use redis::connection::MAX_FRAME_BYTES;
use redis::{Frame, FrameBuffer, ReadOutcome};

fn sample_frame() -> Frame {
    Frame::Array(vec![
        Frame::Bulk(b"SET".to_vec()),
        Frame::Bulk(b"foo".to_vec()),
        Frame::Bulk(b"b\r\nr".to_vec()),
        Frame::Integer(-42),
        Frame::Null,
    ])
}

#[test]
fn test_whole_frame_in_one_chunk() {
    let frame = sample_frame();
    let mut buf = FrameBuffer::new();
    buf.feed(&frame.serialize());
    match buf.try_read_frame() {
        ReadOutcome::Frame(f) => assert_eq!(f, frame),
        other => panic!("expected a frame, got {:?}", other),
    }
    assert!(!buf.has_pending());
}

#[test]
fn test_split_feed_equivalence() {
    // Splitting the encoding at any position and feeding the halves in two
    // steps yields the same frame as feeding it whole.
    let frame = sample_frame();
    let encoded = frame.serialize();
    for cut in 0..encoded.len() {
        let mut buf = FrameBuffer::new();
        buf.feed(&encoded[..cut].to_vec());
        match buf.try_read_frame() {
            ReadOutcome::NeedMore => {},
            other => panic!("prefix of length {} gave {:?}", cut, other),
        }
        buf.feed(&encoded[cut..].to_vec());
        match buf.try_read_frame() {
            ReadOutcome::Frame(f) => assert_eq!(f, sample_frame()),
            other => panic!("whole encoding after cut {} gave {:?}", cut, other),
        }
        assert!(!buf.has_pending());
    }
}

#[test]
fn test_trailing_bytes_stay_pending() {
    let frame = Frame::Simple(b"OK".to_vec());
    let mut bytes = frame.serialize();
    bytes.extend_from_slice(b":17\r\n");
    let mut buf = FrameBuffer::new();
    buf.feed(&bytes);
    match buf.try_read_frame() {
        ReadOutcome::Frame(f) => assert_eq!(f, Frame::Simple(b"OK".to_vec())),
        other => panic!("expected a frame, got {:?}", other),
    }
    assert!(buf.has_pending());
    match buf.try_read_frame() {
        ReadOutcome::Frame(f) => assert_eq!(f, Frame::Integer(17)),
        other => panic!("expected the next frame, got {:?}", other),
    }
    assert!(!buf.has_pending());
}

#[test]
fn test_end_of_stream_decision() {
    // An empty buffer at end of stream is a clean close; pending bytes mean
    // the peer stopped mid-frame.
    let mut buf = FrameBuffer::new();
    assert!(!buf.has_pending());
    buf.feed(&b"+OK\r".to_vec());
    assert!(buf.has_pending());
    match buf.try_read_frame() {
        ReadOutcome::NeedMore => {},
        other => panic!("expected a request for more bytes, got {:?}", other),
    }
    assert!(buf.has_pending());
}

#[test]
fn test_short_array_then_missing_element() {
    // An array that announces three elements but supplies two asks for more
    // bytes without consuming any; the missing element completes it.
    let mut buf = FrameBuffer::new();
    buf.feed(&b"*3\r\n:0\r\n:1\r\n".to_vec());
    match buf.try_read_frame() {
        ReadOutcome::NeedMore => {},
        other => panic!("expected a request for more bytes, got {:?}", other),
    }
    buf.feed(&b":2\r\n".to_vec());
    match buf.try_read_frame() {
        ReadOutcome::Frame(f) => assert_eq!(
            f,
            Frame::Array(vec![Frame::Integer(0), Frame::Integer(1), Frame::Integer(2)])
        ),
        other => panic!("expected the whole array, got {:?}", other),
    }
    assert!(!buf.has_pending());
}

#[test]
fn test_corrupt_stream() {
    let mut buf = FrameBuffer::new();
    buf.feed(&b"what is this\r\n".to_vec());
    match buf.try_read_frame() {
        ReadOutcome::Corrupt => {},
        other => panic!("expected a corrupt stream report, got {:?}", other),
    }
}

#[test]
fn test_oversized_frame_reported() {
    // A frame still incomplete at the single-frame ceiling is flagged, so a
    // caller can drop the connection instead of buffering without bound.
    let mut input: Vec<u8> = b"$999999999\r\n".to_vec();
    input.resize(MAX_FRAME_BYTES, b'x');
    let mut buf = FrameBuffer::new();
    buf.feed(&input);
    assert!(!buf.over_limit());
    match buf.try_read_frame() {
        ReadOutcome::NeedMore => {},
        other => panic!("expected a request for more bytes, got {:?}", other),
    }
    buf.feed(&b"xx".to_vec());
    assert!(buf.over_limit());
}

#[test]
fn test_byte_by_byte_arrival() {
    let frame = sample_frame();
    let encoded = frame.serialize();
    let mut buf = FrameBuffer::new();
    for (i, b) in encoded.iter().enumerate() {
        if i + 1 < encoded.len() {
            buf.feed(&vec![*b]);
            match buf.try_read_frame() {
                ReadOutcome::NeedMore => {},
                other => panic!("after {} bytes got {:?}", i + 1, other),
            }
        } else {
            buf.feed(&vec![*b]);
        }
    }
    match buf.try_read_frame() {
        ReadOutcome::Frame(f) => assert_eq!(f, frame),
        other => panic!("expected a frame, got {:?}", other),
    }
}
