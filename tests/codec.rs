use kvstore::codec::{decode, encode, Decoded, FrameBuffer};
use kvstore::frame::Frame;

fn sample_frames() -> Vec<Frame> {
    vec![
        Frame::Simple("OK".to_string()),
        Frame::Simple(String::new()),
        Frame::Error("ERR línea\r\n".to_string()),
        Frame::Integer(0),
        Frame::Integer(-1),
        Frame::Integer(i64::MIN),
        Frame::Integer(i64::MAX),
        Frame::Bulk(Vec::new()),
        Frame::Bulk(vec![0, 13, 10, 255]),
        Frame::Null,
        Frame::Array(Vec::new()),
        Frame::Array(vec![
            Frame::Bulk(b"GET".to_vec()),
            Frame::Array(vec![Frame::Null, Frame::Array(vec![Frame::Integer(7)])]),
            Frame::Bulk(Vec::new()),
        ]),
    ]
}

#[test]
fn round_trip_every_variant() {
    for f in sample_frames() {
        let bytes = encode(&f);
        let n = bytes.len();
        assert_eq!(decode(&bytes), Decoded::Frame(f, n));
    }
}

#[test]
fn round_trip_with_trailing_bytes() {
    let f = Frame::Array(vec![Frame::Simple("a".to_string()), Frame::Integer(42)]);
    let mut bytes = encode(&f);
    let n = bytes.len();
    bytes.extend_from_slice(&encode(&Frame::Null));
    assert_eq!(decode(&bytes), Decoded::Frame(f, n));
}

#[test]
fn every_proper_prefix_is_incomplete() {
    for f in sample_frames() {
        let bytes = encode(&f);
        for k in 0..bytes.len() {
            assert_eq!(decode(&bytes[..k]), Decoded::Incomplete);
        }
    }
}

#[test]
fn byte_at_a_time_through_buffer() {
    let f = Frame::Array(vec![Frame::Bulk(b"SET".to_vec()), Frame::Bulk(b"k".to_vec())]);
    let bytes = encode(&f);
    let mut buf = FrameBuffer::new();
    for (i, b) in bytes.iter().enumerate() {
        buf.receive(&[*b]);
        let r = buf.next_frame();
        if i + 1 < bytes.len() {
            assert_eq!(r, Decoded::Incomplete);
        } else {
            assert_eq!(r, Decoded::Frame(Frame::Array(vec![Frame::Bulk(b"SET".to_vec()), Frame::Bulk(b"k".to_vec())]), bytes.len()));
        }
    }
    assert_eq!(buf.next_frame(), Decoded::Incomplete);
}

#[test]
fn exact_bytes() {
    assert_eq!(encode(&Frame::Null), vec![95]);
    assert_eq!(encode(&Frame::Integer(1)), vec![58, 0, 0, 0, 0, 0, 0, 0, 1]);
    assert_eq!(encode(&Frame::Integer(-1)), vec![58, 255, 255, 255, 255, 255, 255, 255, 255]);
    assert_eq!(encode(&Frame::Integer(258)), vec![58, 0, 0, 0, 0, 0, 0, 1, 2]);
    assert_eq!(encode(&Frame::Bulk(b"ab".to_vec())), vec![36, 0, 0, 0, 0, 0, 0, 0, 2, 97, 98]);
    assert_eq!(encode(&Frame::Simple("é".to_string())), vec![43, 0, 0, 0, 0, 0, 0, 0, 2, 0xc3, 0xa9]);
    assert_eq!(
        encode(&Frame::Array(vec![Frame::Null])),
        vec![42, 0, 0, 0, 0, 0, 0, 0, 1, 95]
    );
}

#[test]
fn unknown_marker_is_invalid() {
    assert_eq!(decode(&[0u8, 1, 2]), Decoded::Invalid);
    assert_eq!(decode(b"GET"), Decoded::Invalid);
}

#[test]
fn text_that_is_not_utf8_is_invalid() {
    let bytes = vec![43u8, 0, 0, 0, 0, 0, 0, 0, 1, 0xff];
    assert_eq!(decode(&bytes), Decoded::Invalid);
}

#[test]
fn empty_input_is_incomplete() {
    assert_eq!(decode(&[]), Decoded::Incomplete);
}

#[test]
fn huge_declared_length_is_incomplete() {
    let bytes = vec![36u8, 255, 255, 255, 255, 255, 255, 255, 255, 1, 2];
    assert_eq!(decode(&bytes), Decoded::Incomplete);
    let arr = vec![42u8, 255, 255, 255, 255, 255, 255, 255, 255, 95, 95];
    assert_eq!(decode(&arr), Decoded::Incomplete);
}

#[test]
fn invalid_input_is_dropped_from_buffer() {
    let mut buf = FrameBuffer::new();
    buf.receive(&[7, 7, 7]);
    assert_eq!(buf.next_frame(), Decoded::Invalid);
    buf.receive(&encode(&Frame::Null));
    assert_eq!(buf.next_frame(), Decoded::Frame(Frame::Null, 1));
}
