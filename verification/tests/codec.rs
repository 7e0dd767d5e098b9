use std::io::ErrorKind;
use tcp_tunnel::codec::{is_first_frame_truncated, CodecError, TunnelCodec};
use tcp_tunnel::frame::FramingErrorKind;
use tcp_tunnel::message::{DispatcherMessage, DispatcherTunnelMessage};

fn close(id: u32) -> DispatcherTunnelMessage {
    DispatcherTunnelMessage { id, payload: DispatcherMessage::CloseConnection }
}

fn data(id: u32, bytes: &[u8], seq: u32) -> DispatcherTunnelMessage {
    DispatcherTunnelMessage { id, payload: DispatcherMessage::IncomingData(bytes.to_vec(), seq) }
}

fn encode(msg: DispatcherTunnelMessage) -> Vec<u8> {
    let mut codec = TunnelCodec::new();
    let mut out = Vec::new();
    codec.encode(msg, &mut out).unwrap();
    out
}

#[test]
fn encode_close_frame() {
    assert_eq!(encode(close(7)), vec![0, 0, 0, 4, 0, 0, 0, 0, 7, 0, 0, 0, 0]);
}

#[test]
fn encode_data_frame() {
    assert_eq!(
        encode(data(0x0102_0304, &[0xaa, 0xbb], 5)),
        vec![0, 0, 0, 6, 1, 1, 2, 3, 4, 0, 0, 0, 5, 0xaa, 0xbb]
    );
}

#[test]
fn encode_appends_to_existing_bytes() {
    let mut codec = TunnelCodec::new();
    let mut out = vec![9, 9];
    codec.encode(close(1), &mut out).unwrap();
    codec.encode(data(2, &[], 3), &mut out).unwrap();
    assert_eq!(
        out,
        vec![9, 9, 0, 0, 0, 4, 0, 0, 0, 0, 1, 0, 0, 0, 0, 0, 0, 0, 4, 1, 0, 0, 0, 2, 0, 0, 0, 3]
    );
}

#[test]
fn encode_rejects_oversized_frame() {
    let mut codec = TunnelCodec::new();
    let mut out = vec![1, 2, 3];
    let big = vec![0u8; 8 * 1024 * 1024];
    let r = codec.encode(data(1, &big, 0), &mut out);
    match r {
        Err(CodecError::Framing(e)) => {
            assert_eq!(e.kind, FramingErrorKind::InvalidInput);
            assert_eq!(e.error.kind(), ErrorKind::InvalidInput);
        }
        _ => panic!("expected a framing error"),
    }
    assert_eq!(out, vec![1, 2, 3]);
}

#[test]
fn encode_accepts_largest_frame() {
    let big = vec![7u8; 8 * 1024 * 1024 - 9];
    let frame = encode(data(1, &big, 0));
    assert_eq!(frame.len(), 8 * 1024 * 1024 + 4);
    assert_eq!(&frame[..4], &[0x00, 0x7f, 0xff, 0xfb]);
}

#[test]
fn decode_close_frame() {
    let mut codec = TunnelCodec::new();
    let r = codec.decode(&[0, 0, 0, 4, 0, 0, 0, 0, 7, 0, 0, 0, 0]).unwrap();
    assert_eq!(r, Some((close(7), 13)));
}

#[test]
fn decode_close_frame_ignores_sequence_and_extra_bytes() {
    let mut codec = TunnelCodec::new();
    let r = codec.decode(&[0, 0, 0, 6, 0, 0, 0, 0, 7, 0, 0, 0, 9, 1, 2, 0xff]).unwrap();
    assert_eq!(r, Some((close(7), 15)));
}

#[test]
fn decode_data_frame_followed_by_more() {
    let mut codec = TunnelCodec::new();
    let bytes = [0, 0, 0, 6, 1, 1, 2, 3, 4, 0, 0, 0, 5, 0xaa, 0xbb, 0, 0];
    let r = codec.decode(&bytes).unwrap();
    assert_eq!(r, Some((data(0x0102_0304, &[0xaa, 0xbb], 5), 15)));
}

#[test]
fn decode_waits_for_complete_frame() {
    let mut codec = TunnelCodec::new();
    let frame = [0, 0, 0, 6, 1, 1, 2, 3, 4, 0, 0, 0, 5, 0xaa, 0xbb];
    for k in 0..frame.len() {
        assert_eq!(codec.decode(&frame[..k]).unwrap(), None, "prefix of {} bytes", k);
    }
}

#[test]
fn decode_rejects_unknown_status() {
    let mut codec = TunnelCodec::new();
    let r = codec.decode(&[0, 0, 0, 4, 2, 0, 0, 0, 7, 0, 0, 0, 0]);
    assert!(matches!(r, Err(CodecError::UnknownStatus(2, 13))));
}

#[test]
fn decode_rejects_oversized_length_field() {
    let mut codec = TunnelCodec::new();
    let r = codec.decode(&[0, 0x80, 0, 1, 1]);
    match r {
        Err(CodecError::Framing(e)) => {
            assert_eq!(e.kind, FramingErrorKind::InvalidData);
            assert_eq!(e.error.kind(), ErrorKind::InvalidData);
        }
        _ => panic!("expected a framing error"),
    }
    let r = codec.decode(&[0x01, 0, 0, 0]);
    assert!(matches!(r, Err(CodecError::Framing(_))));
    let r = codec.decode(&[0, 0x80, 0, 0, 1]);
    assert!(matches!(r, Ok(None)));
}

#[test]
fn encode_then_decode_gives_the_message_back() {
    let msgs = vec![
        close(0),
        close(u32::MAX),
        data(3, &[], 0),
        data(42, b"hello tunnel", 17),
        data(u32::MAX, &[0u8, 255, 1, 254], u32::MAX),
    ];
    let mut stream = Vec::new();
    let mut codec = TunnelCodec::new();
    for m in &msgs {
        let copy = match &m.payload {
            DispatcherMessage::CloseConnection => close(m.id),
            DispatcherMessage::IncomingData(d, s) => data(m.id, d, *s),
        };
        codec.encode(copy, &mut stream).unwrap();
    }
    let mut pos = 0;
    for m in &msgs {
        let (got, used) = codec.decode(&stream[pos..]).unwrap().unwrap();
        assert_eq!(&got, m);
        pos += used;
    }
    assert_eq!(pos, stream.len());
    assert_eq!(codec.decode(&stream[pos..]).unwrap(), None);
}

#[test]
fn truncated_frames_are_recognised() {
    assert!(is_first_frame_truncated(&[0, 0, 0, 0, 1, 2, 3, 4, 5]));
    assert!(is_first_frame_truncated(&[0, 0, 0, 3, 1, 2, 3, 4, 5, 6, 7, 8]));
    assert!(!is_first_frame_truncated(&[0, 0, 0, 3, 1, 2, 3, 4, 5, 6, 7]));
    assert!(!is_first_frame_truncated(&[0, 0, 0, 4, 0, 0, 0, 0, 7, 0, 0, 0, 0]));
    assert!(!is_first_frame_truncated(&[0, 0, 0]));
    assert!(!is_first_frame_truncated(&[0xff, 0, 0, 0, 1]));
}

#[test]
fn decode_skips_frame_with_unknown_status() {
    let mut codec = TunnelCodec::new();
    let stream = [0, 0, 0, 4, 2, 0, 0, 0, 1, 0, 0, 0, 0, 0, 0, 0, 4, 0, 0, 0, 0, 5, 0, 0, 0, 0];
    let used = match codec.decode(&stream) {
        Err(CodecError::UnknownStatus(2, used)) => used,
        _ => panic!("expected an unknown status"),
    };
    assert_eq!(used, 13);
    assert_eq!(codec.decode(&stream[used..]).unwrap(), Some((close(5), 13)));
}

#[test]
fn decode_stream_in_chunks() {
    let mut codec = TunnelCodec::new();
    let msgs = vec![data(1, b"abc", 0), close(2), data(3, &[9; 20], 7)];
    let mut stream = Vec::new();
    for m in &msgs {
        let copy = match &m.payload {
            DispatcherMessage::CloseConnection => close(m.id),
            DispatcherMessage::IncomingData(d, s) => data(m.id, d, *s),
        };
        codec.encode(copy, &mut stream).unwrap();
    }
    for chunk in 1..stream.len() + 1 {
        let mut buffer: Vec<u8> = Vec::new();
        let mut got = Vec::new();
        for piece in stream.chunks(chunk) {
            buffer.extend_from_slice(piece);
            while let Some((m, used)) = codec.decode(&buffer).unwrap() {
                got.push(m);
                buffer.drain(..used);
            }
        }
        assert_eq!(got, msgs, "chunks of {} bytes", chunk);
        assert!(buffer.is_empty());
    }
}
