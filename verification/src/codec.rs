//! The tunnel's wire format.
//!
//! A message travels as one length-delimited frame: a 4-byte big-endian
//! length field holding the body length minus 5, then the body. The body is
//! a status byte (0: the connection closes, 1: data), the connection id and
//! the sequence number as big-endian `u32`s, then the data.
use crate::frame::{
    DEFAULT_MAX_FRAME_LEN, FramingError, FramingErrorKind, frame_end, length_delimited_decode, length_delimited_encode,
    length_field,
};
use crate::message::{
    ConnectionId, DispatcherMessage, DispatcherTunnelMessage, MessageView, PayloadView,
};
use crate::wire::{
    be_bytes, be_value, lemma_be_bytes_len, lemma_byte_range_4, lemma_be_roundtrip, push_u32_be, read_u32_be,
};
use vstd::prelude::*;
use vstd::slice::{slice_subrange, slice_to_vec};

verus! {

/// Bytes in the length field of a frame.
pub const LENGTH_FIELD_LEN: usize = 4;

/// What the length field holds less than the body length.
pub const LENGTH_ADJUSTMENT: isize = 5;

/// Status byte of a message that closes the connection.
pub const STATUS_CLOSE: u8 = 0;

/// Status byte of a message that carries data.
pub const STATUS_DATA: u8 = 1;

/// Bytes of a body before its data: status, connection id, sequence number.
pub const BODY_HEADER_LEN: usize = 9;

/// Why a frame could not be encoded or decoded.
#[derive(Debug)]
pub enum CodecError {
    /// The framing layer refused the frame (its length is out of range).
    Framing(FramingError),
    /// A complete frame whose status byte is neither 0 nor 1, and the number
    /// of bytes the frame takes (the frame is to be dropped).
    UnknownStatus(u8, usize),
}

/// Encoder and decoder of tunnel frames.
pub struct TunnelCodec {}

/// The body that carries message `m`.
pub open spec fn body_bytes(m: MessageView) -> Seq<u8> {
    match m.payload {
        PayloadView::Close => seq![STATUS_CLOSE] + be_bytes(m.id as nat, 4) + be_bytes(0, 4),
        PayloadView::Data(data, seq) => seq![STATUS_DATA] + be_bytes(m.id as nat, 4) + be_bytes(
            seq as nat,
            4,
        ) + data,
    }
}

/// The frame that carries message `m`.
pub open spec fn frame_bytes(m: MessageView) -> Seq<u8> {
    be_bytes((body_bytes(m).len() - LENGTH_ADJUSTMENT) as nat, LENGTH_FIELD_LEN as nat) + body_bytes(m)
}

/// The length of the body that carries message `m`.
pub open spec fn body_len(m: MessageView) -> nat {
    match m.payload {
        PayloadView::Close => BODY_HEADER_LEN as nat,
        PayloadView::Data(data, _) => (BODY_HEADER_LEN + data.len()) as nat,
    }
}

/// A message whose body fits in a frame.
pub open spec fn encodable(m: MessageView) -> bool {
    body_len(m) <= DEFAULT_MAX_FRAME_LEN
}

/// `body_len` is the length of `body_bytes`.
pub proof fn lemma_body_len(m: MessageView)
    ensures
        body_bytes(m).len() == body_len(m),
{
    lemma_be_bytes_len(m.id as nat, 4);
    lemma_be_bytes_len(0, 4);
    if let PayloadView::Data(_, seq) = m.payload {
        lemma_be_bytes_len(seq as nat, 4);
    }
}

/// What the start of a byte stream decodes to.
pub enum Decoded {
    /// No complete frame yet.
    Incomplete,
    /// A message, and the number of bytes its frame takes.
    Frame(MessageView, nat),
    /// The length field exceeds the maximum frame length.
    FrameTooLong,
    /// A complete frame whose status byte is unknown, and the number of
    /// bytes the frame takes.
    UnknownStatus(u8, nat),
}

/// The message that the frame body `body` carries.
pub open spec fn body_message(body: Seq<u8>) -> Decoded {
    let id = be_value(body.subrange(1, 5)) as u32;
    let seq = be_value(body.subrange(5, 9)) as u32;
    if body[0] == STATUS_CLOSE {
        Decoded::Frame(
            MessageView { id, payload: PayloadView::Close },
            (body.len() + LENGTH_FIELD_LEN) as nat,
        )
    } else if body[0] == STATUS_DATA {
        Decoded::Frame(
            MessageView { id, payload: PayloadView::Data(body.subrange(9, body.len() as int), seq) },
            (body.len() + LENGTH_FIELD_LEN) as nat,
        )
    } else {
        Decoded::UnknownStatus(body[0], (body.len() + LENGTH_FIELD_LEN) as nat)
    }
}

/// The end of the first frame of `src`.
pub open spec fn first_frame_end(src: Seq<u8>) -> nat {
    frame_end(src, LENGTH_FIELD_LEN as nat, LENGTH_ADJUSTMENT as nat)
}

/// What the start of `src` decodes to.
pub open spec fn decoded(src: Seq<u8>) -> Decoded {
    if src.len() < LENGTH_FIELD_LEN {
        Decoded::Incomplete
    } else if length_field(src, LENGTH_FIELD_LEN as nat) > DEFAULT_MAX_FRAME_LEN {
        Decoded::FrameTooLong
    } else if src.len() < first_frame_end(src) {
        Decoded::Incomplete
    } else {
        body_message(src.subrange(LENGTH_FIELD_LEN as int, first_frame_end(src) as int))
    }
}

/// The first frame of `src` is complete but its body is too short to hold
/// the status, the connection id and the sequence number.
pub open spec fn first_frame_truncated(src: Seq<u8>) -> bool {
    &&& src.len() >= LENGTH_FIELD_LEN
    &&& length_field(src, LENGTH_FIELD_LEN as nat) <= DEFAULT_MAX_FRAME_LEN
    &&& src.len() >= first_frame_end(src)
    &&& length_field(src, LENGTH_FIELD_LEN as nat) + LENGTH_ADJUSTMENT < BODY_HEADER_LEN
}

/// The frame of a message starts with the length field and the message's
/// body, and is 4 bytes longer than the body.
proof fn lemma_frame_layout(m: MessageView)
    requires
        encodable(m),
    ensures
        body_bytes(m).len() >= BODY_HEADER_LEN,
        frame_bytes(m).len() == body_bytes(m).len() + LENGTH_FIELD_LEN,
        frame_bytes(m).subrange(0, LENGTH_FIELD_LEN as int) == be_bytes(
            (body_bytes(m).len() - LENGTH_ADJUSTMENT) as nat,
            LENGTH_FIELD_LEN as nat,
        ),
        frame_bytes(m).subrange(LENGTH_FIELD_LEN as int, frame_bytes(m).len() as int) == body_bytes(m),
        be_value(be_bytes((body_bytes(m).len() - LENGTH_ADJUSTMENT) as nat, LENGTH_FIELD_LEN as nat))
            == body_bytes(m).len() - LENGTH_ADJUSTMENT,
{
    lemma_body_len(m);
    let n = (body_bytes(m).len() - LENGTH_ADJUSTMENT) as nat;
    lemma_be_bytes_len(n, 4);
    lemma_byte_range_4();
    lemma_be_roundtrip(n, 4);
    assert(frame_bytes(m).subrange(0, 4) =~= be_bytes(n, 4));
    assert(frame_bytes(m).subrange(4, frame_bytes(m).len() as int) =~= body_bytes(m));
}

/// Decoding a stream that starts with the frame of an encodable message
/// gives back that message, and consumes exactly its frame.
pub proof fn lemma_decode_encoded(m: MessageView, rest: Seq<u8>)
    requires
        encodable(m),
    ensures
        decoded(frame_bytes(m) + rest) == Decoded::Frame(m, frame_bytes(m).len()),
        !first_frame_truncated(frame_bytes(m) + rest),
{
    lemma_frame_layout(m);
    let f = frame_bytes(m);
    let s = f + rest;
    let body = body_bytes(m);
    assert(s.subrange(0, 4) =~= f.subrange(0, 4));
    assert(length_field(s, 4) == body.len() - 5);
    assert(first_frame_end(s) == f.len());
    assert(s.subrange(4, f.len() as int) =~= f.subrange(4, f.len() as int));
    lemma_byte_range_4();
    lemma_be_roundtrip(m.id as nat, 4);
    lemma_be_bytes_len(m.id as nat, 4);
    lemma_be_bytes_len(0, 4);
    assert(body.subrange(1, 5) =~= be_bytes(m.id as nat, 4));
    match m.payload {
        PayloadView::Close => {},
        PayloadView::Data(data, seq) => {
            lemma_be_roundtrip(seq as nat, 4);
            lemma_be_bytes_len(seq as nat, 4);
            assert(body.subrange(5, 9) =~= be_bytes(seq as nat, 4));
            assert(body.subrange(9, body.len() as int) =~= data);
        },
    }
}

/// A stream that holds only part of the frame of a message has no complete
/// frame yet: decoding waits for more bytes.
pub proof fn lemma_decode_partial_frame(m: MessageView, k: nat)
    requires
        encodable(m),
        k < frame_bytes(m).len(),
    ensures
        decoded(frame_bytes(m).take(k as int)) == Decoded::Incomplete,
{
    lemma_frame_layout(m);
    let f = frame_bytes(m);
    let s = f.take(k as int);
    lemma_body_len(m);
    if k >= 4 {
        assert(s.subrange(0, 4) =~= f.subrange(0, 4));
        assert(length_field(s, 4) == body_bytes(m).len() - 5);
        assert(first_frame_end(s) == f.len());
    }
}

/// A message can be encoded exactly when it closes its connection or its
/// body, 9 bytes and the data, is at most 8 MiB (8388608 bytes), whatever
/// its connection id and sequence number.
pub proof fn lemma_encodable_exactly(m: MessageView)
    ensures
        encodable(m) <==> match m.payload {
            PayloadView::Close => true,
            PayloadView::Data(d, _) => 9 + d.len() <= 8388608,
        },
{
}

/// The frame of data `d` with sequence number `seq` on connection `id`: the
/// length field `4 + d.len()`, the status byte 1, the id, the sequence
/// number, then the data.
pub proof fn lemma_data_frame_bytes(id: ConnectionId, d: Seq<u8>, seq: u32)
    ensures
        frame_bytes(MessageView { id, payload: PayloadView::Data(d, seq) }) == be_bytes(
            (4 + d.len()) as nat,
            4,
        ) + seq![1u8] + be_bytes(id as nat, 4) + be_bytes(seq as nat, 4) + d,
{
    let m = MessageView { id, payload: PayloadView::Data(d, seq) };
    lemma_body_len(m);
    assert(frame_bytes(m) =~= be_bytes((4 + d.len()) as nat, 4) + seq![1u8] + be_bytes(id as nat, 4)
        + be_bytes(seq as nat, 4) + d);
}

/// The frame that closes connection `id`: the length field 4, the status
/// byte 0, the id, and a zero sequence number.
pub proof fn lemma_close_frame_bytes(id: ConnectionId)
    ensures
        frame_bytes(MessageView { id, payload: PayloadView::Close }) == be_bytes(4, 4) + seq![0u8]
            + be_bytes(id as nat, 4) + be_bytes(0, 4),
{
    let m = MessageView { id, payload: PayloadView::Close };
    lemma_body_len(m);
    assert(frame_bytes(m) =~= be_bytes(4, 4) + seq![0u8] + be_bytes(id as nat, 4) + be_bytes(0, 4));
}

/// Every message whose body is at most 8 MiB, for every connection id and
/// sequence number, decodes from its frame (followed by anything) to itself,
/// taking exactly its frame.
pub proof fn lemma_decode_encoded_within_limit(m: MessageView, rest: Seq<u8>)
    requires
        match m.payload {
            PayloadView::Close => true,
            PayloadView::Data(d, _) => 9 + d.len() <= 8388608,
        },
    ensures
        decoded(frame_bytes(m) + rest) == Decoded::Frame(m, frame_bytes(m).len()),
{
    lemma_encodable_exactly(m);
    lemma_decode_encoded(m, rest);
}

/// A complete frame at the start of `src` whose status byte is 1 decodes to
/// data, whatever the connection id: the id is the big-endian `u32` at bytes
/// 5..9, the sequence number the one at 9..13, the data the bytes from 13 to
/// the end of the frame, which ends 9 bytes past the length field's value.
pub proof fn lemma_decode_data_frame(src: Seq<u8>)
    requires
        src.len() >= 4,
        4 <= be_value(src.subrange(0, 4)) <= 8388608,
        src.len() >= be_value(src.subrange(0, 4)) + 9,
        src[4] == 1,
    ensures
        decoded(src) == Decoded::Frame(
            MessageView {
                id: be_value(src.subrange(5, 9)) as u32,
                payload: PayloadView::Data(
                    src.subrange(13, be_value(src.subrange(0, 4)) + 9int),
                    be_value(src.subrange(9, 13)) as u32,
                ),
            },
            be_value(src.subrange(0, 4)) + 9,
        ),
{
    lemma_frame_body_view(src);
}

/// A complete frame at the start of `src` whose status byte is 0 closes the
/// connection whose id is the big-endian `u32` at bytes 5..9.
pub proof fn lemma_decode_close_frame(src: Seq<u8>)
    requires
        src.len() >= 4,
        4 <= be_value(src.subrange(0, 4)) <= 8388608,
        src.len() >= be_value(src.subrange(0, 4)) + 9,
        src[4] == 0,
    ensures
        decoded(src) == Decoded::Frame(
            MessageView { id: be_value(src.subrange(5, 9)) as u32, payload: PayloadView::Close },
            be_value(src.subrange(0, 4)) + 9,
        ),
{
    lemma_frame_body_view(src);
}

/// A complete frame at the start of `src` whose status byte is neither 0
/// nor 1 is refused with that byte and the frame's length.
pub proof fn lemma_decode_unknown_status(src: Seq<u8>)
    requires
        src.len() >= 4,
        4 <= be_value(src.subrange(0, 4)) <= 8388608,
        src.len() >= be_value(src.subrange(0, 4)) + 9,
        src[4] != 0,
        src[4] != 1,
    ensures
        decoded(src) == Decoded::UnknownStatus(src[4], be_value(src.subrange(0, 4)) + 9),
{
    lemma_frame_body_view(src);
}

/// A length field above 8 MiB is refused, whatever follows it.
pub proof fn lemma_decode_too_long(src: Seq<u8>)
    requires
        src.len() >= 4,
        be_value(src.subrange(0, 4)) > 8388608,
    ensures
        decoded(src) == Decoded::FrameTooLong,
{
}

/// Fewer than 4 bytes, or fewer than the length field's value plus 9, are
/// not a frame yet.
pub proof fn lemma_decode_incomplete(src: Seq<u8>)
    requires
        src.len() < 4 || (be_value(src.subrange(0, 4)) <= 8388608 && src.len() < be_value(
            src.subrange(0, 4),
        ) + 9),
    ensures
        decoded(src) == Decoded::Incomplete,
{
}

/// The parts of the first frame's body, read off `src`.
proof fn lemma_frame_body_view(src: Seq<u8>)
    requires
        src.len() >= 4,
        4 <= be_value(src.subrange(0, 4)) <= 8388608,
        src.len() >= be_value(src.subrange(0, 4)) + 9,
    ensures
        ({
            let body = src.subrange(4, first_frame_end(src) as int);
            &&& first_frame_end(src) == be_value(src.subrange(0, 4)) + 9
            &&& body.len() == be_value(src.subrange(0, 4)) + 5
            &&& body[0] == src[4]
            &&& body.subrange(1, 5) == src.subrange(5, 9)
            &&& body.subrange(5, 9) == src.subrange(9, 13)
            &&& body.subrange(9, body.len() as int) == src.subrange(13, first_frame_end(src) as int)
        }),
{
    let body = src.subrange(4, first_frame_end(src) as int);
    assert(body.subrange(1, 5) =~= src.subrange(5, 9));
    assert(body.subrange(5, 9) =~= src.subrange(9, 13));
    assert(body.subrange(9, body.len() as int) =~= src.subrange(13, first_frame_end(src) as int));
}

/// The frames of `ms`, one after another.
pub open spec fn frames(ms: Seq<MessageView>) -> Seq<u8>
    decreases ms.len(),
{
    if ms.len() == 0 {
        Seq::empty()
    } else {
        frame_bytes(ms[0]) + frames(ms.drop_first())
    }
}

/// Decoding `buf` again and again, dropping each decoded frame, until no
/// complete frame that decodes is left: the messages, and the bytes left.
pub open spec fn decode_stream(buf: Seq<u8>) -> (Seq<MessageView>, Seq<u8>)
    decreases buf.len(),
{
    match decoded(buf) {
        Decoded::Frame(m, k) => if 0 < k <= buf.len() {
            let (ms, rest) = decode_stream(buf.skip(k as int));
            (seq![m] + ms, rest)
        } else {
            (Seq::empty(), buf)
        },
        _ => (Seq::empty(), buf),
    }
}

/// The messages decoded from a stream that arrives in `chunks`, into a
/// buffer that holds `buffer` to begin with: after each chunk, the buffer is
/// decoded until no complete frame is left, and what is left stays for the
/// next chunk.
pub open spec fn decode_chunks(buffer: Seq<u8>, chunks: Seq<Seq<u8>>) -> Seq<MessageView>
    decreases chunks.len(),
{
    if chunks.len() == 0 {
        Seq::empty()
    } else {
        let (ms, rest) = decode_stream(buffer + chunks[0]);
        ms + decode_chunks(rest, chunks.drop_first())
    }
}

/// Every message of `ms` fits in a frame.
pub open spec fn all_encodable(ms: Seq<MessageView>) -> bool {
    forall|i: int| 0 <= i < ms.len() ==> encodable(#[trigger] ms[i])
}

/// `r` is what is left of the stream `frames(ms)` after the complete
/// frames at its start: a part of the first frame, or nothing when there is
/// no frame.
pub open spec fn partial_first_frame(ms: Seq<MessageView>, r: Seq<u8>) -> bool {
    if ms.len() == 0 {
        r.len() == 0
    } else {
        r.len() < frame_bytes(ms[0]).len()
    }
}

/// Decoding what has arrived of a stream of frames, `b + c`, where `b` is
/// part of the first frame, gives the first `j` messages and leaves part of
/// the next frame.
proof fn lemma_decode_stream_prefix(
    ms: Seq<MessageView>,
    b: Seq<u8>,
    c: Seq<u8>,
    tail: Seq<u8>,
) -> (j: nat)
    requires
        all_encodable(ms),
        b + c + tail == frames(ms),
        partial_first_frame(ms, b),
    ensures
        j <= ms.len(),
        decode_stream(b + c).0 == ms.take(j as int),
        decode_stream(b + c).1 + tail == frames(ms.skip(j as int)),
        partial_first_frame(ms.skip(j as int), decode_stream(b + c).1),
    decreases ms.len(),
{
    let q = b + c;
    if ms.len() == 0 {
        assert(q.len() == 0);
        assert(decoded(q) == Decoded::Incomplete);
        assert(ms.skip(0) =~= ms);
        0
    } else {
        let f0 = frame_bytes(ms[0]);
        let ms1 = ms.drop_first();
        assert(encodable(ms[0]));
        assert(frames(ms) == f0 + frames(ms1));
        if q.len() < f0.len() {
            assert(q =~= f0.take(q.len() as int)) by {
                assert forall|i: int| 0 <= i < q.len() implies q[i] == f0[i] by {
                    assert((b + c + tail)[i] == frames(ms)[i]);
                }
            }
            lemma_decode_partial_frame(ms[0], q.len());
            assert(ms.skip(0) =~= ms);
            assert(ms.take(0) =~= Seq::<MessageView>::empty());
            assert(q + tail =~= b + c + tail);
            0
        } else {
            let q1 = q.skip(f0.len() as int);
            assert(q =~= f0 + q1) by {
                assert forall|i: int| 0 <= i < f0.len() implies q[i] == f0[i] by {
                    assert((b + c + tail)[i] == frames(ms)[i]);
                }
            }
            lemma_decode_encoded(ms[0], q1);
            assert(q1 + tail =~= frames(ms1)) by {
                assert(q + tail =~= f0 + frames(ms1));
                assert forall|i: int| 0 <= i < frames(ms1).len() implies (q1 + tail)[i] == frames(
                    ms1,
                )[i] by {
                    assert((q + tail)[f0.len() + i] == (f0 + frames(ms1))[f0.len() + i]);
                }
            }
            assert forall|i: int| 0 <= i < ms1.len() implies encodable(#[trigger] ms1[i]) by {
                assert(ms1[i] == ms[i + 1]);
            }
            assert(Seq::<u8>::empty() + q1 + tail =~= q1 + tail);
            if ms1.len() > 0 {
                lemma_frame_nonempty(ms1[0]);
            }
            assert(Seq::<u8>::empty() + q1 =~= q1);
            let j1 = lemma_decode_stream_prefix(ms1, Seq::empty(), q1, tail);
            assert(q.skip(f0.len() as int) == q1);
            assert(ms.take(j1 + 1int) =~= seq![ms[0]] + ms1.take(j1 as int));
            assert(ms.skip(j1 + 1int) =~= ms1.skip(j1 as int));
            j1 + 1
        }
    }
}

/// A frame is never empty.
proof fn lemma_frame_nonempty(m: MessageView)
    requires
        encodable(m),
    ensures
        frame_bytes(m).len() > 0,
{
    lemma_frame_layout(m);
}

/// However a stream of frames of encodable messages is cut into chunks,
/// decoding it chunk by chunk, keeping the undecoded rest for the next
/// chunk, gives back all the messages in order.
pub proof fn lemma_decode_chunks(ms: Seq<MessageView>, chunks: Seq<Seq<u8>>)
    requires
        all_encodable(ms),
        chunks.flatten() == frames(ms),
    ensures
        decode_chunks(Seq::empty(), chunks) == ms,
{
    if ms.len() > 0 {
        lemma_frame_nonempty(ms[0]);
    }
    assert(Seq::<u8>::empty() + chunks.flatten() =~= chunks.flatten());
    lemma_decode_chunks_from(ms, Seq::empty(), chunks);
}

/// `lemma_decode_chunks`, from a buffer that holds part of the first frame.
proof fn lemma_decode_chunks_from(ms: Seq<MessageView>, b: Seq<u8>, chunks: Seq<Seq<u8>>)
    requires
        all_encodable(ms),
        b + chunks.flatten() == frames(ms),
        partial_first_frame(ms, b),
    ensures
        decode_chunks(b, chunks) == ms,
    decreases chunks.len(),
{
    if chunks.len() == 0 {
        assert(b + chunks.flatten() =~= b);
        if ms.len() > 0 {
            assert(frames(ms) == frame_bytes(ms[0]) + frames(ms.drop_first()));
        }
    } else {
        let c = chunks[0];
        let tail = chunks.drop_first().flatten();
        assert(b + c + tail =~= b + chunks.flatten());
        let j = lemma_decode_stream_prefix(ms, b, c, tail);
        let (out, r) = decode_stream(b + c);
        let rest = ms.skip(j as int);
        assert forall|i: int| 0 <= i < rest.len() implies encodable(#[trigger] rest[i]) by {
            assert(rest[i] == ms[i + j]);
        }
        lemma_decode_chunks_from(rest, r, chunks.drop_first());
        assert(ms.take(j as int) + rest =~= ms);
    }
}

/// Decoding a whole stream of frames of encodable messages gives back all
/// the messages, in order, and leaves nothing.
pub proof fn lemma_decode_frames(ms: Seq<MessageView>)
    requires
        all_encodable(ms),
    ensures
        decode_stream(frames(ms)) == (ms, Seq::<u8>::empty()),
{
    if ms.len() > 0 {
        lemma_frame_nonempty(ms[0]);
    }
    assert(Seq::<u8>::empty() + frames(ms) + Seq::<u8>::empty() =~= frames(ms));
    assert(Seq::<u8>::empty() + frames(ms) =~= frames(ms));
    let j = lemma_decode_stream_prefix(ms, Seq::empty(), frames(ms), Seq::empty());
    let r = decode_stream(frames(ms)).1;
    assert(r + Seq::<u8>::empty() =~= r);
    if j < ms.len() {
        let rest = ms.skip(j as int);
        assert(frames(rest) == frame_bytes(rest[0]) + frames(rest.drop_first()));
    }
    assert(ms.take(ms.len() as int) =~= ms);
}

/// Whether the first frame of `src` is complete but too short to hold a
/// message header, which `TunnelCodec::decode` does not accept.
pub fn is_first_frame_truncated(src: &[u8]) -> (b: bool)
    ensures
        b == first_frame_truncated(src@),
{
    if src.len() < LENGTH_FIELD_LEN {
        return false;
    }
    let n = read_u32_be(src, 0);
    if n as usize > DEFAULT_MAX_FRAME_LEN {
        return false;
    }
    let end = LENGTH_FIELD_LEN + n as usize + LENGTH_ADJUSTMENT as usize;
    src.len() >= end && (n as usize) + (LENGTH_ADJUSTMENT as usize) < BODY_HEADER_LEN
}

impl TunnelCodec {
    /// A codec for the tunnel's frames.
    pub fn new() -> (c: TunnelCodec) {
        TunnelCodec {  }
    }

    /// Appends the frame of `item` to `dst`.
    ///
    /// Fails, leaving `dst` as it was, when the message body is longer than
    /// the maximum frame length.
    pub fn encode(&mut self, item: DispatcherTunnelMessage, dst: &mut Vec<u8>) -> (r: Result<
        (),
        CodecError,
    >)
        ensures
            r is Ok <==> encodable(item@),
            r is Ok <==> match item.payload {
                DispatcherMessage::CloseConnection => true,
                DispatcherMessage::IncomingData(d, _) => 9 + d@.len() <= 8388608,
            },
            r is Ok ==> final(dst)@ == old(dst)@ + frame_bytes(item@),
            r is Err ==> final(dst)@ == old(dst)@,
            r is Err ==> (r matches Err(CodecError::Framing(e)) && e.kind == FramingErrorKind::InvalidInput),
    {
        let ghost m = item@;
        proof {
            lemma_encodable_exactly(m);
        }
        let DispatcherTunnelMessage { id, payload } = item;
        let mut body: Vec<u8> = Vec::new();
        match payload {
            DispatcherMessage::CloseConnection => {
                body.push(STATUS_CLOSE);
                push_u32_be(&mut body, id);
                push_u32_be(&mut body, 0);
            },
            DispatcherMessage::IncomingData(data, seq_num) => {
                let mut data = data;
                body.push(STATUS_DATA);
                push_u32_be(&mut body, id);
                push_u32_be(&mut body, seq_num);
                body.append(&mut data);
            },
        }
        proof {
            lemma_be_bytes_len(id as nat, 4);
            assert(body@ =~= body_bytes(m));
            lemma_body_len(m);
        }
        match length_delimited_encode(LENGTH_FIELD_LEN, LENGTH_ADJUSTMENT, body.as_slice()) {
            Ok(framed) => {
                let mut framed = framed;
                dst.append(&mut framed);
                Ok(())
            },
            Err(e) => Err(CodecError::Framing(e)),
        }
    }

    /// Decodes the first frame of `src`, and says how many bytes it took;
    /// a frame with an unknown status byte is refused with its length, so
    /// that the caller can drop it.
    pub fn decode(&mut self, src: &[u8]) -> (r: Result<
        Option<(DispatcherTunnelMessage, usize)>,
        CodecError,
    >)
        requires
            !first_frame_truncated(src@),
        ensures
            match decoded(src@) {
                Decoded::Incomplete => r matches Ok(None),
                Decoded::Frame(m, len) => r matches Ok(Some((msg, used))) && msg@ == m && used == len,
                Decoded::FrameTooLong => r matches Err(CodecError::Framing(e)) && e.kind
                    == FramingErrorKind::InvalidData,
                Decoded::UnknownStatus(s, len) => r matches Err(CodecError::UnknownStatus(t, used))
                    && t == s && used == len,
            },
            src@.len() >= 4 && be_value(src@.subrange(0, 4)) <= 8388608 && src@.len() >= be_value(
                src@.subrange(0, 4),
            ) + 9 && src@[4] == 1 ==> (r matches Ok(Some((msg, used))) && msg@ == MessageView {
                id: be_value(src@.subrange(5, 9)) as u32,
                payload: PayloadView::Data(
                    src@.subrange(13, be_value(src@.subrange(0, 4)) + 9int),
                    be_value(src@.subrange(9, 13)) as u32,
                ),
            } && used == be_value(src@.subrange(0, 4)) + 9),
    {
        proof {
            if src@.len() >= 4 && be_value(src@.subrange(0, 4)) <= 8388608 && src@.len() >= be_value(
                src@.subrange(0, 4),
            ) + 9 && src@[4] == 1 {
                lemma_decode_data_frame(src@);
            }
        }
        match length_delimited_decode(LENGTH_FIELD_LEN, LENGTH_ADJUSTMENT, src) {
            Err(e) => Err(CodecError::Framing(e)),
            Ok(None) => Ok(None),
            Ok(Some(body)) => {
                let ghost b = body@;
                let status = body[0];
                let id = read_u32_be(body.as_slice(), 1);
                let seq_num = read_u32_be(body.as_slice(), 5);
                let used = body.len() + LENGTH_FIELD_LEN;
                if status == STATUS_CLOSE {
                    Ok(Some((DispatcherTunnelMessage { id, payload: DispatcherMessage::CloseConnection }, used)))
                } else if status == STATUS_DATA {
                    let data = slice_to_vec(slice_subrange(body.as_slice(), BODY_HEADER_LEN, body.len()));
                    Ok(Some((DispatcherTunnelMessage { id, payload: DispatcherMessage::IncomingData(data, seq_num) }, used)))
                } else {
                    Err(CodecError::UnknownStatus(status, used))
                }
            },
        }
    }
}

} // verus!
