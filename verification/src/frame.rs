//! Length-delimited framing, done by `tokio_util`'s `LengthDelimitedCodec`.
//!
//! A frame is a big-endian length field followed by the frame body; the
//! field holds the body length minus a fixed adjustment. Each call builds its
//! own codec, so a decode always starts at a frame boundary and the caller
//! drops the bytes of each frame that it has taken.
use crate::wire::{be_bytes, be_value};
use std::io::ErrorKind;
use tokio_util::codec::LengthDelimitedCodec;
use vstd::prelude::*;

verus! {

/// `std::io::Error`, the error of the framing calls; carried through unread.
#[verifier::external_type_specification]
#[verifier::external_body]
pub struct ExIoError(std::io::Error);

/// The kind of an I/O error from the framing calls, as far as the tunnel
/// tells kinds apart.
#[derive(Debug, PartialEq, Eq, Clone, Copy)]
pub enum FramingErrorKind {
    InvalidInput,
    InvalidData,
    Other,
}

/// An error from the framing calls: its kind, and the error itself.
#[derive(Debug)]
pub struct FramingError {
    pub kind: FramingErrorKind,
    pub error: std::io::Error,
}

/// The maximum frame length of a `LengthDelimitedCodec` built with the
/// builder's defaults (8 MiB).
pub const DEFAULT_MAX_FRAME_LEN: usize = 8388608;

/// The value of the length field at the start of `src`.
pub open spec fn length_field(src: Seq<u8>, field_len: nat) -> nat {
    be_value(src.subrange(0, field_len as int))
}

/// Where the first frame of `src` ends: after the length field and the body
/// whose length is the field's value plus the adjustment.
pub open spec fn frame_end(src: Seq<u8>, field_len: nat, adjustment: nat) -> nat {
    field_len + length_field(src, field_len) + adjustment
}

/// Encodes `data` as one frame with `tokio_util::codec::LengthDelimitedCodec::encode`,
/// on a codec built by `LengthDelimitedCodec::builder()` with the given length
/// field length and length adjustment (other settings at their defaults:
/// big-endian field at offset 0, maximum frame length 8 MiB).
///
/// Claimed, as the crate's source shows it: the call fails exactly when the
/// data is longer than the maximum frame length or shorter than the
/// adjustment; otherwise it writes the low `field_len` bytes of
/// `data.len() - adjustment`, most significant first, and then the data.
/// Both errors are of kind `InvalidInput`.
#[verifier::external_body]
pub(crate) fn length_delimited_encode(field_len: usize, adjustment: isize, data: &[u8]) -> (r:
    Result<Vec<u8>, FramingError>)
    requires
        1 <= field_len <= 8,
        0 <= adjustment,
    ensures
        r is Ok <==> (data@.len() <= DEFAULT_MAX_FRAME_LEN && adjustment <= data@.len()),
        r matches Ok(out) ==> out@ == be_bytes((data@.len() - adjustment) as nat, field_len as nat)
            + data@,
        r matches Err(e) ==> e.kind == FramingErrorKind::InvalidInput,
{
    let mut codec = LengthDelimitedCodec::builder().length_field_length(field_len)
        .length_adjustment(adjustment).new_codec();
    let mut dst = bytes::BytesMut::new();
    match tokio_util::codec::Encoder::encode(&mut codec, bytes::Bytes::copy_from_slice(data), &mut dst) {
        Ok(()) => Ok(dst.to_vec()),
        Err(e) => Err(FramingError { kind: match e.kind() {
            ErrorKind::InvalidInput => FramingErrorKind::InvalidInput,
            ErrorKind::InvalidData => FramingErrorKind::InvalidData,
            _ => FramingErrorKind::Other,
        }, error: e }),
    }
}

/// Decodes the first frame of `src` with `tokio_util::codec::LengthDelimitedCodec::decode`,
/// on a fresh codec built by `LengthDelimitedCodec::builder()` with the given
/// length field length and length adjustment (other settings at their
/// defaults, as for `length_delimited_encode`).
///
/// Claimed, as the crate's source shows it: with fewer bytes than the length
/// field there is no frame yet; a length field above the maximum frame length
/// is an error; otherwise the frame body is the `field + adjustment` bytes
/// after the field, once that many are there. The codec and the buffer it
/// reads are local to the call, so `src` must start at a frame boundary.
/// The error (a length field too large) is of kind `InvalidData`; its
/// message is left unsaid.
#[verifier::external_body]
pub(crate) fn length_delimited_decode(field_len: usize, adjustment: isize, src: &[u8]) -> (r:
    Result<Option<Vec<u8>>, FramingError>)
    requires
        1 <= field_len <= 8,
        0 <= adjustment <= 65536,
    ensures
        src@.len() < field_len ==> r matches Ok(None),
        src@.len() >= field_len && length_field(src@, field_len as nat) > DEFAULT_MAX_FRAME_LEN ==> r is Err,
        src@.len() >= field_len && length_field(src@, field_len as nat) <= DEFAULT_MAX_FRAME_LEN ==> r is Ok && (r matches Ok(None) <==> src@.len() < frame_end(src@, field_len as nat, adjustment as nat)),
        r matches Ok(Some(body)) ==> body@ == src@.subrange(field_len as int, frame_end(src@, field_len as nat, adjustment as nat) as int),
        r matches Err(e) ==> e.kind == FramingErrorKind::InvalidData,
{
    let mut codec = LengthDelimitedCodec::builder().length_field_length(field_len)
        .length_adjustment(adjustment).new_codec();
    let mut buf = bytes::BytesMut::from(src);
    match tokio_util::codec::Decoder::decode(&mut codec, &mut buf) {
        Ok(Some(body)) => Ok(Some(body.to_vec())),
        Ok(None) => Ok(None),
        Err(e) => Err(FramingError { kind: match e.kind() {
            ErrorKind::InvalidInput => FramingErrorKind::InvalidInput,
            ErrorKind::InvalidData => FramingErrorKind::InvalidData,
            _ => FramingErrorKind::Other,
        }, error: e }),
    }
}

} // verus!
