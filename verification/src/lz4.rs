//! Trusted interface to the LZ4 frame codec of the `lz4_flex` crate.
//!
//! The container stores compressed sectors as bare frame bodies: the fixed
//! 7-byte frame header and the 4-byte zero end mark are stripped before
//! storage and reconstructed synthetically on read.

use vstd::prelude::*;

use lz4_flex::frame::BlockMode;
use lz4_flex::frame::BlockSize;
use lz4_flex::frame::Error as Lz4FrameError;
use lz4_flex::frame::FrameDecoder;
use lz4_flex::frame::FrameEncoder;
use lz4_flex::frame::FrameInfo;

verus! {

#[verifier::external_type_specification]
#[verifier::external_body]
pub struct ExLz4FrameError(Lz4FrameError);

#[verifier::external_type_specification]
#[verifier::external_body]
pub struct ExIoError(std::io::Error);

/// The compressed frame body the LZ4 frame encoder produces, under this
/// crate's fixed frame configuration, for a given input.  The encoder is
/// deterministic: the body is a function of the input bytes alone.
pub uninterp spec fn lz4_body_of(data: Seq<u8>) -> Seq<u8>;

/// The fixed 7-byte frame envelope prefix for this crate's configuration:
/// the frame magic number (little-endian), the flag byte for version 01 with
/// independent blocks and no checksums, the block-descriptor byte for 64 KiB
/// blocks, and the header checksum byte.
pub open spec fn spec_lz4_prefix() -> Seq<u8> {
    seq![0x04u8, 0x22u8, 0x4Du8, 0x18u8, 0x60u8, 0x40u8, 0x82u8]
}

/// The 4-byte end mark closing a frame without a content checksum.
pub open spec fn spec_lz4_suffix() -> Seq<u8> {
    seq![0u8, 0u8, 0u8, 0u8]
}

/// Relies on `lz4_flex::frame::FrameEncoder` with a fixed `FrameInfo`
/// (independent blocks, 64 KiB maximum block size, no checksums, no content
/// size): `FrameInfo::write` emits exactly the 7-byte header above,
/// `finish` appends the 4-byte zero end mark, and compression is a
/// deterministic function of the input bytes.  It always succeeds: the sink
/// is a vector, whose writes never fail; the encoder sizes its block buffer
/// to the worst-case compression bound, so block compression cannot run out
/// of room; and with no declared content size `finish` has no failing
/// check.  A nonempty input flushes at least one block (a length-prefixed
/// record) before the end mark, so its body is nonempty.
#[verifier::external_body]
pub(crate) fn lz4_compress_frame<RE, WE>(data: &Vec<u8>) -> (r: Result<
    Vec<u8>,
    crate::write::CSOCreationError<RE, WE>,
>)
    ensures
        r is Ok,
        r matches Ok(f) ==> {
            &&& f@ == spec_lz4_prefix() + lz4_body_of(data@) + spec_lz4_suffix()
            &&& data@.len() > 0 ==> lz4_body_of(data@).len() > 0
        },
{
    let cfg = FrameInfo::new().block_mode(BlockMode::Independent).block_size(
        BlockSize::Max64KB,
    ).content_checksum(false).block_checksums(false).content_size(None);
    let mut encoder = FrameEncoder::with_frame_info(cfg, Vec::new());
    if let Err(e) = std::io::Write::write_all(&mut encoder, data.as_slice()) {
        return Err(crate::write::CSOCreationError::CompressionError(e));
    }
    match encoder.finish() {
        Ok(out) => Ok(out),
        Err(e) => Err(crate::write::CSOCreationError::LZ4Error(e)),
    }
}

/// Relies on `lz4_flex::frame::FrameDecoder`: a frame the encoder above
/// produced decodes back to exactly the bytes that were encoded.  Trailing
/// zero bytes after the body are read as the end mark and then ignored (the
/// decoder stops at the first zero-sized block info), so any zero tail of
/// four or more bytes closes the frame.  On any other input, nothing is
/// assumed of the outcome.
#[verifier::external_body]
pub(crate) fn lz4_decompress_frame(frame: &Vec<u8>) -> (r: Option<Vec<u8>>)
    ensures
        r matches Some(out) ==> forall|d: Seq<u8>, k: int|
            #![trigger lz4_body_of(d), crate::bytes::spec_zeros(k)]
            k >= 4 && frame@ == spec_lz4_prefix() + lz4_body_of(d) + crate::bytes::spec_zeros(k)
                ==> out@ == d,
        (exists|d: Seq<u8>, k: int|
            #![trigger lz4_body_of(d), crate::bytes::spec_zeros(k)]
            k >= 4 && frame@ == spec_lz4_prefix() + lz4_body_of(d) + crate::bytes::spec_zeros(k))
            ==> r is Some,
{
    let mut decoder = FrameDecoder::new(frame.as_slice());
    let mut out = Vec::new();
    match std::io::Read::read_to_end(&mut decoder, &mut out) {
        Ok(_) => Some(out),
        Err(_) => None,
    }
}

} // verus!
