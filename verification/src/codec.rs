//! The frame codec: one frame's raw RGBA bytes are compressed with a
//! size-prepended block compressor and then encoded as a standard
//! base64 string; decoding reverses both steps and checks the length.
//! The compressor and the base64 engine are outside codecs, called
//! through trusted wrappers; their results are named, and everything
//! built on top is verified against those names.

use vstd::prelude::*;

use crate::error::{FrameCorruptKind, IconError};

verus! {

/// The size-prepended compressed block of a byte sequence.
pub uninterp spec fn lz4_block_of(data: Seq<u8>) -> Seq<u8>;

/// The decompression of a size-prepended block: the original bytes, or
/// nothing when the block is corrupt or truncated.
pub uninterp spec fn lz4_unblock_of(data: Seq<u8>) -> Option<Seq<u8>>;

/// The standard, padded base64 encoding of a byte sequence.
pub uninterp spec fn base64_chars_of(data: Seq<u8>) -> Seq<char>;

/// The standard base64 decoding of a string: the original bytes, or
/// nothing when a character is outside the alphabet or the padding is
/// wrong.
pub uninterp spec fn base64_bytes_of(s: Seq<char>) -> Option<Seq<u8>>;

/// Relies on lz4_flex::block::compress_prepend_size: compresses the
/// whole input and prepends the uncompressed length as a 32-bit value,
/// deterministically in the input; decompress_size_prepended restores
/// the input exactly. The output never exceeds the crate's published
/// worst case of a 20-byte overhead plus a tenth of the input.
#[verifier::external_body]
fn lz4_compress(data: &[u8]) -> (r: Vec<u8>)
    requires
        data@.len() <= u32::MAX,
    ensures
        r@ == lz4_block_of(data@),
        lz4_unblock_of(r@) == Some(data@),
        r@.len() <= 24 + data@.len() * 2,
{
    lz4_flex::block::compress_prepend_size(data)
}

/// Relies on lz4_flex::block::decompress_size_prepended: the inverse
/// of compress_prepend_size, failing on corrupt or truncated blocks.
#[verifier::external_body]
fn lz4_decompress(data: &[u8]) -> (r: Option<Vec<u8>>)
    ensures
        match r {
            Some(v) => lz4_unblock_of(data@) == Some(v@),
            None => lz4_unblock_of(data@) is None,
        },
{
    match lz4_flex::block::decompress_size_prepended(data) {
        Ok(v) => Some(v),
        Err(_) => None,
    }
}

/// Relies on base64::Engine::encode with the standard engine: standard
/// alphabet, padded, no line wrapping, deterministic in the input; the
/// engine's decode restores the input exactly.
#[verifier::external_body]
fn base64_encode(data: &[u8]) -> (r: String)
    requires
        data@.len() <= 0x1000_0000_0000,
    ensures
        r@ == base64_chars_of(data@),
        base64_bytes_of(r@) == Some(data@),
{
    base64::Engine::encode(&base64::prelude::BASE64_STANDARD, data)
}

/// Relies on base64::Engine::decode with the standard engine: fails on
/// characters outside the standard alphabet and on bad padding.
#[verifier::external_body]
fn base64_decode(s: &str) -> (r: Option<Vec<u8>>)
    ensures
        match r {
            Some(v) => base64_bytes_of(s@) == Some(v@),
            None => base64_bytes_of(s@) is None,
        },
{
    match base64::Engine::decode(&base64::prelude::BASE64_STANDARD, s) {
        Ok(v) => Some(v),
        Err(_) => None,
    }
}

/// The transport string of one frame's pixel bytes.
pub open spec fn encode_frame_spec(pixels: Seq<u8>) -> Seq<char> {
    base64_chars_of(lz4_block_of(pixels))
}

/// The decoding of one transport string against an expected byte
/// length: the pixel bytes, or the stage that found the corruption.
pub open spec fn decode_frame_spec(s: Seq<char>, expected_len: nat) -> Result<
    Seq<u8>,
    FrameCorruptKind,
> {
    match base64_bytes_of(s) {
        None => Err(FrameCorruptKind::Base64),
        Some(compressed) => match lz4_unblock_of(compressed) {
            None => Err(FrameCorruptKind::Decompress),
            Some(pixels) => if pixels.len() == expected_len {
                Ok(pixels)
            } else {
                Err(FrameCorruptKind::SizeMismatch)
            },
        },
    }
}

/// Encodes one frame's raw pixel bytes into its transport string.
///
/// The second clause is the codec round-trip law: decoding the result
/// against the frame's own length restores the bytes exactly.
pub fn encode_frame(pixels: &Vec<u8>) -> (r: String)
    requires
        pixels@.len() <= u32::MAX,
    ensures
        r@ == encode_frame_spec(pixels@),
        decode_frame_spec(r@, pixels@.len()) == Ok::<Seq<u8>, FrameCorruptKind>(pixels@),
{
    let compressed = lz4_compress(pixels.as_slice());
    base64_encode(compressed.as_slice())
}

/// Decodes one transport string back into raw pixel bytes, failing
/// when the base64 or the compressed block is corrupt or when the
/// decompressed length is not exactly `expected_len`.
pub fn decode_frame(s: &str, expected_len: usize) -> (r: Result<Vec<u8>, IconError>)
    ensures
        match r {
            Ok(v) => decode_frame_spec(s@, expected_len as nat) == Ok::<
                Seq<u8>,
                FrameCorruptKind,
            >(v@),
            Err(e) => e matches IconError::FrameCorrupt(k) && decode_frame_spec(
                s@,
                expected_len as nat,
            ) == Err::<Seq<u8>, FrameCorruptKind>(k),
        },
{
    let compressed = match base64_decode(s) {
        Some(v) => v,
        None => {
            return Err(IconError::FrameCorrupt(FrameCorruptKind::Base64));
        },
    };
    let pixels = match lz4_decompress(compressed.as_slice()) {
        Some(v) => v,
        None => {
            return Err(IconError::FrameCorrupt(FrameCorruptKind::Decompress));
        },
    };
    if pixels.len() != expected_len {
        return Err(IconError::FrameCorrupt(FrameCorruptKind::SizeMismatch));
    }
    Ok(pixels)
}

} // verus!
