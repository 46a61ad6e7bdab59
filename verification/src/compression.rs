//! The codec: whole-buffer Zstandard compression at one fixed level.

use vstd::prelude::*;

verus! {

/// The level at which every file is compressed.
pub const COMPRESSION_LEVEL: i32 = 3;

/// The Zstandard frame that the encoder writes for `data` at `level`, where it
/// has the memory to write one.
pub uninterp spec fn zstd_frame(data: Seq<u8>, level: int) -> Seq<u8>;

/// What the decoder reads out of `frame`, where it accepts `frame` and has the
/// memory to read it.
pub uninterp spec fn zstd_content(frame: Seq<u8>) -> Option<Seq<u8>>;

/// Why a buffer could not be compressed or decompressed.
#[derive(Debug)]
pub struct CodecError {
    /// What the codec reported.
    pub message: String,
}

/// Calls `zstd::stream::copy_encode` from a byte slice into a fresh vector.
/// Trusted: on success the vector holds the one frame that the encoder writes
/// for these bytes at this level, and that frame decodes to the same bytes.
/// Nothing is claimed of an error: the codec allocates its work space while
/// it compresses and reports a failed allocation as an error, so the same
/// bytes may be compressed on one machine and refused on another.
#[verifier::external_body]
fn zstd_encode(data: &[u8], level: i32) -> (outcome: Result<Vec<u8>, String>)
    ensures
        outcome matches Ok(frame) ==> frame@ == zstd_frame(data@, level as int) && zstd_content(
            frame@,
        ) == Some(data@),
{
    let mut frame = Vec::new();
    match zstd::stream::copy_encode(data, &mut frame, level) {
        Ok(()) => Ok(frame),
        Err(error) => Err(error.to_string()),
    }
}

/// Calls `zstd::stream::copy_decode` from a byte slice into a fresh vector.
/// Trusted: what a successful call returns depends on the bytes of `frame`
/// alone. Nothing is claimed of an error: the call fails on bytes that are no
/// frame, but also where the decoder's context or buffers cannot be
/// allocated, whatever the bytes are.
#[verifier::external_body]
fn zstd_decode(frame: &[u8]) -> (outcome: Result<Vec<u8>, String>)
    ensures
        outcome matches Ok(data) ==> zstd_content(frame@) == Some(data@),
{
    let mut data = Vec::new();
    match zstd::stream::copy_decode(frame, &mut data) {
        Ok(()) => Ok(data),
        Err(error) => Err(error.to_string()),
    }
}

/// What the codec's outcome means to the caller: the bytes as they are, or the
/// codec's report as a `CodecError`.
pub fn codec_outcome(outcome: Result<Vec<u8>, String>) -> (result: Result<Vec<u8>, CodecError>)
    ensures
        match outcome {
            Ok(bytes) => result == Ok::<Vec<u8>, CodecError>(bytes),
            Err(message) => result == Err::<Vec<u8>, CodecError>(CodecError { message }),
        },
{
    match outcome {
        Ok(bytes) => Ok(bytes),
        Err(message) => Err(CodecError { message }),
    }
}

/// Compresses the bytes of a file. What comes back on success is the frame
/// for `content` at `COMPRESSION_LEVEL`, and it decompresses to `content`.
/// Whether the codec succeeds is for the codec and the machine's memory to
/// decide; its error is handed on as `codec_outcome` says.
pub fn compress_file(content: &[u8]) -> (result: Result<Vec<u8>, CodecError>)
    ensures
        result matches Ok(frame) ==> frame@ == zstd_frame(content@, COMPRESSION_LEVEL as int)
            && zstd_content(frame@) == Some(content@),
{
    codec_outcome(zstd_encode(content, COMPRESSION_LEVEL))
}

/// Decompresses the bytes of an artifact. What comes back on success is what
/// the decoder reads out of `frame`, so bytes that are no frame give an
/// error. A frame may give an error too, where the decoder lacks the memory;
/// the error is handed on as `codec_outcome` says.
pub fn decompress_file(frame: &[u8]) -> (result: Result<Vec<u8>, CodecError>)
    ensures
        result matches Ok(content) ==> zstd_content(frame@) == Some(content@),
{
    codec_outcome(zstd_decode(frame))
}

/// Compression loses nothing: whatever `compress_file` returned for `content`,
/// whatever `decompress_file` then returns for that frame is `content` again.
/// That the second call returns anything is not part of the law: it may fail
/// for want of memory.
pub proof fn lemma_round_trip(content: Seq<u8>, frame: Seq<u8>, restored: Seq<u8>)
    requires
        frame == zstd_frame(content, COMPRESSION_LEVEL as int),
        zstd_content(frame) == Some(content),
        zstd_content(frame) == Some(restored),
    ensures
        restored == content,
{
}

} // verus!
