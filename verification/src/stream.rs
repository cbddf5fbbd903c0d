use crate::convert::MAX_QUALITY;
use crate::error::ConversionError;
use std::io::Read;
use vstd::prelude::*;

verus! {

/// The first `limit` bytes of what the Brotli stream `stream` decodes to (all
/// of it where it is shorter), or `None` where the decompressor reports an
/// error before it has produced them.
pub uninterp spec fn decoded_prefix(stream: Seq<u8>, limit: u64) -> Option<Seq<u8>>;

/// The Brotli stream `stream` decodes to exactly `bytes`: read with any limit
/// of at least their number, the decompressor gives all of them and no error.
pub open spec fn decodes_to(stream: Seq<u8>, bytes: Seq<u8>) -> bool {
    forall|limit: u64|
        limit >= bytes.len() ==> #[trigger] decoded_prefix(stream, limit) == Some(bytes)
}

/// The bytes of a buffer that may be missing.
pub open spec fn bytes_of(buffer: Option<Vec<u8>>) -> Option<Seq<u8>> {
    match buffer {
        None => None,
        Some(bytes) => Some(bytes@),
    }
}

/// The bytes of a result, with its error kept.
pub open spec fn result_bytes(result: Result<Vec<u8>, ConversionError>) -> Result<
    Seq<u8>,
    ConversionError,
> {
    match result {
        Err(e) => Err(e),
        Ok(bytes) => Ok(bytes@),
    }
}

/// How many decoded bytes are asked for when at most `max_size` are wanted:
/// one more, so that a stream that would pass the cap is told from one that
/// just fills it.
pub open spec fn read_limit(max_size: usize) -> u64 {
    if max_size < u64::MAX {
        (max_size + 1) as u64
    } else {
        u64::MAX
    }
}

/// What `compress` returns for each outcome of the compressor: the stream it
/// made, or `EncodingError` where it gave the input up.
pub open spec fn compress_result(outcome: Option<Vec<u8>>) -> Result<Vec<u8>, ConversionError> {
    match outcome {
        None => Err(ConversionError::EncodingError),
        Some(stream) => Ok(stream),
    }
}

/// What `decompress` returns for each outcome of the decompressor: the
/// decoded bytes where there are at most `max_size` of them, and
/// `DecompressionError` where the stream was given up or decodes to more.
pub open spec fn bounded_result(outcome: Option<Seq<u8>>, max_size: usize) -> Result<
    Seq<u8>,
    ConversionError,
> {
    match outcome {
        None => Err(ConversionError::DecompressionError),
        Some(bytes) => if bytes.len() > max_size {
            Err(ConversionError::DecompressionError)
        } else {
            Ok(bytes)
        },
    }
}

/// Calls `brotli::BrotliCompress` on `data` with the default parameters and
/// the given quality, writing to a fresh buffer. Trusted: a stream that the
/// compressor hands back is a Brotli stream of `data`, so that the
/// decompressor, read with any limit of at least `data.len()`, gives `data`
/// back. That is what the compressor is for, and what its own tests hold it
/// to; it is not proved here. Nothing else is claimed: not that the call
/// succeeds, not how long the stream is, and not that two calls on one input
/// give the same bytes, since the compressor weighs its choices with
/// floating-point estimates.
#[verifier::external_body]
fn brotli_compress(data: &[u8], quality: u8) -> (stream: Option<Vec<u8>>)
    requires
        quality <= MAX_QUALITY,
    ensures
        stream is Some ==> forall|limit: u64|
            limit >= data@.len() ==> #[trigger] decoded_prefix(stream->Some_0@, limit) == Some(
                data@,
            ),
{
    let mut params = brotli::enc::BrotliEncoderParams::default();
    params.quality = i32::from(quality);
    let mut input: &[u8] = data;
    let mut out: Vec<u8> = Vec::new();
    match brotli::BrotliCompress(&mut input, &mut out, &params) {
        Ok(_) => Some(out),
        Err(_) => None,
    }
}

/// Reads at most `limit` bytes from a `brotli::Decompressor` over `stream`.
/// Trusted: the bytes read are a function of the stream and the limit alone.
/// Nothing more is claimed of them here, nor that the call succeeds.
#[verifier::external_body]
fn brotli_decompress_prefix(stream: &[u8], limit: u64) -> (decoded: Option<Vec<u8>>)
    ensures
        bytes_of(decoded) == decoded_prefix(stream@, limit),
{
    let mut out: Vec<u8> = Vec::new();
    let mut reader = brotli::Decompressor::new(stream, 4096).take(limit);
    match reader.read_to_end(&mut out) {
        Ok(_) => Some(out),
        Err(_) => None,
    }
}

/// Hands on a decoded buffer only where it keeps to the cap.
pub fn accept_decoded(outcome: Option<Vec<u8>>, max_size: usize) -> (accepted: Result<
    Vec<u8>,
    ConversionError,
>)
    ensures
        result_bytes(accepted) == bounded_result(bytes_of(outcome), max_size),
        accepted is Ok ==> outcome == Some(accepted->Ok_0),
{
    match outcome {
        None => Err(ConversionError::DecompressionError),
        Some(bytes) => {
            if bytes.len() > max_size {
                Err(ConversionError::DecompressionError)
            } else {
                Ok(bytes)
            }
        },
    }
}

/// Hands on what the compressor made, or reports that it gave up.
pub fn accept_compressed(outcome: Option<Vec<u8>>) -> (accepted: Result<Vec<u8>, ConversionError>)
    ensures
        accepted == compress_result(outcome),
        accepted is Ok ==> outcome == Some(accepted->Ok_0),
{
    match outcome {
        None => Err(ConversionError::EncodingError),
        Some(stream) => Ok(stream),
    }
}

/// Compresses `bytes` into one Brotli stream. A quality above 11 is refused
/// with `ParameterError` before the compressor is reached, and nothing else
/// gives that error; at a quality within range the result is the
/// compressor's stream, which decodes to exactly `bytes`, or `EncodingError`
/// where the compressor gave the input up.
pub fn compress(bytes: &[u8], quality: u8) -> (compressed: Result<Vec<u8>, ConversionError>)
    ensures
        quality > MAX_QUALITY <==> compressed == Err::<Vec<u8>, _>(ConversionError::ParameterError),
        quality <= MAX_QUALITY ==> compressed is Ok || compressed == Err::<Vec<u8>, _>(
            ConversionError::EncodingError,
        ),
        compressed is Ok ==> decodes_to(compressed->Ok_0@, bytes@),
{
    if quality > MAX_QUALITY {
        return Err(ConversionError::ParameterError);
    }
    accept_compressed(brotli_compress(bytes, quality))
}

/// Decompresses one Brotli stream into at most `expected_max_size` bytes.
/// The decompressor is never asked for more than one byte past the cap, so
/// no stream can make this function hold more than that; a stream that
/// decodes to more fails with `DecompressionError`, as does one that is
/// truncated or corrupt.
pub fn decompress(bytes: &[u8], expected_max_size: usize) -> (decoded: Result<
    Vec<u8>,
    ConversionError,
>)
    ensures
        result_bytes(decoded) == bounded_result(
            decoded_prefix(bytes@, read_limit(expected_max_size)),
            expected_max_size,
        ),
        decoded is Ok ==> decoded->Ok_0@.len() <= expected_max_size,
        decoded is Err ==> decoded == Err::<Vec<u8>, _>(ConversionError::DecompressionError),
{
    let limit: u64 = if (expected_max_size as u64) < u64::MAX {
        expected_max_size as u64 + 1
    } else {
        u64::MAX
    };
    accept_decoded(brotli_decompress_prefix(bytes, limit), expected_max_size)
}

/// Decompressing undoes compressing. Where a stream decodes to `bytes` and
/// the cap admits that many bytes, `decompress` gives exactly `bytes`.
pub proof fn lemma_decompress_undoes_compress(stream: Seq<u8>, bytes: Seq<u8>, max_size: usize)
    requires
        decodes_to(stream, bytes),
        bytes.len() <= max_size,
    ensures
        bounded_result(decoded_prefix(stream, read_limit(max_size)), max_size) == Ok::<
            Seq<u8>,
            ConversionError,
        >(bytes),
{
    assert(read_limit(max_size) >= bytes.len());
}

} // verus!
