use crate::container::{container_is_well_formed, container_well_formed};
use crate::directory::{directory_well_formed, read_directory};
use crate::error::ConversionError;
use crate::size::{
    be_u32, claimed_size, final_decompressed_size, max_woff2_compressed_size, read_be_u32,
    DEFAULT_MAX_SIZE, HEADER_SIZE, OUTPUT_OVERHEAD,
};
use vstd::prelude::*;

verus! {

/// Highest compression quality that the stream compressor knows.
pub const MAX_QUALITY: u8 = 11;

/// The four bytes `wOF2`, read as a big-endian number: the signature of the
/// one container version that is understood.
pub const SIGNATURE: u32 = 2001684018;

/// What the stream encoder is asked to do for one font: the most bytes it may
/// give back, and the settings it works with.
#[derive(Clone, Copy, Debug, PartialEq, Eq, Structural)]
pub struct EncodeRequest {
    pub capacity: usize,
    pub quality: u8,
    pub allow_transforms: bool,
}

/// Why a decoder gave a container up.
#[derive(Clone, Copy, Debug, PartialEq, Eq, Structural)]
pub enum DecodeFailure {
    /// The directory claims tables that the decoded stream does not hold, or
    /// is otherwise not what the format asks for.
    Directory,
    /// The compressed stream is truncated or corrupt, or the decoder cannot
    /// tell what went wrong.
    Stream,
    /// The stream was decoded, but a transformed table in it could not be
    /// turned back.
    Transform,
}

/// Whether a font is handed to the encoder, and with what request. A quality
/// above 11 is refused first; then a font whose directory is not well formed;
/// then one for which no output buffer can be sized.
pub open spec fn encode_plan(
    font: Seq<u8>,
    metadata_len: int,
    quality: u8,
    allow_transforms: bool,
) -> Result<EncodeRequest, ConversionError> {
    if quality > MAX_QUALITY {
        Err(ConversionError::ParameterError)
    } else if !directory_well_formed(font) {
        Err(ConversionError::MalformedDirectory)
    } else if font.len() + OUTPUT_OVERHEAD + metadata_len > usize::MAX {
        Err(ConversionError::EncodingError)
    } else {
        Ok(
            EncodeRequest {
                capacity: (font.len() + OUTPUT_OVERHEAD + metadata_len) as usize,
                quality,
                allow_transforms,
            },
        )
    }
}

/// What the caller gets for each outcome of the encoder: its output where
/// that fits in the capacity it was given; `SizeMismatch` where it does not;
/// `EncodingError` where the encoder gave the font up.
pub open spec fn encode_result(capacity: usize, outcome: Option<Vec<u8>>) -> Result<
    Vec<u8>,
    ConversionError,
> {
    match outcome {
        None => Err(ConversionError::EncodingError),
        Some(bytes) => if bytes@.len() > capacity {
            Err(ConversionError::SizeMismatch)
        } else {
            Ok(bytes)
        },
    }
}

/// Whether a container is handed to the decoder, and how large the font is
/// that it must give back, where no font above `ceiling` bytes is accepted.
/// A claimed size above the ceiling is refused before anything else is
/// looked at; then a header that is cut short, a signature that is not known,
/// a directory that is cut short or holds a malformed number, a compressed
/// stream declared longer than the bytes that remain, and a claimed size of
/// zero.
pub open spec fn decode_plan_within(container: Seq<u8>, ceiling: usize) -> Result<
    usize,
    ConversionError,
> {
    if claimed_size(container) > ceiling {
        Err(ConversionError::DecompressionError)
    } else if container.len() < HEADER_SIZE {
        Err(ConversionError::MalformedDirectory)
    } else if be_u32(container, 0) != SIGNATURE {
        Err(ConversionError::UnsupportedVersion)
    } else if !container_well_formed(container) {
        Err(ConversionError::MalformedDirectory)
    } else if claimed_size(container) == 0 {
        Err(ConversionError::DecompressionError)
    } else {
        Ok(claimed_size(container) as usize)
    }
}

/// `decode_plan_within` at the default ceiling.
pub open spec fn decode_plan(container: Seq<u8>) -> Result<usize, ConversionError> {
    decode_plan_within(container, DEFAULT_MAX_SIZE)
}

/// What the caller gets for each outcome of the decoder: the font where it
/// is exactly as long as the header said; `SizeMismatch` where it is not;
/// `MalformedDirectory` where the decoder found the directory at odds with
/// the tables, `DecompressionError` where it gave the stream up, and
/// `TransformReversalError` where it gave a transformed table up.
pub open spec fn decode_result(expected: usize, outcome: Result<Vec<u8>, DecodeFailure>) -> Result<
    Vec<u8>,
    ConversionError,
> {
    match outcome {
        Err(DecodeFailure::Directory) => Err(ConversionError::MalformedDirectory),
        Err(DecodeFailure::Stream) => Err(ConversionError::DecompressionError),
        Err(DecodeFailure::Transform) => Err(ConversionError::TransformReversalError),
        Ok(bytes) => if bytes@.len() != expected {
            Err(ConversionError::SizeMismatch)
        } else {
            Ok(bytes)
        },
    }
}

/// Decides whether `font` goes to the encoder, and sizes its output.
pub fn prepare_encode(
    font: &[u8],
    metadata_len: usize,
    quality: u8,
    allow_transforms: bool,
) -> (plan: Result<EncodeRequest, ConversionError>)
    ensures
        plan == encode_plan(font@, metadata_len as int, quality, allow_transforms),
{
    if quality > MAX_QUALITY {
        return Err(ConversionError::ParameterError);
    }
    match read_directory(font) {
        Err(e) => Err(e),
        Ok(_) => {
            if metadata_len > usize::MAX - OUTPUT_OVERHEAD || font.len() > usize::MAX
                - OUTPUT_OVERHEAD - metadata_len {
                Err(ConversionError::EncodingError)
            } else {
                Ok(
                    EncodeRequest {
                        capacity: max_woff2_compressed_size(font.len(), metadata_len),
                        quality,
                        allow_transforms,
                    },
                )
            }
        },
    }
}

/// Takes what the encoder gave and hands it on only where it kept to the
/// capacity of the request.
pub fn finish_encode(capacity: usize, outcome: Option<Vec<u8>>) -> (converted: Result<
    Vec<u8>,
    ConversionError,
>)
    ensures
        converted == encode_result(capacity, outcome),
        converted is Ok ==> converted->Ok_0@.len() <= capacity,
{
    match outcome {
        None => Err(ConversionError::EncodingError),
        Some(bytes) => {
            if bytes.len() > capacity {
                Err(ConversionError::SizeMismatch)
            } else {
                Ok(bytes)
            }
        },
    }
}

/// Decides whether `container` goes to the decoder, and how long the font
/// must be that comes back, with a ceiling of the caller's choice. The header
/// and the directory behind it are read, and nothing of the compressed
/// stream.
pub fn prepare_decode_within(container: &[u8], ceiling: usize) -> (plan: Result<
    usize,
    ConversionError,
>)
    ensures
        plan == decode_plan_within(container@, ceiling),
        plan is Ok ==> 0 < plan->Ok_0 <= ceiling,
{
    let claimed: usize = final_decompressed_size(container);
    if claimed > ceiling {
        return Err(ConversionError::DecompressionError);
    }
    if container.len() < HEADER_SIZE {
        return Err(ConversionError::MalformedDirectory);
    }
    if read_be_u32(container, 0) != SIGNATURE {
        return Err(ConversionError::UnsupportedVersion);
    }
    if !container_is_well_formed(container) {
        return Err(ConversionError::MalformedDirectory);
    }
    if claimed == 0 {
        return Err(ConversionError::DecompressionError);
    }
    Ok(claimed)
}

/// Decides whether `container` goes to the decoder, and how long the font
/// must be that comes back, at the default ceiling of 30 MiB.
pub fn prepare_decode(container: &[u8]) -> (plan: Result<usize, ConversionError>)
    ensures
        plan == decode_plan(container@),
        plan is Ok ==> 0 < plan->Ok_0 <= DEFAULT_MAX_SIZE,
{
    prepare_decode_within(container, DEFAULT_MAX_SIZE)
}

/// Takes what the decoder gave and hands it on only where it is as long as
/// the header said.
pub fn finish_decode(expected: usize, outcome: Result<Vec<u8>, DecodeFailure>) -> (converted:
    Result<Vec<u8>, ConversionError>)
    ensures
        converted == decode_result(expected, outcome),
        converted is Ok ==> converted->Ok_0@.len() == expected,
{
    match outcome {
        Err(DecodeFailure::Directory) => Err(ConversionError::MalformedDirectory),
        Err(DecodeFailure::Stream) => Err(ConversionError::DecompressionError),
        Err(DecodeFailure::Transform) => Err(ConversionError::TransformReversalError),
        Ok(bytes) => {
            if bytes.len() != expected {
                Err(ConversionError::SizeMismatch)
            } else {
                Ok(bytes)
            }
        },
    }
}

/// Converts a font to the compressed container. The parameters are checked
/// and the output sized here; `encoder` does the stream work and is called at
/// most once, and only with a request that passed the checks. Its output is
/// handed on only where it fits in the capacity it was given, so the result
/// is never longer than `max_woff2_compressed_size` says.
pub fn convert_ttf_to_woff2<E>(
    ttf_font_bytes: &[u8],
    additional_extended_metadata_bytes: &[u8],
    brotli_quality: u8,
    allow_transforms: bool,
    encoder: E,
) -> (converted: Result<Vec<u8>, ConversionError>) where
    E: FnOnce(&[u8], &[u8], EncodeRequest) -> Option<Vec<u8>>,

    requires
        forall|request: EncodeRequest|
            encode_plan(
                ttf_font_bytes@,
                additional_extended_metadata_bytes.len() as int,
                brotli_quality,
                allow_transforms,
            ) == Ok::<_, ConversionError>(request) ==> encoder.requires(
                (ttf_font_bytes, additional_extended_metadata_bytes, request),
            ),
    ensures
        match encode_plan(
            ttf_font_bytes@,
            additional_extended_metadata_bytes.len() as int,
            brotli_quality,
            allow_transforms,
        ) {
            Err(e) => converted == Err::<Vec<u8>, _>(e),
            Ok(request) => exists|outcome: Option<Vec<u8>>|
                encoder.ensures(
                    (ttf_font_bytes, additional_extended_metadata_bytes, request),
                    outcome,
                ) && converted == encode_result(request.capacity, outcome),
        },
        brotli_quality > MAX_QUALITY ==> converted == Err::<Vec<u8>, _>(
            ConversionError::ParameterError,
        ),
        brotli_quality <= MAX_QUALITY && !directory_well_formed(ttf_font_bytes@) ==> converted
            == Err::<Vec<u8>, _>(ConversionError::MalformedDirectory),
        converted is Ok ==> converted->Ok_0@.len() <= ttf_font_bytes.len() + OUTPUT_OVERHEAD
            + additional_extended_metadata_bytes.len(),
{
    match prepare_encode(
        ttf_font_bytes,
        additional_extended_metadata_bytes.len(),
        brotli_quality,
        allow_transforms,
    ) {
        Err(e) => Err(e),
        Ok(request) => {
            let outcome = encoder(ttf_font_bytes, additional_extended_metadata_bytes, request);
            finish_encode(request.capacity, outcome)
        },
    }
}

/// Converts a compressed container back to a font of at most `ceiling`
/// bytes. The header is checked here and the directory behind it is walked;
/// `decoder` does the stream work and is called at most once, with the
/// container and the exact size of the font it must give back, which is
/// never above `ceiling`. A container that claims more is refused before the
/// decoder is reached, and so is one whose directory is cut short or whose
/// compressed stream is declared longer than the bytes that remain.
pub fn convert_woff2_to_ttf_within<D>(
    woff2_font_bytes: &[u8],
    ceiling: usize,
    decoder: D,
) -> (converted: Result<Vec<u8>, ConversionError>) where
    D: FnOnce(&[u8], usize) -> Result<Vec<u8>, DecodeFailure>,

    requires
        forall|expected: usize|
            decode_plan_within(woff2_font_bytes@, ceiling) == Ok::<_, ConversionError>(expected)
                ==> decoder.requires((woff2_font_bytes, expected)),
    ensures
        match decode_plan_within(woff2_font_bytes@, ceiling) {
            Err(e) => converted == Err::<Vec<u8>, _>(e),
            Ok(expected) => exists|outcome: Result<Vec<u8>, DecodeFailure>|
                decoder.ensures((woff2_font_bytes, expected), outcome) && converted
                    == decode_result(expected, outcome),
        },
        claimed_size(woff2_font_bytes@) > ceiling ==> converted == Err::<Vec<u8>, _>(
            ConversionError::DecompressionError,
        ),
        claimed_size(woff2_font_bytes@) <= ceiling && woff2_font_bytes@.len() >= HEADER_SIZE
            && be_u32(woff2_font_bytes@, 0) == SIGNATURE && !container_well_formed(
            woff2_font_bytes@,
        ) ==> converted == Err::<Vec<u8>, _>(ConversionError::MalformedDirectory),
        converted is Ok ==> converted->Ok_0@.len() == claimed_size(woff2_font_bytes@)
            && converted->Ok_0@.len() <= ceiling,
{
    match prepare_decode_within(woff2_font_bytes, ceiling) {
        Err(e) => Err(e),
        Ok(expected) => {
            let outcome = decoder(woff2_font_bytes, expected);
            finish_decode(expected, outcome)
        },
    }
}

/// Converts a compressed container back to a font, at the default ceiling of
/// 30 MiB on the size of the font.
pub fn convert_woff2_to_ttf<D>(woff2_font_bytes: &[u8], decoder: D) -> (converted: Result<
    Vec<u8>,
    ConversionError,
>) where
    D: FnOnce(&[u8], usize) -> Result<Vec<u8>, DecodeFailure>,

    requires
        forall|expected: usize|
            decode_plan(woff2_font_bytes@) == Ok::<_, ConversionError>(expected)
                ==> decoder.requires((woff2_font_bytes, expected)),
    ensures
        match decode_plan(woff2_font_bytes@) {
            Err(e) => converted == Err::<Vec<u8>, _>(e),
            Ok(expected) => exists|outcome: Result<Vec<u8>, DecodeFailure>|
                decoder.ensures((woff2_font_bytes, expected), outcome) && converted
                    == decode_result(expected, outcome),
        },
        claimed_size(woff2_font_bytes@) > DEFAULT_MAX_SIZE ==> converted == Err::<Vec<u8>, _>(
            ConversionError::DecompressionError,
        ),
        claimed_size(woff2_font_bytes@) <= DEFAULT_MAX_SIZE && woff2_font_bytes@.len()
            >= HEADER_SIZE && be_u32(woff2_font_bytes@, 0) == SIGNATURE
            && !container_well_formed(woff2_font_bytes@) ==> converted == Err::<Vec<u8>, _>(
            ConversionError::MalformedDirectory,
        ),
        converted is Ok ==> converted->Ok_0@.len() == claimed_size(woff2_font_bytes@)
            && converted->Ok_0@.len() <= DEFAULT_MAX_SIZE,
{
    convert_woff2_to_ttf_within(woff2_font_bytes, DEFAULT_MAX_SIZE, decoder)
}

/// The checks made around the codec let a faithful codec through. Where a
/// font passes the checks before encoding, the encoder keeps to its capacity
/// and writes a header that passes the checks before decoding and claims the
/// font's length, and the decoder gives the font back, the container is
/// handed on unchanged and so is the font.
pub proof fn lemma_checks_pass_faithful_codec(
    font: Vec<u8>,
    metadata_len: int,
    quality: u8,
    allow_transforms: bool,
    container: Vec<u8>,
)
    requires
        encode_plan(font@, metadata_len, quality, allow_transforms) is Ok,
        container@.len() <= encode_plan(font@, metadata_len, quality, allow_transforms)->Ok_0.capacity,
        decode_plan(container@) is Ok,
        claimed_size(container@) == font@.len(),
    ensures
        encode_result(
            encode_plan(font@, metadata_len, quality, allow_transforms)->Ok_0.capacity,
            Some(container),
        ) == Ok::<_, ConversionError>(container),
        decode_plan(container@) == Ok::<_, ConversionError>(font@.len() as usize),
        decode_result(decode_plan(container@)->Ok_0, Ok(font)) == Ok::<_, ConversionError>(font),
{
}

} // verus!
