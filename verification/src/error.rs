use vstd::prelude::*;

verus! {

/// Why a conversion was abandoned. Every failure is final for the call that
/// hit it: no partial output is ever handed back.
#[derive(Clone, Copy, Debug, PartialEq, Eq, Structural)]
pub enum ConversionError {
    /// The table directory runs past the container, repeats a tag, or holds
    /// an integer that is not a valid variable-length number.
    MalformedDirectory,
    /// A transformed table could not be turned back into its original form.
    TransformReversalError,
    /// The compressed stream is truncated or corrupt, or the decoded size
    /// that the container claims is zero or above the ceiling.
    DecompressionError,
    /// The container does not start with the signature of a known version.
    UnsupportedVersion,
    /// The rebuilt font is not as long as the header said it would be.
    SizeMismatch,
    /// The compression quality is outside `0..=11`.
    ParameterError,
    /// The encoder or the stream compressor gave its input up without saying
    /// why.
    EncodingError,
}

} // verus!
