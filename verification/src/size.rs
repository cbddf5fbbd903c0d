use vstd::prelude::*;

verus! {

/// Fixed allowance added to the input length when an output buffer for the
/// compressed container is sized.
pub const OUTPUT_OVERHEAD: usize = 1024;

/// Absolute ceiling on the size of a decoded font: 30 MiB.
pub const DEFAULT_MAX_SIZE: usize = 31457280;

/// Length of the fixed header of the compressed container.
pub const HEADER_SIZE: usize = 48;

/// Position, in the header, of the 32-bit field that records the size of the
/// decoded font.
pub const TOTAL_SIZE_OFFSET: usize = 16;

/// The big-endian 16-bit number stored at `at`.
pub open spec fn be_u16(bytes: Seq<u8>, at: int) -> int
    recommends
        0 <= at,
        at + 2 <= bytes.len(),
{
    bytes[at] as int * 256 + bytes[at + 1] as int
}

/// The big-endian 32-bit number stored at `at`.
pub open spec fn be_u32(bytes: Seq<u8>, at: int) -> int
    recommends
        0 <= at,
        at + 4 <= bytes.len(),
{
    bytes[at] as int * 16777216 + bytes[at + 1] as int * 65536 + bytes[at + 2] as int * 256
        + bytes[at + 3] as int
}

/// The decoded size that a container's header claims: the 32-bit field at
/// offset 16, or 0 where the container is too short to hold it.
pub open spec fn claimed_size(bytes: Seq<u8>) -> int {
    if bytes.len() < TOTAL_SIZE_OFFSET + 4 {
        0
    } else {
        be_u32(bytes, TOTAL_SIZE_OFFSET as int)
    }
}

pub fn read_be_u16(data: &[u8], at: usize) -> (value: u16)
    requires
        at + 2 <= data.len(),
    ensures
        value as int == be_u16(data@, at as int),
{
    let hi: u16 = data[at] as u16;
    let lo: u16 = data[at + 1] as u16;
    hi * 256 + lo
}

pub fn read_be_u32(data: &[u8], at: usize) -> (value: u32)
    requires
        at + 4 <= data.len(),
    ensures
        value as int == be_u32(data@, at as int),
{
    let b0: u32 = data[at] as u32;
    let b1: u32 = data[at + 1] as u32;
    let b2: u32 = data[at + 2] as u32;
    let b3: u32 = data[at + 3] as u32;
    b0 * 16777216 + b1 * 65536 + b2 * 256 + b3
}

/// Upper bound on the size of the compressed container made from a font of
/// `length` bytes that carries `extended_metadata_length` bytes of metadata:
/// both lengths plus the fixed allowance.
pub fn max_woff2_compressed_size(length: usize, extended_metadata_length: usize) -> (bound: usize)
    requires
        length + OUTPUT_OVERHEAD + extended_metadata_length <= usize::MAX,
    ensures
        bound == length + OUTPUT_OVERHEAD + extended_metadata_length,
        bound >= length,
        bound >= extended_metadata_length,
{
    length + OUTPUT_OVERHEAD + extended_metadata_length
}

/// The decoded size that the container's header claims. Only the header is
/// read; a container too short to hold the field gives 0.
pub fn final_decompressed_size(data: &[u8]) -> (size: usize)
    ensures
        size as int == claimed_size(data@),
{
    if data.len() < TOTAL_SIZE_OFFSET + 4 {
        0
    } else {
        read_be_u32(data, TOTAL_SIZE_OFFSET) as usize
    }
}

/// The decoded size that the container's header records, as it is recorded:
/// 0 where the header cannot be read, and never clamped. A header may record
/// far more than any font holds, so a caller that sizes a buffer by this
/// number holds it against a ceiling first, as `prepare_decode_within` does.
pub fn compute_woff2_final_size(data: &[u8]) -> (size: usize)
    ensures
        size as int == claimed_size(data@),
{
    final_decompressed_size(data)
}

} // verus!
