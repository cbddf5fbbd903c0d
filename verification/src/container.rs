use crate::base128::read_base128;
use crate::entries::{base128_at, lemma_base128_at, GLYF_TAG, LOCA_TAG};
use crate::size::{be_u16, be_u32, read_be_u16, read_be_u32, HEADER_SIZE};
use vstd::prelude::*;

verus! {

/// Position of the 16-bit table count in the container's header.
pub const CONTAINER_COUNT_OFFSET: usize = 12;

/// Position, in the header, of the 32-bit length of the compressed stream.
pub const COMPRESSED_SIZE_OFFSET: usize = 20;

/// Index that says the tag is written out in the four bytes that follow.
pub const EXPLICIT_TAG: u8 = 63;

/// Index of the glyph outline table among the well-known tags.
pub const GLYF_INDEX: u8 = 10;

/// Index of the glyph location table among the well-known tags.
pub const LOCA_INDEX: u8 = 11;

/// The number of tables that the container's header declares.
pub open spec fn container_table_count(bytes: Seq<u8>) -> int
    recommends
        bytes.len() >= HEADER_SIZE,
{
    be_u16(bytes, CONTAINER_COUNT_OFFSET as int)
}

/// Whether the entry at `pos` belongs to the glyph outlines or to their
/// companion table of locations, by well-known index or by written-out tag.
pub open spec fn glyph_entry(bytes: Seq<u8>, pos: int) -> bool {
    let index = bytes[pos] % 64;
    index == GLYF_INDEX || index == LOCA_INDEX || (index == EXPLICIT_TAG && (be_u32(bytes, pos + 1)
        == GLYF_TAG || be_u32(bytes, pos + 1) == LOCA_TAG))
}

/// Whether the entry at `pos` records a transformed table, and so carries a
/// second length: a glyph table where its version is 0, any other table
/// where its version is not 0.
pub open spec fn transformed_entry(bytes: Seq<u8>, pos: int) -> bool {
    let version = bytes[pos] / 64;
    if glyph_entry(bytes, pos) {
        version == 0
    } else {
        version != 0
    }
}

/// Where the entry that starts at `pos` ends, if a whole entry stands there:
/// one byte of flags, the tag in four bytes where it is written out, the
/// original length, and the transformed length where the table is
/// transformed; both lengths are variable-length numbers.
pub open spec fn entry_end(bytes: Seq<u8>, pos: int) -> Option<int> {
    if pos < 0 || pos >= bytes.len() {
        None
    } else {
        let lengths_at = if bytes[pos] % 64 == EXPLICIT_TAG {
            pos + 5
        } else {
            pos + 1
        };
        if lengths_at > bytes.len() {
            None
        } else {
            match base128_at(bytes, lengths_at) {
                None => None,
                Some((_, mid)) => if transformed_entry(bytes, pos) {
                    match base128_at(bytes, mid) {
                        None => None,
                        Some((_, end)) => Some(end),
                    }
                } else {
                    Some(mid)
                },
            }
        }
    }
}

/// Where `count` entries that start at `pos` end, if that many whole entries
/// stand there.
pub open spec fn entries_end(bytes: Seq<u8>, pos: int, count: int) -> Option<int>
    decreases count,
{
    if count <= 0 {
        Some(pos)
    } else {
        match entries_end(bytes, pos, count - 1) {
            None => None,
            Some(at) => entry_end(bytes, at),
        }
    }
}

/// The container holds a whole header and, behind it, as many whole
/// directory entries as the header declares.
pub open spec fn container_directory_whole(bytes: Seq<u8>) -> bool {
    bytes.len() >= HEADER_SIZE && entries_end(
        bytes,
        HEADER_SIZE as int,
        container_table_count(bytes),
    ) is Some
}

/// The container's directory is whole, and the compressed stream that the
/// header declares is no longer than the bytes that remain behind the
/// directory.
pub open spec fn container_well_formed(bytes: Seq<u8>) -> bool {
    &&& container_directory_whole(bytes)
    &&& entries_end(bytes, HEADER_SIZE as int, container_table_count(bytes))->Some_0 + be_u32(
        bytes,
        COMPRESSED_SIZE_OFFSET as int,
    ) <= bytes.len()
}

/// Where fewer entries cannot be read, more cannot either.
pub proof fn lemma_entries_end_fails_on(bytes: Seq<u8>, pos: int, fewer: int, more: int)
    requires
        fewer <= more,
        entries_end(bytes, pos, fewer) is None,
    ensures
        entries_end(bytes, pos, more) is None,
    decreases more,
{
    if fewer < more {
        lemma_entries_end_fails_on(bytes, pos, fewer, more - 1);
    }
}

/// Finds the end of the entry at `pos`.
fn skip_entry(data: &[u8], pos: usize) -> (end: Option<usize>)
    requires
        pos <= data.len(),
    ensures
        match end {
            Some(next) => pos < next <= data.len() && entry_end(data@, pos as int) == Some(
                next as int,
            ),
            None => entry_end(data@, pos as int) is None,
        },
{
    if pos >= data.len() {
        return None;
    }
    let flags: u8 = data[pos];
    let index: u8 = flags % 64;
    let version: u8 = flags / 64;
    let mut glyph: bool = index == GLYF_INDEX || index == LOCA_INDEX;
    let mut lengths_at: usize = pos + 1;
    if index == EXPLICIT_TAG {
        if data.len() - pos < 5 {
            return None;
        }
        let tag: u32 = read_be_u32(data, pos + 1);
        glyph = tag == GLYF_TAG || tag == LOCA_TAG;
        lengths_at = pos + 5;
    }
    let mid: usize = match read_base128(data, lengths_at) {
        None => { return None; },
        Some(found) => found.1,
    };
    proof {
        lemma_base128_at(data@, lengths_at as int, mid - lengths_at);
    }
    let transformed: bool = if glyph {
        version == 0
    } else {
        version != 0
    };
    if !transformed {
        return Some(mid);
    }
    let end: usize = match read_base128(data, mid) {
        None => { return None; },
        Some(found) => found.1,
    };
    proof {
        lemma_base128_at(data@, mid as int, end - mid);
    }
    Some(end)
}

/// Finds where the container's directory ends, if the container holds a
/// whole header and a whole directory behind it. Only the header and the
/// directory are read, never a byte outside `data`.
pub fn directory_end(data: &[u8]) -> (end: Option<usize>)
    ensures
        end is Some <==> container_directory_whole(data@),
        end is Some ==> end->Some_0 <= data@.len() && entries_end(
            data@,
            HEADER_SIZE as int,
            container_table_count(data@),
        ) == Some(end->Some_0 as int),
{
    if data.len() < HEADER_SIZE {
        return None;
    }
    let count: usize = read_be_u16(data, CONTAINER_COUNT_OFFSET) as usize;
    let mut pos: usize = HEADER_SIZE;
    let mut i: usize = 0;
    while i < count
        invariant
            0 <= i <= count,
            count == container_table_count(data@),
            HEADER_SIZE <= pos <= data@.len(),
            entries_end(data@, HEADER_SIZE as int, i as int) == Some(pos as int),
        decreases count - i,
    {
        match skip_entry(data, pos) {
            None => {
                proof {
                    assert(entries_end(data@, HEADER_SIZE as int, i + 1) is None);
                    lemma_entries_end_fails_on(data@, HEADER_SIZE as int, i + 1, count as int);
                }
                return None;
            },
            Some(next) => {
                pos = next;
            },
        }
        i = i + 1;
    }
    Some(pos)
}

/// Whether the container holds a whole header and a whole directory behind
/// it.
pub fn directory_is_whole(data: &[u8]) -> (whole: bool)
    ensures
        whole == container_directory_whole(data@),
{
    directory_end(data).is_some()
}

/// Whether the container's directory is whole and the compressed stream that
/// the header declares fits in the bytes behind it.
pub fn container_is_well_formed(data: &[u8]) -> (well_formed: bool)
    ensures
        well_formed == container_well_formed(data@),
{
    match directory_end(data) {
        None => false,
        Some(end) => {
            let stream: usize = read_be_u32(data, COMPRESSED_SIZE_OFFSET) as usize;
            stream <= data.len() - end
        },
    }
}

} // verus!
