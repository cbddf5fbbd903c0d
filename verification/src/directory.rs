use crate::error::ConversionError;
use crate::size::{be_u16, be_u32, read_be_u16, read_be_u32};
use vstd::prelude::*;

verus! {

/// Length of the font header that precedes the table records.
pub const FONT_HEADER_SIZE: usize = 12;

/// Length of one table record.
pub const RECORD_SIZE: usize = 16;

/// Position of the 16-bit table count in the font header.
pub const TABLE_COUNT_OFFSET: usize = 4;

/// What the directory says of one table: its four-byte tag read as a
/// big-endian number, its checksum, and where its bytes lie in the font.
#[derive(Clone, Copy, Debug, PartialEq, Eq, Structural)]
pub struct TableRecord {
    pub tag: u32,
    pub checksum: u32,
    pub offset: u32,
    pub length: u32,
}

/// The number of tables that the font header declares.
pub open spec fn table_count(bytes: Seq<u8>) -> int
    recommends
        bytes.len() >= FONT_HEADER_SIZE,
{
    be_u16(bytes, TABLE_COUNT_OFFSET as int)
}

/// Where record `i` starts.
pub open spec fn record_start(i: int) -> int {
    FONT_HEADER_SIZE + RECORD_SIZE * i
}

/// Where the directory ends and the table payloads may begin.
pub open spec fn payload_start(bytes: Seq<u8>) -> int {
    record_start(table_count(bytes))
}

/// The tag of record `i`.
pub open spec fn tag_at(bytes: Seq<u8>, i: int) -> u32 {
    be_u32(bytes, record_start(i)) as u32
}

/// Record `i` of the directory.
pub open spec fn record_at(bytes: Seq<u8>, i: int) -> TableRecord {
    TableRecord {
        tag: tag_at(bytes, i),
        checksum: be_u32(bytes, record_start(i) + 4) as u32,
        offset: be_u32(bytes, record_start(i) + 8) as u32,
        length: be_u32(bytes, record_start(i) + 12) as u32,
    }
}

/// The bytes that record `i` claims lie inside the font.
pub open spec fn record_in_bounds(bytes: Seq<u8>, i: int) -> bool {
    be_u32(bytes, record_start(i) + 8) + be_u32(bytes, record_start(i) + 12) <= bytes.len()
}

/// The font holds a whole directory, every table lies inside the font, and no
/// tag occurs twice.
pub open spec fn directory_well_formed(bytes: Seq<u8>) -> bool {
    &&& bytes.len() >= FONT_HEADER_SIZE
    &&& payload_start(bytes) <= bytes.len()
    &&& forall|i: int| 0 <= i < table_count(bytes) ==> #[trigger] record_in_bounds(bytes, i)
    &&& forall|i: int, j: int|
        0 <= i < j < table_count(bytes) ==> #[trigger] tag_at(bytes, i) != #[trigger] tag_at(
            bytes,
            j,
        )
}

/// Whether `tag` is the tag of one of `records`.
fn holds_tag(records: &Vec<TableRecord>, tag: u32) -> (found: bool)
    ensures
        found <==> exists|k: int| 0 <= k < records@.len() && #[trigger] records@[k].tag == tag,
{
    let mut k: usize = 0;
    while k < records.len()
        invariant
            0 <= k <= records@.len(),
            forall|m: int| 0 <= m < k ==> #[trigger] records@[m].tag != tag,
        decreases records@.len() - k,
    {
        if records[k].tag == tag {
            return true;
        }
        k = k + 1;
    }
    false
}

/// Reads the table directory of a font. Gives the records in the order in
/// which the font lists them, and the position at which the directory ends.
/// Fails with `MalformedDirectory`, and with nothing else, exactly when the
/// directory is not well formed: the header or a record is cut short, a table
/// is claimed to reach past the end of the font, or a tag repeats. No byte
/// outside `data` is ever read.
pub fn read_directory(data: &[u8]) -> (parsed: Result<(Vec<TableRecord>, usize), ConversionError>)
    ensures
        parsed is Ok <==> directory_well_formed(data@),
        parsed is Err ==> parsed == Err::<(Vec<TableRecord>, usize), _>(
            ConversionError::MalformedDirectory,
        ),
        parsed is Ok ==> {
            let (records, start) = parsed->Ok_0;
            &&& start == payload_start(data@)
            &&& records@.len() == table_count(data@)
            &&& forall|i: int|
                0 <= i < records@.len() ==> #[trigger] records@[i] == record_at(data@, i)
        },
{
    if data.len() < FONT_HEADER_SIZE {
        return Err(ConversionError::MalformedDirectory);
    }
    let count: usize = read_be_u16(data, TABLE_COUNT_OFFSET) as usize;
    if (data.len() - FONT_HEADER_SIZE) / RECORD_SIZE < count {
        return Err(ConversionError::MalformedDirectory);
    }
    let mut records: Vec<TableRecord> = Vec::new();
    let mut i: usize = 0;
    while i < count
        invariant
            data@.len() >= FONT_HEADER_SIZE,
            count == table_count(data@),
            payload_start(data@) <= data@.len(),
            0 <= i <= count,
            records@.len() == i,
            forall|k: int| 0 <= k < i ==> #[trigger] records@[k] == record_at(data@, k),
            forall|k: int| 0 <= k < i ==> #[trigger] record_in_bounds(data@, k),
            forall|a: int, b: int|
                0 <= a < b < i ==> #[trigger] tag_at(data@, a) != #[trigger] tag_at(data@, b),
        decreases count - i,
    {
        let at: usize = FONT_HEADER_SIZE + RECORD_SIZE * i;
        let record = TableRecord {
            tag: read_be_u32(data, at),
            checksum: read_be_u32(data, at + 4),
            offset: read_be_u32(data, at + 8),
            length: read_be_u32(data, at + 12),
        };
        let offset: usize = record.offset as usize;
        let length: usize = record.length as usize;
        if offset > data.len() || length > data.len() - offset {
            assert(!record_in_bounds(data@, i as int));
            return Err(ConversionError::MalformedDirectory);
        }
        if holds_tag(&records, record.tag) {
            proof {
                let k = choose|k: int| 0 <= k < records@.len() && #[trigger] records@[k].tag == record.tag;
                assert(records@[k] == record_at(data@, k));
                assert(tag_at(data@, k) == tag_at(data@, i as int));
            }
            return Err(ConversionError::MalformedDirectory);
        }
        proof {
            assert forall|a: int, b: int| 0 <= a < b < i + 1 implies #[trigger] tag_at(data@, a)
                != #[trigger] tag_at(data@, b) by {
                if b == i {
                    assert(records@[a] == record_at(data@, a));
                    assert(records@[a].tag != record.tag);
                }
            }
        }
        records.push(record);
        i = i + 1;
    }
    Ok((records, FONT_HEADER_SIZE + RECORD_SIZE * count))
}

} // verus!
