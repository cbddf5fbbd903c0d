use crate::directory::{
    directory_well_formed, record_at, record_in_bounds, record_start, table_count, tag_at,
    TableRecord,
};
use crate::entries::{be_bytes, distinct_tags, write_be_u32, DirectoryEntry, MAX_ENTRIES};
use crate::error::ConversionError;
use crate::payload::{checksum_of, padded_len, table_checksum};
use crate::size::{be_u16, be_u32};
use vstd::prelude::*;

verus! {

/// The two bytes of a 16-bit `value`, most significant first.
pub open spec fn be16_bytes(value: int) -> Seq<u8>
    recommends
        0 <= value < 65536,
{
    seq![(value / 256) as u8, (value % 256) as u8]
}

/// The largest power of two that is at most `n`, for a table count `n`; zero
/// for no tables.
pub open spec fn floor_pow2(n: int) -> int {
    if n >= 32768 {
        32768
    } else if n >= 16384 {
        16384
    } else if n >= 8192 {
        8192
    } else if n >= 4096 {
        4096
    } else if n >= 2048 {
        2048
    } else if n >= 1024 {
        1024
    } else if n >= 512 {
        512
    } else if n >= 256 {
        256
    } else if n >= 128 {
        128
    } else if n >= 64 {
        64
    } else if n >= 32 {
        32
    } else if n >= 16 {
        16
    } else if n >= 8 {
        8
    } else if n >= 4 {
        4
    } else if n >= 2 {
        2
    } else if n >= 1 {
        1
    } else {
        0
    }
}

/// The exponent of `floor_pow2(n)`.
pub open spec fn floor_log2(n: int) -> int {
    if n >= 32768 {
        15
    } else if n >= 16384 {
        14
    } else if n >= 8192 {
        13
    } else if n >= 4096 {
        12
    } else if n >= 2048 {
        11
    } else if n >= 1024 {
        10
    } else if n >= 512 {
        9
    } else if n >= 256 {
        8
    } else if n >= 128 {
        7
    } else if n >= 64 {
        6
    } else if n >= 32 {
        5
    } else if n >= 16 {
        4
    } else if n >= 8 {
        3
    } else if n >= 4 {
        2
    } else if n >= 2 {
        1
    } else {
        0
    }
}

/// The header of a font of `n` tables: the flavor, the table count, and the
/// three search fields that follow from the count, each cut to 16 bits.
pub open spec fn font_header(flavor: u32, n: int) -> Seq<u8> {
    be_bytes(flavor) + be16_bytes(n) + be16_bytes((16 * floor_pow2(n)) % 65536) + be16_bytes(
        floor_log2(n),
    ) + be16_bytes((16 * n - 16 * floor_pow2(n)) % 65536)
}

/// Where table `i` starts in the rebuilt font: behind the header, the
/// records, and the tables before it, each padded to a multiple of four.
pub open spec fn table_offset(entries: Seq<DirectoryEntry>, i: int) -> int
    decreases i,
{
    if i <= 0 {
        12 + 16 * (entries.len() as int)
    } else {
        table_offset(entries, i - 1) + padded_len(entries[i - 1].original_length as int)
    }
}

/// The record of table `i`: tag, checksum of its bytes, offset and length.
pub open spec fn record_bytes(
    entries: Seq<DirectoryEntry>,
    payloads: Seq<Vec<u8>>,
    i: int,
) -> Seq<u8> {
    be_bytes(entries[i].tag) + be_bytes(checksum_of(payloads[i]@) as u32) + be_bytes(
        table_offset(entries, i) as u32,
    ) + be_bytes(entries[i].original_length)
}

/// The first `k` records, one after the other.
pub open spec fn records_bytes(
    entries: Seq<DirectoryEntry>,
    payloads: Seq<Vec<u8>>,
    k: int,
) -> Seq<u8>
    decreases k,
{
    if k <= 0 {
        Seq::<u8>::empty()
    } else {
        records_bytes(entries, payloads, k - 1) + record_bytes(entries, payloads, k - 1)
    }
}

/// A table followed by the zeros that pad it to a multiple of four.
pub open spec fn padded_payload(payload: Seq<u8>) -> Seq<u8> {
    payload + Seq::new((padded_len(payload.len() as int) - payload.len()) as nat, |i: int| 0u8)
}

/// The first `k` tables, each padded, one after the other.
pub open spec fn body_bytes(payloads: Seq<Vec<u8>>, k: int) -> Seq<u8>
    decreases k,
{
    if k <= 0 {
        Seq::<u8>::empty()
    } else {
        body_bytes(payloads, k - 1) + padded_payload(payloads[k - 1]@)
    }
}

/// The rebuilt font: header, records, tables.
pub open spec fn font_bytes(
    flavor: u32,
    entries: Seq<DirectoryEntry>,
    payloads: Seq<Vec<u8>>,
) -> Seq<u8> {
    font_header(flavor, entries.len() as int) + records_bytes(
        entries,
        payloads,
        entries.len() as int,
    ) + body_bytes(payloads, entries.len() as int)
}

/// The tables are those that the entries describe, and the font made of them
/// is exactly as long as the header of the container said.
pub open spec fn font_fits(
    entries: Seq<DirectoryEntry>,
    payloads: Seq<Vec<u8>>,
    total_size: u32,
) -> bool {
    &&& entries.len() == payloads.len()
    &&& entries.len() <= MAX_ENTRIES
    &&& forall|i: int|
        0 <= i < entries.len() ==> (#[trigger] payloads[i])@.len() == entries[i].original_length
    &&& table_offset(entries, entries.len() as int) == total_size
}

/// Offsets never go back.
pub proof fn lemma_table_offset_grows(entries: Seq<DirectoryEntry>, i: int, j: int)
    requires
        0 <= i <= j,
    ensures
        12 + 16 * entries.len() <= table_offset(entries, i) <= table_offset(entries, j),
    decreases j,
{
    if j > 0 {
        if i < j {
            lemma_table_offset_grows(entries, i, j - 1);
        } else {
            lemma_table_offset_grows(entries, i - 1, j - 1);
        }
    }
}

/// The largest power of two that is at most `n`, and its exponent.
pub fn search_fields(n: u16) -> (fields: (u16, u16))
    ensures
        fields.0 == floor_pow2(n as int),
        fields.1 == floor_log2(n as int),
{
    let mut power: u16 = if n >= 1 {
        1
    } else {
        0
    };
    let mut exponent: u16 = 0;
    while power != 0 && power <= n / 2
        invariant
            0 <= exponent <= 15,
            n >= 1 ==> 1 <= power <= n,
            n == 0 ==> power == 0 && exponent == 0,
            power == floor_pow2(power as int),
            exponent == floor_log2(power as int),
        decreases n - power,
    {
        power = power * 2;
        exponent = exponent + 1;
    }
    (power, exponent)
}

/// Appends the two bytes of `value`, most significant first.
pub fn write_be_u16(value: u16, out: &mut Vec<u8>)
    ensures
        final(out)@ == old(out)@ + be16_bytes(value as int),
{
    out.push((value / 256) as u8);
    out.push((value % 256) as u8);
    assert(out@ =~= old(out)@ + be16_bytes(value as int));
}

/// Whether the tables are those that the entries describe and make a font
/// of `total_size` bytes.
pub fn tables_fit(entries: &Vec<DirectoryEntry>, payloads: &Vec<Vec<u8>>, total_size: u32) -> (fits:
    bool)
    ensures
        fits == font_fits(entries@, payloads@, total_size),
{
    let n: usize = entries.len();
    if payloads.len() != n || n > MAX_ENTRIES {
        return false;
    }
    let mut offset: u64 = 12 + 16 * (n as u64);
    let mut i: usize = 0;
    while i < n
        invariant
            0 <= i <= n,
            n == entries@.len(),
            n == payloads@.len(),
            n <= MAX_ENTRIES,
            offset == table_offset(entries@, i as int),
            offset <= 12 + 16 * n + i * 4294967300,
            forall|k: int|
                0 <= k < i ==> (#[trigger] payloads@[k])@.len() == entries@[k].original_length,
        decreases n - i,
    {
        let length: u32 = entries[i].original_length;
        if payloads[i].len() != length as usize {
            return false;
        }
        offset = offset + (length as u64 + 3) / 4 * 4;
        i = i + 1;
    }
    offset == total_size as u64
}

/// Appends the header of a font of `count` tables.
pub fn write_font_header(flavor: u32, count: u16, out: &mut Vec<u8>)
    ensures
        final(out)@ == old(out)@ + font_header(flavor, count as int),
{
    let (power, exponent) = search_fields(count);
    let search_range: u16 = ((16 * (power as u32)) % 65536) as u16;
    let range_shift: u16 = ((16 * (count as u32) - 16 * (power as u32)) % 65536) as u16;
    assert(search_range as int == (16 * floor_pow2(count as int)) % 65536);
    assert(range_shift as int == (16 * count - 16 * floor_pow2(count as int)) % 65536);
    write_be_u32(flavor, out);
    write_be_u16(count, out);
    write_be_u16(search_range, out);
    write_be_u16(exponent, out);
    write_be_u16(range_shift, out);
    assert(out@ =~= old(out)@ + font_header(flavor, count as int));
}

/// Appends the record of every table.
pub fn write_records(
    entries: &Vec<DirectoryEntry>,
    payloads: &Vec<Vec<u8>>,
    total_size: u32,
    out: &mut Vec<u8>,
)
    requires
        font_fits(entries@, payloads@, total_size),
    ensures
        final(out)@ == old(out)@ + records_bytes(entries@, payloads@, entries@.len() as int),
{
    let n: usize = entries.len();
    let mut at: u64 = 12 + 16 * (n as u64);
    let mut i: usize = 0;
    assert(out@ =~= old(out)@ + records_bytes(entries@, payloads@, 0));
    while i < n
        invariant
            0 <= i <= n,
            n == entries@.len(),
            n == payloads@.len(),
            font_fits(entries@, payloads@, total_size),
            at == table_offset(entries@, i as int),
            out@ == old(out)@ + records_bytes(entries@, payloads@, i as int),
        decreases n - i,
    {
        proof {
            lemma_table_offset_grows(entries@, i as int, n as int);
            lemma_table_offset_grows(entries@, i + 1, n as int);
        }
        let ghost before = out@;
        write_be_u32(entries[i].tag, out);
        write_be_u32(table_checksum(payloads[i].as_slice()), out);
        write_be_u32(at as u32, out);
        write_be_u32(entries[i].original_length, out);
        assert(out@ =~= before + record_bytes(entries@, payloads@, i as int));
        assert(out@ =~= old(out)@ + records_bytes(entries@, payloads@, i + 1));
        at = at + (entries[i].original_length as u64 + 3) / 4 * 4;
        i = i + 1;
    }
}

/// Appends one table and the zeros that pad it to a multiple of four.
pub fn write_padded(table: &Vec<u8>, out: &mut Vec<u8>)
    ensures
        final(out)@ == old(out)@ + padded_payload(table@),
{
    let mut j: usize = 0;
    assert(out@ =~= old(out)@ + table@.subrange(0, 0));
    while j < table.len()
        invariant
            0 <= j <= table@.len(),
            out@ == old(out)@ + table@.subrange(0, j as int),
        decreases table@.len() - j,
    {
        out.push(table[j]);
        j = j + 1;
        assert(out@ =~= old(out)@ + table@.subrange(0, j as int));
    }
    assert(table@.subrange(0, j as int) =~= table@);
    let pad: usize = (4 - table.len() % 4) % 4;
    let ghost filled = out@;
    let mut k: usize = 0;
    while k < pad
        invariant
            0 <= k <= pad,
            out@ == filled + Seq::new(k as nat, |i: int| 0u8),
        decreases pad - k,
    {
        out.push(0);
        k = k + 1;
        assert(out@ =~= filled + Seq::new(k as nat, |i: int| 0u8));
    }
    assert(pad == padded_len(table@.len() as int) - table@.len());
    assert(out@ =~= old(out)@ + padded_payload(table@));
}

/// Appends every table, each padded.
pub fn write_body(payloads: &Vec<Vec<u8>>, out: &mut Vec<u8>)
    ensures
        final(out)@ == old(out)@ + body_bytes(payloads@, payloads@.len() as int),
{
    let mut i: usize = 0;
    assert(out@ =~= old(out)@ + body_bytes(payloads@, 0));
    while i < payloads.len()
        invariant
            0 <= i <= payloads@.len(),
            out@ == old(out)@ + body_bytes(payloads@, i as int),
        decreases payloads@.len() - i,
    {
        let ghost before = out@;
        write_padded(&payloads[i], out);
        assert(out@ =~= old(out)@ + body_bytes(payloads@, i + 1));
        i = i + 1;
    }
}

/// Rebuilds a font from its tables: the header, one record for each table
/// with its checksum computed anew, and the tables, each starting on a
/// multiple of four, in the order in which the entries list them. Fails with
/// `SizeMismatch`, and with nothing else, exactly when the tables are not
/// those that the entries describe or the rebuilt font would not be
/// `total_size` bytes long.
pub fn write_font(
    flavor: u32,
    entries: &Vec<DirectoryEntry>,
    payloads: &Vec<Vec<u8>>,
    total_size: u32,
) -> (font: Result<Vec<u8>, ConversionError>)
    ensures
        font is Ok <==> font_fits(entries@, payloads@, total_size),
        font is Err ==> font == Err::<Vec<u8>, _>(ConversionError::SizeMismatch),
        font is Ok ==> font->Ok_0@ == font_bytes(flavor, entries@, payloads@),
{
    if !tables_fit(entries, payloads, total_size) {
        return Err(ConversionError::SizeMismatch);
    }
    let mut out: Vec<u8> = Vec::new();
    write_font_header(flavor, entries.len() as u16, &mut out);
    write_records(entries, payloads, total_size, &mut out);
    write_body(payloads, &mut out);
    assert(out@ =~= font_bytes(flavor, entries@, payloads@));
    Ok(out)
}

/// The record that the rebuilt font holds for table `i`.
pub open spec fn written_record(
    entries: Seq<DirectoryEntry>,
    payloads: Seq<Vec<u8>>,
    i: int,
) -> TableRecord {
    TableRecord {
        tag: entries[i].tag,
        checksum: checksum_of(payloads[i]@) as u32,
        offset: table_offset(entries, i) as u32,
        length: entries[i].original_length,
    }
}

/// `k` records take `16 * k` bytes.
pub proof fn lemma_records_len(entries: Seq<DirectoryEntry>, payloads: Seq<Vec<u8>>, k: int)
    requires
        0 <= k,
    ensures
        records_bytes(entries, payloads, k).len() == 16 * k,
    decreases k,
{
    if k > 0 {
        lemma_records_len(entries, payloads, k - 1);
    }
}

/// The padded tables before table `k` end where table `k` starts.
pub proof fn lemma_body_len(
    entries: Seq<DirectoryEntry>,
    payloads: Seq<Vec<u8>>,
    total_size: u32,
    k: int,
)
    requires
        font_fits(entries, payloads, total_size),
        0 <= k <= entries.len(),
    ensures
        12 + 16 * entries.len() + body_bytes(payloads, k).len() == table_offset(entries, k),
    decreases k,
{
    if k > 0 {
        lemma_body_len(entries, payloads, total_size, k - 1);
        assert(payloads[k - 1]@.len() == entries[k - 1].original_length);
    }
}

/// Record `i` stands at `16 * i` among the records.
pub proof fn lemma_record_place(
    entries: Seq<DirectoryEntry>,
    payloads: Seq<Vec<u8>>,
    n: int,
    i: int,
)
    requires
        0 <= i < n,
    ensures
        records_bytes(entries, payloads, n).len() == 16 * n,
        records_bytes(entries, payloads, n).subrange(16 * i, 16 * i + 16) == record_bytes(
            entries,
            payloads,
            i,
        ),
    decreases n,
{
    lemma_records_len(entries, payloads, n);
    lemma_records_len(entries, payloads, n - 1);
    let all = records_bytes(entries, payloads, n);
    let front = records_bytes(entries, payloads, n - 1);
    assert(record_bytes(entries, payloads, n - 1).len() == 16);
    if i == n - 1 {
        assert(all.subrange(16 * i, 16 * i + 16) =~= record_bytes(entries, payloads, i));
    } else {
        lemma_record_place(entries, payloads, n - 1, i);
        assert(all.subrange(16 * i, 16 * i + 16) =~= front.subrange(16 * i, 16 * i + 16));
    }
}

/// Table `i` stands at its offset among the padded tables.
pub proof fn lemma_payload_place(
    entries: Seq<DirectoryEntry>,
    payloads: Seq<Vec<u8>>,
    total_size: u32,
    n: int,
    i: int,
)
    requires
        font_fits(entries, payloads, total_size),
        0 <= i < n <= entries.len(),
    ensures
        ({
            let base = 12 + 16 * entries.len();
            let start = table_offset(entries, i) - base;
            &&& 0 <= start
            &&& start + payloads[i]@.len() <= body_bytes(payloads, n).len()
            &&& body_bytes(payloads, n).subrange(start, start + payloads[i]@.len())
                == payloads[i]@
        }),
    decreases n,
{
    let base = 12 + 16 * entries.len();
    let start = table_offset(entries, i) - base;
    lemma_body_len(entries, payloads, total_size, n);
    lemma_body_len(entries, payloads, total_size, n - 1);
    lemma_body_len(entries, payloads, total_size, i);
    lemma_table_offset_grows(entries, i, n - 1);
    let all = body_bytes(payloads, n);
    let front = body_bytes(payloads, n - 1);
    assert(payloads[i]@.len() == entries[i].original_length);
    assert(payloads[n - 1]@.len() == entries[n - 1].original_length);
    if i == n - 1 {
        assert(all.subrange(start, start + payloads[i]@.len()) =~= payloads[i]@);
    } else {
        lemma_payload_place(entries, payloads, total_size, n - 1, i);
        assert(all.subrange(start, start + payloads[i]@.len()) =~= front.subrange(
            start,
            start + payloads[i]@.len(),
        ));
    }
}

/// Four bytes written most significant first are read back as the number.
pub proof fn lemma_be_bytes_read(bytes: Seq<u8>, at: int, value: u32)
    requires
        bytes[at] == be_bytes(value)[0],
        bytes[at + 1] == be_bytes(value)[1],
        bytes[at + 2] == be_bytes(value)[2],
        bytes[at + 3] == be_bytes(value)[3],
    ensures
        be_u32(bytes, at) == value,
{
}

/// The header of a font is twelve bytes long and holds the table count in
/// its fifth and sixth byte.
pub proof fn lemma_font_header(flavor: u32, n: int)
    requires
        0 <= n <= MAX_ENTRIES,
    ensures
        font_header(flavor, n).len() == 12,
        font_header(flavor, n)[4] as int * 256 + font_header(flavor, n)[5] as int == n,
{
    let head = be_bytes(flavor) + be16_bytes(n);
    let count = be16_bytes(n);
    assert(head.len() == 6);
    assert(head[4] == count[0] && head[5] == count[1]);
    assert(font_header(flavor, n)[4] == head[4]);
    assert(font_header(flavor, n)[5] == head[5]);
}

/// The three parts of a rebuilt font, where they lie.
pub proof fn lemma_font_layout(
    flavor: u32,
    entries: Seq<DirectoryEntry>,
    payloads: Seq<Vec<u8>>,
    total_size: u32,
)
    requires
        font_fits(entries, payloads, total_size),
    ensures
        ({
            let n = entries.len() as int;
            let bytes = font_bytes(flavor, entries, payloads);
            &&& bytes.len() == total_size
            &&& 12 + 16 * n <= bytes.len()
            &&& be_u16(bytes, 4) == n
            &&& bytes.subrange(12, 12 + 16 * n) == records_bytes(entries, payloads, n)
            &&& bytes.subrange(12 + 16 * n, bytes.len() as int) == body_bytes(payloads, n)
        }),
{
    let n = entries.len() as int;
    let header = font_header(flavor, n);
    let records = records_bytes(entries, payloads, n);
    let body = body_bytes(payloads, n);
    let bytes = header + records + body;
    lemma_font_header(flavor, n);
    lemma_records_len(entries, payloads, n);
    lemma_body_len(entries, payloads, total_size, n);
    assert(bytes[4] == header[4]);
    assert(bytes[5] == header[5]);
    assert(bytes.subrange(12, 12 + 16 * n) =~= records);
    assert(bytes.subrange(12 + 16 * n, bytes.len() as int) =~= body);
}

/// Sixteen bytes that hold four numbers, each most significant byte first,
/// are read back as those numbers.
pub proof fn lemma_record_fields(
    bytes: Seq<u8>,
    at: int,
    tag: u32,
    checksum: u32,
    offset: u32,
    length: u32,
)
    requires
        0 <= at,
        at + 16 <= bytes.len(),
        bytes.subrange(at, at + 16) == be_bytes(tag) + be_bytes(checksum) + be_bytes(offset)
            + be_bytes(length),
    ensures
        be_u32(bytes, at) == tag,
        be_u32(bytes, at + 4) == checksum,
        be_u32(bytes, at + 8) == offset,
        be_u32(bytes, at + 12) == length,
{
    let whole = bytes.subrange(at, at + 16);
    let a = be_bytes(tag);
    let b = be_bytes(checksum);
    let c = be_bytes(offset);
    let d = be_bytes(length);
    assert(a.len() == 4 && b.len() == 4 && c.len() == 4 && d.len() == 4);
    assert(bytes[at] == whole[0] && whole[0] == a[0]);
    assert(bytes[at + 1] == whole[1] && whole[1] == a[1]);
    assert(bytes[at + 2] == whole[2] && whole[2] == a[2]);
    assert(bytes[at + 3] == whole[3] && whole[3] == a[3]);
    assert(bytes[at + 4] == whole[4] && whole[4] == b[0]);
    assert(bytes[at + 5] == whole[5] && whole[5] == b[1]);
    assert(bytes[at + 6] == whole[6] && whole[6] == b[2]);
    assert(bytes[at + 7] == whole[7] && whole[7] == b[3]);
    assert(bytes[at + 8] == whole[8] && whole[8] == c[0]);
    assert(bytes[at + 9] == whole[9] && whole[9] == c[1]);
    assert(bytes[at + 10] == whole[10] && whole[10] == c[2]);
    assert(bytes[at + 11] == whole[11] && whole[11] == c[3]);
    assert(bytes[at + 12] == whole[12] && whole[12] == d[0]);
    assert(bytes[at + 13] == whole[13] && whole[13] == d[1]);
    assert(bytes[at + 14] == whole[14] && whole[14] == d[2]);
    assert(bytes[at + 15] == whole[15] && whole[15] == d[3]);
    lemma_be_bytes_read(bytes, at, tag);
    lemma_be_bytes_read(bytes, at + 4, checksum);
    lemma_be_bytes_read(bytes, at + 8, offset);
    lemma_be_bytes_read(bytes, at + 12, length);
}

/// A piece of a piece is a piece of the whole.
pub proof fn lemma_subrange_within(bytes: Seq<u8>, from: int, to: int, a: int, b: int)
    requires
        0 <= from <= to <= bytes.len(),
        0 <= a <= b <= to - from,
    ensures
        bytes.subrange(from, to).subrange(a, b) == bytes.subrange(from + a, from + b),
{
    assert(bytes.subrange(from, to).subrange(a, b) =~= bytes.subrange(from + a, from + b));
}

/// What a reader finds at record `i` of a rebuilt font: the record that was
/// written, within the font, and the table's bytes where the record says.
pub proof fn lemma_written_record(
    flavor: u32,
    entries: Seq<DirectoryEntry>,
    payloads: Seq<Vec<u8>>,
    total_size: u32,
    i: int,
)
    requires
        font_fits(entries, payloads, total_size),
        0 <= i < entries.len(),
    ensures
        ({
            let bytes = font_bytes(flavor, entries, payloads);
            &&& record_at(bytes, i) == written_record(entries, payloads, i)
            &&& record_in_bounds(bytes, i)
            &&& bytes.subrange(
                table_offset(entries, i),
                table_offset(entries, i) + entries[i].original_length,
            ) == payloads[i]@
        }),
{
    let n = entries.len() as int;
    let bytes = font_bytes(flavor, entries, payloads);
    let at = record_start(i);
    let offset = table_offset(entries, i);
    let length = entries[i].original_length;
    lemma_font_layout(flavor, entries, payloads, total_size);
    lemma_record_place(entries, payloads, n, i);
    lemma_payload_place(entries, payloads, total_size, n, i);
    lemma_table_offset_grows(entries, i, i + 1);
    lemma_table_offset_grows(entries, i + 1, n);
    assert(payloads[i]@.len() == length);
    assert(0 <= offset && offset + length <= total_size);
    lemma_subrange_within(bytes, 12, 12 + 16 * n, 16 * i, 16 * i + 16);
    assert(bytes.subrange(at, at + 16) == record_bytes(entries, payloads, i));
    lemma_record_fields(
        bytes,
        at,
        entries[i].tag,
        checksum_of(payloads[i]@) as u32,
        offset as u32,
        length,
    );
    lemma_subrange_within(
        bytes,
        12 + 16 * n,
        bytes.len() as int,
        offset - (12 + 16 * n),
        offset - (12 + 16 * n) + length,
    );
}

/// A font whose records carry tags that never repeat and tables that lie
/// inside it has a well-formed directory.
pub proof fn lemma_directory_of_records(bytes: Seq<u8>, entries: Seq<DirectoryEntry>)
    requires
        distinct_tags(entries),
        table_count(bytes) == entries.len(),
        12 + 16 * entries.len() <= bytes.len(),
        forall|i: int| 0 <= i < entries.len() ==> #[trigger] tag_at(bytes, i) == entries[i].tag,
        forall|i: int| 0 <= i < entries.len() ==> #[trigger] record_in_bounds(bytes, i),
    ensures
        directory_well_formed(bytes),
{
    assert forall|i: int, j: int| 0 <= i < j < table_count(bytes) implies #[trigger] tag_at(
        bytes,
        i,
    ) != #[trigger] tag_at(bytes, j) by {
        assert(entries[i].tag != entries[j].tag);
    }
}

/// A font that was rebuilt is read back. Where the tables are those that the
/// entries describe and no tag repeats, the rebuilt font is as long as the
/// container's header said, its directory is well formed, and a reader finds
/// in it one record for each table, in order, with the table's bytes where
/// the record says.
pub proof fn lemma_written_font_is_read(
    flavor: u32,
    entries: Seq<DirectoryEntry>,
    payloads: Seq<Vec<u8>>,
    total_size: u32,
)
    requires
        font_fits(entries, payloads, total_size),
        distinct_tags(entries),
    ensures
        ({
            let bytes = font_bytes(flavor, entries, payloads);
            &&& bytes.len() == total_size
            &&& directory_well_formed(bytes)
            &&& table_count(bytes) == entries.len()
            &&& forall|i: int|
                0 <= i < entries.len() ==> #[trigger] record_at(bytes, i) == written_record(
                    entries,
                    payloads,
                    i,
                )
            &&& forall|i: int|
                0 <= i < entries.len() ==> bytes.subrange(
                    table_offset(entries, i),
                    table_offset(entries, i) + (#[trigger] entries[i]).original_length,
                ) == payloads[i]@
        }),
{
    let bytes = font_bytes(flavor, entries, payloads);
    lemma_font_layout(flavor, entries, payloads, total_size);
    assert forall|i: int| 0 <= i < entries.len() implies #[trigger] record_at(bytes, i)
        == written_record(entries, payloads, i) by {
        lemma_written_record(flavor, entries, payloads, total_size, i);
    }
    assert forall|i: int| 0 <= i < entries.len() implies #[trigger] tag_at(bytes, i)
        == entries[i].tag by {
        lemma_written_record(flavor, entries, payloads, total_size, i);
    }
    assert forall|i: int| 0 <= i < entries.len() implies #[trigger] record_in_bounds(bytes, i) by {
        lemma_written_record(flavor, entries, payloads, total_size, i);
    }
    assert forall|i: int| 0 <= i < entries.len() implies bytes.subrange(
        table_offset(entries, i),
        table_offset(entries, i) + (#[trigger] entries[i]).original_length,
    ) == payloads[i]@ by {
        lemma_written_record(flavor, entries, payloads, total_size, i);
    }
    lemma_directory_of_records(bytes, entries);
}

} // verus!
