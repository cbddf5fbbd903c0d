use crate::entries::DirectoryEntry;
use crate::error::ConversionError;
use vstd::prelude::*;
use vstd::slice::{slice_subrange, slice_to_vec};

verus! {

/// `len` rounded up to the next multiple of four.
pub open spec fn padded_len(len: int) -> int {
    (len + 3) / 4 * 4
}

/// The length that a table of `len` bytes takes in a font, where every table
/// starts on a multiple of four.
pub fn padded_length(len: usize) -> (padded: usize)
    requires
        len + 3 <= usize::MAX,
    ensures
        padded == padded_len(len as int),
        len <= padded < len + 4,
        padded % 4 == 0,
{
    (len + 3) / 4 * 4
}

/// Byte `i` of a table, or zero behind its end.
pub open spec fn byte_or_zero(bytes: Seq<u8>, i: int) -> int {
    if 0 <= i < bytes.len() {
        bytes[i] as int
    } else {
        0
    }
}

/// The big-endian 32-bit word `w` of a table that is padded with zeros to a
/// whole number of words.
pub open spec fn word_at(bytes: Seq<u8>, w: int) -> int {
    byte_or_zero(bytes, 4 * w) * 16777216 + byte_or_zero(bytes, 4 * w + 1) * 65536 + byte_or_zero(
        bytes,
        4 * w + 2,
    ) * 256 + byte_or_zero(bytes, 4 * w + 3)
}

/// The sum of the first `n` words of a table, modulo 2^32.
pub open spec fn checksum_words(bytes: Seq<u8>, n: int) -> int
    decreases n,
{
    if n <= 0 {
        0
    } else {
        (checksum_words(bytes, n - 1) + word_at(bytes, n - 1)) % 4294967296
    }
}

/// The checksum of a table: the sum of all its words, modulo 2^32.
pub open spec fn checksum_of(bytes: Seq<u8>) -> int {
    checksum_words(bytes, (bytes.len() as int + 3) / 4)
}

/// Byte `at + k` of `bytes` as a wide number, or zero behind the end.
fn wide_byte(bytes: &[u8], at: usize, k: usize) -> (value: u64)
    requires
        at < bytes@.len(),
    ensures
        value == byte_or_zero(bytes@, at + k),
{
    if k < bytes.len() - at {
        bytes[at + k] as u64
    } else {
        0
    }
}

/// Computes the checksum that a font's directory records for a table.
pub fn table_checksum(bytes: &[u8]) -> (sum: u32)
    ensures
        sum == checksum_of(bytes@),
{
    let words: usize = bytes.len() / 4 + (if bytes.len() % 4 == 0 {
        0
    } else {
        1
    });
    let mut sum: u64 = 0;
    let mut w: usize = 0;
    while w < words
        invariant
            0 <= w <= words,
            words == (bytes@.len() + 3) / 4,
            sum == checksum_words(bytes@, w as int),
            sum < 4294967296,
            bytes@.len() <= usize::MAX,
        decreases words - w,
    {
        let at: usize = 4 * w;
        let word: u64 = wide_byte(bytes, at, 0) * 16777216 + wide_byte(bytes, at, 1) * 65536
            + wide_byte(bytes, at, 2) * 256 + wide_byte(bytes, at, 3);
        sum = (sum + word) % 4294967296;
        w = w + 1;
    }
    sum as u32
}

/// Where the payload of table `i` starts in the blob that holds all
/// payloads one after the other: the sum of the lengths before it.
pub open spec fn payload_offset(entries: Seq<DirectoryEntry>, i: int) -> int
    decreases i,
{
    if i <= 0 {
        0
    } else {
        payload_offset(entries, i - 1) + entries[i - 1].transformed_length
    }
}

/// Offsets never go back.
pub proof fn lemma_payload_offset_grows(entries: Seq<DirectoryEntry>, i: int, j: int)
    requires
        0 <= i <= j,
    ensures
        0 <= payload_offset(entries, i) <= payload_offset(entries, j),
    decreases j,
{
    if j > 0 {
        if i < j {
            lemma_payload_offset_grows(entries, i, j - 1);
        } else {
            lemma_payload_offset_grows(entries, i - 1, j - 1);
        }
    }
}

/// Cuts the decompressed blob into the payloads of the tables, by the lengths
/// that the directory records. Succeeds exactly when those lengths add up to
/// the length of the blob. Where they add up to more, a table is claimed to
/// reach past the end of the blob, and the directory is malformed; where they
/// add up to less, bytes are left over, and the sizes do not match.
pub fn split_payloads(blob: &[u8], entries: &Vec<DirectoryEntry>) -> (split: Result<
    Vec<Vec<u8>>,
    ConversionError,
>)
    ensures
        split is Ok <==> payload_offset(entries@, entries@.len() as int) == blob@.len(),
        payload_offset(entries@, entries@.len() as int) > blob@.len() <==> split == Err::<
            Vec<Vec<u8>>,
            _,
        >(ConversionError::MalformedDirectory),
        payload_offset(entries@, entries@.len() as int) < blob@.len() <==> split == Err::<
            Vec<Vec<u8>>,
            _,
        >(ConversionError::SizeMismatch),
        split is Ok ==> {
            let payloads = split->Ok_0;
            &&& payloads@.len() == entries@.len()
            &&& forall|i: int|
                0 <= i < payloads@.len() ==> (#[trigger] payloads@[i])@ == blob@.subrange(
                    payload_offset(entries@, i),
                    payload_offset(entries@, i + 1),
                )
        },
{
    let mut payloads: Vec<Vec<u8>> = Vec::new();
    let mut pos: usize = 0;
    let mut i: usize = 0;
    while i < entries.len()
        invariant
            0 <= i <= entries@.len(),
            pos == payload_offset(entries@, i as int),
            pos <= blob@.len(),
            payloads@.len() == i,
            forall|k: int|
                0 <= k < i ==> (#[trigger] payloads@[k])@ == blob@.subrange(
                    payload_offset(entries@, k),
                    payload_offset(entries@, k + 1),
                ),
        decreases entries@.len() - i,
    {
        let length: usize = entries[i].transformed_length as usize;
        if length > blob.len() - pos {
            proof {
                lemma_payload_offset_grows(entries@, i + 1, entries@.len() as int);
            }
            return Err(ConversionError::MalformedDirectory);
        }
        let payload = slice_to_vec(slice_subrange(blob, pos, pos + length));
        payloads.push(payload);
        pos = pos + length;
        i = i + 1;
    }
    if pos != blob.len() {
        return Err(ConversionError::SizeMismatch);
    }
    Ok(payloads)
}

/// The first `n` payloads, one after the other.
pub open spec fn concat_all(tables: Seq<Vec<u8>>, n: int) -> Seq<u8>
    decreases n,
{
    if n <= 0 {
        Seq::<u8>::empty()
    } else {
        concat_all(tables, n - 1) + tables[n - 1]@
    }
}

/// Joins the payloads of the tables into the one blob that is compressed.
pub fn concat_payloads(tables: &Vec<Vec<u8>>) -> (blob: Vec<u8>)
    ensures
        blob@ == concat_all(tables@, tables@.len() as int),
{
    let mut blob: Vec<u8> = Vec::new();
    let mut i: usize = 0;
    while i < tables.len()
        invariant
            0 <= i <= tables@.len(),
            blob@ == concat_all(tables@, i as int),
        decreases tables@.len() - i,
    {
        let table = &tables[i];
        let ghost before = blob@;
        let mut j: usize = 0;
        while j < table.len()
            invariant
                0 <= j <= table@.len(),
                blob@ == before + table@.subrange(0, j as int),
            decreases table@.len() - j,
        {
            blob.push(table[j]);
            j = j + 1;
            assert(blob@ =~= before + table@.subrange(0, j as int));
        }
        assert(table@.subrange(0, j as int) =~= table@);
        i = i + 1;
    }
    blob
}

/// Cutting undoes joining: where the directory records the length of each
/// payload, the lengths add up to the length of the joined blob, and the
/// piece cut for table `i` is payload `i`.
pub proof fn lemma_split_undoes_concat(
    tables: Seq<Vec<u8>>,
    entries: Seq<DirectoryEntry>,
    n: int,
    i: int,
)
    requires
        0 <= i < n <= tables.len(),
        entries.len() == tables.len(),
        forall|k: int|
            0 <= k < tables.len() ==> (#[trigger] entries[k]).transformed_length
                == tables[k]@.len(),
    ensures
        payload_offset(entries, n) == concat_all(tables, n).len(),
        payload_offset(entries, i + 1) <= concat_all(tables, n).len(),
        0 <= payload_offset(entries, i),
        concat_all(tables, n).subrange(payload_offset(entries, i), payload_offset(entries, i + 1))
            == tables[i]@,
    decreases n,
{
    lemma_concat_len(tables, entries, n);
    lemma_concat_len(tables, entries, n - 1);
    lemma_concat_len(tables, entries, i);
    lemma_concat_len(tables, entries, i + 1);
    lemma_payload_offset_grows(entries, i + 1, n);
    let whole = concat_all(tables, n);
    let front = concat_all(tables, n - 1);
    assert(entries[n - 1].transformed_length == tables[n - 1]@.len());
    if i == n - 1 {
        assert(whole.subrange(payload_offset(entries, i), payload_offset(entries, i + 1))
            =~= tables[i]@);
    } else {
        lemma_split_undoes_concat(tables, entries, n - 1, i);
        assert(whole.subrange(payload_offset(entries, i), payload_offset(entries, i + 1))
            =~= front.subrange(payload_offset(entries, i), payload_offset(entries, i + 1)));
    }
}

/// The joined blob is as long as the recorded lengths add up to.
pub proof fn lemma_concat_len(tables: Seq<Vec<u8>>, entries: Seq<DirectoryEntry>, n: int)
    requires
        0 <= n <= tables.len(),
        entries.len() == tables.len(),
        forall|k: int|
            0 <= k < tables.len() ==> (#[trigger] entries[k]).transformed_length
                == tables[k]@.len(),
    ensures
        payload_offset(entries, n) == concat_all(tables, n).len(),
    decreases n,
{
    if n > 0 {
        lemma_concat_len(tables, entries, n - 1);
        assert(entries[n - 1].transformed_length == tables[n - 1]@.len());
    }
}

} // verus!
