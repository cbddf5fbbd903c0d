use crate::base128::{
    base128_encoding, base128_len, base128_value, is_base128, lemma_base128_length_unique,
    lemma_base128_round_trip, read_base128, write_base128,
};
use crate::error::ConversionError;
use crate::size::{be_u32, read_be_u32};
use vstd::prelude::*;
use vstd::relations::{sorted_by, total_ordering};
use vstd::seq_lib::{lemma_sorted_unique, to_multiset_build, to_multiset_insert, to_multiset_len};

verus! {

/// Most entries that a persisted directory can count.
pub const MAX_ENTRIES: usize = 65535;

/// One entry of the persisted directory: the table's tag, the transform that
/// was applied to it (0 for none), and its length after and before the
/// transform.
#[derive(Clone, Copy, Debug, PartialEq, Eq, Structural)]
pub struct DirectoryEntry {
    pub tag: u32,
    pub transform: u8,
    pub transformed_length: u32,
    pub original_length: u32,
}

/// Tag of the glyph outline table, `glyf`.
pub const GLYF_TAG: u32 = 1735162214;

/// Tag of the glyph location table, `loca`.
pub const LOCA_TAG: u32 = 1819239265;

/// The tables that a transform may be applied to: the glyph outlines and
/// their companion table of locations.
pub open spec fn transformable(tag: u32) -> bool {
    tag == GLYF_TAG || tag == LOCA_TAG
}

/// An entry is valid where it either records no transform, and then both
/// lengths agree, or belongs to a table that can be transformed.
pub open spec fn entry_valid(entry: DirectoryEntry) -> bool {
    if entry.transform == 0 {
        entry.transformed_length == entry.original_length
    } else {
        transformable(entry.tag)
    }
}

/// Every entry is valid.
pub open spec fn all_valid(entries: Seq<DirectoryEntry>) -> bool {
    forall|i: int| 0 <= i < entries.len() ==> entry_valid(#[trigger] entries[i])
}

/// No two entries have the same tag.
pub open spec fn distinct_tags(entries: Seq<DirectoryEntry>) -> bool {
    forall|i: int, j: int|
        0 <= i < j < entries.len() ==> (#[trigger] entries[i]).tag != (#[trigger] entries[j]).tag
}

/// Whether `entry` is valid.
pub fn is_valid_entry(entry: &DirectoryEntry) -> (valid: bool)
    ensures
        valid == entry_valid(*entry),
{
    if entry.transform == 0 {
        entry.transformed_length == entry.original_length
    } else {
        entry.tag == GLYF_TAG || entry.tag == LOCA_TAG
    }
}

/// The order of the persisted directory: ascending tag, and among entries of
/// one tag ascending transform, transformed length and original length.
pub open spec fn entry_leq(a: DirectoryEntry, b: DirectoryEntry) -> bool {
    if a.tag != b.tag {
        a.tag < b.tag
    } else if a.transform != b.transform {
        a.transform < b.transform
    } else if a.transformed_length != b.transformed_length {
        a.transformed_length < b.transformed_length
    } else {
        a.original_length <= b.original_length
    }
}

/// `entry_leq` as a relation.
pub open spec fn directory_order() -> spec_fn(DirectoryEntry, DirectoryEntry) -> bool {
    |a: DirectoryEntry, b: DirectoryEntry| entry_leq(a, b)
}

/// The four bytes of `value`, most significant first.
pub open spec fn be_bytes(value: u32) -> Seq<u8> {
    seq![
        (value / 16777216) as u8,
        (value / 65536 % 256) as u8,
        (value / 256 % 256) as u8,
        (value % 256) as u8,
    ]
}

/// One entry as it is persisted: the tag in four bytes, the transform in one,
/// then both lengths as variable-length numbers.
pub open spec fn entry_bytes(entry: DirectoryEntry) -> Seq<u8> {
    be_bytes(entry.tag) + seq![entry.transform] + base128_encoding(entry.transformed_length)
        + base128_encoding(entry.original_length)
}

/// The entries as they are persisted, one after the other.
pub open spec fn entries_bytes(entries: Seq<DirectoryEntry>) -> Seq<u8>
    decreases entries.len(),
{
    if entries.len() == 0 {
        Seq::<u8>::empty()
    } else {
        entries_bytes(entries.drop_last()) + entry_bytes(entries.last())
    }
}

/// What precedes the entries: the size of the original font in four bytes,
/// the number of tables in two, the transform version in one.
pub open spec fn directory_header(count: int, total_size: u32, transform_version: u8) -> Seq<u8> {
    be_bytes(total_size) + seq![(count / 256) as u8, (count % 256) as u8, transform_version]
}

/// The persisted directory: the header, then the entries in directory order,
/// whatever order they were given in.
pub open spec fn directory_bytes(
    entries: Seq<DirectoryEntry>,
    total_size: u32,
    transform_version: u8,
) -> Seq<u8> {
    directory_header(entries.len() as int, total_size, transform_version) + entries_bytes(
        entries.sort_by(directory_order()),
    )
}

/// The directory order is a total order.
pub proof fn lemma_directory_order_total()
    ensures
        total_ordering(directory_order()),
{
    let leq = directory_order();
    assert forall|x: DirectoryEntry, y: DirectoryEntry| #[trigger]
        leq(x, y) && #[trigger] leq(y, x) implies x == y by {}
    assert forall|x: DirectoryEntry, y: DirectoryEntry, z: DirectoryEntry| #[trigger]
        leq(x, y) && #[trigger] leq(y, z) implies leq(x, z) by {}
    assert forall|x: DirectoryEntry, y: DirectoryEntry| #[trigger] leq(x, y) || #[trigger] leq(
        y,
        x,
    ) by {}
    assert forall|x: DirectoryEntry| #[trigger] leq(x, x) by {}
}

/// The same entries give the same persisted directory in whatever order they
/// are supplied.
pub proof fn lemma_directory_order_independent(
    first: Seq<DirectoryEntry>,
    second: Seq<DirectoryEntry>,
    total_size: u32,
    transform_version: u8,
)
    requires
        first.to_multiset() == second.to_multiset(),
    ensures
        first.sort_by(directory_order()) == second.sort_by(directory_order()),
        directory_bytes(first, total_size, transform_version) == directory_bytes(
            second,
            total_size,
            transform_version,
        ),
{
    let leq = directory_order();
    lemma_directory_order_total();
    first.lemma_sort_by_ensures(leq);
    second.lemma_sort_by_ensures(leq);
    lemma_sorted_unique(first.sort_by(leq), second.sort_by(leq), leq);
    to_multiset_len(first);
    to_multiset_len(second);
}

/// Whether `a` comes no later than `b` in directory order.
pub fn entry_before(a: &DirectoryEntry, b: &DirectoryEntry) -> (leq: bool)
    ensures
        leq == entry_leq(*a, *b),
{
    if a.tag != b.tag {
        a.tag < b.tag
    } else if a.transform != b.transform {
        a.transform < b.transform
    } else if a.transformed_length != b.transformed_length {
        a.transformed_length < b.transformed_length
    } else {
        a.original_length <= b.original_length
    }
}

/// Puts the entries in directory order.
pub fn sort_entries(entries: &Vec<DirectoryEntry>) -> (sorted: Vec<DirectoryEntry>)
    ensures
        sorted@ == entries@.sort_by(directory_order()),
{
    let ghost leq = directory_order();
    let mut sorted: Vec<DirectoryEntry> = Vec::new();
    let mut i: usize = 0;
    proof {
        lemma_directory_order_total();
        assert(entries@.subrange(0, 0) =~= sorted@);
    }
    while i < entries.len()
        invariant
            0 <= i <= entries@.len(),
            leq == directory_order(),
            total_ordering(leq),
            sorted_by(sorted@, leq),
            sorted@.to_multiset() == entries@.subrange(0, i as int).to_multiset(),
        decreases entries@.len() - i,
    {
        let entry = entries[i];
        let mut j: usize = 0;
        while j < sorted.len() && entry_before(&sorted[j], &entry)
            invariant
                0 <= j <= sorted@.len(),
                leq == directory_order(),
                forall|k: int| 0 <= k < j ==> #[trigger] leq(sorted@[k], entry),
            decreases sorted@.len() - j,
        {
            j = j + 1;
        }
        proof {
            let before = sorted@;
            let after = before.insert(j as int, entry);
            assert forall|a: int, b: int| 0 <= a < b < after.len() implies #[trigger] leq(
                after[a],
                after[b],
            ) by {
                if b < j {
                    assert(leq(before[a], before[b]));
                } else if b == j {
                    assert(leq(before[a], entry));
                } else if a == j {
                    assert(!leq(before[j as int], entry));
                    assert(leq(entry, before[j as int]));
                    if b - 1 > j {
                        assert(leq(before[j as int], before[b - 1]));
                    }
                    assert(leq(entry, before[b - 1]));
                } else if a < j {
                    assert(leq(before[a], before[b - 1]));
                } else {
                    assert(leq(before[a - 1], before[b - 1]));
                }
            }
            to_multiset_insert(before, j as int, entry);
            let prefix = entries@.subrange(0, i as int);
            assert(entries@.subrange(0, i + 1) =~= prefix.push(entry));
            to_multiset_build(prefix, entry);
        }
        sorted.insert(j, entry);
        i = i + 1;
    }
    proof {
        assert(entries@.subrange(0, i as int) =~= entries@);
        entries@.lemma_sort_by_ensures(leq);
        lemma_sorted_unique(sorted@, entries@.sort_by(leq), leq);
    }
    sorted
}

/// Appends the four bytes of `value`, most significant first.
pub fn write_be_u32(value: u32, out: &mut Vec<u8>)
    ensures
        final(out)@ == old(out)@ + be_bytes(value),
{
    out.push((value / 16777216) as u8);
    out.push((value / 65536 % 256) as u8);
    out.push((value / 256 % 256) as u8);
    out.push((value % 256) as u8);
    assert(out@ =~= old(out)@ + be_bytes(value));
}

/// Persists a directory of valid entries. The output depends on which
/// entries are given, not on the order in which they are given.
pub fn write_directory(
    entries: &Vec<DirectoryEntry>,
    total_size: u32,
    transform_version: u8,
) -> (bytes: Vec<u8>)
    requires
        entries@.len() <= MAX_ENTRIES,
        all_valid(entries@),
    ensures
        bytes@ == directory_bytes(entries@, total_size, transform_version),
{
    let sorted = sort_entries(entries);
    let count: usize = entries.len();
    let mut bytes: Vec<u8> = Vec::new();
    write_be_u32(total_size, &mut bytes);
    bytes.push((count / 256) as u8);
    bytes.push((count % 256) as u8);
    bytes.push(transform_version);
    let ghost head = bytes@;
    proof {
        lemma_directory_order_total();
        entries@.lemma_sort_by_ensures(directory_order());
        to_multiset_len(entries@);
        to_multiset_len(sorted@);
        assert(head =~= directory_header(entries@.len() as int, total_size, transform_version));
        assert(sorted@.subrange(0, 0) =~= Seq::<DirectoryEntry>::empty());
    }
    let mut i: usize = 0;
    while i < sorted.len()
        invariant
            0 <= i <= sorted@.len(),
            bytes@ == head + entries_bytes(sorted@.subrange(0, i as int)),
        decreases sorted@.len() - i,
    {
        let entry = sorted[i];
        let ghost start = bytes@;
        write_be_u32(entry.tag, &mut bytes);
        bytes.push(entry.transform);
        write_base128(entry.transformed_length, &mut bytes);
        write_base128(entry.original_length, &mut bytes);
        proof {
            let done = sorted@.subrange(0, i + 1);
            assert(done.drop_last() =~= sorted@.subrange(0, i as int));
            assert(done.last() == entry);
            assert(bytes@ =~= start + entry_bytes(entry));
            assert(bytes@ =~= head + entries_bytes(done));
        }
        i = i + 1;
    }
    proof {
        assert(sorted@.subrange(0, i as int) =~= sorted@);
    }
    bytes
}

/// Length of what precedes the entries in a persisted directory.
pub const DIRECTORY_HEADER_SIZE: usize = 7;

/// A persisted directory as it was read back.
#[derive(Debug, PartialEq, Eq)]
pub struct ParsedDirectory {
    pub total_size: u32,
    pub transform_version: u8,
    pub entries: Vec<DirectoryEntry>,
    /// Where the directory ends and what follows it begins.
    pub payload_start: usize,
}

/// The variable-length number that starts at `pos`, with the position behind
/// it, if one starts there.
pub open spec fn base128_at(bytes: Seq<u8>, pos: int) -> Option<(u32, int)> {
    if exists|n: int| is_base128(bytes, pos, n) {
        let n = choose|n: int| is_base128(bytes, pos, n);
        Some((base128_value(bytes, pos, n) as u32, pos + n))
    } else {
        None
    }
}

/// The entry that starts at `pos`, with the position behind it, if a whole
/// and valid entry stands there.
pub open spec fn parse_entry(bytes: Seq<u8>, pos: int) -> Option<(DirectoryEntry, int)> {
    if pos < 0 || pos + 5 > bytes.len() {
        None
    } else {
        match base128_at(bytes, pos + 5) {
            None => None,
            Some((transformed_length, mid)) => match base128_at(bytes, mid) {
                None => None,
                Some((original_length, next)) => {
                    let entry = DirectoryEntry {
                        tag: be_u32(bytes, pos) as u32,
                        transform: bytes[pos + 4],
                        transformed_length,
                        original_length,
                    };
                    if entry_valid(entry) {
                        Some((entry, next))
                    } else {
                        None
                    }
                },
            },
        }
    }
}

/// The first `count` entries from `pos`, with the position behind them, if
/// that many whole entries stand there.
pub open spec fn parse_entries(bytes: Seq<u8>, pos: int, count: int) -> Option<
    (Seq<DirectoryEntry>, int),
>
    decreases count,
{
    if count <= 0 {
        Some((Seq::<DirectoryEntry>::empty(), pos))
    } else {
        match parse_entries(bytes, pos, count - 1) {
            None => None,
            Some((entries, at)) => match parse_entry(bytes, at) {
                None => None,
                Some((entry, next)) => Some((entries.push(entry), next)),
            },
        }
    }
}

/// The number of entries that a persisted directory declares.
pub open spec fn declared_count(bytes: Seq<u8>) -> int
    recommends
        bytes.len() >= DIRECTORY_HEADER_SIZE,
{
    bytes[4] as int * 256 + bytes[5] as int
}

/// Where fewer entries cannot be read, more cannot either.
pub proof fn lemma_parse_entries_fails_on(bytes: Seq<u8>, pos: int, fewer: int, more: int)
    requires
        fewer <= more,
        parse_entries(bytes, pos, fewer) is None,
    ensures
        parse_entries(bytes, pos, more) is None,
    decreases more,
{
    if fewer < more {
        lemma_parse_entries_fails_on(bytes, pos, fewer, more - 1);
    }
}

/// What `read_base128` finds is what `base128_at` describes.
pub proof fn lemma_base128_at(bytes: Seq<u8>, pos: int, n: int)
    requires
        is_base128(bytes, pos, n),
    ensures
        base128_at(bytes, pos) == Some((base128_value(bytes, pos, n) as u32, pos + n)),
{
    let m = choose|m: int| is_base128(bytes, pos, m);
    lemma_base128_length_unique(bytes, pos, n, m);
}

/// Whether `tag` is the tag of one of the first `end` entries.
fn tag_among(entries: &Vec<DirectoryEntry>, end: usize, tag: u32) -> (found: bool)
    requires
        end <= entries@.len(),
    ensures
        found <==> exists|k: int| 0 <= k < end && (#[trigger] entries@[k]).tag == tag,
{
    let mut k: usize = 0;
    while k < end
        invariant
            0 <= k <= end <= entries@.len(),
            forall|m: int| 0 <= m < k ==> (#[trigger] entries@[m]).tag != tag,
        decreases end - k,
    {
        if entries[k].tag == tag {
            return true;
        }
        k = k + 1;
    }
    false
}

/// Whether no tag occurs twice among `entries`.
pub fn tags_are_distinct(entries: &Vec<DirectoryEntry>) -> (distinct: bool)
    ensures
        distinct == distinct_tags(entries@),
{
    let mut i: usize = 0;
    while i < entries.len()
        invariant
            0 <= i <= entries@.len(),
            forall|a: int, b: int|
                0 <= a < b < i ==> (#[trigger] entries@[a]).tag != (#[trigger] entries@[b]).tag,
        decreases entries@.len() - i,
    {
        if tag_among(entries, i, entries[i].tag) {
            proof {
                let k = choose|k: int| 0 <= k < i && (#[trigger] entries@[k]).tag == entries@[i as int].tag;
                assert(entries@[k].tag == entries@[i as int].tag);
            }
            return false;
        }
        i = i + 1;
    }
    true
}

/// Reads one entry at `pos`.
fn read_entry(data: &[u8], pos: usize) -> (found: Option<(DirectoryEntry, usize)>)
    requires
        pos <= data.len(),
    ensures
        match found {
            Some((entry, next)) => pos < next <= data.len() && parse_entry(data@, pos as int)
                == Some((entry, next as int)),
            None => parse_entry(data@, pos as int) is None,
        },
{
    if data.len() - pos < 5 {
        return None;
    }
    let tag: u32 = read_be_u32(data, pos);
    let transform: u8 = data[pos + 4];
    let (transformed_length, mid) = match read_base128(data, pos + 5) {
        None => { return None; },
        Some(found) => found,
    };
    proof {
        lemma_base128_at(data@, pos + 5, mid - (pos + 5));
    }
    let (original_length, next) = match read_base128(data, mid) {
        None => { return None; },
        Some(found) => found,
    };
    proof {
        lemma_base128_at(data@, mid as int, next - mid);
    }
    let entry = DirectoryEntry { tag, transform, transformed_length, original_length };
    if is_valid_entry(&entry) {
        Some((entry, next))
    } else {
        None
    }
}

/// Reads a persisted directory from the start of `data`. Succeeds exactly
/// when `data` holds the seven header bytes and as many whole and valid
/// entries as the header declares, and no tag occurs twice among them; every other input fails with `MalformedDirectory`, and no
/// byte outside `data` is ever read.
pub fn parse_directory(data: &[u8]) -> (parsed: Result<ParsedDirectory, ConversionError>)
    ensures
        parsed is Ok <==> data@.len() >= DIRECTORY_HEADER_SIZE && parse_entries(
            data@,
            DIRECTORY_HEADER_SIZE as int,
            declared_count(data@),
        ) is Some && distinct_tags(
            parse_entries(data@, DIRECTORY_HEADER_SIZE as int, declared_count(data@))->Some_0.0,
        ),
        parsed is Err ==> parsed == Err::<ParsedDirectory, _>(ConversionError::MalformedDirectory),
        parsed is Ok ==> {
            let directory = parsed->Ok_0;
            &&& directory.total_size == be_u32(data@, 0)
            &&& directory.transform_version == data@[6]
            &&& directory.payload_start <= data@.len()
            &&& parse_entries(data@, DIRECTORY_HEADER_SIZE as int, declared_count(data@)) == Some(
                (directory.entries@, directory.payload_start as int),
            )
        },
{
    if data.len() < DIRECTORY_HEADER_SIZE {
        return Err(ConversionError::MalformedDirectory);
    }
    let total_size: u32 = read_be_u32(data, 0);
    let count: usize = data[4] as usize * 256 + data[5] as usize;
    let transform_version: u8 = data[6];
    let mut entries: Vec<DirectoryEntry> = Vec::new();
    let mut pos: usize = DIRECTORY_HEADER_SIZE;
    let mut i: usize = 0;
    while i < count
        invariant
            0 <= i <= count,
            count == declared_count(data@),
            DIRECTORY_HEADER_SIZE <= pos <= data@.len(),
            parse_entries(data@, DIRECTORY_HEADER_SIZE as int, i as int) == Some(
                (entries@, pos as int),
            ),
        decreases count - i,
    {
        match read_entry(data, pos) {
            None => {
                proof {
                    assert(parse_entries(data@, DIRECTORY_HEADER_SIZE as int, i + 1) is None);
                    lemma_parse_entries_fails_on(
                        data@,
                        DIRECTORY_HEADER_SIZE as int,
                        i + 1,
                        count as int,
                    );
                }
                return Err(ConversionError::MalformedDirectory);
            },
            Some((entry, next)) => {
                entries.push(entry);
                pos = next;
            },
        }
        i = i + 1;
    }
    if !tags_are_distinct(&entries) {
        return Err(ConversionError::MalformedDirectory);
    }
    Ok(ParsedDirectory { total_size, transform_version, entries, payload_start: pos })
}

/// How many bytes the persisted form of `entries` takes.
pub open spec fn entries_len(entries: Seq<DirectoryEntry>) -> int {
    entries_bytes(entries).len() as int
}

/// Where the parts of a written entry lie: the tag in the first four bytes,
/// the transform in the fifth, then the two variable-length numbers.
pub proof fn lemma_entry_layout(bytes: Seq<u8>, pos: int, entry: DirectoryEntry)
    requires
        0 <= pos,
        pos + entry_bytes(entry).len() <= bytes.len(),
        bytes.subrange(pos, pos + entry_bytes(entry).len()) == entry_bytes(entry),
    ensures
        entry_bytes(entry).len() == 5 + base128_len(entry.transformed_length) + base128_len(
            entry.original_length,
        ),
        be_u32(bytes, pos) == entry.tag,
        bytes[pos + 4] == entry.transform,
        bytes.subrange(pos + 5, pos + 5 + base128_len(entry.transformed_length))
            == base128_encoding(entry.transformed_length),
        bytes.subrange(
            pos + 5 + base128_len(entry.transformed_length),
            pos + 5 + base128_len(entry.transformed_length) + base128_len(entry.original_length),
        ) == base128_encoding(entry.original_length),
{
    let written = entry_bytes(entry);
    let first = base128_encoding(entry.transformed_length);
    let second = base128_encoding(entry.original_length);
    let n1 = base128_len(entry.transformed_length);
    let n2 = base128_len(entry.original_length);
    let tag = be_bytes(entry.tag);
    assert(tag.len() == 4);
    assert(first.len() == n1);
    assert(second.len() == n2);
    assert(written.len() == 5 + n1 + n2);
    assert forall|k: int| 0 <= k < written.len() implies #[trigger] bytes[pos + k]
        == written[k] by {
        assert(bytes.subrange(pos, pos + written.len())[k] == bytes[pos + k]);
    }
    assert(bytes[pos + 0] == written[0] && written[0] == tag[0]);
    assert(bytes[pos + 1] == written[1] && written[1] == tag[1]);
    assert(bytes[pos + 2] == written[2] && written[2] == tag[2]);
    assert(bytes[pos + 3] == written[3] && written[3] == tag[3]);
    assert(bytes[pos + 4] == written[4] && written[4] == entry.transform);
    assert forall|k: int| 0 <= k < n1 implies bytes[pos + 5 + k] == first[k] by {
        assert(bytes[pos + (5 + k)] == written[5 + k]);
        assert(written[5 + k] == first[k]);
    }
    assert(bytes.subrange(pos + 5, pos + 5 + n1) =~= first);
    assert forall|k: int| 0 <= k < n2 implies bytes[pos + 5 + n1 + k] == second[k] by {
        assert(bytes[pos + (5 + n1 + k)] == written[5 + n1 + k]);
        assert(written[5 + n1 + k] == second[k]);
    }
    assert(bytes.subrange(pos + 5 + n1, pos + 5 + n1 + n2) =~= second);
}

/// A valid entry that was written is read back, whatever stands around it.
pub proof fn lemma_entry_round_trip(bytes: Seq<u8>, pos: int, entry: DirectoryEntry)
    requires
        entry_valid(entry),
        0 <= pos,
        pos + entry_bytes(entry).len() <= bytes.len(),
        bytes.subrange(pos, pos + entry_bytes(entry).len()) == entry_bytes(entry),
    ensures
        parse_entry(bytes, pos) == Some((entry, pos + entry_bytes(entry).len())),
{
    let n1 = base128_len(entry.transformed_length);
    let n2 = base128_len(entry.original_length);
    lemma_entry_layout(bytes, pos, entry);
    lemma_base128_round_trip(bytes, pos + 5, entry.transformed_length);
    lemma_base128_at(bytes, pos + 5, n1);
    lemma_base128_round_trip(bytes, pos + 5 + n1, entry.original_length);
    lemma_base128_at(bytes, pos + 5 + n1, n2);
    assert(base128_at(bytes, pos + 5) == Some((entry.transformed_length, pos + 5 + n1)));
    assert(base128_at(bytes, pos + 5 + n1) == Some((entry.original_length, pos + 5 + n1 + n2)));
}

/// Valid entries that were written one after the other are read back in the
/// same order, whatever stands before and after them.
pub proof fn lemma_entries_round_trip(bytes: Seq<u8>, pos: int, entries: Seq<DirectoryEntry>)
    requires
        all_valid(entries),
        0 <= pos,
        pos + entries_len(entries) <= bytes.len(),
        bytes.subrange(pos, pos + entries_len(entries)) == entries_bytes(entries),
    ensures
        parse_entries(bytes, pos, entries.len() as int) == Some(
            (entries, pos + entries_len(entries)),
        ),
    decreases entries.len(),
{
    if entries.len() == 0 {
        assert(parse_entries(bytes, pos, 0).unwrap().0 =~= entries);
    } else {
        let front = entries.drop_last();
        let last = entries.last();
        let all = entries_bytes(entries);
        assert(all_valid(front)) by {
            assert forall|i: int| 0 <= i < front.len() implies entry_valid(#[trigger] front[i]) by {
                assert(front[i] == entries[i]);
            }
        }
        assert(entry_valid(entries[entries.len() - 1]));
        let split = entries_len(front);
        assert(all == entries_bytes(front) + entry_bytes(last));
        assert(bytes.subrange(pos, pos + split) =~= entries_bytes(front)) by {
            assert forall|k: int| 0 <= k < split implies bytes[pos + k] == entries_bytes(front)[k] by {
                assert(bytes.subrange(pos, pos + all.len())[k] == bytes[pos + k]);
            }
        }
        assert(bytes.subrange(pos + split, pos + all.len()) =~= entry_bytes(last)) by {
            assert forall|k: int| 0 <= k < all.len() - split implies bytes[pos + split + k]
                == entry_bytes(last)[k] by {
                assert(bytes.subrange(pos, pos + all.len())[split + k] == bytes[pos + (split + k)]);
            }
        }
        lemma_entries_round_trip(bytes, pos, front);
        lemma_entry_round_trip(bytes, pos + split, last);
        assert(front.push(last) =~= entries);
    }
}

/// The header of a persisted directory holds what was put in it.
pub proof fn lemma_directory_header(
    count: int,
    total_size: u32,
    transform_version: u8,
    rest: Seq<u8>,
)
    requires
        0 <= count <= MAX_ENTRIES,
    ensures
        directory_header(count, total_size, transform_version).len() == DIRECTORY_HEADER_SIZE,
        ({
            let bytes = directory_header(count, total_size, transform_version) + rest;
            &&& be_u32(bytes, 0) == total_size
            &&& declared_count(bytes) == count
            &&& bytes[6] == transform_version
        }),
{
    let head = directory_header(count, total_size, transform_version);
    let bytes = head + rest;
    assert(head.len() == 7);
    assert(bytes[0] == head[0] && head[0] == be_bytes(total_size)[0]);
    assert(bytes[1] == head[1] && head[1] == be_bytes(total_size)[1]);
    assert(bytes[2] == head[2] && head[2] == be_bytes(total_size)[2]);
    assert(bytes[3] == head[3] && head[3] == be_bytes(total_size)[3]);
    assert(bytes[4] == head[4] && head[4] == (count / 256) as u8);
    assert(bytes[5] == head[5] && head[5] == (count % 256) as u8);
    assert(bytes[6] == head[6]);
}

/// Putting entries in directory order keeps their tags distinct.
pub proof fn lemma_sorted_tags_distinct(entries: Seq<DirectoryEntry>)
    requires
        distinct_tags(entries),
    ensures
        distinct_tags(entries.sort_by(directory_order())),
{
    let sorted = entries.sort_by(directory_order());
    lemma_directory_order_total();
    entries.lemma_sort_by_ensures(directory_order());
    assert(entries.no_duplicates()) by {
        assert forall|i: int, j: int|
            0 <= i < entries.len() && 0 <= j < entries.len() && i != j implies entries[i]
            != entries[j] by {
            if i < j {
                assert(entries[i].tag != entries[j].tag);
            } else {
                assert(entries[j].tag != entries[i].tag);
            }
        }
    }
    entries.lemma_multiset_has_no_duplicates();
    sorted.lemma_multiset_has_no_duplicates_conv();
    assert forall|i: int, j: int| 0 <= i < j < sorted.len() implies (#[trigger] sorted[i]).tag != (
    #[trigger] sorted[j]).tag by {
        assert(sorted.contains(sorted[i]));
        assert(sorted.contains(sorted[j]));
        assert(entries.contains(sorted[i]));
        assert(entries.contains(sorted[j]));
        let a = choose|a: int| 0 <= a < entries.len() && entries[a] == sorted[i];
        let b = choose|b: int| 0 <= b < entries.len() && entries[b] == sorted[j];
        assert(sorted[i] != sorted[j]);
        if a < b {
            assert(entries[a].tag != entries[b].tag);
        } else if b < a {
            assert(entries[b].tag != entries[a].tag);
        }
    }
}

/// A directory of valid entries with distinct tags that was written is read back: the entries come out in
/// directory order, with the size and the transform version that went in, and
/// the payload starts right behind the directory, whatever follows it.
pub proof fn lemma_directory_round_trip(
    entries: Seq<DirectoryEntry>,
    total_size: u32,
    transform_version: u8,
    rest: Seq<u8>,
)
    requires
        entries.len() <= MAX_ENTRIES,
        all_valid(entries),
        distinct_tags(entries),
    ensures
        distinct_tags(entries.sort_by(directory_order())),
        ({
            let written = directory_bytes(entries, total_size, transform_version);
            let bytes = written + rest;
            &&& bytes.len() >= DIRECTORY_HEADER_SIZE
            &&& be_u32(bytes, 0) == total_size
            &&& bytes[6] == transform_version
            &&& declared_count(bytes) == entries.len()
            &&& parse_entries(bytes, DIRECTORY_HEADER_SIZE as int, declared_count(bytes)) == Some(
                (entries.sort_by(directory_order()), written.len() as int),
            )
        }),
{
    let sorted = entries.sort_by(directory_order());
    let head = directory_header(entries.len() as int, total_size, transform_version);
    let body = entries_bytes(sorted);
    let written = directory_bytes(entries, total_size, transform_version);
    let bytes = written + rest;
    assert(sorted.len() == entries.len()) by {
        lemma_directory_order_total();
        entries.lemma_sort_by_ensures(directory_order());
        to_multiset_len(entries);
        to_multiset_len(sorted);
    }
    assert(all_valid(sorted)) by {
        lemma_directory_order_total();
        entries.lemma_sort_by_ensures(directory_order());
        assert forall|i: int| 0 <= i < sorted.len() implies entry_valid(#[trigger] sorted[i]) by {
            assert(sorted.contains(sorted[i]));
            assert(entries.contains(sorted[i]));
            let k = choose|k: int| 0 <= k < entries.len() && entries[k] == sorted[i];
            assert(entry_valid(entries[k]));
        }
    }
    lemma_directory_header(entries.len() as int, total_size, transform_version, body + rest);
    assert(bytes =~= head + (body + rest));
    assert(written.len() == DIRECTORY_HEADER_SIZE + body.len());
    assert(bytes.subrange(DIRECTORY_HEADER_SIZE as int, DIRECTORY_HEADER_SIZE + body.len())
        =~= body);
    lemma_entries_round_trip(bytes, DIRECTORY_HEADER_SIZE as int, sorted);
    lemma_sorted_tags_distinct(entries);
}

} // verus!
