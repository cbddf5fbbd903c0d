use woff2_sys::entries::DirectoryEntry;
use woff2_sys::payload::{concat_payloads, padded_length, split_payloads, table_checksum};
use woff2_sys::ConversionError;

fn lengths(values: &[u32]) -> Vec<DirectoryEntry> {
    values
        .iter()
        .enumerate()
        .map(|(i, &n)| DirectoryEntry {
            tag: i as u32,
            transform: 0,
            transformed_length: n,
            original_length: n,
        })
        .collect()
}

#[test]
fn padded_length_rounds_up_to_four() {
    assert_eq!(padded_length(0), 0);
    assert_eq!(padded_length(1), 4);
    assert_eq!(padded_length(3), 4);
    assert_eq!(padded_length(4), 4);
    assert_eq!(padded_length(5), 8);
    assert_eq!(padded_length(10), 12);
}

#[test]
fn checksum_adds_big_endian_words() {
    assert_eq!(table_checksum(&[]), 0);
    assert_eq!(table_checksum(&[0, 0, 0, 1]), 1);
    assert_eq!(table_checksum(&[0, 0, 0, 1, 0, 0, 0, 2]), 3);
    assert_eq!(table_checksum(&[1, 2, 3, 4, 5, 6, 7, 8]), 0x0608_0a0c);
}

#[test]
fn checksum_pads_the_last_word_with_zeros() {
    assert_eq!(table_checksum(&[1]), 0x0100_0000);
    assert_eq!(table_checksum(&[1, 2, 3, 4, 5, 6, 7, 8, 9, 10]), 0x0608_0a0c + 0x090a_0000);
    assert_eq!(table_checksum(&[0, 0, 0, 1, 0xff]), 0xff00_0001);
}

#[test]
fn checksum_wraps_at_32_bits() {
    assert_eq!(table_checksum(&[0xff, 0xff, 0xff, 0xff, 0, 0, 0, 2]), 1);
    assert_eq!(table_checksum(&[0x80, 0, 0, 0, 0x80, 0, 0, 0]), 0);
}

#[test]
fn split_cuts_by_the_recorded_lengths() {
    let blob = [1u8, 2, 3, 4, 5, 6];
    assert_eq!(
        split_payloads(&blob, &lengths(&[2, 0, 3, 1])),
        Ok(vec![vec![1, 2], vec![], vec![3, 4, 5], vec![6]])
    );
    assert_eq!(split_payloads(&[], &lengths(&[])), Ok(vec![]));
    assert_eq!(split_payloads(&[], &lengths(&[0, 0])), Ok(vec![vec![], vec![]]));
}

#[test]
fn split_rejects_lengths_that_do_not_add_up() {
    let blob = [1u8, 2, 3, 4, 5, 6];
    assert_eq!(split_payloads(&blob, &lengths(&[2, 3])), Err(ConversionError::SizeMismatch));
    assert_eq!(split_payloads(&blob, &lengths(&[])), Err(ConversionError::SizeMismatch));
    assert_eq!(split_payloads(&blob, &lengths(&[0, 5, 0])), Err(ConversionError::SizeMismatch));
}

#[test]
fn split_rejects_a_table_that_reaches_past_the_end() {
    let blob = [1u8, 2, 3, 4, 5, 6];
    assert_eq!(split_payloads(&blob, &lengths(&[2, 5])), Err(ConversionError::MalformedDirectory));
    assert_eq!(split_payloads(&blob, &lengths(&[7])), Err(ConversionError::MalformedDirectory));
    assert_eq!(split_payloads(&blob, &lengths(&[7, 0])), Err(ConversionError::MalformedDirectory));
    assert_eq!(split_payloads(&[], &lengths(&[1])), Err(ConversionError::MalformedDirectory));
    assert_eq!(
        split_payloads(&blob, &lengths(&[u32::MAX, u32::MAX, 6])),
        Err(ConversionError::MalformedDirectory)
    );
}

#[test]
fn concat_joins_in_order() {
    assert_eq!(concat_payloads(&vec![]), Vec::<u8>::new());
    assert_eq!(
        concat_payloads(&vec![vec![1, 2], vec![], vec![3, 4, 5], vec![6]]),
        vec![1, 2, 3, 4, 5, 6]
    );
}

#[test]
fn split_undoes_concat() {
    let tables = vec![vec![9u8; 7], vec![], vec![1, 2, 3], vec![0; 300]];
    let blob = concat_payloads(&tables);
    assert_eq!(split_payloads(&blob, &lengths(&[7, 0, 3, 300])), Ok(tables));
}
