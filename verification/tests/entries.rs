use woff2_sys::entries::{
    entry_before, is_valid_entry, parse_directory, sort_entries, tags_are_distinct, write_be_u32,
    write_directory, DirectoryEntry, ParsedDirectory, GLYF_TAG, LOCA_TAG,
};
use woff2_sys::ConversionError;

fn entry(tag: &[u8; 4], transform: u8, transformed: u32, original: u32) -> DirectoryEntry {
    DirectoryEntry {
        tag: u32::from_be_bytes(*tag),
        transform,
        transformed_length: transformed,
        original_length: original,
    }
}

#[test]
fn be_u32_is_written_most_significant_first() {
    let mut out = vec![1];
    write_be_u32(0x1234_5678, &mut out);
    write_be_u32(u32::MAX, &mut out);
    write_be_u32(0, &mut out);
    assert_eq!(out, vec![1, 0x12, 0x34, 0x56, 0x78, 0xff, 0xff, 0xff, 0xff, 0, 0, 0, 0]);
}

#[test]
fn entries_are_ordered_by_tag_first() {
    let a = entry(b"cmap", 0, 9, 9);
    let b = entry(b"head", 0, 0, 0);
    assert!(entry_before(&a, &b));
    assert!(!entry_before(&b, &a));
    assert!(entry_before(&a, &a));
    assert!(entry_before(&entry(b"glyf", 0, 5, 9), &entry(b"glyf", 3, 1, 1)));
    assert!(entry_before(&entry(b"glyf", 3, 1, 9), &entry(b"glyf", 3, 2, 1)));
    assert!(entry_before(&entry(b"glyf", 3, 2, 1), &entry(b"glyf", 3, 2, 2)));
    assert!(!entry_before(&entry(b"glyf", 3, 2, 2), &entry(b"glyf", 3, 2, 1)));
}

#[test]
fn sort_puts_tags_in_ascending_order() {
    let input = vec![
        entry(b"loca", 0, 4, 4),
        entry(b"cmap", 0, 1, 1),
        entry(b"head", 0, 54, 54),
        entry(b"OS/2", 0, 96, 96),
        entry(b"glyf", 0, 7, 7),
    ];
    let sorted = sort_entries(&input);
    assert_eq!(
        sorted,
        vec![
            entry(b"OS/2", 0, 96, 96),
            entry(b"cmap", 0, 1, 1),
            entry(b"glyf", 0, 7, 7),
            entry(b"head", 0, 54, 54),
            entry(b"loca", 0, 4, 4),
        ]
    );
    assert_eq!(sort_entries(&sorted), sorted);
    assert_eq!(sort_entries(&vec![]), vec![]);
}

#[test]
fn directory_of_one_table() {
    let bytes = write_directory(&vec![entry(b"TEST", 0, 10, 10)], 38, 0);
    assert_eq!(
        bytes,
        vec![0, 0, 0, 38, 0, 1, 0, b'T', b'E', b'S', b'T', 0, 10, 10]
    );
}

#[test]
fn directory_of_no_tables() {
    assert_eq!(write_directory(&vec![], 12, 1), vec![0, 0, 0, 12, 0, 0, 1]);
}

#[test]
fn directory_uses_variable_length_numbers() {
    let bytes = write_directory(&vec![entry(b"glyf", 3, 300, 70000)], 0x0001_0000, 2);
    assert_eq!(
        bytes,
        vec![0, 1, 0, 0, 0, 1, 2, b'g', b'l', b'y', b'f', 3, 0x82, 0x2c, 0x84, 0xa2, 0x70]
    );
}

#[test]
fn directory_does_not_depend_on_input_order() {
    let a = entry(b"head", 0, 54, 54);
    let b = entry(b"cmap", 0, 200, 200);
    let c = entry(b"glyf", 3, 1000, 1200);
    let expected = write_directory(&vec![b, c, a], 5000, 0);
    assert_eq!(&expected[7..11], b"cmap");
    for order in [
        vec![a, b, c],
        vec![a, c, b],
        vec![b, a, c],
        vec![b, c, a],
        vec![c, a, b],
        vec![c, b, a],
    ] {
        assert_eq!(write_directory(&order, 5000, 0), expected);
    }
}

#[test]
fn directory_counts_many_tables() {
    let entries: Vec<DirectoryEntry> = (0..300u32)
        .rev()
        .map(|i| DirectoryEntry { tag: i, transform: 0, transformed_length: 1, original_length: 1 })
        .collect();
    let bytes = write_directory(&entries, 0, 0);
    assert_eq!(&bytes[4..6], &[1, 44]);
    assert_eq!(bytes.len(), 7 + 300 * 7);
    assert_eq!(&bytes[7..14], &[0, 0, 0, 0, 0, 1, 1]);
    assert_eq!(&bytes[14..18], &[0, 0, 0, 1]);
}

#[test]
fn transforms_are_valid_only_on_glyph_tables() {
    assert_eq!(GLYF_TAG, u32::from_be_bytes(*b"glyf"));
    assert_eq!(LOCA_TAG, u32::from_be_bytes(*b"loca"));
    assert!(is_valid_entry(&entry(b"glyf", 3, 5, 9)));
    assert!(is_valid_entry(&entry(b"loca", 1, 0, 40)));
    assert!(is_valid_entry(&entry(b"head", 0, 54, 54)));
    assert!(!is_valid_entry(&entry(b"head", 1, 54, 54)));
    assert!(!is_valid_entry(&entry(b"head", 0, 53, 54)));
    assert!(!is_valid_entry(&entry(b"glyf", 0, 5, 9)));
}

#[test]
fn written_directory_is_read_back_in_directory_order() {
    let a = entry(b"head", 0, 54, 54);
    let b = entry(b"cmap", 0, 200, 200);
    let c = entry(b"glyf", 3, 1000, 70000);
    let d = entry(b"loca", 3, 0, 268435456);
    let mut bytes = write_directory(&vec![d, a, c, b], 123456, 2);
    let end = bytes.len();
    bytes.extend_from_slice(&[0xde, 0xad, 0xbe, 0xef]);
    assert_eq!(
        parse_directory(&bytes),
        Ok(ParsedDirectory {
            total_size: 123456,
            transform_version: 2,
            entries: vec![b, c, a, d],
            payload_start: end,
        })
    );
    assert_eq!(
        parse_directory(&bytes[..end]),
        Ok(ParsedDirectory {
            total_size: 123456,
            transform_version: 2,
            entries: vec![b, c, a, d],
            payload_start: end,
        })
    );
}

#[test]
fn empty_directory_is_read_back() {
    assert_eq!(
        parse_directory(&[0, 0, 0, 12, 0, 0, 1]),
        Ok(ParsedDirectory {
            total_size: 12,
            transform_version: 1,
            entries: vec![],
            payload_start: 7,
        })
    );
}

#[test]
fn directory_cut_short_is_rejected() {
    let bytes = write_directory(&vec![entry(b"glyf", 3, 300, 70000)], 9, 0);
    assert_eq!(bytes.len(), 17);
    for len in 0..bytes.len() {
        assert_eq!(parse_directory(&bytes[..len]), Err(ConversionError::MalformedDirectory));
    }
    assert!(parse_directory(&bytes).is_ok());
}

#[test]
fn directory_that_declares_too_many_entries_is_rejected() {
    let mut bytes = write_directory(&vec![entry(b"TEST", 0, 10, 10)], 38, 0);
    bytes[5] = 2;
    assert_eq!(parse_directory(&bytes), Err(ConversionError::MalformedDirectory));
}

#[test]
fn directory_with_a_bad_number_is_rejected() {
    let mut bytes = write_directory(&vec![entry(b"TEST", 0, 10, 10)], 38, 0);
    bytes[12] = 0x80;
    bytes.push(10);
    assert_eq!(parse_directory(&bytes), Err(ConversionError::MalformedDirectory));
}

#[test]
fn directory_with_an_invalid_transform_is_rejected() {
    let mut bytes = write_directory(&vec![entry(b"TEST", 0, 10, 10)], 38, 0);
    bytes[11] = 1;
    assert_eq!(parse_directory(&bytes), Err(ConversionError::MalformedDirectory));
    let mut bytes = write_directory(&vec![entry(b"TEST", 0, 10, 10)], 38, 0);
    bytes[13] = 11;
    assert_eq!(parse_directory(&bytes), Err(ConversionError::MalformedDirectory));
}

#[test]
fn directory_with_a_repeated_tag_is_rejected() {
    let a = entry(b"head", 0, 54, 54);
    let b = entry(b"cmap", 0, 200, 200);
    let c = entry(b"head", 0, 8, 8);
    assert!(tags_are_distinct(&vec![a, b]));
    assert!(tags_are_distinct(&vec![]));
    assert!(!tags_are_distinct(&vec![a, b, c]));
    assert!(!tags_are_distinct(&vec![a, a]));
    let bytes = write_directory(&vec![a, b, c], 500, 0);
    assert_eq!(parse_directory(&bytes), Err(ConversionError::MalformedDirectory));
    let bytes = write_directory(&vec![a, b], 500, 0);
    assert!(parse_directory(&bytes).is_ok());
}
