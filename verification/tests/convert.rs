use woff2_sys::convert::{
    finish_decode, finish_encode, prepare_decode, prepare_decode_within, prepare_encode,
    DecodeFailure, EncodeRequest, SIGNATURE,
};
use woff2_sys::base128::write_base128;
use woff2_sys::container::{container_is_well_formed, directory_end, directory_is_whole};
use woff2_sys::directory::read_directory;
use woff2_sys::{
    compress, convert_ttf_to_woff2, convert_woff2_to_ttf, convert_woff2_to_ttf_within, decompress,
    final_decompressed_size, max_woff2_compressed_size, ConversionError,
};

fn sample_font(tag: &[u8; 4], payload: &[u8]) -> Vec<u8> {
    let mut font = vec![0, 1, 0, 0, 0, 1, 0, 16, 0, 0, 0, 0];
    font.extend_from_slice(tag);
    font.extend_from_slice(&[0, 0, 0, 0]);
    font.extend_from_slice(&28u32.to_be_bytes());
    font.extend_from_slice(&(payload.len() as u32).to_be_bytes());
    font.extend_from_slice(payload);
    font
}

fn container_header(claimed: u32) -> Vec<u8> {
    let mut header = vec![0u8; 48];
    header[0..4].copy_from_slice(b"wOF2");
    header[16..20].copy_from_slice(&claimed.to_be_bytes());
    header
}

// A small stand-in for the stream codec: a header with the signature, the
// table count, the font's size and the length of the stream, one directory
// entry for each table with its tag written out, then the whole font as one
// Brotli stream and the metadata.
fn toy_encoder(font: &[u8], metadata: &[u8], request: EncodeRequest) -> Option<Vec<u8>> {
    let (records, _) = read_directory(font).ok()?;
    let stream = compress(font, request.quality).ok()?;
    let mut out = container_header(font.len() as u32);
    out[12..14].copy_from_slice(&(records.len() as u16).to_be_bytes());
    out[20..24].copy_from_slice(&(stream.len() as u32).to_be_bytes());
    out[32..36].copy_from_slice(&(metadata.len() as u32).to_be_bytes());
    for record in &records {
        let glyph = record.tag == u32::from_be_bytes(*b"glyf")
            || record.tag == u32::from_be_bytes(*b"loca");
        out.push(if glyph { 0xff } else { 0x3f });
        out.extend_from_slice(&record.tag.to_be_bytes());
        write_base128(record.length, &mut out);
    }
    out.extend_from_slice(&stream);
    out.extend_from_slice(metadata);
    Some(out)
}

fn toy_decoder(container: &[u8], expected: usize) -> Result<Vec<u8>, DecodeFailure> {
    let stream = u32::from_be_bytes(container[20..24].try_into().unwrap()) as usize;
    let metadata = u32::from_be_bytes(container[32..36].try_into().unwrap()) as usize;
    let end = container.len().checked_sub(metadata).ok_or(DecodeFailure::Directory)?;
    let start = end.checked_sub(stream).ok_or(DecodeFailure::Directory)?;
    decompress(&container[start..end], expected).map_err(|_| DecodeFailure::Stream)
}

fn container_with_entries(claimed: u32, count: u16, entries: &[u8]) -> Vec<u8> {
    let mut container = container_header(claimed);
    container[12..14].copy_from_slice(&count.to_be_bytes());
    container.extend_from_slice(entries);
    container
}

#[test]
fn signature_is_wof2() {
    assert_eq!(SIGNATURE, u32::from_be_bytes(*b"wOF2"));
}

#[test]
fn prepare_encode_sizes_the_output() {
    let font = sample_font(b"TEST", &[1, 2, 3, 4, 5, 6, 7, 8, 9, 10]);
    assert_eq!(
        prepare_encode(&font, 5, 11, true),
        Ok(EncodeRequest { capacity: 38 + 1024 + 5, quality: 11, allow_transforms: true })
    );
    assert_eq!(
        prepare_encode(&font, 0, 0, false),
        Ok(EncodeRequest { capacity: 1062, quality: 0, allow_transforms: false })
    );
}

#[test]
fn prepare_encode_refuses_a_quality_above_eleven() {
    let font = sample_font(b"TEST", &[0; 10]);
    assert_eq!(prepare_encode(&font, 0, 12, true), Err(ConversionError::ParameterError));
    assert_eq!(prepare_encode(&[], 0, 12, true), Err(ConversionError::ParameterError));
}

#[test]
fn prepare_encode_refuses_a_malformed_directory() {
    let mut font = sample_font(b"TEST", &[0; 10]);
    font.truncate(37);
    assert_eq!(prepare_encode(&font, 0, 11, true), Err(ConversionError::MalformedDirectory));
    assert_eq!(prepare_encode(&[], 0, 11, true), Err(ConversionError::MalformedDirectory));
}

#[test]
fn finish_encode_checks_the_capacity() {
    assert_eq!(finish_encode(3, None), Err(ConversionError::EncodingError));
    assert_eq!(finish_encode(3, Some(vec![1, 2, 3, 4])), Err(ConversionError::SizeMismatch));
    assert_eq!(finish_encode(3, Some(vec![1, 2, 3])), Ok(vec![1, 2, 3]));
    assert_eq!(finish_encode(3, Some(vec![])), Ok(vec![]));
}

#[test]
fn prepare_decode_reads_the_claimed_size() {
    assert_eq!(prepare_decode(&container_header(38)), Ok(38));
    assert_eq!(prepare_decode(&container_header(30 * 1024 * 1024)), Ok(30 * 1024 * 1024));
}

#[test]
fn prepare_decode_refuses_a_claim_above_the_ceiling() {
    assert_eq!(
        prepare_decode(&container_header(30 * 1024 * 1024 + 1)),
        Err(ConversionError::DecompressionError)
    );
    assert_eq!(
        prepare_decode(&container_header(u32::MAX)),
        Err(ConversionError::DecompressionError)
    );
    assert_eq!(
        prepare_decode(&container_header(u32::MAX)[..20]),
        Err(ConversionError::DecompressionError)
    );
}

#[test]
fn prepare_decode_refuses_a_short_header() {
    assert_eq!(prepare_decode(&[]), Err(ConversionError::MalformedDirectory));
    assert_eq!(prepare_decode(&container_header(38)[..47]), Err(ConversionError::MalformedDirectory));
}

#[test]
fn prepare_decode_refuses_an_unknown_signature() {
    let mut container = container_header(38);
    container[3] = b'F';
    assert_eq!(prepare_decode(&container), Err(ConversionError::UnsupportedVersion));
}

#[test]
fn prepare_decode_refuses_a_claim_of_zero() {
    assert_eq!(prepare_decode(&container_header(0)), Err(ConversionError::DecompressionError));
}

#[test]
fn finish_decode_checks_the_length() {
    assert_eq!(
        finish_decode(3, Err(DecodeFailure::Stream)),
        Err(ConversionError::DecompressionError)
    );
    assert_eq!(
        finish_decode(3, Err(DecodeFailure::Transform)),
        Err(ConversionError::TransformReversalError)
    );
    assert_eq!(
        finish_decode(3, Err(DecodeFailure::Directory)),
        Err(ConversionError::MalformedDirectory)
    );
    assert_eq!(finish_decode(3, Ok(vec![1, 2])), Err(ConversionError::SizeMismatch));
    assert_eq!(finish_decode(3, Ok(vec![1, 2, 3, 4])), Err(ConversionError::SizeMismatch));
    assert_eq!(finish_decode(3, Ok(vec![1, 2, 3])), Ok(vec![1, 2, 3]));
}

#[test]
fn encoder_is_not_called_on_bad_parameters() {
    let font = sample_font(b"TEST", &[0; 10]);
    let result = convert_ttf_to_woff2(&font, &[], 12, true, |_: &[u8], _: &[u8], _: EncodeRequest| {
        panic!("the encoder was reached")
    });
    assert_eq!(result, Err(ConversionError::ParameterError));
    let result =
        convert_ttf_to_woff2(&font[..20], &[], 11, true, |_: &[u8], _: &[u8], _: EncodeRequest| {
            panic!("the encoder was reached")
        });
    assert_eq!(result, Err(ConversionError::MalformedDirectory));
}

#[test]
fn encoder_gets_the_request_and_its_output_is_checked() {
    let font = sample_font(b"TEST", &[0; 10]);
    let result = convert_ttf_to_woff2(
        &font,
        &[1, 2],
        7,
        false,
        |data: &[u8], metadata: &[u8], request: EncodeRequest| {
            assert_eq!(data.len(), 38);
            assert_eq!(metadata, &[1, 2]);
            assert_eq!(
                request,
                EncodeRequest { capacity: 1064, quality: 7, allow_transforms: false }
            );
            Some(vec![42; 1064])
        },
    );
    assert_eq!(result, Ok(vec![42; 1064]));
    let result = convert_ttf_to_woff2(&font, &[1, 2], 7, false, |_: &[u8], _: &[u8], _: EncodeRequest| {
        Some(vec![42; 1065])
    });
    assert_eq!(result, Err(ConversionError::SizeMismatch));
    let result =
        convert_ttf_to_woff2(&font, &[1, 2], 7, false, |_: &[u8], _: &[u8], _: EncodeRequest| None);
    assert_eq!(result, Err(ConversionError::EncodingError));
}

#[test]
fn decoder_is_not_called_on_an_oversized_claim() {
    let mut container = container_header(30 * 1024 * 1024 + 1);
    container.extend_from_slice(&[0; 100]);
    let result = convert_woff2_to_ttf(
        &container,
        |_: &[u8], _: usize| -> Result<Vec<u8>, DecodeFailure> { panic!("the decoder was reached") },
    );
    assert_eq!(result, Err(ConversionError::DecompressionError));
}

#[test]
fn decoder_output_must_have_the_claimed_length() {
    let container = container_header(4);
    assert_eq!(
        convert_woff2_to_ttf(&container, |_: &[u8], expected: usize| Ok(vec![7; expected])),
        Ok(vec![7; 4])
    );
    assert_eq!(
        convert_woff2_to_ttf(&container, |_: &[u8], _: usize| Ok(vec![7; 5])),
        Err(ConversionError::SizeMismatch)
    );
    assert_eq!(
        convert_woff2_to_ttf(&container, |_: &[u8], _: usize| Err(DecodeFailure::Stream)),
        Err(ConversionError::DecompressionError)
    );
    assert_eq!(
        convert_woff2_to_ttf(&container, |_: &[u8], _: usize| Err(DecodeFailure::Transform)),
        Err(ConversionError::TransformReversalError)
    );
}

#[test]
fn single_table_font_survives_both_conversions() {
    let payload = [1u8, 2, 3, 4, 5, 6, 7, 8, 9, 10];
    let font = sample_font(b"TEST", &payload);
    let container = convert_ttf_to_woff2(&font, &[], 11, true, toy_encoder).unwrap();
    assert_eq!(&container[12..14], &[0, 1]);
    assert_eq!(final_decompressed_size(&container), font.len());
    assert!(container.len() <= max_woff2_compressed_size(font.len(), 0));
    let back = convert_woff2_to_ttf(&container, toy_decoder).unwrap();
    assert_eq!(back, font);
    let (records, start) = read_directory(&back).unwrap();
    assert_eq!(records.len(), 1);
    assert_eq!(records[0].length, 10);
    assert_eq!(&back[start..start + 10], &payload);
}

#[test]
fn every_quality_and_both_transform_settings_round_trip() {
    let payload: Vec<u8> = (0..300u32).map(|i| (i * i % 253) as u8).collect();
    let font = sample_font(b"glyf", &payload);
    for quality in 0..=11u8 {
        for allow in [false, true] {
            let container = convert_ttf_to_woff2(&font, &[], quality, allow, toy_encoder).unwrap();
            assert!(container.len() <= max_woff2_compressed_size(font.len(), 0));
            assert_eq!(convert_woff2_to_ttf(&container, toy_decoder), Ok(font.clone()));
        }
    }
}

#[test]
fn truncated_stream_fails_to_convert_back() {
    let font = sample_font(b"TEST", &[9; 200]);
    let container = convert_ttf_to_woff2(&font, &[], 11, true, toy_encoder).unwrap();
    let mut cut = container[..container.len() - 3].to_vec();
    let stream = u32::from_be_bytes(cut[20..24].try_into().unwrap()) - 3;
    cut[20..24].copy_from_slice(&stream.to_be_bytes());
    assert_eq!(
        convert_woff2_to_ttf(&cut, toy_decoder),
        Err(ConversionError::DecompressionError)
    );
}

#[test]
fn container_directory_entries_are_walked() {
    // cmap by index, one length.
    assert!(directory_is_whole(&container_with_entries(9, 1, &[0x00, 0x0a])));
    // glyf by index, transformed: two lengths.
    assert!(directory_is_whole(&container_with_entries(9, 1, &[0x0a, 0x82, 0x2c, 0x05])));
    assert!(!directory_is_whole(&container_with_entries(9, 1, &[0x0a, 0x82, 0x2c])));
    // glyf by index, stored untransformed: one length.
    assert!(directory_is_whole(&container_with_entries(9, 1, &[0xca, 0x82, 0x2c])));
    assert!(directory_is_whole(&container_with_entries(9, 1, &[0x4a, 0x82, 0x2c])));
    assert!(!directory_is_whole(&container_with_entries(9, 2, &[0xca, 0x82, 0x2c])));
    // loca by written-out tag, transformed.
    assert!(directory_is_whole(&container_with_entries(
        9,
        1,
        &[0x3f, b'l', b'o', b'c', b'a', 0x08, 0x00]
    )));
    assert!(!directory_is_whole(&container_with_entries(
        9,
        1,
        &[0x3f, b'l', b'o', b'c', b'a', 0x08]
    )));
    // Another table with a version other than 0 carries two lengths.
    assert!(directory_is_whole(&container_with_entries(9, 1, &[0x43, 0x10, 0x08])));
    assert!(!directory_is_whole(&container_with_entries(9, 1, &[0x43, 0x10])));
    // A written-out tag of another table, one length.
    assert!(directory_is_whole(&container_with_entries(
        9,
        2,
        &[0x3f, b'T', b'E', b'S', b'T', 0x0a, 0x01, 0x36]
    )));
    assert!(directory_is_whole(&container_header(9)));
    assert!(!directory_is_whole(&container_header(9)[..47]));
}

#[test]
fn container_with_a_directory_cut_short_is_malformed() {
    let refuse = |_: &[u8], _: usize| -> Result<Vec<u8>, DecodeFailure> {
        panic!("the decoder was reached")
    };
    // Two tables declared, one entry present.
    let container = container_with_entries(9, 2, &[0x00, 0x0a]);
    assert_eq!(prepare_decode(&container), Err(ConversionError::MalformedDirectory));
    assert_eq!(convert_woff2_to_ttf(&container, refuse), Err(ConversionError::MalformedDirectory));
    // A written-out tag that is cut short.
    let container = container_with_entries(9, 1, &[0x3f, b'T', b'E']);
    assert_eq!(prepare_decode(&container), Err(ConversionError::MalformedDirectory));
    // A length with a leading zero, and one of more than 32 bits.
    let container = container_with_entries(9, 1, &[0x00, 0x80, 0x01]);
    assert_eq!(prepare_decode(&container), Err(ConversionError::MalformedDirectory));
    let container = container_with_entries(9, 1, &[0x00, 0x90, 0x80, 0x80, 0x80, 0x00]);
    assert_eq!(prepare_decode(&container), Err(ConversionError::MalformedDirectory));
    // More tables declared than the container has bytes.
    let container = container_with_entries(9, 0xffff, &[0x00; 100]);
    assert_eq!(prepare_decode(&container), Err(ConversionError::MalformedDirectory));
}

#[test]
fn decoder_may_report_a_directory_at_odds_with_the_tables() {
    let container = container_with_entries(9, 1, &[0x00, 0x0a]);
    assert_eq!(prepare_decode(&container), Ok(9));
    assert_eq!(
        convert_woff2_to_ttf(&container, |_: &[u8], _: usize| Err(DecodeFailure::Directory)),
        Err(ConversionError::MalformedDirectory)
    );
}

#[test]
fn malformed_font_directory_is_reported_at_every_quality() {
    let mut font = sample_font(b"TEST", &[0; 10]);
    font[27] = 11;
    for quality in 0..=11u8 {
        for allow in [false, true] {
            assert_eq!(
                convert_ttf_to_woff2(&font, &[1, 2, 3], quality, allow, toy_encoder),
                Err(ConversionError::MalformedDirectory)
            );
        }
    }
}

#[test]
fn ceiling_of_the_callers_choice_is_enforced() {
    let container = container_header(100);
    assert_eq!(prepare_decode_within(&container, 100), Ok(100));
    assert_eq!(prepare_decode_within(&container, 99), Err(ConversionError::DecompressionError));
    assert_eq!(prepare_decode_within(&container, 0), Err(ConversionError::DecompressionError));
    assert_eq!(
        convert_woff2_to_ttf_within(
            &container,
            99,
            |_: &[u8], _: usize| -> Result<Vec<u8>, DecodeFailure> {
                panic!("the decoder was reached")
            }
        ),
        Err(ConversionError::DecompressionError)
    );
    assert_eq!(
        convert_woff2_to_ttf_within(&container, 100, |_: &[u8], n: usize| Ok(vec![1; n])),
        Ok(vec![1; 100])
    );
    let large = container_header(40 * 1024 * 1024);
    assert_eq!(prepare_decode(&large), Err(ConversionError::DecompressionError));
    assert_eq!(prepare_decode_within(&large, 64 * 1024 * 1024), Ok(40 * 1024 * 1024));
}

#[test]
fn container_stream_longer_than_what_remains_is_malformed() {
    let mut container = container_with_entries(9, 1, &[0x00, 0x0a, 1, 2, 3, 4]);
    assert_eq!(directory_end(&container), Some(50));
    container[20..24].copy_from_slice(&4u32.to_be_bytes());
    assert!(container_is_well_formed(&container));
    assert_eq!(prepare_decode(&container), Ok(9));
    container[20..24].copy_from_slice(&5u32.to_be_bytes());
    assert!(!container_is_well_formed(&container));
    assert_eq!(prepare_decode(&container), Err(ConversionError::MalformedDirectory));
    assert_eq!(
        convert_woff2_to_ttf(
            &container,
            |_: &[u8], _: usize| -> Result<Vec<u8>, DecodeFailure> {
                panic!("the decoder was reached")
            }
        ),
        Err(ConversionError::MalformedDirectory)
    );
    container[20..24].copy_from_slice(&u32::MAX.to_be_bytes());
    assert_eq!(prepare_decode(&container), Err(ConversionError::MalformedDirectory));
    assert_eq!(directory_end(&container[..49]), None);
}
