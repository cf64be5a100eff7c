//! Tests of the record framing: exact wire bytes, round trips over the
//! real gzip layer, and every error the decoder can report.

use barotrauma_compress::{
    compress, decode_records, decompress, encode_records, ArchiveError, Record,
};

fn rec(name: &str, content: &[u8]) -> Record {
    Record { name: name.chars().collect(), content: content.to_vec() }
}

/// The exact decompressed stream for the two-file scenario: `a.txt` with
/// bytes "hi", then `b.bin` with bytes [0x00, 0xFF].
fn two_file_body() -> Vec<u8> {
    let mut expected: Vec<u8> = Vec::new();
    // a.txt: 5 UTF-16 code units, then "hi"
    expected.extend_from_slice(&[0x05, 0x00, 0x00, 0x00]);
    expected.extend_from_slice(&[0x61, 0x00, 0x2e, 0x00, 0x74, 0x00, 0x78, 0x00, 0x74, 0x00]);
    expected.extend_from_slice(&[0x02, 0x00, 0x00, 0x00]);
    expected.extend_from_slice(&[0x68, 0x69]);
    // b.bin: 5 UTF-16 code units, then [0x00, 0xFF]
    expected.extend_from_slice(&[0x05, 0x00, 0x00, 0x00]);
    expected.extend_from_slice(&[0x62, 0x00, 0x2e, 0x00, 0x62, 0x00, 0x69, 0x00, 0x6e, 0x00]);
    expected.extend_from_slice(&[0x02, 0x00, 0x00, 0x00]);
    expected.extend_from_slice(&[0x00, 0xff]);
    expected
}

#[test]
fn concrete_two_file_stream() {
    let records = vec![rec("a.txt", b"hi"), rec("b.bin", &[0x00, 0xff])];
    let body = encode_records(&records).unwrap();
    assert_eq!(body, two_file_body());

    let decoded = decode_records(&body).unwrap();
    assert_eq!(decoded, records);
}

#[test]
fn round_trip_through_gzip() {
    let records = vec![rec("a.txt", b"hi"), rec("b.bin", &[0x00, 0xff])];
    let archive = compress(&records).unwrap();
    // the output is a real gzip container, not the raw body handed back
    assert_eq!(&archive[0..2], &[0x1f, 0x8b]);
    assert_ne!(archive, encode_records(&records).unwrap());

    let restored = decompress(&archive).unwrap();
    assert_eq!(restored, records);
}

#[test]
fn empty_directory_round_trips() {
    let records: Vec<Record> = Vec::new();
    let body = encode_records(&records).unwrap();
    assert!(body.is_empty());

    let archive = compress(&records).unwrap();
    let restored = decompress(&archive).unwrap();
    assert!(restored.is_empty());
}

#[test]
fn empty_file_round_trips() {
    let records = vec![rec("empty.dat", b"")];
    let body = encode_records(&records).unwrap();
    // filename length 9, 18 name bytes, then a zero content length
    assert_eq!(&body[4 + 18..4 + 18 + 4], &[0x00, 0x00, 0x00, 0x00]);
    assert_eq!(body.len(), 4 + 18 + 4);

    let archive = compress(&records).unwrap();
    let restored = decompress(&archive).unwrap();
    assert_eq!(restored, records);
    assert_eq!(restored[0].content.len(), 0);
}

#[test]
fn unicode_names_round_trip() {
    // one char above 0xFFFF (a surrogate pair on the wire), several
    // multi-byte chars below it
    let records = vec![rec("h\u{00e9}ll\u{00f8}_\u{1F600}.txt", b"x"), rec("\u{4F60}\u{597D}", b"")];
    let body = encode_records(&records).unwrap();
    let decoded = decode_records(&body).unwrap();
    assert_eq!(decoded, records);

    let archive = compress(&records).unwrap();
    let restored = decompress(&archive).unwrap();
    assert_eq!(restored, records);
}

#[test]
fn surrogate_pair_on_the_wire() {
    // "😀" is U+1F600: high surrogate 0xD83D, low surrogate 0xDE00
    let records = vec![rec("\u{1F600}", b"")];
    let body = encode_records(&records).unwrap();
    let expected = vec![
        0x02, 0x00, 0x00, 0x00, // two code units
        0x3d, 0xd8, 0x00, 0xde, // the pair, little-endian
        0x00, 0x00, 0x00, 0x00, // no content
    ];
    assert_eq!(body, expected);
    let decoded = decode_records(&body).unwrap();
    assert_eq!(decoded, records);
}

#[test]
fn truncation_detected_at_every_inner_offset() {
    let records = vec![rec("a.txt", b"hi"), rec("b.bin", &[0x00, 0xff])];
    let body = encode_records(&records).unwrap();
    // each record here is 4 + 10 + 4 + 2 = 20 bytes long
    let boundaries = [0usize, 20, 40];
    assert_eq!(body.len(), 40);
    for n in 0..body.len() {
        let cut: Vec<u8> = body[..n].to_vec();
        let result = decode_records(&cut);
        if boundaries.contains(&n) {
            let decoded = result.unwrap();
            assert_eq!(decoded.len(), n / 20);
        } else {
            assert_eq!(result.unwrap_err(), ArchiveError::TruncatedStream);
        }
    }
}

#[test]
fn lone_surrogate_is_an_encoding_error() {
    // filename length 1, one high surrogate 0xD800 with nothing after it
    let body = vec![0x01, 0x00, 0x00, 0x00, 0x00, 0xd8, 0x00, 0x00, 0x00, 0x00];
    assert_eq!(decode_records(&body).unwrap_err(), ArchiveError::Encoding);

    // a low surrogate first is just as bad
    let body2 = vec![0x01, 0x00, 0x00, 0x00, 0x00, 0xdc, 0x00, 0x00, 0x00, 0x00];
    assert_eq!(decode_records(&body2).unwrap_err(), ArchiveError::Encoding);
}

#[test]
fn partial_length_prefix_is_truncation() {
    for n in 1..4 {
        let body = vec![0x05; n];
        assert_eq!(decode_records(&body).unwrap_err(), ArchiveError::TruncatedStream);
    }
}

#[test]
fn content_shortfall_is_truncation() {
    // filename "a", content claims 3 bytes but only 2 follow
    let body = vec![
        0x01, 0x00, 0x00, 0x00, 0x61, 0x00, 0x03, 0x00, 0x00, 0x00, 0x68, 0x69,
    ];
    assert_eq!(decode_records(&body).unwrap_err(), ArchiveError::TruncatedStream);
}

#[test]
fn garbage_archive_is_an_io_error() {
    let garbage = vec![0x00, 0x01, 0x02, 0x03, 0x04];
    assert_eq!(decompress(&garbage).unwrap_err(), ArchiveError::Io);
}

#[test]
fn truncated_gzip_container_fails() {
    let records = vec![rec("a.txt", b"hi")];
    let archive = compress(&records).unwrap();
    let cut: Vec<u8> = archive[..archive.len() - 5].to_vec();
    assert!(decompress(&cut).is_err());
}
