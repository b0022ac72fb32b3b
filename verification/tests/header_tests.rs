use rust_zlib::cvec::CVec;
use rust_zlib::header::{parse_header, Flags};

fn create_buf(raw: &[u8]) -> CVec<u8> {
    let mut buffer = CVec::with_capacity(raw.len()).unwrap();
    for &byte in raw.iter() {
        buffer.push(byte);
    }
    buffer
}

#[test]
fn test_basic_header() {
    static HEADER_BYTES: &'static [u8] = &[0x1f, 0x8b, 0x08, 0x00, 0x12, 0x34, 0x56, 0x78, 0x00,
        0x07];

    let buffer = create_buf(HEADER_BYTES);
    let results = parse_header(&buffer).unwrap();
    assert_eq!(results.compression_method, 8);
    assert_eq!(
        results.flags,
        Flags {
            FTEXT: false,
            FHCRC: false,
            FNAME: false,
            FEXTRA: false,
            FCOMMENT: false
        }
    );
    // The modification time is a little-endian field: 0x78563412.
    assert_eq!(results.mtime, 2018915346);
    assert_eq!(results.extra_flags, 0);
    assert_eq!(results.os, 7);
}

#[test]
fn test_complex_header() {
    static HEADER_BYTES: &'static [u8] = &[
        // magic header
        0x1f, 0x8b, // compression method
        0x08, // flags
        0x1f, // time
        0x12, 0x34, 0x56, 0x78, // extra flags
        0x00, // OS
        0x07, // extra: little-endian length, then subfield id + data
        0x06, 0x00, 0x41, 0x70, 0x12, 0x34, 0x56, 0x78, // name
        0x41, 0x42, 0x43, 0x44, 0x45, 0x00, // comment
        0x41, 0x41, 0x41, 0x41, 0x41, 0x41, 0x00, // CRC
        0x00, 0x01,
    ];

    let buffer = create_buf(HEADER_BYTES);
    let results = parse_header(&buffer).unwrap();
    assert_eq!(results.compression_method, 8);
    assert_eq!(
        results.flags,
        Flags {
            FTEXT: true,
            FHCRC: true,
            FNAME: true,
            FEXTRA: true,
            FCOMMENT: true
        }
    );
    assert_eq!(results.mtime, 2018915346);
    assert_eq!(results.extra_flags, 0);
    assert_eq!(results.os, 7);
    assert_eq!(
        results.extra,
        Some(("Ap".to_string(), vec![0x12, 0x34, 0x56, 0x78]))
    );
    assert_eq!(results.fname, Some("ABCDE".to_string()));
    assert_eq!(results.comment, Some("AAAAAA".to_string()));
    assert_eq!(results.crc, Some(1));
    assert_eq!(results.header_len, HEADER_BYTES.len());
}

#[test]
fn test_partial_header() {
    static HEADER_BYTES: &'static [u8] = &[
        // magic header
        0x1f, 0x8b, // compression method
        0x08, // flags: FTEXT, FHCRC, FNAME, FCOMMENT; no FEXTRA
        0x1b, // time
        0x12, 0x34, 0x56, 0x78, // extra flags
        0x00, // OS
        0x07, // name
        0x41, 0x42, 0x43, 0x44, 0x45, 0x00, // comment
        0x41, 0x41, 0x41, 0x41, 0x41, 0x41, 0x00, // CRC
        0x00, 0x01,
    ];

    let buffer = create_buf(HEADER_BYTES);
    let results = parse_header(&buffer).unwrap();
    assert_eq!(results.compression_method, 8);
    assert_eq!(
        results.flags,
        Flags {
            FTEXT: true,
            FHCRC: true,
            FNAME: true,
            FEXTRA: false,
            FCOMMENT: true
        }
    );
    assert_eq!(results.mtime, 2018915346);
    assert_eq!(results.extra_flags, 0);
    assert_eq!(results.os, 7);
    assert_eq!(results.extra, None);
    assert_eq!(results.fname, Some("ABCDE".to_string()));
    assert_eq!(results.comment, Some("AAAAAA".to_string()));
    assert_eq!(results.crc, Some(1));
}

#[test]
fn test_invalid_header() {
    // Magic bytes are wrong
    let header_bytes: &[u8] = &[0x1f, 0x8c, 0x08, 0x00, 0x12, 0x34, 0x56, 0x78, 0x00, 0x07];
    let buffer = create_buf(header_bytes);
    assert!(parse_header(&buffer).is_none());
    // Wrong compression type
    let header_bytes: &[u8] = &[0x1f, 0x8b, 0x07, 0x00, 0x12, 0x34, 0x56, 0x78, 0x00, 0x07];
    let buffer = create_buf(header_bytes);
    assert!(parse_header(&buffer).is_none());
}

#[test]
fn test_unterminated_name_fails() {
    // FNAME is set but no NUL terminator follows.
    let header_bytes: &[u8] = &[0x1f, 0x8b, 0x08, 0x08, 0, 0, 0, 0, 0x00, 0x07, 0x41, 0x42];
    let buffer = create_buf(header_bytes);
    assert!(parse_header(&buffer).is_none());
}

#[test]
fn test_name_must_be_utf8() {
    // FNAME is set and terminated, but holds an invalid UTF-8 byte.
    let header_bytes: &[u8] = &[0x1f, 0x8b, 0x08, 0x08, 0, 0, 0, 0, 0x00, 0x07, 0xff, 0x00];
    let buffer = create_buf(header_bytes);
    assert!(parse_header(&buffer).is_none());
    // The same layout with an ASCII name parses.
    let header_bytes: &[u8] = &[0x1f, 0x8b, 0x08, 0x08, 0, 0, 0, 0, 0x00, 0x07, 0x41, 0x00];
    let buffer = create_buf(header_bytes);
    assert_eq!(parse_header(&buffer).unwrap().fname, Some("A".to_string()));
}
