use glue::{Archive, DecodeError, FileRecord};

fn record_of(name: &str, content: &[u8]) -> FileRecord {
    FileRecord {
        filename: name.as_bytes().to_vec(),
        size: content.len() as u64,
        content: content.to_vec(),
    }
}

fn one_record_bytes() -> Vec<u8> {
    let mut expected = b"GLUE".to_vec();
    expected.extend_from_slice(&[0, 0, 0, 1]);
    expected.extend_from_slice(&[0; 8]);
    expected.extend_from_slice(b"a.txt\0");
    expected.extend_from_slice(&[0, 0]);
    expected.extend_from_slice(&[0, 0, 0, 0, 0, 0, 0, 2]);
    expected.extend_from_slice(b"hi");
    expected.extend_from_slice(&[0; 14]);
    expected
}

#[test]
fn encode_lays_out_header_and_record() {
    let archive = Archive { records: vec![record_of("a.txt", b"hi")] };
    let bytes = archive.encode().unwrap();
    assert_eq!(bytes, one_record_bytes());
    assert_eq!(bytes.len(), 48);
}

#[test]
fn encode_empty_archive() {
    let archive = Archive { records: vec![] };
    let bytes = archive.encode().unwrap();
    let mut expected = b"GLUE".to_vec();
    expected.extend_from_slice(&[0; 12]);
    assert_eq!(bytes, expected);
}

#[test]
fn decode_reads_back_what_encode_wrote() {
    let archive = Archive {
        records: vec![
            record_of("1.txt", b"hello"),
            record_of("2.txt", &[1, 2, 3, 4, 5, 6]),
            record_of("long-name-of-a-file.bin", &[0u8; 40]),
            record_of("empty", b""),
        ],
    };
    let bytes = archive.encode().unwrap();
    assert_eq!(bytes.len() % 16, 0);
    let decoded = Archive::decode(&bytes).unwrap();
    assert_eq!(decoded.records.len(), 4);
    for (a, b) in archive.records.iter().zip(decoded.records.iter()) {
        assert_eq!(a.filename, b.filename);
        assert_eq!(a.size, b.size);
        assert_eq!(a.content, b.content);
    }
}

#[test]
fn decode_ignores_trailing_bytes_and_padding() {
    let mut bytes = one_record_bytes();
    bytes[10] = 0xaa; // header padding
    bytes[22] = 0xbb; // padding after the name
    bytes.extend_from_slice(b"trailing");
    let decoded = Archive::decode(&bytes).unwrap();
    assert_eq!(decoded.records.len(), 1);
    assert_eq!(decoded.records[0].filename, b"a.txt".to_vec());
    assert_eq!(decoded.records[0].content, b"hi".to_vec());
}

#[test]
fn decode_rejects_bad_magic() {
    let mut bytes = one_record_bytes();
    bytes[0] = b'X';
    assert!(matches!(Archive::decode(&bytes), Err(DecodeError::BadMagic)));
}

#[test]
fn decode_rejects_short_input() {
    assert!(matches!(Archive::decode(b"GL"), Err(DecodeError::UnexpectedEnd)));
    assert!(matches!(Archive::decode(b"GLUE\0\0"), Err(DecodeError::UnexpectedEnd)));
    let bytes = one_record_bytes();
    // The content ends early.
    assert!(matches!(Archive::decode(&bytes[..33]), Err(DecodeError::UnexpectedEnd)));
    // The name has no terminating NUL.
    assert!(matches!(Archive::decode(&bytes[..20]), Err(DecodeError::UnexpectedEnd)));
    // Fewer records than counted.
    let mut more = bytes.clone();
    more[7] = 2;
    assert!(matches!(Archive::decode(&more), Err(DecodeError::UnexpectedEnd)));
}

#[test]
fn decode_needs_no_padding_after_the_last_record() {
    let bytes = one_record_bytes();
    let decoded = Archive::decode(&bytes[..34]).unwrap();
    assert_eq!(decoded.records[0].content, b"hi".to_vec());
}

#[test]
fn encode_writes_the_declared_size() {
    // The size field is written as declared, even when it differs from the content.
    let archive = Archive {
        records: vec![FileRecord { filename: b"a".to_vec(), size: 1, content: b"xyz".to_vec() }],
    };
    let bytes = archive.encode().unwrap();
    assert_eq!(&bytes[16..18], b"a\0");
    assert_eq!(&bytes[24..32], &[0, 0, 0, 0, 0, 0, 0, 1]);
    assert_eq!(&bytes[32..35], b"xyz");
    let decoded = Archive::decode(&bytes).unwrap();
    assert_eq!(decoded.records[0].content, b"x".to_vec());
}
