use dpdb::storage::data_format::read_u64_be;
use dpdb::storage::fs::{DBFile, FileSystem};
use dpdb::{encode, eq_u8, ErrorKind};

#[test]
fn encode_layout() {
    let frame = encode(b"key", b"value");
    assert_eq!(frame.len(), 16 + 3 + 5);
    assert_eq!(&frame[0..8], &[0, 0, 0, 0, 0, 0, 0, 3]);
    assert_eq!(&frame[8..16], &[0, 0, 0, 0, 0, 0, 0, 5]);
    assert_eq!(&frame[16..19], b"key");
    assert_eq!(&frame[19..24], b"value");
}

#[test]
fn round_trip() {
    let frame = encode(b"some key", b"some longer value bytes");
    let mut db = DBFile { data: frame, pos: 0 };
    let rec = FileSystem::read_record_with(&mut db).unwrap();
    assert_eq!(rec.klen, 8);
    assert_eq!(rec.vlen, 23);
    assert_eq!(rec.key, b"some key".to_vec());
    assert_eq!(rec.value, b"some longer value bytes".to_vec());
    let e = FileSystem::read_record_with(&mut db).unwrap_err();
    assert_eq!(e.kind, ErrorKind::Key);
}

#[test]
fn round_trip_empty_key_and_value() {
    let frame = encode(b"", b"");
    assert_eq!(frame.len(), 16);
    let mut db = DBFile { data: frame, pos: 0 };
    let rec = FileSystem::read_record_with(&mut db).unwrap();
    assert_eq!(rec.key, Vec::<u8>::new());
    assert_eq!(rec.value, Vec::<u8>::new());
}

#[test]
fn truncated_payload_is_io_error() {
    let mut frame = encode(b"key", b"value");
    frame.truncate(20);
    let mut db = DBFile { data: frame, pos: 0 };
    let e = FileSystem::read_record_with(&mut db).unwrap_err();
    assert_eq!(e.kind, ErrorKind::IO);
}

#[test]
fn short_header_ends_the_data() {
    let mut db = DBFile { data: vec![0, 0, 0], pos: 0 };
    let e = FileSystem::read_record_with(&mut db).unwrap_err();
    assert_eq!(e.kind, ErrorKind::Key);
}

#[test]
fn big_endian_read() {
    let data = [0u8, 0, 0, 0, 0, 0, 1, 2];
    assert_eq!(read_u64_be(&data, 0), 258);
}

#[test]
fn eq_u8_compares_bytes() {
    assert!(eq_u8(b"abc", b"abc"));
    assert!(!eq_u8(b"abc", b"abd"));
    assert!(!eq_u8(b"abc", b"ab"));
    assert!(eq_u8(b"", b""));
}
