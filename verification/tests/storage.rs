use motif_core::storage::{check_header, header_bytes, HEADER_LEN};
use motif_core::{MemoryStorage, Storage, StorageError};

#[test]
fn memory_round_trips_append_and_read() {
    let mut s = MemoryStorage::new();
    assert_eq!(s.len(), HEADER_LEN);
    assert!(s.is_empty());

    let off = s.append(b"hello").unwrap();
    assert_eq!(off, HEADER_LEN);
    assert_eq!(s.len(), HEADER_LEN + 5);
    assert!(!s.is_empty());

    let got = s.read_at(off, 5).unwrap();
    assert_eq!(got, b"hello");
}

#[test]
fn truncate_below_header_is_rejected_memory() {
    let mut s = MemoryStorage::new();
    let err = s.truncate(0).unwrap_err();
    assert!(matches!(err, StorageError::TruncateBelowHeader { .. }));
    let err = s.truncate(HEADER_LEN - 1).unwrap_err();
    assert!(matches!(err, StorageError::TruncateBelowHeader { .. }));
    s.truncate(HEADER_LEN).unwrap();
}

#[test]
fn file_creates_header_on_new_file() {
    let header = header_bytes();
    assert_eq!(header.len() as u64, HEADER_LEN);
    assert_eq!(&header[..8], b"MOTIF\0\0\x01");
    assert_eq!(&header[8..12], &4u32.to_le_bytes());
    assert!(check_header("new.motif", &header, HEADER_LEN).is_ok());
}

#[test]
fn file_rejects_bad_magic() {
    let err = check_header("bad.motif", &[0u8; 16], 16).unwrap_err();
    assert!(matches!(err, StorageError::BadMagic(_)));
}

#[test]
fn v0_0_1_store_is_rejected_on_open() {
    let mut hdr = Vec::new();
    hdr.extend_from_slice(b"MOTIF\0\0\x01");
    hdr.extend_from_slice(&1u32.to_le_bytes());
    hdr.extend_from_slice(&[0u8; 4]);
    assert_eq!(hdr.len(), 16);
    let err = check_header("legacy.motif", &hdr, 16).unwrap_err();
    let s = err.message();
    assert!(s.contains("unsupported format version"), "unexpected error: {s}");
    match err {
        StorageError::BadVersion { found, expected, .. } => {
            assert_eq!(found, 1);
            assert_eq!(expected, 4);
        }
        other => panic!("expected BadVersion, got {other:?}"),
    }
}

#[test]
fn short_file_is_rejected() {
    let err = check_header("short.motif", &[], 3).unwrap_err();
    assert!(matches!(err, StorageError::ShortHeader { len: 3, expected: 16, .. }));
}

#[test]
fn memory_read_past_end_is_an_error() {
    let mut s = MemoryStorage::new();
    assert!(matches!(s.read_at(10, 10), Err(StorageError::Io { .. })));
    assert!(matches!(s.read_at(u64::MAX, 1), Err(StorageError::Io { .. })));
    assert_eq!(s.read_at(0, 16).unwrap(), header_bytes());
}

#[test]
fn memory_truncate_drops_the_tail() {
    let mut s = MemoryStorage::new();
    s.append(b"abcdef").unwrap();
    s.truncate(HEADER_LEN + 2).unwrap();
    assert_eq!(s.len(), HEADER_LEN + 2);
    assert_eq!(s.read_at(HEADER_LEN, 2).unwrap(), b"ab");
    assert_eq!(s.free_space(), None);
}

#[test]
fn memory_truncate_past_the_end_keeps_the_contents() {
    let mut s = MemoryStorage::new();
    s.append(b"abc").unwrap();
    s.truncate(HEADER_LEN + 100).unwrap();
    assert_eq!(s.len(), HEADER_LEN + 3);
    assert_eq!(s.read_at(HEADER_LEN, 3).unwrap(), b"abc");
    assert!(matches!(s.read_at(HEADER_LEN, 4), Err(StorageError::Io { .. })));
}
