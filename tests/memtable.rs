use mini_lsm::error::StorageError;
use mini_lsm::memtable::{KeyBound, MemTable, Wal};

#[test]
fn memtable_put_get_overwrite() {
    let mut m = MemTable::create(7);
    assert_eq!(m.id(), 7);
    assert!(m.is_empty());
    assert_eq!(m.get(b"k"), None);
    m.put(b"k", b"v1");
    m.put(b"k", b"v22");
    m.put(b"gone", b"");
    assert_eq!(m.get(b"k"), Some(b"v22".to_vec()));
    assert_eq!(m.get(b"gone"), Some(Vec::new()));
    assert!(!m.is_empty());
    // 1+2 + 1+3 + 4+0: overwrites count too
    assert_eq!(m.approximate_size(), 11);
    assert!(m.wal_bytes().is_none());
}

#[test]
fn memtable_testing_slices() {
    let mut m = MemTable::create(0);
    m.for_testing_put_slice(b"key1", b"value1");
    assert_eq!(m.for_testing_get_slice(b"key1"), Some(b"value1".to_vec()));
}

#[test]
fn wal_record_layout() {
    let mut w = Wal::create();
    w.put(b"ab", b"c");
    let bytes = w.bytes();
    assert_eq!(&bytes[..7], &[0, 2, b'a', b'b', 0, 1, b'c']);
    let crc = crc32fast::hash(&bytes[..7]);
    assert_eq!(&bytes[7..], &crc.to_be_bytes());
}

#[test]
fn wal_round_trip_keeps_last_value() {
    let mut m = MemTable::create_with_wal(3);
    m.put(b"a", b"1");
    m.put(b"b", b"2");
    m.put(b"a", b"3");
    m.put(b"c", b"");
    let bytes = m.wal_bytes().unwrap().to_vec();
    let r = MemTable::recover_from_wal(3, &bytes).unwrap();
    assert_eq!(r.id(), 3);
    assert_eq!(r.get(b"a"), Some(b"3".to_vec()));
    assert_eq!(r.get(b"b"), Some(b"2".to_vec()));
    assert_eq!(r.get(b"c"), Some(Vec::new()));
    assert_eq!(r.get(b"d"), None);
    assert_eq!(r.wal_bytes().unwrap(), &bytes[..]);
}

#[test]
fn wal_empty_log_recovers_empty_table() {
    let r = MemTable::recover_from_wal(1, &[]).unwrap();
    assert!(r.is_empty());
}

#[test]
fn wal_checksum_mismatch_is_an_error() {
    let mut m = MemTable::create_with_wal(0);
    m.put(b"key", b"value");
    let mut bytes = m.wal_bytes().unwrap().to_vec();
    bytes[3] ^= 0xff;
    assert_eq!(MemTable::recover_from_wal(0, &bytes).err(), Some(StorageError::WalChecksumMismatch));
}

#[test]
fn wal_truncated_is_an_error() {
    let mut m = MemTable::create_with_wal(0);
    m.put(b"key", b"value");
    let bytes = m.wal_bytes().unwrap().to_vec();
    let cut = &bytes[..bytes.len() - 1];
    assert_eq!(MemTable::recover_from_wal(0, cut).err(), Some(StorageError::WalTruncated));
    assert_eq!(MemTable::recover_from_wal(0, &[0]).err(), Some(StorageError::WalTruncated));
}

fn scan_keys(m: &MemTable, lower: KeyBound, upper: KeyBound) -> Vec<Vec<u8>> {
    let mut it = m.scan(&lower, &upper);
    let mut out = Vec::new();
    while it.is_valid() {
        out.push(it.key().to_vec());
        assert_eq!(m.get(it.key()), Some(it.value().to_vec()));
        it.next();
    }
    out
}

#[test]
fn memtable_scan_ranges() {
    let mut m = MemTable::create(0);
    for k in [&b"d"[..], b"a", b"c", b"e", b"b"] {
        m.put(k, k);
    }
    let all: Vec<Vec<u8>> = ["a", "b", "c", "d", "e"].iter().map(|s| s.as_bytes().to_vec()).collect();
    assert_eq!(scan_keys(&m, KeyBound::Unbounded, KeyBound::Unbounded), all);
    assert_eq!(
        scan_keys(&m, KeyBound::Included(b"b".to_vec()), KeyBound::Excluded(b"d".to_vec())),
        vec![b"b".to_vec(), b"c".to_vec()]
    );
    assert_eq!(
        scan_keys(&m, KeyBound::Excluded(b"b".to_vec()), KeyBound::Included(b"d".to_vec())),
        vec![b"c".to_vec(), b"d".to_vec()]
    );
    assert!(scan_keys(&m, KeyBound::Included(b"x".to_vec()), KeyBound::Unbounded).is_empty());
}
