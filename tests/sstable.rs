use std::sync::Arc;

use mini_lsm::block::BlockIterator;
use mini_lsm::error::StorageError;
use mini_lsm::sstable::{key_within, table_get, BlockMeta, FileObject, SsTable, SsTableBuilder, SsTableIterator};

fn key_of(i: usize) -> Vec<u8> {
    format!("k{:05}", i).into_bytes()
}

fn value_of(i: usize) -> Vec<u8> {
    format!("value{}", i).into_bytes()
}

fn table_bytes(n: usize, block_size: usize) -> Vec<u8> {
    let mut b = SsTableBuilder::new(block_size);
    for i in 0..n {
        assert!(b.add(&key_of(i), &value_of(i)));
    }
    b.build()
}

fn open(n: usize, block_size: usize) -> SsTable {
    SsTable::open(1, None, FileObject::from_bytes(table_bytes(n, block_size))).unwrap()
}

#[test]
fn sst_block_boundary_scenario() {
    let t = open(1000, 256);
    assert!(t.num_of_blocks() > 1);
    assert_eq!(t.first_key(), b"k00000");
    assert_eq!(t.last_key(), b"k00999");
    let idx = t.find_block_idx(b"k00500");
    let block = t.read_block(idx).unwrap();
    let first = BlockIterator::create_and_seek_to_first(block.clone());
    assert!(first.key() <= &b"k00500"[..]);
    let mut it = BlockIterator::create_and_seek_to_first(block);
    let mut last = Vec::new();
    while it.is_valid() {
        last = it.key().to_vec();
        it.next();
    }
    assert!(&last[..] >= &b"k00500"[..]);
    let it = SsTableIterator::create_and_seek_to_key(Arc::new(t), b"k00500").unwrap();
    assert!(it.is_valid());
    assert_eq!(it.key(), b"k00500");
    assert_eq!(it.value(), b"value500");
}

#[test]
fn sst_find_block_idx_edges() {
    let t = open(1000, 256);
    assert_eq!(t.find_block_idx(b"a"), 0);
    assert_eq!(t.find_block_idx(b"k00000"), 0);
    assert_eq!(t.find_block_idx(b"z"), t.num_of_blocks() - 1);
}

#[test]
fn sst_iterates_every_pair_in_order() {
    let t = Arc::new(open(300, 128));
    let mut it = SsTableIterator::create_and_seek_to_key(t, b"").unwrap();
    let mut i = 0;
    while it.is_valid() {
        assert_eq!(it.key(), &key_of(i)[..]);
        assert_eq!(it.value(), &value_of(i)[..]);
        it.next().unwrap();
        i += 1;
    }
    assert_eq!(i, 300);
}

#[test]
fn sst_seek_between_and_past_keys() {
    let t = Arc::new(open(100, 128));
    let it = SsTableIterator::create_and_seek_to_key(t.clone(), b"k00042x").unwrap();
    assert_eq!(it.key(), b"k00043");
    let it = SsTableIterator::create_and_seek_to_key(t, b"k99999").unwrap();
    assert!(!it.is_valid());
}

#[test]
fn sst_table_get() {
    let t = Arc::new(open(100, 128));
    assert_eq!(table_get(&t, b"k00007").unwrap(), Some(b"value7".to_vec()));
    assert_eq!(table_get(&t, b"k00007a").unwrap(), None);
}

#[test]
fn sst_key_within() {
    assert!(key_within(b"b", b"a", b"c"));
    assert!(key_within(b"a", b"a", b"c"));
    assert!(key_within(b"c", b"a", b"c"));
    assert!(!key_within(b"d", b"a", b"c"));
    assert!(!key_within(b"", b"a", b"c"));
}

#[test]
fn sst_block_meta_round_trip() {
    let metas = vec![
        BlockMeta { offset: 0, first_key: b"a".to_vec(), last_key: b"c".to_vec() },
        BlockMeta { offset: 300, first_key: b"d".to_vec(), last_key: b"f".to_vec() },
    ];
    let mut buf = Vec::new();
    BlockMeta::encode_block_meta(&metas, &mut buf);
    assert_eq!(&buf[..4], &[0, 0, 0, 2]);
    assert_eq!(BlockMeta::decode_block_meta(&buf).unwrap(), metas);
    let n = buf.len();
    buf[n - 1] ^= 1;
    assert_eq!(BlockMeta::decode_block_meta(&buf).err(), Some(StorageError::MetaChecksumMismatch));
    assert_eq!(BlockMeta::decode_block_meta(&[0, 0, 0]).err(), Some(StorageError::MalformedTable));
}

#[test]
fn sst_corrupt_block_is_detected() {
    let mut bytes = table_bytes(50, 128);
    bytes[10] ^= 0xff;
    let t = SsTable::open(1, None, FileObject::from_bytes(bytes)).unwrap();
    assert_eq!(t.read_block(0).err(), Some(StorageError::BlockChecksumMismatch));
}

#[test]
fn sst_bad_trailer_is_detected() {
    assert_eq!(SsTable::open(1, None, FileObject::from_bytes(vec![1, 2])).err(), Some(StorageError::MalformedTable));
    let mut bytes = table_bytes(10, 128);
    let n = bytes.len();
    bytes[n - 1] = 0xff;
    bytes[n - 2] = 0xff;
    assert_eq!(SsTable::open(1, None, FileObject::from_bytes(bytes)).err(), Some(StorageError::MalformedTable));
}

#[test]
fn sst_accessors() {
    let t = open(10, 4096);
    assert_eq!(t.sst_id(), 1);
    assert_eq!(t.max_ts(), 0);
    assert_eq!(t.num_of_blocks(), 1);
    assert_eq!(t.table_size() as usize, table_bytes(10, 4096).len());
}

#[test]
fn file_object_read() {
    let f = FileObject::from_bytes(vec![1, 2, 3, 4]);
    assert_eq!(f.size(), 4);
    assert_eq!(f.read(1, 2).unwrap(), vec![2, 3]);
    assert_eq!(f.read(3, 2).err(), Some(StorageError::MalformedTable));
}

#[test]
fn sst_read_block_cached() {
    let cache = Arc::new(moka::sync::Cache::new(64));
    let t = SsTable::open(9, Some(cache.clone()), FileObject::from_bytes(table_bytes(200, 128))).unwrap();
    let direct = t.read_block(1).unwrap();
    let first = t.read_block_cached(1).unwrap();
    let again = t.read_block_cached(1).unwrap();
    assert_eq!(first.data, direct.data);
    assert_eq!(again.offsets, direct.offsets);
    assert!(cache.get(&(9, 1)).is_some());
    let plain = open(200, 128);
    assert_eq!(plain.read_block_cached(0).unwrap().data, plain.read_block(0).unwrap().data);
}

#[test]
fn sst_malformed_block_is_detected() {
    // one block whose checksum matches but which holds no entry
    let payload = vec![0u8, 0];
    let mut bytes = payload.clone();
    bytes.extend_from_slice(&crc32fast::hash(&payload).to_be_bytes());
    let meta_offset = bytes.len();
    let metas = vec![BlockMeta { offset: 0, first_key: b"a".to_vec(), last_key: b"a".to_vec() }];
    BlockMeta::encode_block_meta(&metas, &mut bytes);
    bytes.extend_from_slice(&(meta_offset as u32).to_be_bytes());
    let bloom_offset = bytes.len();
    bytes.extend_from_slice(&(bloom_offset as u32).to_be_bytes());
    let t = SsTable::open(1, None, FileObject::from_bytes(bytes)).unwrap();
    assert_eq!(t.first_key(), b"a");
    assert_eq!(t.read_block(0).err(), Some(StorageError::MalformedBlock));
}

#[test]
fn sst_iterator_through_cache() {
    let cache = Arc::new(moka::sync::Cache::new(64));
    let t = Arc::new(SsTable::open(3, Some(cache.clone()), FileObject::from_bytes(table_bytes(300, 128))).unwrap());
    for _ in 0..2 {
        let mut it = SsTableIterator::create_and_seek_to_key(t.clone(), b"k00100").unwrap();
        let mut i = 100;
        while it.is_valid() {
            assert_eq!(it.key(), &key_of(i)[..]);
            it.next().unwrap();
            i += 1;
        }
        assert_eq!(i, 300);
    }
    assert!(cache.get(&(3, t.num_of_blocks() - 1)).is_some());
}
