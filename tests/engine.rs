use mini_lsm::error::StorageError;
use mini_lsm::lsm_storage::{
    CompactionOptions, LsmStorageInner, LsmStorageOptions, LsmStorageState, SimpleLeveledCompactionOptions,
    TieredCompactionOptions, WriteBatchRecord,
};
use mini_lsm::manifest::{replay_manifest, Manifest, ManifestRecord};
use mini_lsm::memtable::MemTable;
use mini_lsm::sstable::{FileObject, SsTable, SsTableBuilder};

fn get(e: &LsmStorageInner, k: &[u8]) -> Option<Vec<u8>> {
    e.get(k).unwrap()
}

#[test]
fn engine_end_to_end_scenario() {
    let (mut e, rec) = LsmStorageInner::create(LsmStorageOptions::default_for_week1_test());
    assert_eq!(rec, ManifestRecord::NewMemtable(0));
    e.put(b"a", b"1").unwrap();
    e.put(b"a", b"2").unwrap();
    assert_eq!(e.force_freeze_memtable().unwrap(), ManifestRecord::NewMemtable(1));
    e.put(b"a", b"3").unwrap();
    assert_eq!(get(&e, b"a"), Some(b"3".to_vec()));
    e.delete(b"a").unwrap();
    assert_eq!(get(&e, b"a"), None);
    assert_eq!(get(&e, b"0"), None);
}

#[test]
fn engine_freeze_monotonicity() {
    let (mut e, _) = LsmStorageInner::create(LsmStorageOptions::default_for_week1_test());
    e.put(b"x", b"1").unwrap();
    e.put(b"y", b"2").unwrap();
    e.delete(b"y").unwrap();
    let before = e.state().imm_memtables.len();
    e.force_freeze_memtable().unwrap();
    assert_eq!(e.state().imm_memtables.len(), before + 1);
    assert!(e.state().memtable.is_empty());
    assert_eq!(e.state().memtable.id(), 1);
    assert_eq!(get(&e, b"x"), Some(b"1".to_vec()));
    assert_eq!(get(&e, b"y"), None);
    e.force_freeze_memtable().unwrap();
    assert_eq!(e.state().imm_memtables.len(), before + 2);
    assert_eq!(get(&e, b"x"), Some(b"1".to_vec()));
}

#[test]
fn engine_freezes_at_target_size() {
    let mut options = LsmStorageOptions::default_for_week1_test();
    options.target_sst_size = 10;
    let (mut e, _) = LsmStorageInner::create(options);
    assert!(e.put(b"k1", b"v1").unwrap().is_empty());
    let recs = e.put(b"k2", b"123456").unwrap();
    assert_eq!(recs, vec![ManifestRecord::NewMemtable(1)]);
    assert_eq!(e.state().imm_memtables.len(), 1);
    assert_eq!(get(&e, b"k1"), Some(b"v1".to_vec()));
    assert_eq!(get(&e, b"k2"), Some(b"123456".to_vec()));
}

#[test]
fn engine_try_freeze_checks_size() {
    let mut options = LsmStorageOptions::default_for_week1_test();
    options.target_sst_size = 4;
    let (mut e, _) = LsmStorageInner::create(options);
    assert_eq!(e.try_freeze(100).unwrap(), None);
    e.put(b"ab", b"c").unwrap();
    assert_eq!(e.try_freeze(0).unwrap(), None);
    assert_eq!(e.try_freeze(3).unwrap(), None);
    e.put(b"d", b"").unwrap();
    assert_eq!(e.state().imm_memtables.len(), 1);
}

#[test]
fn engine_write_batch() {
    let (mut e, _) = LsmStorageInner::create(LsmStorageOptions::default_for_week1_test());
    e.put(b"gone", b"x").unwrap();
    let batch = vec![
        WriteBatchRecord::Put(b"a".to_vec(), b"1".to_vec()),
        WriteBatchRecord::Put(b"b".to_vec(), b"2".to_vec()),
        WriteBatchRecord::Del(b"gone".to_vec()),
        WriteBatchRecord::Put(b"a".to_vec(), b"3".to_vec()),
    ];
    e.write_batch(&batch).unwrap();
    assert_eq!(get(&e, b"a"), Some(b"3".to_vec()));
    assert_eq!(get(&e, b"b"), Some(b"2".to_vec()));
    assert_eq!(get(&e, b"gone"), None);
}

#[test]
fn engine_next_sst_id_counts_up() {
    let (mut e, _) = LsmStorageInner::create(LsmStorageOptions::default_for_week1_test());
    assert_eq!(e.next_sst_id().unwrap(), 1);
    assert_eq!(e.next_sst_id().unwrap(), 2);
}

#[test]
fn state_create_levels() {
    let mut o = LsmStorageOptions::default_for_week1_test();
    assert_eq!(LsmStorageState::create(&o).levels, vec![(1, vec![])]);
    o.compaction_options = CompactionOptions::Simple(SimpleLeveledCompactionOptions {
        size_ratio_percent: 200,
        level0_file_num_compaction_trigger: 2,
        max_levels: 3,
    });
    assert_eq!(LsmStorageState::create(&o).levels, vec![(1, vec![]), (2, vec![]), (3, vec![])]);
    o.compaction_options = CompactionOptions::Tiered(TieredCompactionOptions {
        num_tiers: 3,
        max_size_amplification_percent: 200,
        size_ratio: 1,
        min_merge_width: 2,
    });
    assert!(LsmStorageState::create(&o).levels.is_empty());
    assert!(!o.compaction_options.flush_to_l0());
    assert!(CompactionOptions::NoCompaction.flush_to_l0());
}

#[test]
fn engine_options_defaults() {
    let o = LsmStorageOptions::default_for_week1_test();
    assert_eq!(o.block_size, 4096);
    assert_eq!(o.target_sst_size, 2 << 20);
    assert_eq!(o.num_memtable_limit, 50);
    assert!(!o.enable_wal);
    assert!(!o.serializable);
}

fn table(id: usize, pairs: &[(&[u8], &[u8])]) -> SsTable {
    let mut b = SsTableBuilder::new(64);
    for (k, v) in pairs {
        assert!(b.add(k, v));
    }
    SsTable::open(id, None, FileObject::from_bytes(b.build())).unwrap()
}

#[test]
fn engine_reads_tables_newest_first() {
    let options = LsmStorageOptions::default_for_week1_test();
    let records = vec![
        ManifestRecord::NewMemtable(1),
        ManifestRecord::Flush(1),
        ManifestRecord::NewMemtable(2),
        ManifestRecord::Flush(2),
    ];
    let levels = LsmStorageState::create(&options).levels;
    let replay = replay_manifest(&records, true, levels).unwrap();
    assert_eq!(replay.l0_sstables, vec![2, 1]);
    assert!(replay.memtables.is_empty());
    assert_eq!(replay.max_id, 2);
    let old = table(1, &[(b"a", b"old"), (b"b", b"old"), (b"c", b"old")]);
    let new = table(2, &[(b"b", b"new"), (b"c", b"")]);
    let (e, rec) = LsmStorageInner::from_recovery(options, replay, vec![old, new], vec![]).unwrap();
    assert_eq!(rec, ManifestRecord::NewMemtable(3));
    assert_eq!(get(&e, b"a"), Some(b"old".to_vec()));
    assert_eq!(get(&e, b"b"), Some(b"new".to_vec()));
    assert_eq!(get(&e, b"c"), None);
    assert_eq!(get(&e, b"0"), None);
    assert_eq!(get(&e, b"z"), None);
}

#[test]
fn engine_missing_table_is_an_error() {
    let options = LsmStorageOptions::default_for_week1_test();
    let records = vec![ManifestRecord::NewMemtable(1), ManifestRecord::Flush(1)];
    let replay = replay_manifest(&records, true, vec![]).unwrap();
    let (e, _) = LsmStorageInner::from_recovery(options, replay, vec![], vec![]).unwrap();
    assert_eq!(e.get(b"a").err(), Some(StorageError::UnknownTable));
}

#[test]
fn engine_crash_recovery() {
    let mut options = LsmStorageOptions::default_for_week1_test();
    options.enable_wal = true;
    let (mut e, rec) = LsmStorageInner::create(options);
    let mut records = vec![rec];
    e.put(b"a", b"1").unwrap();
    e.put(b"b", b"2").unwrap();
    e.delete(b"a").unwrap();
    e.put(b"c", b"3").unwrap();
    records.push(e.force_freeze_memtable().unwrap());
    e.put(b"d", b"4").unwrap();
    e.put(b"b", b"22").unwrap();
    let wal0 = e.state().imm_memtables[0].wal_bytes().unwrap().to_vec();
    let wal1 = e.state().memtable.wal_bytes().unwrap().to_vec();

    // the manifest as written: one frame per record
    let mut manifest = Vec::new();
    for r in &records {
        let payload = match r {
            ManifestRecord::NewMemtable(id) => vec![0, *id as u8],
            ManifestRecord::Flush(id) => vec![1, *id as u8],
        };
        manifest.extend(Manifest::encode_record(&payload));
    }
    let (_, payloads) = Manifest::recover(&manifest).unwrap();
    let replayed: Vec<ManifestRecord> = payloads
        .iter()
        .map(|p| if p[0] == 0 { ManifestRecord::NewMemtable(p[1] as usize) } else { ManifestRecord::Flush(p[1] as usize) })
        .collect();
    assert_eq!(replayed, records);

    let replay = replay_manifest(&replayed, true, LsmStorageState::create(&options).levels).unwrap();
    assert_eq!(replay.memtables, vec![0, 1]);
    let m0 = MemTable::recover_from_wal(0, &wal0).unwrap();
    let m1 = MemTable::recover_from_wal(1, &wal1).unwrap();
    let (e2, rec) = LsmStorageInner::from_recovery(options, replay, vec![], vec![m0, m1]).unwrap();
    assert_eq!(rec, ManifestRecord::NewMemtable(2));
    assert_eq!(e2.state().imm_memtables.len(), 2);
    assert_eq!(e2.state().imm_memtables[0].id(), 1);
    assert_eq!(get(&e2, b"a"), None);
    assert_eq!(get(&e2, b"b"), Some(b"22".to_vec()));
    assert_eq!(get(&e2, b"c"), Some(b"3".to_vec()));
    assert_eq!(get(&e2, b"d"), Some(b"4".to_vec()));
}

#[test]
fn manifest_frame_layout_and_checksum() {
    let frame = Manifest::encode_record(b"123456789");
    assert_eq!(&frame[..8], &[0, 0, 0, 0, 0, 0, 0, 9]);
    assert_eq!(&frame[8..17], b"123456789");
    assert_eq!(&frame[17..], &0xCBF4_3926u32.to_be_bytes());
    let mut m = Manifest::create();
    assert_eq!(m.add_record(b"123456789"), frame);
}

#[test]
fn manifest_errors() {
    let mut frame = Manifest::encode_record(b"abc");
    let n = frame.len();
    assert_eq!(Manifest::recover(&frame[..n - 1]).err(), Some(StorageError::ManifestTruncated));
    assert_eq!(Manifest::recover(&frame[..3]).err(), Some(StorageError::ManifestTruncated));
    frame[9] ^= 1;
    assert_eq!(Manifest::recover(&frame).err(), Some(StorageError::ManifestChecksumMismatch));
    let records = vec![ManifestRecord::Flush(4)];
    assert_eq!(replay_manifest(&records, true, vec![]).err(), Some(StorageError::UnknownMemtable));
}

#[test]
fn manifest_replay_to_levels() {
    let records = vec![
        ManifestRecord::NewMemtable(3),
        ManifestRecord::NewMemtable(5),
        ManifestRecord::Flush(3),
        ManifestRecord::NewMemtable(4),
    ];
    let r = replay_manifest(&records, false, vec![(1, vec![])]).unwrap();
    assert_eq!(r.levels, vec![(3, vec![3]), (1, vec![])]);
    assert!(r.l0_sstables.is_empty());
    assert_eq!(r.memtables, vec![4, 5]);
    assert_eq!(r.max_id, 5);
}

#[test]
fn engine_id_space_exhausted() {
    let options = LsmStorageOptions::default_for_week1_test();
    let records = vec![ManifestRecord::NewMemtable(usize::MAX)];
    let replay = replay_manifest(&records, true, vec![]).unwrap();
    assert_eq!(replay.max_id, usize::MAX);
    assert_eq!(
        LsmStorageInner::from_recovery(options, replay, vec![], vec![]).err(),
        Some(StorageError::IdSpaceExhausted)
    );
}
