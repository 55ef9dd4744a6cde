use std::sync::Arc;

use mini_lsm::block::{Block, BlockBuilder, BlockIterator};

fn build(pairs: &[(&[u8], &[u8])], block_size: usize) -> Block {
    let mut b = BlockBuilder::new(block_size);
    for (k, v) in pairs {
        assert!(b.add(k, v));
    }
    b.build()
}

fn collect(block: Arc<Block>) -> Vec<(Vec<u8>, Vec<u8>)> {
    let mut it = BlockIterator::create_and_seek_to_first(block);
    let mut out = Vec::new();
    while it.is_valid() {
        out.push((it.key().to_vec(), it.value().to_vec()));
        it.next();
    }
    out
}

#[test]
fn block_encode_decode_round_trip() {
    let pairs: Vec<(&[u8], &[u8])> = vec![
        (b"apple", b"1"),
        (b"apricot", b"22"),
        (b"banana", b""),
        (b"bandana", b"4444"),
    ];
    let block = build(&pairs, 4096);
    let encoded = block.encode();
    let decoded = Block::decode(&encoded);
    assert_eq!(decoded.data, block.data);
    assert_eq!(decoded.offsets, block.offsets);
    assert!(decoded.is_well_formed());
    let got = collect(Arc::new(decoded));
    let want: Vec<(Vec<u8>, Vec<u8>)> = pairs.iter().map(|(k, v)| (k.to_vec(), v.to_vec())).collect();
    assert_eq!(got, want);
}

#[test]
fn block_encoding_layout() {
    let block = build(&[(b"ab", b"x"), (b"ac", b"yz")], 4096);
    // first entry: overlap 0, key "ab", value "x"; second: overlap 1, suffix "c", value "yz"
    assert_eq!(
        block.data,
        vec![0, 0, 0, 2, b'a', b'b', 0, 1, b'x', 0, 1, 0, 1, b'c', 0, 2, b'y', b'z']
    );
    assert_eq!(block.offsets, vec![0, 9]);
    let encoded = block.encode();
    assert_eq!(&encoded[18..], &[0, 0, 0, 9, 0, 2]);
}

#[test]
fn block_seek_to_key() {
    let block = Arc::new(build(&[(b"b", b"1"), (b"d", b"2"), (b"f", b"3")], 4096));
    let it = BlockIterator::create_and_seek_to_key(block.clone(), b"d");
    assert_eq!(it.key(), b"d");
    let it = BlockIterator::create_and_seek_to_key(block.clone(), b"c");
    assert_eq!(it.key(), b"d");
    assert_eq!(it.value(), b"2");
    let it = BlockIterator::create_and_seek_to_key(block.clone(), b"a");
    assert_eq!(it.key(), b"b");
    let it = BlockIterator::create_and_seek_to_key(block.clone(), b"g");
    assert!(!it.is_valid());
    let mut it = BlockIterator::create_and_seek_to_key(block, b"e");
    assert_eq!(it.key(), b"f");
    it.seek_to_first();
    assert_eq!(it.key(), b"b");
    it.seek_to_key(b"d");
    assert_eq!(it.value(), b"2");
}

#[test]
fn block_builder_respects_size() {
    let mut b = BlockBuilder::new(20);
    assert!(b.is_empty());
    // an empty builder takes any pair, even one past the target size
    assert!(b.add(b"key-one", b"value-one"));
    assert!(!b.add(b"key-two", b"value-two"));
    let block = b.build();
    assert_eq!(block.offsets.len(), 1);
}

#[test]
fn block_well_formed_check() {
    let block = build(&[(b"a", b"1"), (b"b", b"2")], 4096);
    assert!(block.is_well_formed());
    let swapped = Block { data: block.data.clone(), offsets: vec![block.offsets[1], block.offsets[0]] };
    assert!(!swapped.is_well_formed());
    let cut = Block { data: block.data[..block.data.len() - 1].to_vec(), offsets: block.offsets.clone() };
    assert!(!cut.is_well_formed());
    let tiny = Block { data: vec![0, 0], offsets: vec![] };
    assert!(!tiny.is_well_formed());
}
