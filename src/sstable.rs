use vstd::prelude::*;

use std::sync::Arc;

use crate::block::{
    decoded_data, decoded_data_end, decoded_offsets, encode_spec, framed, is_lower_bound, u16_at, lemma_block_key_bounds, lemma_same_views, Block,
    BlockIterator,
};
use crate::checksum::{crc32, crc32_of};
use crate::encoding::{
    be_bytes, copy_range, get_u16, get_u32, lemma_be_bytes_len, lemma_pow_values, lemma_read_be_of,
    put_slice, put_u16, put_u32, read_be, u16_be, u32_be,
};
use crate::error::StorageError;
use crate::keys::{compare_keys, key_le, key_lt, lemma_key_lt_trans, lemma_key_lt_asymmetric, lemma_key_lt_total};

verus! {

/// Where a block starts in its table file, and its first and last keys.
#[derive(Clone, Debug, PartialEq, Eq)]
pub struct BlockMeta {
    pub offset: usize,
    pub first_key: Vec<u8>,
    pub last_key: Vec<u8>,
}

/// A block's meta entry as plain values.
pub type MetaView = (int, Seq<u8>, Seq<u8>);

impl BlockMeta {
    pub open spec fn view(&self) -> MetaView {
        (self.offset as int, self.first_key@, self.last_key@)
    }
}

/// One meta entry on disk: offset (`u32`), first key and last key, each after its `u16` length.
pub open spec fn meta_entry_bytes(m: MetaView) -> Seq<u8> {
    u32_be(m.0 as u32) + u16_be(m.1.len() as u16) + m.1 + u16_be(m.2.len() as u16) + m.2
}

pub open spec fn metas_bytes(ms: Seq<MetaView>) -> Seq<u8>
    decreases ms.len(),
{
    if ms.len() == 0 {
        Seq::empty()
    } else {
        metas_bytes(ms.drop_last()) + meta_entry_bytes(ms.last())
    }
}

/// The block-meta section: the number of entries, the entries, then the CRC-32 of the entries.
pub open spec fn meta_section(ms: Seq<MetaView>) -> Seq<u8> {
    u32_be(ms.len() as u32) + metas_bytes(ms) + u32_be(crc32_of(metas_bytes(ms)))
}

pub open spec fn meta_fits(m: MetaView) -> bool {
    0 <= m.0 < 0x1_0000_0000 && m.1.len() < 0x1_0000 && m.2.len() < 0x1_0000
}

/// Reads `n` meta entries from the front of `s`: the entries and the bytes they take.
pub open spec fn parse_metas(s: Seq<u8>, n: nat) -> Option<(Seq<MetaView>, int)>
    decreases n,
{
    if n == 0 {
        Some((Seq::empty(), 0))
    } else if s.len() < 6 {
        None
    } else {
        let fl = read_be(s, 4, 2) as int;
        if s.len() < 8 + fl {
            None
        } else {
            let ll = read_be(s, 6 + fl, 2) as int;
            if s.len() < 8 + fl + ll {
                None
            } else {
                let m = (read_be(s, 0, 4) as int, s.subrange(6, 6 + fl), s.subrange(8 + fl, 8 + fl + ll));
                match parse_metas(s.subrange(8 + fl + ll, s.len() as int), (n - 1) as nat) {
                    Some((rest, used)) => Some((seq![m] + rest, 8 + fl + ll + used)),
                    None => None,
                }
            }
        }
    }
}

/// What a block-meta section decodes to.
pub open spec fn decode_meta_spec(s: Seq<u8>) -> Result<Seq<MetaView>, StorageError> {
    if s.len() < 8 {
        Err(StorageError::MalformedTable)
    } else {
        let body = s.subrange(4, s.len() - 4);
        match parse_metas(body, read_be(s, 0, 4)) {
            Some((ms, used)) => if used != body.len() {
                Err(StorageError::MalformedTable)
            } else if read_be(s, s.len() - 4, 4) != crc32_of(body) as nat {
                Err(StorageError::MetaChecksumMismatch)
            } else {
                Ok(ms)
            },
            None => Err(StorageError::MalformedTable),
        }
    }
}

pub open spec fn views(ms: Seq<BlockMeta>) -> Seq<MetaView> {
    Seq::new(ms.len(), |i: int| ms[i].view())
}

impl BlockMeta {
    /// Appends the block-meta section for `block_meta` to `buf`.
    pub fn encode_block_meta(block_meta: &[BlockMeta], buf: &mut Vec<u8>)
        requires
            block_meta@.len() < 0x1_0000_0000,
            forall|i: int| 0 <= i < block_meta@.len() ==> meta_fits(#[trigger] block_meta@[i].view()),
        ensures
            final(buf)@ == old(buf)@ + meta_section(views(block_meta@)),
    {
        let ghost ms = views(block_meta@);
        put_u32(buf, block_meta.len() as u32);
        let mut body: Vec<u8> = Vec::new();
        let mut i: usize = 0;
        while i < block_meta.len()
            invariant
                i <= block_meta@.len(),
                ms == views(block_meta@),
                forall|j: int| 0 <= j < block_meta@.len() ==> meta_fits(#[trigger] block_meta@[j].view()),
                body@ == metas_bytes(ms.subrange(0, i as int)),
            decreases block_meta@.len() - i,
        {
            let m = &block_meta[i];
            assert(meta_fits(block_meta@[i as int].view()));
            put_u32(&mut body, m.offset as u32);
            put_u16(&mut body, m.first_key.len() as u16);
            put_slice(&mut body, m.first_key.as_slice());
            put_u16(&mut body, m.last_key.len() as u16);
            put_slice(&mut body, m.last_key.as_slice());
            proof {
                let s = ms.subrange(0, i + 1);
                assert(s.drop_last() =~= ms.subrange(0, i as int));
                assert(s.last() == m.view());
                assert(body@ =~= metas_bytes(ms.subrange(0, i as int)) + meta_entry_bytes(m.view()));
            }
            i = i + 1;
        }
        assert(ms.subrange(0, i as int) =~= ms);
        let sum = crc32(body.as_slice());
        put_slice(buf, body.as_slice());
        put_u32(buf, sum);
        assert(final(buf)@ =~= old(buf)@ + meta_section(ms));
    }

    /// Decodes a block-meta section, checking its checksum.
    pub fn decode_block_meta(buf: &[u8]) -> (r: Result<Vec<BlockMeta>, StorageError>)
        ensures
            match (r, decode_meta_spec(buf@)) {
                (Ok(v), Ok(ms)) => views(v@) == ms,
                (Err(e), Err(f)) => e == f,
                _ => false,
            },
    {
        let n = buf.len();
        if n < 8 {
            return Err(StorageError::MalformedTable);
        }
        let num = get_u32(buf, 0) as usize;
        let body_end = n - 4;
        let ghost body = buf@.subrange(4, n - 4);
        let mut pos: usize = 4;
        let mut out: Vec<BlockMeta> = Vec::new();
        let mut k: usize = 0;
        while k < num
            invariant
                n == buf@.len(),
                body_end == n - 4,
                body == buf@.subrange(4, n - 4),
                4 <= pos <= body_end,
                k <= num,
                num == read_be(buf@, 0, 4),
                out@.len() == k,
                parse_metas(body, num as nat) == match parse_metas(buf@.subrange(pos as int, body_end as int), (num - k) as nat) {
                    Some((rest, used)) => Some((views(out@) + rest, pos - 4 + used)),
                    None => None::<(Seq<MetaView>, int)>,
                },
            decreases num - k,
        {
            let ghost s = buf@.subrange(pos as int, body_end as int);
            if body_end - pos < 6 {
                return Err(StorageError::MalformedTable);
            }
            let offset = get_u32(buf, pos) as usize;
            let fl = get_u16(buf, pos + 4) as usize;
            proof {
                assert(s.subrange(0, 4) =~= buf@.subrange(pos as int, pos + 4));
                assert(s.subrange(4, 6) =~= buf@.subrange(pos + 4, pos + 6));
            }
            if body_end - pos - 6 < fl + 2 {
                return Err(StorageError::MalformedTable);
            }
            let ll = get_u16(buf, pos + 6 + fl) as usize;
            proof {
                assert(s.subrange(6 + fl, 8 + fl) =~= buf@.subrange(pos + 6 + fl, pos + 8 + fl));
            }
            if body_end - pos - 8 - fl < ll {
                return Err(StorageError::MalformedTable);
            }
            let first_key = copy_range(buf, pos + 6, pos + 6 + fl);
            let last_key = copy_range(buf, pos + 8 + fl, pos + 8 + fl + ll);
            let meta = BlockMeta { offset, first_key, last_key };
            proof {
                let f = fl as int;
                let l = ll as int;
                assert(s.subrange(6, 6 + f) =~= first_key@);
                assert(s.subrange(8 + f, 8 + f + l) =~= last_key@);
                assert(s.subrange(8 + f + l, s.len() as int) =~= buf@.subrange(pos + 8 + f + l, body_end as int));
                match parse_metas(buf@.subrange(pos + 8 + f + l, body_end as int), (num - k - 1) as nat) {
                    Some((rest, used)) => {
                        assert(views(out@.push(meta)) =~= views(out@).push(meta.view()));
                        assert(views(out@) + (seq![meta.view()] + rest) =~= views(out@).push(meta.view()) + rest);
                    },
                    None => {},
                }
            }
            out.push(meta);
            pos = pos + 8 + fl + ll;
            k = k + 1;
        }
        proof {
            assert(parse_metas(buf@.subrange(pos as int, body_end as int), 0) == Some((Seq::<MetaView>::empty(), 0int)));
            assert(views(out@) + Seq::<MetaView>::empty() =~= views(out@));
        }
        if pos != body_end {
            return Err(StorageError::MalformedTable);
        }
        let sum = crc32(&buf[4..body_end]);
        let stored = get_u32(buf, body_end);
        proof {
            assert(buf@.subrange(4, body_end as int) == body);
        }
        if stored != sum {
            return Err(StorageError::MetaChecksumMismatch);
        }
        Ok(out)
    }
}

} // verus!

verus! {

/// The bytes of a table file.
pub struct FileObject {
    data: Vec<u8>,
}

impl FileObject {
    pub closed spec fn contents(&self) -> Seq<u8> {
        self.data@
    }

    /// A file object over bytes already read from (or written to) storage.
    pub fn from_bytes(data: Vec<u8>) -> (r: FileObject)
        ensures
            r.contents() == data@,
    {
        FileObject { data }
    }

    /// Reads `len` bytes at `offset`; a span past the end is an error.
    pub fn read(&self, offset: u64, len: u64) -> (r: Result<Vec<u8>, StorageError>)
        ensures
            match r {
                Ok(v) => offset + len <= self.contents().len() && v@ == self.contents().subrange(
                    offset as int,
                    offset + len,
                ),
                Err(e) => offset + len > self.contents().len() && e == StorageError::MalformedTable,
            },
    {
        let n = self.data.len();
        if offset as u128 + len as u128 > n as u128 {
            return Err(StorageError::MalformedTable);
        }
        Ok(copy_range(self.data.as_slice(), offset as usize, (offset + len) as usize))
    }

    pub fn size(&self) -> (r: u64)
        requires
            self.contents().len() <= u64::MAX,
        ensures
            r == self.contents().len(),
    {
        self.data.len() as u64
    }

    pub fn as_slice(&self) -> (r: &[u8])
        ensures
            r@ == self.contents(),
    {
        self.data.as_slice()
    }
}

/// Block metas whose key ranges are each in order and lie one after another: the last key of
/// a block sorts before the first key of every later block.
pub open spec fn metas_ordered(ms: Seq<MetaView>) -> bool {
    &&& ms.len() >= 1
    &&& forall|i: int| 0 <= i < ms.len() ==> key_le(#[trigger] ms[i].1, ms[i].2)
    &&& forall|i: int, j: int| 0 <= i < j < ms.len() ==> key_lt(#[trigger] ms[i].2, #[trigger] ms[j].1)
}

/// Where the block-meta section lies, as the trailer at the end of the file gives it: the
/// last four bytes hold where the (reserved) bloom section starts, the four before that
/// where the block-meta section starts.
pub open spec fn meta_span(file: Seq<u8>) -> Option<(int, int)> {
    if file.len() < 4 {
        None
    } else {
        let bloom = read_be(file, file.len() - 4, 4) as int;
        if bloom < 4 || bloom > file.len() - 4 {
            None
        } else {
            let meta = read_be(file, bloom - 4, 4) as int;
            if meta > bloom - 4 {
                None
            } else {
                Some((meta, bloom - 4))
            }
        }
    }
}

#[verifier::external_type_specification]
#[verifier::external_body]
#[verifier::reject_recursive_types(K)]
#[verifier::reject_recursive_types(V)]
#[verifier::reject_recursive_types(S)]
pub struct ExCache<K, V, S>(moka::sync::Cache<K, V, S>);

/// A bounded, shared cache of blocks, keyed by table id and block index.
pub type BlockCache = moka::sync::Cache<(usize, usize), Arc<Block>>;

/// Relies on `moka::sync::Cache::try_get_with`: the block cached under the key, or, on a
/// miss, the one that `read_block` gives (stored for later callers; concurrent misses
/// share one read). What a hit holds depends on what was stored before, so nothing is
/// promised of the result here.
#[verifier::external_body]
fn cache_get_or_read(cache: &BlockCache, table: &SsTable, idx: usize) -> (r: Result<Arc<Block>, StorageError>)
    requires
        table.wf(),
        idx < table.metas().len(),
{
    cache.try_get_with((table.id, idx), || table.read_block(idx)).map_err(|e| *e)
}

/// An immutable, sorted table of blocks, with an index of their key ranges.
pub struct SsTable {
    file: FileObject,
    block_meta: Vec<BlockMeta>,
    block_meta_offset: usize,
    id: usize,
    block_cache: Option<Arc<BlockCache>>,
    first_key: Vec<u8>,
    last_key: Vec<u8>,
    max_ts: u64,
}

impl SsTable {
    pub closed spec fn file_spec(&self) -> Seq<u8> {
        self.file.contents()
    }

    pub closed spec fn metas(&self) -> Seq<MetaView> {
        views(self.block_meta@)
    }

    pub closed spec fn meta_offset_spec(&self) -> int {
        self.block_meta_offset as int
    }

    pub closed spec fn id_spec(&self) -> usize {
        self.id
    }

    pub open spec fn first_key_spec(&self) -> Seq<u8> {
        self.metas()[0].1
    }

    pub open spec fn last_key_spec(&self) -> Seq<u8> {
        self.metas().last().2
    }

    pub closed spec fn wf(&self) -> bool {
        &&& metas_ordered(self.metas())
        &&& self.first_key@ == self.metas()[0].1
        &&& self.last_key@ == self.metas().last().2
        &&& self.block_meta_offset <= self.file.contents().len()
        &&& self.file.contents().len() <= u64::MAX
        &&& self.max_ts == 0
    }

    /// Opens a table from its file: reads the trailer, decodes the block-meta section and
    /// takes the table's first and last keys from its first and last block.
    pub fn open(id: usize, block_cache: Option<Arc<BlockCache>>, file: FileObject) -> (r: Result<
        SsTable,
        StorageError,
    >)
        requires
            file.contents().len() <= u64::MAX,
        ensures
            match meta_span(file.contents()) {
                None => r == Err::<SsTable, StorageError>(StorageError::MalformedTable),
                Some((a, b)) => match decode_meta_spec(file.contents().subrange(a, b)) {
                    Err(e) => r == Err::<SsTable, StorageError>(e),
                    Ok(ms) => match r {
                        Ok(t) => metas_ordered(ms) && t.wf() && t.metas() == ms && t.file_spec()
                            == file.contents() && t.meta_offset_spec() == a && t.id_spec() == id,
                        Err(e) => !metas_ordered(ms) && e == StorageError::MalformedTable,
                    },
                },
            },
    {
        let bytes = file.as_slice();
        let len: usize = bytes.len();
        if len < 4 {
            return Err(StorageError::MalformedTable);
        }
        let bloom_offset = get_u32(bytes, len - 4) as usize;
        if bloom_offset < 4 || bloom_offset > len - 4 {
            return Err(StorageError::MalformedTable);
        }
        let block_meta_offset = get_u32(bytes, bloom_offset - 4) as usize;
        if block_meta_offset > bloom_offset - 4 {
            return Err(StorageError::MalformedTable);
        }
        let raw_meta = &bytes[block_meta_offset..bloom_offset - 4];
        let block_meta = match BlockMeta::decode_block_meta(raw_meta) {
            Ok(m) => m,
            Err(e) => return Err(e),
        };
        if !metas_in_order(&block_meta) {
            return Err(StorageError::MalformedTable);
        }
        let first_key = copy_range(block_meta[0].first_key.as_slice(), 0, block_meta[0].first_key.len());
        let last = block_meta.len() - 1;
        let last_key = copy_range(block_meta[last].last_key.as_slice(), 0, block_meta[last].last_key.len());
        proof {
            assert(block_meta@[0].first_key@.subrange(0, block_meta@[0].first_key@.len() as int) =~= block_meta@[0].first_key@);
            assert(block_meta@[last as int].last_key@.subrange(0, block_meta@[last as int].last_key@.len() as int) =~= block_meta@[last as int].last_key@);
        }
        Ok(SsTable {
            file,
            block_meta,
            block_meta_offset,
            id,
            block_cache,
            first_key,
            last_key,
            max_ts: 0,
        })
    }

    pub fn first_key(&self) -> (r: &[u8])
        requires
            self.wf(),
        ensures
            r@ == self.first_key_spec(),
    {
        self.first_key.as_slice()
    }

    pub fn last_key(&self) -> (r: &[u8])
        requires
            self.wf(),
        ensures
            r@ == self.last_key_spec(),
    {
        self.last_key.as_slice()
    }

    /// The size of the table's file in bytes.
    pub fn table_size(&self) -> (r: u64)
        requires
            self.wf(),
        ensures
            r == self.file_spec().len(),
    {
        self.file.size()
    }

    pub fn sst_id(&self) -> (r: usize)
        ensures
            r == self.id_spec(),
    {
        self.id
    }

    /// Reserved for timestamps; always zero.
    pub fn max_ts(&self) -> (r: u64)
        requires
            self.wf(),
        ensures
            r == 0,
    {
        self.max_ts
    }

    pub fn num_of_blocks(&self) -> (r: usize)
        ensures
            r == self.metas().len(),
    {
        self.block_meta.len()
    }

    /// The block that may hold `key`: the last one whose first key is not above it, or the
    /// first block when every block starts above it.
    pub fn find_block_idx(&self, key: &[u8]) -> (r: usize)
        requires
            self.wf(),
        ensures
            r < self.metas().len(),
            r == 0 || key_le(self.metas()[r as int].1, key@),
            forall|j: int| r < j < self.metas().len() ==> key_lt(key@, #[trigger] self.metas()[j].1),
            table_has_key(*self, key@) ==> key_le(key@, self.metas()[r as int].2),
    {
        let ghost ms = self.metas();
        proof {
            lemma_first_keys_ascend(ms);
        }
        let mut low: usize = 0;
        let mut high: usize = self.block_meta.len();
        while low < high
            invariant
                ms == self.metas(),
                low <= high <= ms.len(),
                forall|i: int, j: int| 0 <= i < j < ms.len() ==> key_lt(#[trigger] ms[i].1, #[trigger] ms[j].1),
                forall|j: int| 0 <= j < low ==> key_le(#[trigger] ms[j].1, key@),
                forall|j: int| high <= j < ms.len() ==> key_lt(key@, #[trigger] ms[j].1),
            decreases high - low,
        {
            let mid = low + (high - low) / 2;
            let c = compare_keys(self.block_meta[mid].first_key.as_slice(), key);
            assert(self.block_meta@[mid as int].first_key@ == ms[mid as int].1);
            if c <= 0 {
                proof {
                    assert forall|j: int| 0 <= j <= mid implies key_le(#[trigger] ms[j].1, key@) by {
                        if j < mid {
                            assert(key_lt(ms[j].1, ms[mid as int].1));
                            if ms[mid as int].1 != key@ {
                                lemma_key_lt_trans(ms[j].1, ms[mid as int].1, key@);
                            }
                        }
                    }
                }
                low = mid + 1;
            } else {
                proof {
                    assert forall|j: int| mid <= j < ms.len() implies key_lt(key@, #[trigger] ms[j].1) by {
                        if j > mid {
                            lemma_key_lt_trans(key@, ms[mid as int].1, ms[j].1);
                        }
                    }
                }
                high = mid;
            }
        }
        let r = if low == 0 {
            0
        } else {
            low - 1
        };
        proof {
            if table_has_key(*self, key@) {
                lemma_key_in_chosen_block(*self, key@, r as int);
            }
        }
        r
    }
}

/// Within ordered metas, the first keys ascend strictly.
proof fn lemma_first_keys_ascend(ms: Seq<MetaView>)
    requires
        metas_ordered(ms),
    ensures
        forall|i: int, j: int| 0 <= i < j < ms.len() ==> key_lt(#[trigger] ms[i].1, #[trigger] ms[j].1),
{
    assert forall|i: int, j: int| 0 <= i < j < ms.len() implies key_lt(#[trigger] ms[i].1, #[trigger] ms[j].1) by {
        assert(key_le(ms[i].1, ms[i].2));
        assert(key_lt(ms[i].2, ms[j].1));
        if ms[i].1 != ms[i].2 {
            lemma_key_lt_trans(ms[i].1, ms[i].2, ms[j].1);
        }
    }
}

/// Checks `metas_ordered`.
fn metas_in_order(ms: &Vec<BlockMeta>) -> (r: bool)
    ensures
        r == metas_ordered(views(ms@)),
{
    let ghost v = views(ms@);
    let n = ms.len();
    if n == 0 {
        return false;
    }
    let mut i: usize = 0;
    while i < n
        invariant
            v == views(ms@),
            n == ms@.len() == v.len(),
            n >= 1,
            i <= n,
            forall|a: int| 0 <= a < i ==> key_le(#[trigger] v[a].1, v[a].2),
            forall|a: int, b: int| 0 <= a < b < i ==> key_lt(#[trigger] v[a].2, #[trigger] v[b].1),
        decreases n - i,
    {
        assert(ms@[i as int].view() == v[i as int]);
        if compare_keys(ms[i].first_key.as_slice(), ms[i].last_key.as_slice()) > 0 {
            proof {
                lemma_key_lt_asymmetric(v[i as int].1, v[i as int].2);
            }
            return false;
        }
        if i > 0 {
            assert(ms@[i - 1].view() == v[i - 1]);
            if compare_keys(ms[i - 1].last_key.as_slice(), ms[i].first_key.as_slice()) >= 0 {
                assert(!key_lt(v[i - 1].2, v[i as int].1));
                return false;
            }
            proof {
                assert forall|a: int, b: int| 0 <= a < b < i + 1 implies key_lt(#[trigger] v[a].2, #[trigger] v[b].1) by {
                    if b == i && a < i - 1 {
                        assert(key_lt(v[a].2, v[i - 1].1));
                        assert(key_le(v[i - 1].1, v[i - 1].2));
                        if v[i - 1].1 != v[i - 1].2 {
                            lemma_key_lt_trans(v[a].2, v[i - 1].1, v[i - 1].2);
                        }
                        lemma_key_lt_trans(v[a].2, v[i - 1].2, v[i as int].1);
                    }
                }
            }
        }
        i = i + 1;
    }
    true
}

/// Whether `key` lies in `[first, last]`.
pub fn key_within(key: &[u8], first: &[u8], last: &[u8]) -> (r: bool)
    ensures
        r == (key_le(first@, key@) && key_le(key@, last@)),
{
    compare_keys(first, key) <= 0 && compare_keys(key, last) <= 0
}

} // verus!

verus! {

/// Where block `idx` lies in the file: from its offset to the next block's offset (or to
/// the block-meta section, for the last block). Its last four bytes are its checksum.
pub open spec fn block_span(t: SsTable, idx: int) -> (int, int) {
    (
        t.metas()[idx].0,
        if idx + 1 < t.metas().len() {
            t.metas()[idx + 1].0
        } else {
            t.meta_offset_spec()
        },
    )
}

pub open spec fn span_ok(t: SsTable, idx: int) -> bool {
    let (s, e) = block_span(t, idx);
    0 <= s && s + 4 <= e && e <= t.file_spec().len()
}

/// The bytes of block `idx` without its checksum.
pub open spec fn block_payload(t: SsTable, idx: int) -> Seq<u8> {
    let (s, e) = block_span(t, idx);
    t.file_spec().subrange(s, e - 4)
}

pub open spec fn block_checksum_ok(t: SsTable, idx: int) -> bool {
    let (s, e) = block_span(t, idx);
    read_be(t.file_spec(), e - 4, 4) == crc32_of(block_payload(t, idx)) as nat
}

/// `b` is what block `idx` of `t` holds: its checked bytes decode to `b`, which is well
/// formed, not empty, and starts and ends with the keys that the index gives.
pub open spec fn holds_block(t: SsTable, idx: int, b: Block) -> bool {
    &&& 0 <= idx < t.metas().len()
    &&& span_ok(t, idx)
    &&& framed(block_payload(t, idx))
    &&& b.data@ == decoded_data(block_payload(t, idx))
    &&& b.offsets@ == decoded_offsets(block_payload(t, idx))
    &&& b.wf()
    &&& b.len() >= 1
    &&& b.key_at(0) == t.metas()[idx].1
    &&& b.key_at(b.len() - 1) == t.metas()[idx].2
}

/// Block `idx` of `t` reads: its checksum matches and its bytes hold a block.
pub open spec fn block_sound(t: SsTable, idx: int) -> bool {
    &&& span_ok(t, idx)
    &&& block_checksum_ok(t, idx)
    &&& exists|b: Block| holds_block(t, idx, b)
}

/// Every block of `t` reads.
pub open spec fn table_sound(t: SsTable) -> bool {
    forall|j: int| 0 <= j < t.metas().len() ==> #[trigger] block_sound(t, j)
}

/// What `read_block` gives when it fails.
pub open spec fn read_failure(t: SsTable, idx: int, e: StorageError) -> bool {
    ||| e == StorageError::MalformedTable && !span_ok(t, idx)
    ||| e == StorageError::BlockChecksumMismatch && span_ok(t, idx) && !block_checksum_ok(t, idx)
    ||| e == StorageError::MalformedBlock && span_ok(t, idx) && block_checksum_ok(t, idx) && !block_sound(t, idx)
}

/// An error that reading a table's blocks can give.
pub open spec fn is_read_error(e: StorageError) -> bool {
    e == StorageError::MalformedTable || e == StorageError::BlockChecksumMismatch || e
        == StorageError::MalformedBlock
}

/// Some block of `t` holds the pair.
pub open spec fn table_has(t: SsTable, key: Seq<u8>, value: Seq<u8>) -> bool {
    exists|j: int, b: Block, i: int|
        #[trigger] holds_block(t, j, b) && 0 <= i < b.len() && #[trigger] b.key_at(i) == key && b.value_at(i) == value
}

/// Some block of `t` holds the key.
pub open spec fn table_has_key(t: SsTable, key: Seq<u8>) -> bool {
    exists|j: int, b: Block, i: int| #[trigger] holds_block(t, j, b) && 0 <= i < b.len() && #[trigger] b.key_at(i) == key
}

impl SsTable {
    /// Reads block `idx` and checks its checksum, its form, and its keys against the index.
    pub fn read_block(&self, idx: usize) -> (r: Result<Arc<Block>, StorageError>)
        requires
            self.wf(),
            idx < self.metas().len(),
        ensures
            match r {
                Ok(b) => holds_block(*self, idx as int, *b) && block_checksum_ok(*self, idx as int),
                Err(e) => read_failure(*self, idx as int, e),
            },
            block_sound(*self, idx as int) ==> r is Ok,
    {
        let bytes = self.file.as_slice();
        let n = bytes.len();
        let start = self.block_meta[idx].offset;
        let num = self.block_meta.len();
        let end = if idx + 1 < num {
            self.block_meta[idx + 1].offset
        } else {
            self.block_meta_offset
        };
        proof {
            assert(self.block_meta@[idx as int].view() == self.metas()[idx as int]);
            if idx + 1 < self.metas().len() {
                assert(self.block_meta@[idx + 1].view() == self.metas()[idx + 1]);
            }
        }
        if start > end || end - start < 4 || end > n {
            return Err(StorageError::MalformedTable);
        }
        let payload = &bytes[start..end - 4];
        let stored = get_u32(bytes, end - 4);
        if stored != crc32(payload) {
            return Err(StorageError::BlockChecksumMismatch);
        }
        assert(payload@ == block_payload(*self, idx as int));
        let m = payload.len();
        if m < 2 || 2 + 2 * (get_u16(payload, m - 2) as usize) > m {
            proof {
                if block_sound(*self, idx as int) {
                    let b = choose|b: Block| holds_block(*self, idx as int, b);
                }
            }
            return Err(StorageError::MalformedBlock);
        }
        let block = Block::decode(payload);
        let ok = block.is_well_formed() && block.num_entries() > 0 && {
            let len = block.num_entries();
            let first = block.key_of(0);
            let last = block.key_of(len - 1);
            compare_keys(first.as_slice(), self.block_meta[idx].first_key.as_slice()) == 0
                && compare_keys(last.as_slice(), self.block_meta[idx].last_key.as_slice()) == 0
        };
        if !ok {
            proof {
                if block_sound(*self, idx as int) {
                    let b = choose|b: Block| holds_block(*self, idx as int, b);
                    lemma_same_views(block, b);
                }
            }
            return Err(StorageError::MalformedBlock);
        }
        Ok(Arc::new(block))
    }
}

impl SsTable {
    pub closed spec fn has_cache(&self) -> bool {
        self.block_cache is Some
    }

    /// Whether `b` is what block `idx` holds: the same data and offsets as the block's
    /// bytes, well formed, not empty, and starting and ending with the index's keys. The
    /// checksum is not computed again.
    fn block_matches(&self, idx: usize, b: &Block) -> (r: bool)
        requires
            self.wf(),
            idx < self.metas().len(),
        ensures
            r ==> holds_block(*self, idx as int, *b),
    {
        let bytes = self.file.as_slice();
        let n = bytes.len();
        let start = self.block_meta[idx].offset;
        let num = self.block_meta.len();
        let end = if idx + 1 < num {
            self.block_meta[idx + 1].offset
        } else {
            self.block_meta_offset
        };
        proof {
            assert(self.block_meta@[idx as int].view() == self.metas()[idx as int]);
            if idx + 1 < self.metas().len() {
                assert(self.block_meta@[idx + 1].view() == self.metas()[idx + 1]);
            }
        }
        if start > end || end - start < 4 || end > n {
            return false;
        }
        let payload = &bytes[start..end - 4];
        assert(payload@ == block_payload(*self, idx as int));
        let m = payload.len();
        if m < 2 {
            return false;
        }
        let count = get_u16(payload, m - 2) as usize;
        if 2 + 2 * count > m {
            return false;
        }
        let data_end = m - 2 - 2 * count;
        if compare_keys(b.data.as_slice(), &payload[0..data_end]) != 0 || b.offsets.len() != count {
            return false;
        }
        let mut i: usize = 0;
        while i < count
            invariant
                i <= count == b.offsets@.len(),
                m == payload@.len(),
                count == u16_at(payload@, m - 2),
                data_end == decoded_data_end(payload@),
                data_end + 2 * count + 2 == m,
                forall|j: int| 0 <= j < i ==> b.offsets@[j] == #[trigger] decoded_offsets(payload@)[j],
            decreases count - i,
        {
            if b.offsets[i] != get_u16(payload, data_end + 2 * i) {
                return false;
            }
            i = i + 1;
        }
        assert(b.offsets@ =~= decoded_offsets(payload@));
        if !b.is_well_formed() || b.num_entries() == 0 {
            return false;
        }
        let len = b.num_entries();
        let first = b.key_of(0);
        let last = b.key_of(len - 1);
        compare_keys(first.as_slice(), self.block_meta[idx].first_key.as_slice()) == 0
            && compare_keys(last.as_slice(), self.block_meta[idx].last_key.as_slice()) == 0
    }

    /// Reads block `idx` through the block cache, when the table has one: a cached block is
    /// checked against the table's bytes (but its checksum is not computed again), and on a
    /// miss or a mismatch the block is read with `read_block`. Without a cache this is
    /// `read_block`.
    pub fn read_block_cached(&self, idx: usize) -> (r: Result<Arc<Block>, StorageError>)
        requires
            self.wf(),
            idx < self.metas().len(),
        ensures
            match r {
                Ok(b) => holds_block(*self, idx as int, *b) && (!self.has_cache() ==> block_checksum_ok(
                    *self,
                    idx as int,
                )),
                Err(e) => read_failure(*self, idx as int, e),
            },
            block_sound(*self, idx as int) ==> r is Ok,
    {
        match &self.block_cache {
            Some(cache) => {
                match cache_get_or_read(cache, self, idx) {
                    Ok(b) => {
                        if self.block_matches(idx, &b) {
                            return Ok(b);
                        }
                    },
                    Err(_) => {},
                }
                self.read_block(idx)
            },
            None => self.read_block(idx),
        }
    }
}

/// The table behind a shared handle.
pub open spec fn arc_table(t: Arc<SsTable>) -> SsTable {
    *t
}

/// A cursor over a table's entries, block after block.
pub struct SsTableIterator {
    table: Arc<SsTable>,
    blk_iter: BlockIterator,
    blk_idx: usize,
}

impl SsTableIterator {
    pub closed spec fn table_spec(&self) -> SsTable {
        *self.table
    }

    /// The block the cursor is in; the number of blocks once it has run off the end.
    pub closed spec fn block_index(&self) -> int {
        self.blk_idx as int
    }

    /// The cursor within the current block.
    pub closed spec fn block_cursor(&self) -> BlockIterator {
        self.blk_iter
    }

    pub open spec fn valid(&self) -> bool {
        self.block_index() < self.table_spec().metas().len()
    }

    pub open spec fn current_block(&self) -> Block {
        self.block_cursor().block_spec()
    }

    pub open spec fn entry_index(&self) -> int {
        self.block_cursor().index()
    }

    pub closed spec fn inv(&self) -> bool {
        &&& self.table.wf()
        &&& self.blk_iter.inv()
        &&& self.blk_idx <= self.table.metas().len()
        &&& self.blk_idx < self.table.metas().len() ==> holds_block(
            *self.table,
            self.blk_idx as int,
            self.blk_iter.block_spec(),
        ) && self.blk_iter.valid()
        &&& self.blk_idx == self.table.metas().len() ==> !self.blk_iter.valid()
    }

    /// A cursor on the first entry of `table` whose key is not below `key`: every block
    /// before it ends below `key`, every block after it starts above `key`, and in its own
    /// block every earlier entry is below `key`.
    #[verifier::rlimit(100)]
    pub fn create_and_seek_to_key(table: Arc<SsTable>, key: &[u8]) -> (r: Result<SsTableIterator, StorageError>)
        requires
            table.wf(),
        ensures
            r matches Ok(it) ==> {
                &&& it.inv()
                &&& it.table_spec() == *table
                &&& it.valid() ==> is_lower_bound(it.current_block().entries(), key@, it.entry_index())
                    && it.entry_index() < it.current_block().len()
                &&& forall|j: int| 0 <= j < it.block_index() ==> key_lt(#[trigger] table.metas()[j].2, key@)
                &&& forall|j: int| it.block_index() < j < table.metas().len() ==> key_lt(key@, #[trigger] table.metas()[j].1)
            },
            r matches Err(e) ==> is_read_error(e),
            table_sound(*table) ==> r is Ok,
            r matches Ok(it) ==> (table_has_key(*table, key@) ==> it.valid()
                && it.current_block().entries()[it.entry_index()].0 == key@),
    {
        let r = SsTableIterator::seek_to_key_inner(table, key);
        proof {
            if r is Ok {
                let it = r->Ok_0;
                if table_has_key(it.table_spec(), key@) && !(it.valid()
                    && it.current_block().entries()[it.entry_index()].0 == key@) {
                    lemma_absent(it, key@);
                }
            }
        }
        r
    }

    /// The block index search, then the search within the block (and the next block when
    /// every key of that one is below `key`).
    #[verifier::rlimit(100)]
    fn seek_to_key_inner(table: Arc<SsTable>, key: &[u8]) -> (r: Result<SsTableIterator, StorageError>)
        requires
            table.wf(),
        ensures
            r matches Ok(it) ==> {
                &&& it.inv()
                &&& it.table_spec() == *table
                &&& it.valid() ==> is_lower_bound(it.current_block().entries(), key@, it.entry_index())
                    && it.entry_index() < it.current_block().len()
                &&& forall|j: int| 0 <= j < it.block_index() ==> key_lt(#[trigger] table.metas()[j].2, key@)
                &&& forall|j: int| it.block_index() < j < table.metas().len() ==> key_lt(key@, #[trigger] table.metas()[j].1)
            },
            r matches Err(e) ==> is_read_error(e),
            table_sound(*table) ==> r is Ok,
    {
        let mut blk_idx = table.find_block_idx(key);
        let ghost ms = table.metas();
        proof {
            lemma_first_keys_ascend(ms);
        }
        proof {
            if table_sound(arc_table(table)) {
                assert(block_sound(arc_table(table), blk_idx as int));
            }
        }
        let block = match table.read_block_cached(blk_idx) {
            Ok(b) => b,
            Err(e) => return Err(e),
        };
        let mut blk_iter = BlockIterator::create_and_seek_to_key(block, key);
        let ghost b0 = blk_iter.block_spec();
        proof {
            assert forall|j: int| 0 <= j < blk_idx implies key_lt(#[trigger] ms[j].2, key@) by {
                assert(key_lt(ms[j].2, ms[blk_idx as int].1));
                if ms[blk_idx as int].1 != key@ {
                    lemma_key_lt_trans(ms[j].2, ms[blk_idx as int].1, key@);
                }
            }
        }
        if !blk_iter.is_valid() {
            proof {
                let last = b0.len() - 1;
                assert(b0.entries()[last].0 == b0.key_at(last));
                assert(key_lt(ms[blk_idx as int].2, key@));
            }
            let num = table.num_of_blocks();
            blk_idx = blk_idx + 1;
            if blk_idx < num {
                proof {
                    if table_sound(arc_table(table)) {
                        assert(block_sound(arc_table(table), blk_idx as int));
                    }
                }
                let next_block = match table.read_block_cached(blk_idx) {
                    Ok(b) => b,
                    Err(e) => return Err(e),
                };
                blk_iter = BlockIterator::create_and_seek_to_first(next_block);
                proof {
                    let b1 = blk_iter.block_spec();
                    assert(b1.key_at(0) == ms[blk_idx as int].1);
                    assert(key_lt(key@, ms[blk_idx as int].1));
                    lemma_key_lt_asymmetric(key@, b1.key_at(0));
                    assert(b1.entries()[0].0 == b1.key_at(0));
                }
            }
        }
        Ok(SsTableIterator { table, blk_iter, blk_idx })
    }

    pub fn is_valid(&self) -> (r: bool)
        requires
            self.inv(),
        ensures
            r == self.valid(),
    {
        self.blk_idx < self.table.num_of_blocks()
    }

    pub fn key(&self) -> (r: &[u8])
        requires
            self.inv(),
            self.valid(),
        ensures
            r@ == self.current_block().entries()[self.entry_index()].0,
    {
        self.blk_iter.key()
    }

    pub fn value(&self) -> (r: &[u8])
        requires
            self.inv(),
            self.valid(),
        ensures
            r@ == self.current_block().entries()[self.entry_index()].1,
    {
        self.blk_iter.value()
    }

    /// Moves to the next entry, reading the next block when the current one is done.
    pub fn next(&mut self) -> (r: Result<(), StorageError>)
        requires
            old(self).inv(),
            old(self).valid(),
        ensures
            r is Ok ==> {
                &&& final(self).inv()
                &&& final(self).table_spec() == old(self).table_spec()
                &&& if old(self).entry_index() + 1 < old(self).current_block().len() {
                    final(self).block_index() == old(self).block_index() && final(self).current_block()
                        == old(self).current_block() && final(self).entry_index() == old(self).entry_index() + 1
                } else {
                    final(self).block_index() == old(self).block_index() + 1 && (final(self).valid()
                        ==> final(self).entry_index() == 0)
                }
            },
            r matches Err(e) ==> is_read_error(e),
            (old(self).entry_index() + 1 < old(self).current_block().len() || old(self).block_index() + 1
                >= old(self).table_spec().metas().len() || block_sound(
                old(self).table_spec(),
                old(self).block_index() + 1,
            )) ==> r is Ok,
    {
        let num = self.table.num_of_blocks();
        self.blk_iter.next();
        if !self.blk_iter.is_valid() {
            self.blk_idx = self.blk_idx + 1;
            if self.blk_idx < num {
                let block = match self.table.read_block_cached(self.blk_idx) {
                    Ok(b) => b,
                    Err(e) => return Err(e),
                };
                self.blk_iter = BlockIterator::create_and_seek_to_first(block);
            }
        }
        Ok(())
    }
}

/// The value that table `table` holds for `key`, read from the one block whose range may
/// hold it. The caller has checked that `key` lies in the table's key range: no block of a
/// table whose range excludes the key is read.
pub fn table_get(table: &Arc<SsTable>, key: &[u8]) -> (r: Result<Option<Vec<u8>>, StorageError>)
    requires
        table.wf(),
        key_le(table.first_key_spec(), key@),
        key_le(key@, table.last_key_spec()),
    ensures
        r matches Ok(Some(v)) ==> table_has(**table, key@, v@),
        r matches Ok(None) ==> !table_has_key(**table, key@),
        r is Ok ==> (r == Ok::<Option<Vec<u8>>, StorageError>(None) <==> !table_has_key(**table, key@)),
        r matches Err(e) ==> is_read_error(e),
        table_sound(**table) ==> r is Ok,
{
    let it = match SsTableIterator::create_and_seek_to_key(table.clone(), key) {
        Ok(it) => it,
        Err(e) => return Err(e),
    };
    if it.is_valid() && compare_keys(it.key(), key) == 0 {
        let v = it.value();
        let value = copy_range(v, 0, v.len());
        proof {
            let b = it.current_block();
            let i = it.entry_index();
            assert(v@.subrange(0, v@.len() as int) =~= v@);
            assert(b.entries()[i].0 == b.key_at(i));
            assert(holds_block(**table, it.block_index(), b) && 0 <= i < b.len() && b.key_at(i) == key@ && b.value_at(i) == value@);
        }
        Ok(Some(value))
    } else {
        proof {
            lemma_absent(it, key@);
        }
        Ok(None)
    }
}

proof fn lemma_not_in_block_below(b: Block, key: Seq<u8>, i: int)
    requires
        b.wf(),
        b.len() >= 1,
        0 <= i < b.len(),
        key_lt(b.key_at(b.len() - 1), key),
    ensures
        b.key_at(i) != key,
{
    lemma_block_key_bounds(b, i);
    crate::keys::lemma_key_lt_irreflexive(key);
    if b.key_at(i) == key && key != b.key_at(b.len() - 1) {
        lemma_key_lt_trans(key, b.key_at(b.len() - 1), key);
    }
}

proof fn lemma_not_in_block_above(b: Block, key: Seq<u8>, i: int)
    requires
        b.wf(),
        b.len() >= 1,
        0 <= i < b.len(),
        key_lt(key, b.key_at(0)),
    ensures
        b.key_at(i) != key,
{
    lemma_block_key_bounds(b, i);
    crate::keys::lemma_key_lt_irreflexive(key);
    if b.key_at(i) == key && key != b.key_at(0) {
        lemma_key_lt_trans(key, b.key_at(0), key);
    }
}

proof fn lemma_not_in_block_at(c: Block, key: Seq<u8>, p: int, i: int)
    requires
        c.wf(),
        0 <= p < c.len(),
        0 <= i < c.len(),
        is_lower_bound(c.entries(), key, p),
        c.key_at(p) != key,
    ensures
        c.key_at(i) != key,
{
    crate::keys::lemma_key_lt_irreflexive(key);
    assert(c.entries()[p].0 == c.key_at(p));
    if i < p {
        assert(c.entries()[i].0 == c.key_at(i));
    } else if i > p {
        assert(key_lt(c.key_at(p), c.key_at(i)));
        lemma_key_lt_total(c.key_at(p), key);
        lemma_key_lt_asymmetric(c.key_at(p), key);
        if c.key_at(i) == key {
            lemma_key_lt_trans(key, c.key_at(p), c.key_at(i));
        }
    }
}

#[verifier::rlimit(50)]
proof fn lemma_absent(it: SsTableIterator, key: Seq<u8>)
    requires
        it.inv(),
        it.valid() ==> is_lower_bound(it.current_block().entries(), key, it.entry_index())
            && it.entry_index() < it.current_block().len()
            && it.current_block().entries()[it.entry_index()].0 != key,
        forall|j: int| 0 <= j < it.block_index() ==> key_lt(#[trigger] it.table_spec().metas()[j].2, key),
        forall|j: int| it.block_index() < j < it.table_spec().metas().len() ==> key_lt(key, #[trigger] it.table_spec().metas()[j].1),
    ensures
        !table_has_key(it.table_spec(), key),
{
    let t = it.table_spec();
    if table_has_key(t, key) {
        let (j, b, i) = choose|j: int, b: Block, i: int| #[trigger] holds_block(t, j, b) && 0 <= i < b.len() && #[trigger] b.key_at(i) == key;
        if j < it.block_index() {
            assert(key_lt(t.metas()[j].2, key));
            lemma_not_in_block_below(b, key, i);
        } else if j > it.block_index() {
            assert(key_lt(key, t.metas()[j].1));
            lemma_not_in_block_above(b, key, i);
        } else {
            let c = it.current_block();
            let p = it.entry_index();
            assert(c.data@ == b.data@ && c.offsets@ == b.offsets@);
            assert(c.key_at(i) == b.key_at(i));
            assert(c.entries()[p].0 == c.key_at(p));
            lemma_not_in_block_at(c, key, p, i);
        }
    }
}

} // verus!

verus! {

/// Runs of pairs, one after another.
pub open spec fn concat_runs(p: Seq<Seq<(Seq<u8>, Seq<u8>)>>) -> Seq<(Seq<u8>, Seq<u8>)>
    decreases p.len(),
{
    if p.len() == 0 {
        Seq::empty()
    } else {
        concat_runs(p.drop_last()) + p.last()
    }
}

/// A non-empty run of pairs whose first and last keys are the meta entry's.
pub open spec fn runs_index(run: Seq<(Seq<u8>, Seq<u8>)>, m: MetaView) -> bool {
    &&& run.len() >= 1
    &&& m.1 == run[0].0
    &&& m.2 == run.last().0
}

/// Largest table file the builder writes: offsets in the file are `u32`s.
pub const MAX_TABLE_BYTES: usize = 0xF000_0000;

/// Builds a table file from pairs added in strictly ascending key order.
pub struct SsTableBuilder {
    builder: crate::block::BlockBuilder,
    first_key: Vec<u8>,
    last_key: Vec<u8>,
    data: Vec<u8>,
    meta: Vec<BlockMeta>,
    meta_size: usize,
    block_size: usize,
    added: Ghost<Seq<(Seq<u8>, Seq<u8>)>>,
    parts: Ghost<Seq<Seq<(Seq<u8>, Seq<u8>)>>>,
    blocks: Ghost<Seq<Block>>,
}

impl SsTableBuilder {
    /// The pairs added so far.
    pub closed spec fn entries(&self) -> Seq<(Seq<u8>, Seq<u8>)> {
        self.added@
    }

    /// Whether the file has room for another pair: room for the current block, one more
    /// block and their index entries, within `MAX_TABLE_BYTES`.
    pub closed spec fn has_room(&self) -> bool {
        self.data@.len() + self.meta_size + 0x10_0040 <= MAX_TABLE_BYTES
    }

    /// The bytes written so far: closed blocks and their index entries.
    pub closed spec fn written(&self) -> nat {
        (self.data@.len() + self.meta_size) as nat
    }

    /// There is always room in the file to close the current block.
    pub closed spec fn inv(&self) -> bool {
        &&& self.inv_core()
        &&& self.data@.len() + self.meta_size + 0x8_0020 <= MAX_TABLE_BYTES
    }

    #[verifier::opaque]
    pub closed spec fn inv_core(&self) -> bool {
        &&& self.builder.inv()
        &&& self.builder.target_size() == self.block_size
        &&& self.builder.entries().len() > 0 ==> self.builder.entries().last().0 == self.last_key@
        &&& self.added@.len() > 0 ==> self.added@.last().0 == self.last_key@
        &&& self.builder.entries().len() > 0 ==> self.added@.len() > 0
        &&& self.first_key@.len() < 0x1_0000
        &&& self.last_key@.len() < 0x1_0000
        &&& self.data@.len() + self.meta_size <= MAX_TABLE_BYTES
        &&& self.meta_size == metas_bytes(views(self.meta@)).len()
        &&& self.meta@.len() <= self.data@.len()
        &&& forall|i: int| 0 <= i < self.meta@.len() ==> meta_fits(#[trigger] self.meta@[i].view())
        &&& self.builder.entries().len() > 0 ==> self.builder.entries()[0].0 == self.first_key@
        &&& self.builder.entries().len() > 0 ==> key_le(self.first_key@, self.last_key@)
        &&& forall|i: int| 0 <= i < self.meta@.len() ==> key_le(#[trigger] views(self.meta@)[i].1, views(self.meta@)[i].2)
        &&& forall|i: int, j: int| 0 <= i < j < self.meta@.len() ==> key_lt(#[trigger] views(self.meta@)[i].2, #[trigger] views(self.meta@)[j].1)
        &&& self.builder.entries().len() > 0 ==> forall|i: int| 0 <= i < self.meta@.len() ==> key_lt(#[trigger] views(self.meta@)[i].2, self.first_key@)
        &&& self.added@.len() > 0 ==> forall|i: int| 0 <= i < self.meta@.len() ==> key_le(#[trigger] views(self.meta@)[i].2, self.added@.last().0)
        &&& self.meta@.len() > 0 ==> self.added@.len() > 0
        &&& self.parts@.len() == self.meta@.len()
        &&& concat_runs(self.parts@) + self.builder.entries() == self.added@
        &&& forall|i: int| 0 <= i < self.parts@.len() ==> runs_index(#[trigger] self.parts@[i], views(self.meta@)[i])
        &&& self.blocks@.len() == self.meta@.len()
        &&& self.data@ == records(self.blocks@)
        &&& forall|i: int| 0 <= i < self.meta@.len() ==> #[trigger] views(self.meta@)[i].0 == records(self.blocks@.subrange(0, i)).len()
        &&& forall|i: int| 0 <= i < self.blocks@.len() ==> (#[trigger] self.blocks@[i]).wf() && self.blocks@[i].offsets@.len() < 0x1_0000
            && self.blocks@[i].entries() == self.parts@[i]
        &&& self.added@.len() > 0 ==> (self.meta@.len() > 0 || self.builder.entries().len() > 0)
    }

    /// A builder for tables whose blocks take about `block_size` bytes.
    pub fn new(block_size: usize) -> (r: SsTableBuilder)
        ensures
            r.inv(),
            r.entries() == Seq::<(Seq<u8>, Seq<u8>)>::empty(),
            r.has_room(),
            r.written() == 0,
    {
        proof {
            reveal(SsTableBuilder::inv_core);
        }
        SsTableBuilder {
            builder: crate::block::BlockBuilder::new(block_size),
            first_key: Vec::new(),
            last_key: Vec::new(),
            data: Vec::new(),
            meta: Vec::new(),
            meta_size: 0,
            block_size,
            added: Ghost(Seq::empty()),
            parts: Ghost(Seq::empty()),
            blocks: Ghost(Seq::empty()),
        }
    }

    /// Closes the current block: appends it, with its checksum, and its meta entry.
    #[verifier::rlimit(100)]
    fn finish_block(&mut self)
        requires
            old(self).inv(),
        ensures
            final(self).inv_core(),
            final(self).data@.len() + final(self).meta_size <= old(self).data@.len() + old(self).meta_size
                + 0x8_0010,
            final(self).builder.entries().len() == 0,
            final(self).entries() == old(self).entries(),
    {
        proof {
            reveal(SsTableBuilder::inv_core);
        }
        let mut builder = crate::block::BlockBuilder::new(self.block_size);
        core::mem::swap(&mut self.builder, &mut builder);
        if builder.is_empty() {
            return;
        }
        let ghost run = builder.entries();
        let block = builder.build();
        let ghost gb = block;
        let encoded = block.encode();
        let offset = self.data.len();
        let first_key = copy_range(self.first_key.as_slice(), 0, self.first_key.len());
        let last_key = copy_range(self.last_key.as_slice(), 0, self.last_key.len());
        proof {
            assert(self.first_key@.subrange(0, self.first_key@.len() as int) =~= self.first_key@);
            assert(self.last_key@.subrange(0, self.last_key@.len() as int) =~= self.last_key@);
        }
        assert(encoded@.len() < 0x6_0000) by {
            crate::block::lemma_encoded_len(block.data@, block.offsets@);
        }
        let sum = crc32(encoded.as_slice());
        put_slice(&mut self.data, encoded.as_slice());
        put_u32(&mut self.data, sum);
        let ghost before = self.meta@;
        let m = BlockMeta { offset, first_key, last_key };
        let ghost mv = m.view();
        self.meta_size = self.meta_size + 8 + m.first_key.len() + m.last_key.len();
        self.meta.push(m);
        let ghost old_parts = self.parts@;
        self.parts = Ghost(self.parts@.push(run));
        let ghost old_blocks = self.blocks@;
        self.blocks = Ghost(self.blocks@.push(gb));
        proof {
            assert(self.data@ =~= records(old_blocks) + block_record(gb));
            lemma_push_block(old_blocks, gb, views(before), views(self.meta@), old_parts, self.parts@);
            assert(self.parts@.drop_last() =~= old_parts);
            assert(concat_runs(self.parts@) + Seq::<(Seq<u8>, Seq<u8>)>::empty() =~= concat_runs(old_parts) + run);
            assert forall|i: int| 0 <= i < self.parts@.len() implies runs_index(#[trigger] self.parts@[i], views(self.meta@)[i]) by {
                if i < old_parts.len() {
                    assert(self.parts@[i] == old_parts[i]);
                    assert(views(self.meta@)[i] == views(before)[i]);
                }
            }
            assert(views(self.meta@).drop_last() =~= views(before));
            assert(views(self.meta@).last() == mv);
            lemma_be_bytes_len(mv.0 as u32 as nat, 4);
            lemma_be_bytes_len(mv.1.len() as u16 as nat, 2);
            lemma_be_bytes_len(mv.2.len() as u16 as nat, 2);
            assert(metas_bytes(views(self.meta@)) =~= metas_bytes(views(before)) + meta_entry_bytes(mv));
            assert(u32_be(mv.0 as u32).len() == 4);
            assert(u16_be(mv.1.len() as u16).len() == 2);
            assert(u16_be(mv.2.len() as u16).len() == 2);
            let e1 = u32_be(mv.0 as u32);
            let e2 = u16_be(mv.1.len() as u16);
            let e3 = u16_be(mv.2.len() as u16);
            assert(meta_entry_bytes(mv) == e1 + e2 + mv.1 + e3 + mv.2);
            assert(meta_entry_bytes(mv).len() == 8 + mv.1.len() + mv.2.len());
            lemma_be_bytes_len(sum as nat, 4);
            assert forall|i: int| 0 <= i < self.meta@.len() implies meta_fits(#[trigger] self.meta@[i].view()) by {
                if i < self.meta@.len() - 1 {
                    assert(self.meta@[i] == old(self).meta@[i]);
                }
            }
            let nv = views(self.meta@);
            let ov = views(before);
            let n = ov.len() as int;
            assert(mv.1 == old(self).first_key@ && mv.2 == old(self).last_key@);
            assert forall|i: int| 0 <= i < nv.len() implies key_le(#[trigger] nv[i].1, nv[i].2) by {
                if i < n {
                    assert(nv[i] == ov[i]);
                }
            }
            assert forall|i: int, j: int| 0 <= i < j < nv.len() implies key_lt(#[trigger] nv[i].2, #[trigger] nv[j].1) by {
                assert(nv[i] == ov[i]);
                if j < n {
                    assert(nv[j] == ov[j]);
                }
            }
            assert forall|i: int| 0 <= i < nv.len() implies key_le(#[trigger] nv[i].2, self.added@.last().0) by {
                if i < n {
                    assert(nv[i] == ov[i]);
                }
            }
        }
    }

    /// Adds a pair, whose key must sort after every key added before. Returns false, and
    /// changes nothing, once the file has reached its largest size.
    pub fn add(&mut self, key: &[u8], value: &[u8]) -> (r: bool)
        requires
            old(self).inv(),
            key@.len() < 0x1_0000,
            value@.len() < 0x1_0000,
            old(self).entries().len() > 0 ==> key_lt(old(self).entries().last().0, key@),
        ensures
            final(self).inv(),
            r == old(self).has_room(),
            r ==> final(self).entries() == old(self).entries().push((key@, value@)),
            !r ==> final(self).entries() == old(self).entries() && final(self).written() == old(self).written(),
            r ==> final(self).written() <= old(self).written() + 0x8_0010,
    {
        proof {
            reveal(SsTableBuilder::inv_core);
        }
        if self.data.len() > MAX_TABLE_BYTES - 0x10_0040 || self.meta_size > MAX_TABLE_BYTES - 0x10_0040
            - self.data.len() {
            return false;
        }
        if !self.builder.is_empty() {
            if self.builder.add(key, value) {
                self.last_key = copy_range(key, 0, key.len());
                self.added = Ghost(self.added@.push((key@, value@)));
                proof {
                    assert(key@.subrange(0, key@.len() as int) =~= key@);
                    assert(concat_runs(self.parts@) + self.builder.entries() =~= (concat_runs(self.parts@)
                        + old(self).builder.entries()).push((key@, value@)));
                    let ms = views(self.meta@);
                    let old_last = old(self).added@.last().0;
                    crate::keys::lemma_key_le_lt_trans(self.first_key@, old_last, key@);
                    assert forall|i: int| 0 <= i < ms.len() implies key_le(#[trigger] ms[i].2, self.added@.last().0) by {
                        crate::keys::lemma_key_le_lt_trans(ms[i].2, old_last, key@);
                    }
                }
                return true;
            }
            self.finish_block();
        }
        proof {
            self.builder.lemma_empty_takes(key@.len(), value@.len());
        }
        let ok = self.builder.add(key, value);
        assert(ok);
        let ghost added_before = self.added@;
        self.first_key = copy_range(key, 0, key.len());
        self.last_key = copy_range(key, 0, key.len());
        self.added = Ghost(self.added@.push((key@, value@)));
        proof {
            assert(key@.subrange(0, key@.len() as int) =~= key@);
            assert(concat_runs(self.parts@) + Seq::<(Seq<u8>, Seq<u8>)>::empty() =~= concat_runs(self.parts@));
            assert(concat_runs(self.parts@) + self.builder.entries() =~= added_before.push((key@, value@)));
            let ms = views(self.meta@);
            assert forall|i: int| 0 <= i < ms.len() implies key_lt(#[trigger] ms[i].2, self.first_key@) by {
                crate::keys::lemma_key_le_lt_trans(ms[i].2, added_before.last().0, key@);
            }
            assert forall|i: int| 0 <= i < ms.len() implies key_le(#[trigger] ms[i].2, self.added@.last().0) by {
                crate::keys::lemma_key_le_lt_trans(ms[i].2, added_before.last().0, key@);
            }
        }
        true
    }

    proof fn lemma_size_facts(&self)
        requires
            self.inv_core(),
        ensures
            self.meta@.len() <= self.data@.len(),
            self.data@.len() + self.meta_size <= MAX_TABLE_BYTES,
            self.meta_size == metas_bytes(views(self.meta@)).len(),
            forall|i: int| 0 <= i < self.meta@.len() ==> meta_fits(#[trigger] self.meta@[i].view()),
            self.added@.len() > 0 ==> (self.meta@.len() > 0 || self.builder.entries().len() > 0),
    {
        reveal(SsTableBuilder::inv_core);
    }

    /// Once every pair is in a closed block, a file that starts with the closed blocks holds
    /// the pairs in them as the index says.
    proof fn lemma_closed_file(&self, file: Seq<u8>)
        requires
            self.inv_core(),
            self.builder.entries().len() == 0,
            self.added@.len() > 0,
            self.data@.len() <= file.len(),
            file.subrange(0, self.data@.len() as int) == self.data@,
        ensures
            forall|i: int| 0 <= i < views(self.meta@).len() ==> meta_fits(#[trigger] views(self.meta@)[i]),
            views(self.meta@).len() < 0x1_0000_0000,
            table_index_holds(file, views(self.meta@), self.data@.len() as int, self.added@, self.parts@),
    {
        reveal(SsTableBuilder::inv_core);
        let ms = views(self.meta@);
        assert forall|i: int| 0 <= i < ms.len() implies meta_fits(#[trigger] ms[i]) by {
            assert(ms[i] == self.meta@[i].view());
        }
        assert(concat_runs(self.parts@) + Seq::<(Seq<u8>, Seq<u8>)>::empty() =~= concat_runs(self.parts@));
        assert(metas_ordered(ms));
        lemma_index_holds(file, self.blocks@, ms, self.parts@, self.added@);
    }

    /// The bytes of the table file: the blocks, each followed by its CRC-32, the block-meta
    /// section, its offset, the (empty) bloom section and its offset.
    #[verifier::rlimit(100)]
    pub fn build(self) -> (r: Vec<u8>)
        requires
            self.inv(),
        ensures
            r@.len() <= MAX_TABLE_BYTES,
            self.entries().len() > 0 ==> table_file_holds(r@, self.entries()),
    {
        let ghost n_added = self.entries().len();
        let ghost all = self.entries();
        let mut this = self;
        this.finish_block();
        proof {
            this.lemma_size_facts();
        }
        let meta_offset = this.data.len();
        let mut buf = this.data;
        let ghost data = buf@;
        let ghost ms = views(this.meta@);
        BlockMeta::encode_block_meta(this.meta.as_slice(), &mut buf);
        proof {
            lemma_be_bytes_len(ms.len() as u32 as nat, 4);
            lemma_be_bytes_len(crc32_of(metas_bytes(ms)) as nat, 4);
            assert(meta_section(ms).len() == 8 + metas_bytes(ms).len());
        }
        let ghost with_meta = buf@;
        put_u32(&mut buf, meta_offset as u32);
        let bloom_offset = buf.len();
        let ghost with_offset = buf@;
        put_u32(&mut buf, bloom_offset as u32);
        proof {
            lemma_be_bytes_len(meta_offset as u32 as nat, 4);
            lemma_be_bytes_len(bloom_offset as u32 as nat, 4);
            if n_added > 0 {
                lemma_pow_values();
                let r = buf@;
                assert(r =~= with_offset + be_bytes(bloom_offset as nat, 4) + Seq::<u8>::empty());
                lemma_read_be_of(with_offset, bloom_offset as nat, 4, Seq::empty());
                assert(r =~= with_meta + be_bytes(meta_offset as nat, 4) + u32_be(bloom_offset as u32));
                lemma_read_be_of(with_meta, meta_offset as nat, 4, u32_be(bloom_offset as u32));
                assert(meta_span(r) == Some((meta_offset as int, bloom_offset - 4)));
                assert(r.subrange(meta_offset as int, bloom_offset - 4) =~= meta_section(ms));
                assert(r.subrange(0, data.len() as int) =~= data);
                this.lemma_closed_file(r);
                lemma_meta_round_trip(ms);
                assert(decode_meta_spec(r.subrange(meta_offset as int, bloom_offset - 4)) == Ok::<Seq<MetaView>, StorageError>(ms));
                assert(this.entries() == this.added@);
                assert(table_index_holds(r, ms, meta_offset as int, this.added@, this.parts@));
                lemma_file_holds_intro(r, ms, meta_offset as int, bloom_offset - 4, this.added@, this.parts@);
                assert(all == this.added@);
            }
        }
        buf
    }

}

} // verus!

verus! {

/// Every key of a table lies in its `[first_key, last_key]` range.
#[verifier::rlimit(50)]
proof fn lemma_key_in_range(t: SsTable, j: int, b: Block, i: int)
    requires
        t.wf(),
        holds_block(t, j, b),
        0 <= i < b.len(),
    ensures
        key_le(t.first_key_spec(), b.key_at(i)),
        key_le(b.key_at(i), t.last_key_spec()),
{
    let ms = t.metas();
    let n = ms.len() as int;
    let key = b.key_at(i);
    lemma_block_key_bounds(b, i);
    lemma_first_keys_ascend(ms);
    assert(key_le(ms[0].1, ms[j].1)) by {
        if j > 0 {
            assert(key_lt(ms[0].1, ms[j].1));
        }
    }
    crate::keys::lemma_key_le_trans(ms[0].1, ms[j].1, key);
    assert(key_le(ms[j].2, ms[n - 1].2)) by {
        if j < n - 1 {
            assert(key_lt(ms[j].2, ms[n - 1].1));
            assert(key_le(ms[n - 1].1, ms[n - 1].2));
            crate::keys::lemma_key_le_trans(ms[j].2, ms[n - 1].1, ms[n - 1].2);
        }
    }
    crate::keys::lemma_key_le_trans(key, ms[j].2, ms[n - 1].2);
}

/// A key that the table holds, and that no block after `r` can start at or below, lies at
/// or before the last key of block `r`.
#[verifier::rlimit(80)]
proof fn lemma_key_in_chosen_block(t: SsTable, key: Seq<u8>, r: int)
    requires
        t.wf(),
        0 <= r < t.metas().len(),
        table_has_key(t, key),
        forall|j: int| r < j < t.metas().len() ==> key_lt(key, #[trigger] t.metas()[j].1),
    ensures
        key_le(key, t.metas()[r].2),
{
    let (j, b, i) = choose|j: int, b: Block, i: int| #[trigger] holds_block(t, j, b) && 0 <= i < b.len() && #[trigger] b.key_at(i) == key;
    let ms = t.metas();
    lemma_block_key_bounds(b, i);
    if j > r {
        lemma_not_in_block_above(b, key, i);
    } else {
        assert(key_le(ms[j].2, ms[r].2)) by {
            if j < r {
                assert(key_lt(ms[j].2, ms[r].1));
                assert(key_le(ms[r].1, ms[r].2));
                crate::keys::lemma_key_le_trans(ms[j].2, ms[r].1, ms[r].2);
            }
        }
        crate::keys::lemma_key_le_trans(key, ms[j].2, ms[r].2);
    }
}

/// A table holds no key outside its `[first_key, last_key]` range.
pub proof fn lemma_outside_range(t: SsTable, key: Seq<u8>)
    requires
        t.wf(),
        !(key_le(t.first_key_spec(), key) && key_le(key, t.last_key_spec())),
    ensures
        !table_has_key(t, key),
{
    if table_has_key(t, key) {
        let (j, b, i) = choose|j: int, b: Block, i: int| #[trigger] holds_block(t, j, b) && 0 <= i < b.len() && #[trigger] b.key_at(i) == key;
        lemma_key_in_range(t, j, b, i);
    }
}

} // verus!

verus! {

proof fn lemma_metas_bytes_front(ms: Seq<MetaView>)
    requires
        ms.len() > 0,
    ensures
        metas_bytes(ms) == meta_entry_bytes(ms[0]) + metas_bytes(ms.subrange(1, ms.len() as int)),
    decreases ms.len(),
{
    let rest = ms.subrange(1, ms.len() as int);
    if ms.len() == 1 {
        assert(ms.drop_last() =~= Seq::<MetaView>::empty());
        assert(rest =~= Seq::<MetaView>::empty());
        assert(metas_bytes(ms.drop_last()) == Seq::<u8>::empty());
        assert(metas_bytes(rest) == Seq::<u8>::empty());
        assert(ms.last() == ms[0]);
        assert(metas_bytes(ms) =~= meta_entry_bytes(ms[0]) + Seq::<u8>::empty());
    } else {
        let init = ms.drop_last();
        lemma_metas_bytes_front(init);
        assert(init.subrange(1, init.len() as int) =~= rest.drop_last());
        assert(rest.last() == ms.last());
        assert(metas_bytes(ms) =~= meta_entry_bytes(ms[0]) + metas_bytes(rest));
    }
}

proof fn lemma_parse_meta_entry(m: MetaView, t: Seq<u8>, n: nat)
    requires
        meta_fits(m),
        n >= 1,
    ensures
        parse_metas(meta_entry_bytes(m) + t, n) == match parse_metas(t, (n - 1) as nat) {
            Some((r, u)) => Some((seq![m] + r, meta_entry_bytes(m).len() + u)),
            None => None::<(Seq<MetaView>, int)>,
        },
{
    lemma_pow_values();
    let a = u32_be(m.0 as u32);
    let b = u16_be(m.1.len() as u16);
    let c = u16_be(m.2.len() as u16);
    lemma_be_bytes_len(m.0 as u32 as nat, 4);
    lemma_be_bytes_len(m.1.len() as u16 as nat, 2);
    lemma_be_bytes_len(m.2.len() as u16 as nat, 2);
    let s = meta_entry_bytes(m) + t;
    let f = m.1.len() as int;
    let l = m.2.len() as int;
    assert(s =~= Seq::<u8>::empty() + be_bytes(m.0 as u32 as nat, 4) + (b + m.1 + c + m.2 + t));
    lemma_read_be_of(Seq::empty(), m.0 as u32 as nat, 4, b + m.1 + c + m.2 + t);
    assert(s =~= a + be_bytes(m.1.len() as u16 as nat, 2) + (m.1 + c + m.2 + t));
    lemma_read_be_of(a, m.1.len() as u16 as nat, 2, m.1 + c + m.2 + t);
    assert(s =~= (a + b + m.1) + be_bytes(m.2.len() as u16 as nat, 2) + (m.2 + t));
    lemma_read_be_of(a + b + m.1, m.2.len() as u16 as nat, 2, m.2 + t);
    assert(s.subrange(6, 6 + f) =~= m.1);
    assert(s.subrange(8 + f, 8 + f + l) =~= m.2);
    assert(s.subrange(8 + f + l, s.len() as int) =~= t);
    assert(meta_entry_bytes(m).len() == 8 + f + l);
}

proof fn lemma_parse_all_metas(ms: Seq<MetaView>)
    requires
        forall|i: int| 0 <= i < ms.len() ==> meta_fits(#[trigger] ms[i]),
    ensures
        parse_metas(metas_bytes(ms), ms.len()) == Some((ms, metas_bytes(ms).len() as int)),
    decreases ms.len(),
{
    if ms.len() == 0 {
        assert(metas_bytes(ms) == Seq::<u8>::empty());
    } else {
        let rest = ms.subrange(1, ms.len() as int);
        assert forall|i: int| 0 <= i < rest.len() implies meta_fits(#[trigger] rest[i]) by {
            assert(rest[i] == ms[i + 1]);
        }
        lemma_parse_all_metas(rest);
        lemma_metas_bytes_front(ms);
        assert(meta_fits(ms[0]));
        lemma_parse_meta_entry(ms[0], metas_bytes(rest), ms.len());
        assert(seq![ms[0]] + rest =~= ms);
    }
}

/// The block-meta section decodes to the metas it was encoded from.
pub proof fn lemma_meta_round_trip(ms: Seq<MetaView>)
    requires
        ms.len() < 0x1_0000_0000,
        forall|i: int| 0 <= i < ms.len() ==> meta_fits(#[trigger] ms[i]),
    ensures
        decode_meta_spec(meta_section(ms)) == Ok::<Seq<MetaView>, StorageError>(ms),
{
    lemma_pow_values();
    let body = metas_bytes(ms);
    let s = meta_section(ms);
    let crc = crc32_of(body);
    lemma_be_bytes_len(ms.len() as u32 as nat, 4);
    lemma_be_bytes_len(crc as nat, 4);
    assert(s =~= Seq::<u8>::empty() + be_bytes(ms.len() as u32 as nat, 4) + (body + u32_be(crc)));
    lemma_read_be_of(Seq::empty(), ms.len() as u32 as nat, 4, body + u32_be(crc));
    assert(s =~= (u32_be(ms.len() as u32) + body) + be_bytes(crc as nat, 4) + Seq::<u8>::empty());
    lemma_read_be_of(u32_be(ms.len() as u32) + body, crc as nat, 4, Seq::empty());
    assert(s.subrange(4, s.len() - 4) =~= body);
    lemma_parse_all_metas(ms);
}

} // verus!

verus! {

/// A table holds at most one value for a key.
pub proof fn lemma_table_value_unique(t: SsTable, key: Seq<u8>, x: Seq<u8>, y: Seq<u8>)
    requires
        t.wf(),
        table_has(t, key, x),
        table_has(t, key, y),
    ensures
        x == y,
{
    let (j1, b1, i1) = choose|j: int, b: Block, i: int| #[trigger] holds_block(t, j, b) && 0 <= i < b.len() && #[trigger] b.key_at(i) == key && b.value_at(i) == x;
    let (j2, b2, i2) = choose|j: int, b: Block, i: int| #[trigger] holds_block(t, j, b) && 0 <= i < b.len() && #[trigger] b.key_at(i) == key && b.value_at(i) == y;
    let ms = t.metas();
    lemma_block_key_bounds(b1, i1);
    lemma_block_key_bounds(b2, i2);
    if j1 < j2 {
        assert(key_lt(ms[j1].2, ms[j2].1));
        crate::keys::lemma_key_le_lt_trans(key, ms[j1].2, ms[j2].1);
        crate::keys::lemma_key_lt_asymmetric(key, ms[j2].1);
        assert(key_le(ms[j2].1, key));
        if ms[j2].1 == key {
            crate::keys::lemma_key_lt_irreflexive(key);
        }
    } else if j2 < j1 {
        assert(key_lt(ms[j2].2, ms[j1].1));
        crate::keys::lemma_key_le_lt_trans(key, ms[j2].2, ms[j1].1);
        crate::keys::lemma_key_lt_asymmetric(key, ms[j1].1);
        if ms[j1].1 == key {
            crate::keys::lemma_key_lt_irreflexive(key);
        }
    } else {
        lemma_same_views(b1, b2);
        crate::keys::lemma_key_lt_irreflexive(key);
        if i1 < i2 {
            assert(key_lt(b2.key_at(i1), b2.key_at(i2)));
        } else if i2 < i1 {
            assert(key_lt(b2.key_at(i2), b2.key_at(i1)));
        }
    }
}

} // verus!

verus! {

/// Where block `idx` lies in `file`, by the index `ms` and the meta section's offset.
pub open spec fn span_in(ms: Seq<MetaView>, meta_offset: int, idx: int) -> (int, int) {
    (ms[idx].0, if idx + 1 < ms.len() { ms[idx + 1].0 } else { meta_offset })
}

/// What `holds_block` and `block_checksum_ok` state of a table, stated of its file bytes,
/// its index and the offset of its meta section.
pub open spec fn holds_block_in(file: Seq<u8>, ms: Seq<MetaView>, meta_offset: int, idx: int, b: Block) -> bool {
    let (s, e) = span_in(ms, meta_offset, idx);
    let payload = file.subrange(s, e - 4);
    &&& 0 <= idx < ms.len()
    &&& 0 <= s && s + 4 <= e && e <= file.len()
    &&& read_be(file, e - 4, 4) == crc32_of(payload) as nat
    &&& framed(payload)
    &&& b.data@ == decoded_data(payload)
    &&& b.offsets@ == decoded_offsets(payload)
    &&& b.wf()
    &&& b.len() >= 1
    &&& b.key_at(0) == ms[idx].1
    &&& b.key_at(b.len() - 1) == ms[idx].2
}

/// Of a table opened from those bytes, the block holds `b` and its checksum matches.
pub proof fn lemma_holds_block_in(t: SsTable, idx: int, b: Block)
    requires
        holds_block_in(t.file_spec(), t.metas(), t.meta_offset_spec(), idx, b),
    ensures
        holds_block(t, idx, b),
        block_checksum_ok(t, idx),
{
}

/// The bytes a closed block takes in a table file: its encoding, then the CRC-32 of that.
pub open spec fn block_record(b: Block) -> Seq<u8> {
    encode_spec(b.data@, b.offsets@) + u32_be(crc32_of(encode_spec(b.data@, b.offsets@)))
}

/// The records of blocks, one after another.
pub open spec fn records(bs: Seq<Block>) -> Seq<u8>
    decreases bs.len(),
{
    if bs.len() == 0 {
        Seq::empty()
    } else {
        records(bs.drop_last()) + block_record(bs.last())
    }
}

proof fn lemma_records_prefix(bs: Seq<Block>, m: int)
    requires
        0 <= m <= bs.len(),
    ensures
        records(bs.subrange(0, m)).len() <= records(bs).len(),
        records(bs).subrange(0, records(bs.subrange(0, m)).len() as int) == records(bs.subrange(0, m)),
    decreases bs.len(),
{
    if m == bs.len() {
        assert(bs.subrange(0, m) =~= bs);
        assert(records(bs).subrange(0, records(bs).len() as int) =~= records(bs));
    } else {
        let init = bs.drop_last();
        lemma_records_prefix(init, m);
        assert(init.subrange(0, m) =~= bs.subrange(0, m));
        let p = records(bs.subrange(0, m));
        assert(records(bs).subrange(0, p.len() as int) =~= records(init).subrange(0, p.len() as int));
    }
}

proof fn lemma_records_slice(bs: Seq<Block>, j: int)
    requires
        0 <= j < bs.len(),
    ensures
        ({
            let l = records(bs.subrange(0, j)).len() as int;
            let r = records(bs.subrange(0, j + 1)).len() as int;
            &&& r == l + block_record(bs[j]).len()
            &&& r <= records(bs).len()
            &&& records(bs).subrange(l, r) == block_record(bs[j])
        }),
{
    let t = bs.subrange(0, j + 1);
    assert(t.drop_last() =~= bs.subrange(0, j));
    assert(t.last() == bs[j]);
    lemma_records_prefix(bs, j + 1);
    let l = records(bs.subrange(0, j)).len() as int;
    let r = records(t).len() as int;
    assert(records(bs).subrange(l, r) =~= records(t).subrange(l, r));
    assert(records(t).subrange(l, r) =~= block_record(bs[j]));
}

/// Block `i` of `file` holds run `i` of `parts`, which starts and ends with the index's keys.
pub open spec fn block_run(
    file: Seq<u8>,
    ms: Seq<MetaView>,
    meta_offset: int,
    parts: Seq<Seq<(Seq<u8>, Seq<u8>)>>,
    i: int,
) -> bool {
    &&& runs_index(parts[i], ms[i])
    &&& exists|b: Block| #[trigger] holds_block_in(file, ms, meta_offset, i, b) && b.entries() == parts[i]
}

/// The index `ms` of `file` is ordered, and its blocks hold `entries` in order, as the runs
/// `parts`, one per block.
pub open spec fn table_index_holds(
    file: Seq<u8>,
    ms: Seq<MetaView>,
    meta_offset: int,
    entries: Seq<(Seq<u8>, Seq<u8>)>,
    parts: Seq<Seq<(Seq<u8>, Seq<u8>)>>,
) -> bool {
    &&& metas_ordered(ms)
    &&& concat_runs(parts) == entries
    &&& parts.len() == ms.len()
    &&& forall|i: int| 0 <= i < parts.len() ==> #[trigger] block_run(file, ms, meta_offset, parts, i)
}

/// `file` is a table that opens, and whose blocks hold `entries`, in order.
pub open spec fn table_file_holds(file: Seq<u8>, entries: Seq<(Seq<u8>, Seq<u8>)>) -> bool {
    exists|a: int, b: int, ms: Seq<MetaView>, parts: Seq<Seq<(Seq<u8>, Seq<u8>)>>|
        #[trigger] table_opens_with(file, a, b, ms, entries, parts)
}

/// The trailer of `file` gives the meta section `[a, b)`, which decodes to `ms`, under which
/// the blocks hold `entries` as the runs `parts`.
pub open spec fn table_opens_with(
    file: Seq<u8>,
    a: int,
    b: int,
    ms: Seq<MetaView>,
    entries: Seq<(Seq<u8>, Seq<u8>)>,
    parts: Seq<Seq<(Seq<u8>, Seq<u8>)>>,
) -> bool {
    &&& meta_span(file) == Some((a, b))
    &&& decode_meta_spec(file.subrange(a, b)) == Ok::<Seq<MetaView>, StorageError>(ms)
    &&& table_index_holds(file, ms, a, entries, parts)
}

proof fn lemma_file_holds_intro(
    file: Seq<u8>,
    ms: Seq<MetaView>,
    a: int,
    b: int,
    entries: Seq<(Seq<u8>, Seq<u8>)>,
    parts: Seq<Seq<(Seq<u8>, Seq<u8>)>>,
)
    requires
        meta_span(file) == Some((a, b)),
        decode_meta_spec(file.subrange(a, b)) == Ok::<Seq<MetaView>, StorageError>(ms),
        table_index_holds(file, ms, a, entries, parts),
    ensures
        table_file_holds(file, entries),
{
    assert(table_opens_with(file, a, b, ms, entries, parts));
}

proof fn lemma_index_holds(
    file: Seq<u8>,
    bs: Seq<Block>,
    ms: Seq<MetaView>,
    parts: Seq<Seq<(Seq<u8>, Seq<u8>)>>,
    entries: Seq<(Seq<u8>, Seq<u8>)>,
)
    requires
        records(bs).len() <= file.len(),
        file.subrange(0, records(bs).len() as int) == records(bs),
        ms.len() == bs.len(),
        parts.len() == bs.len(),
        metas_ordered(ms),
        concat_runs(parts) == entries,
        forall|i: int| 0 <= i < ms.len() ==> #[trigger] ms[i].0 == records(bs.subrange(0, i)).len(),
        forall|i: int| 0 <= i < bs.len() ==> (#[trigger] bs[i]).wf() && bs[i].offsets@.len() < 0x1_0000
            && bs[i].entries() == parts[i],
        forall|i: int| 0 <= i < parts.len() ==> runs_index(#[trigger] parts[i], ms[i]),
    ensures
        table_index_holds(file, ms, records(bs).len() as int, entries, parts),
{
    assert forall|i: int| 0 <= i < parts.len() implies #[trigger] block_run(file, ms, records(bs).len() as int, parts, i) by {
        assert(bs[i].wf());
        assert(runs_index(parts[i], ms[i]));
        lemma_built_block(file, bs, ms, parts, i);
    }
}

/// Closing one more block keeps the builder's layout facts.
proof fn lemma_push_block(
    old_blocks: Seq<Block>,
    gb: Block,
    old_metas: Seq<MetaView>,
    new_metas: Seq<MetaView>,
    old_parts: Seq<Seq<(Seq<u8>, Seq<u8>)>>,
    new_parts: Seq<Seq<(Seq<u8>, Seq<u8>)>>,
)
    requires
        old_blocks.len() == old_metas.len(),
        old_parts.len() == old_blocks.len(),
        forall|i: int| 0 <= i < old_metas.len() ==> #[trigger] old_metas[i].0 == records(old_blocks.subrange(0, i)).len(),
        forall|i: int| 0 <= i < old_blocks.len() ==> (#[trigger] old_blocks[i]).wf() && old_blocks[i].offsets@.len() < 0x1_0000
            && old_blocks[i].entries() == old_parts[i],
        new_metas.len() == old_metas.len() + 1,
        forall|i: int| 0 <= i < old_metas.len() ==> new_metas[i] == old_metas[i],
        new_metas.last().0 == records(old_blocks).len(),
        new_parts.len() == old_parts.len() + 1,
        forall|i: int| 0 <= i < old_parts.len() ==> new_parts[i] == old_parts[i],
        gb.wf(),
        gb.offsets@.len() < 0x1_0000,
        gb.entries() == new_parts.last(),
    ensures
        records(old_blocks.push(gb)) == records(old_blocks) + block_record(gb),
        forall|i: int| 0 <= i < new_metas.len() ==> #[trigger] new_metas[i].0 == records(old_blocks.push(gb).subrange(0, i)).len(),
        forall|i: int| 0 <= i < old_blocks.len() + 1 ==> (#[trigger] old_blocks.push(gb)[i]).wf()
            && old_blocks.push(gb)[i].offsets@.len() < 0x1_0000 && old_blocks.push(gb)[i].entries() == new_parts[i],
{
    let nb = old_blocks.push(gb);
    assert(nb.drop_last() =~= old_blocks);
    assert forall|i: int| 0 <= i < new_metas.len() implies #[trigger] new_metas[i].0 == records(nb.subrange(0, i)).len() by {
        if i < old_blocks.len() {
            assert(nb.subrange(0, i) =~= old_blocks.subrange(0, i));
        } else {
            assert(nb.subrange(0, i) =~= old_blocks);
        }
    }
    assert forall|i: int| 0 <= i < old_blocks.len() + 1 implies (#[trigger] nb[i]).wf() && nb[i].offsets@.len() < 0x1_0000
        && nb[i].entries() == new_parts[i] by {
        if i < old_blocks.len() {
            assert(nb[i] == old_blocks[i]);
        } else {
            assert(nb[i] == gb);
            assert(new_parts[i] == new_parts.last());
        }
    }
}

/// A block closed by the builder lies in the built file where the index says, and reads.
proof fn lemma_built_block(
    file: Seq<u8>,
    bs: Seq<Block>,
    ms: Seq<MetaView>,
    parts: Seq<Seq<(Seq<u8>, Seq<u8>)>>,
    j: int,
)
    requires
        records(bs).len() <= file.len(),
        file.subrange(0, records(bs).len() as int) == records(bs),
        ms.len() == bs.len(),
        parts.len() == bs.len(),
        0 <= j < bs.len(),
        forall|i: int| 0 <= i < ms.len() ==> #[trigger] ms[i].0 == records(bs.subrange(0, i)).len(),
        bs[j].wf(),
        bs[j].offsets@.len() < 0x1_0000,
        bs[j].entries() == parts[j],
        runs_index(parts[j], ms[j]),
    ensures
        holds_block_in(file, ms, records(bs).len() as int, j, bs[j]),
{
    let a = records(bs).len() as int;
    let b = bs[j];
    lemma_records_slice(bs, j);
    let l = records(bs.subrange(0, j)).len() as int;
    let r = records(bs.subrange(0, j + 1)).len() as int;
    if j + 1 < bs.len() {
        assert(ms[j + 1].0 == r);
    } else {
        assert(bs.subrange(0, j + 1) =~= bs);
    }
    assert(span_in(ms, a, j) == (l, r));
    let enc = encode_spec(b.data@, b.offsets@);
    let crc = crc32_of(enc);
    lemma_pow_values();
    lemma_be_bytes_len(crc as nat, 4);
    let rec = block_record(b);
    assert(rec == enc + be_bytes(crc as nat, 4));
    assert(rec.len() == enc.len() + 4);
    assert(file.subrange(l, r) =~= records(bs).subrange(l, r));
    assert(file.subrange(l, r) == rec);
    assert(file.subrange(l, r - 4) =~= rec.subrange(0, enc.len() as int));
    assert(rec.subrange(0, enc.len() as int) =~= enc);
    assert(file.subrange(r - 4, r) =~= rec.subrange(enc.len() as int, rec.len() as int));
    assert(rec.subrange(enc.len() as int, rec.len() as int) =~= be_bytes(crc as nat, 4));
    crate::encoding::lemma_be_round_trip(crc as nat, 4);
    crate::block::lemma_block_codec_round_trip(b.data@, b.offsets@);
    assert(b.entries()[0].0 == b.key_at(0));
    assert(b.entries()[b.len() - 1].0 == b.key_at(b.len() - 1));
}

} // verus!
