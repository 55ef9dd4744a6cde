use vstd::prelude::*;

use crate::encoding::{
    be_bytes, copy_range, get_u16, lemma_be_bytes_len, lemma_pow_values, lemma_read_be_of,
    put_slice, put_u16, read_be, u16_be,
};
use crate::keys::{compare_keys, key_le, key_lt, lemma_key_lt_trans};

verus! {

/// The big-endian `u16` stored at `s[at..at + 2]`.
pub open spec fn u16_at(s: Seq<u8>, at: int) -> int {
    read_be(s, at, 2) as int
}

/// The key of a block's first entry, which is stored whole (it shares nothing).
pub open spec fn first_key_of(data: Seq<u8>) -> Seq<u8> {
    data.subrange(4, 4 + u16_at(data, 2))
}

/// Where the value of the entry at `off` starts.
pub open spec fn value_start(data: Seq<u8>, off: int) -> int {
    off + 6 + u16_at(data, off + 2)
}

/// Where the value of the entry at `off` ends.
pub open spec fn value_end(data: Seq<u8>, off: int) -> int {
    value_start(data, off) + u16_at(data, off + 4 + u16_at(data, off + 2))
}

/// The entry at `off` lies inside `data`, and shares no more than `first_key` holds.
pub open spec fn entry_fits(data: Seq<u8>, first_key: Seq<u8>, off: int) -> bool {
    &&& 0 <= off
    &&& off + 4 <= data.len()
    &&& u16_at(data, off) <= first_key.len()
    &&& value_start(data, off) <= data.len()
    &&& value_end(data, off) <= data.len()
}

/// The key of the entry at `off`: the shared prefix of `first_key`, then the stored suffix.
pub open spec fn entry_key(data: Seq<u8>, first_key: Seq<u8>, off: int) -> Seq<u8> {
    first_key.subrange(0, u16_at(data, off)) + data.subrange(off + 4, off + 4 + u16_at(data, off + 2))
}

pub open spec fn entry_value(data: Seq<u8>, off: int) -> Seq<u8> {
    data.subrange(value_start(data, off), value_end(data, off))
}

/// The bytes of one entry that shares its first `overlap` bytes with the block's first key:
/// `overlap`, the length of the rest of the key, that rest, the value's length, the value.
pub open spec fn entry_bytes(overlap: nat, key: Seq<u8>, value: Seq<u8>) -> Seq<u8> {
    u16_be(overlap as u16) + u16_be((key.len() - overlap) as u16) + key.subrange(
        overlap as int,
        key.len() as int,
    ) + u16_be(value.len() as u16) + value
}

/// Offsets as big-endian `u16`s, one after another.
pub open spec fn u16s_be(s: Seq<u16>) -> Seq<u8>
    decreases s.len(),
{
    if s.len() == 0 {
        Seq::empty()
    } else {
        u16s_be(s.drop_last()) + u16_be(s.last())
    }
}

/// The encoded form of a block: its data, its offsets, then the number of offsets.
pub open spec fn encode_spec(data: Seq<u8>, offsets: Seq<u16>) -> Seq<u8> {
    data + u16s_be(offsets) + u16_be(offsets.len() as u16)
}

/// Bytes that hold a trailing entry count, and that many offsets before it.
pub open spec fn framed(bytes: Seq<u8>) -> bool {
    &&& bytes.len() >= 2
    &&& 2 + 2 * u16_at(bytes, bytes.len() - 2) <= bytes.len()
}

pub open spec fn decoded_data_end(bytes: Seq<u8>) -> int {
    bytes.len() - 2 - 2 * u16_at(bytes, bytes.len() - 2)
}

pub open spec fn decoded_data(bytes: Seq<u8>) -> Seq<u8> {
    bytes.subrange(0, decoded_data_end(bytes))
}

pub open spec fn decoded_offsets(bytes: Seq<u8>) -> Seq<u16> {
    Seq::new(
        u16_at(bytes, bytes.len() - 2) as nat,
        |i: int| u16_at(bytes, decoded_data_end(bytes) + 2 * i) as u16,
    )
}

/// The smallest unit of reading and caching in a table: a sorted run of key/value pairs.
pub struct Block {
    pub data: Vec<u8>,
    pub offsets: Vec<u16>,
}

impl Block {
    pub open spec fn first_key(&self) -> Seq<u8> {
        first_key_of(self.data@)
    }

    pub open spec fn len(&self) -> nat {
        self.offsets@.len()
    }

    pub open spec fn key_at(&self, i: int) -> Seq<u8> {
        entry_key(self.data@, self.first_key(), self.offsets@[i] as int)
    }

    pub open spec fn value_at(&self, i: int) -> Seq<u8> {
        entry_value(self.data@, self.offsets@[i] as int)
    }

    /// The pairs that the block holds, in order.
    pub open spec fn entries(&self) -> Seq<(Seq<u8>, Seq<u8>)> {
        Seq::new(self.len(), |i: int| (self.key_at(i), self.value_at(i)))
    }

    /// Every entry lies inside the data, and the keys ascend strictly.
    pub open spec fn wf(&self) -> bool {
        &&& 4 <= self.data@.len()
        &&& 4 + u16_at(self.data@, 2) <= self.data@.len()
        &&& forall|i: int|
            0 <= i < self.len() ==> entry_fits(self.data@, self.first_key(), #[trigger] self.offsets@[i] as int)
        &&& forall|i: int, j: int|
            0 <= i < j < self.len() ==> key_lt(#[trigger] self.key_at(i), #[trigger] self.key_at(j))
    }

    /// Encodes the block: the data, each offset as a big-endian `u16`, then their number.
    pub fn encode(&self) -> (r: Vec<u8>)
        requires
            self.offsets@.len() < 0x1_0000,
        ensures
            r@ == encode_spec(self.data@, self.offsets@),
    {
        let mut buf: Vec<u8> = Vec::new();
        put_slice(&mut buf, self.data.as_slice());
        let mut i: usize = 0;
        while i < self.offsets.len()
            invariant
                i <= self.offsets@.len(),
                buf@ == self.data@ + u16s_be(self.offsets@.subrange(0, i as int)),
            decreases self.offsets@.len() - i,
        {
            put_u16(&mut buf, self.offsets[i]);
            proof {
                let s = self.offsets@.subrange(0, i + 1);
                assert(s.drop_last() =~= self.offsets@.subrange(0, i as int));
            }
            i = i + 1;
        }
        assert(self.offsets@.subrange(0, i as int) =~= self.offsets@);
        put_u16(&mut buf, self.offsets.len() as u16);
        buf
    }

    /// Decodes what `encode` wrote: the trailing count, the offsets before it, the data first.
    pub fn decode(data: &[u8]) -> (r: Block)
        requires
            framed(data@),
        ensures
            r.data@ == decoded_data(data@),
            r.offsets@ == decoded_offsets(data@),
    {
        let n = data.len();
        let count = get_u16(data, n - 2) as usize;
        let data_end = n - 2 - 2 * count;
        let mut offsets: Vec<u16> = Vec::new();
        let mut i: usize = 0;
        while i < count
            invariant
                i <= count,
                n == data@.len(),
                count == u16_at(data@, n - 2),
                data_end == decoded_data_end(data@),
                data_end + 2 * count + 2 == n,
                offsets@ == decoded_offsets(data@).subrange(0, i as int),
            decreases count - i,
        {
            let off = get_u16(data, data_end + 2 * i);
            offsets.push(off);
            i = i + 1;
            assert(offsets@ =~= decoded_offsets(data@).subrange(0, i as int));
        }
        assert(decoded_offsets(data@).subrange(0, count as int) =~= decoded_offsets(data@));
        let bytes = copy_range(data, 0, data_end);
        Block { data: bytes, offsets }
    }
}

proof fn lemma_u16s_be(s: Seq<u16>)
    ensures
        u16s_be(s).len() == 2 * s.len(),
        forall|i: int|
            0 <= i < s.len() ==> #[trigger] u16s_be(s).subrange(2 * i, 2 * i + 2) == u16_be(s[i]),
    decreases s.len(),
{
    lemma_be_bytes_len(0, 2);
    if s.len() > 0 {
        let p = s.drop_last();
        lemma_u16s_be(p);
        lemma_be_bytes_len(s.last() as nat, 2);
        assert forall|i: int| 0 <= i < s.len() implies #[trigger] u16s_be(s).subrange(2 * i, 2 * i + 2)
            == u16_be(s[i]) by {
            if i < p.len() {
                assert(u16s_be(s).subrange(2 * i, 2 * i + 2) =~= u16s_be(p).subrange(2 * i, 2 * i + 2));
            } else {
                assert(u16s_be(s).subrange(2 * i, 2 * i + 2) =~= u16_be(s.last()));
            }
        }
    }
}

/// The length of an encoded block.
pub proof fn lemma_encoded_len(data: Seq<u8>, offsets: Seq<u16>)
    ensures
        encode_spec(data, offsets).len() == data.len() + 2 * offsets.len() + 2,
{
    lemma_u16s_be(offsets);
    lemma_be_bytes_len((offsets.len() as u16) as nat, 2);
}

/// Decoding an encoded block gives back its data and offsets.
pub proof fn lemma_block_codec_round_trip(data: Seq<u8>, offsets: Seq<u16>)
    requires
        offsets.len() < 0x1_0000,
    ensures
        framed(encode_spec(data, offsets)),
        decoded_data(encode_spec(data, offsets)) == data,
        decoded_offsets(encode_spec(data, offsets)) == offsets,
{
    let bytes = encode_spec(data, offsets);
    let n = offsets.len();
    lemma_u16s_be(offsets);
    lemma_pow_values();
    lemma_read_be_of(data + u16s_be(offsets), n, 2, Seq::empty());
    assert(data + u16s_be(offsets) + u16_be(n as u16) + Seq::<u8>::empty() =~= bytes);
    lemma_be_bytes_len(n, 2);
    assert(u16_at(bytes, bytes.len() - 2) == n);
    assert(decoded_data(bytes) =~= data);
    assert forall|i: int| 0 <= i < n implies #[trigger] decoded_offsets(bytes)[i] == offsets[i] by {
        let pre = data + u16s_be(offsets).subrange(0, 2 * i);
        let post = u16s_be(offsets).subrange(2 * i + 2, 2 * n as int) + u16_be(n as u16);
        lemma_read_be_of(pre, offsets[i] as nat, 2, post);
        let u = u16s_be(offsets);
        assert(u =~= u.subrange(0, 2 * i) + u.subrange(2 * i, 2 * i + 2) + u.subrange(2 * i + 2, 2 * n as int));
        assert(u.subrange(2 * i, 2 * i + 2) == u16_be(offsets[i]));
        assert(pre + be_bytes(offsets[i] as nat, 2) + post =~= bytes);
    }
    assert(decoded_offsets(bytes) =~= offsets);
}

} // verus!

verus! {

proof fn lemma_extend_keeps(s: Seq<u8>, x: Seq<u8>, at: int, n: int)
    requires
        0 <= at,
        0 <= n,
        at + n <= s.len(),
    ensures
        (s + x).subrange(at, at + n) == s.subrange(at, at + n),
        read_be(s + x, at, n) == read_be(s, at, n),
{
    assert((s + x).subrange(at, at + n) =~= s.subrange(at, at + n));
}

/// Appending bytes leaves the entries already in the data as they were.
proof fn lemma_extend_keeps_entry(data: Seq<u8>, x: Seq<u8>, fk: Seq<u8>, off: int)
    requires
        entry_fits(data, fk, off),
    ensures
        entry_fits(data + x, fk, off),
        entry_key(data + x, fk, off) == entry_key(data, fk, off),
        entry_value(data + x, off) == entry_value(data, off),
{
    let k = u16_at(data, off + 2);
    lemma_extend_keeps(data, x, off, 2);
    lemma_extend_keeps(data, x, off + 2, 2);
    lemma_extend_keeps(data, x, off + 4 + k, 2);
    lemma_extend_keeps(data, x, off + 4, k);
    lemma_extend_keeps(data, x, value_start(data, off), value_end(data, off) - value_start(data, off));
}

/// The entry that `entry_bytes` appends decodes to its key and value.
proof fn lemma_new_entry(data: Seq<u8>, fk: Seq<u8>, overlap: nat, key: Seq<u8>, value: Seq<u8>)
    requires
        overlap <= fk.len(),
        overlap <= key.len(),
        key.len() < 0x1_0000,
        value.len() < 0x1_0000,
        fk.subrange(0, overlap as int) == key.subrange(0, overlap as int),
    ensures
        entry_fits(data + entry_bytes(overlap, key, value), fk, data.len() as int),
        entry_key(data + entry_bytes(overlap, key, value), fk, data.len() as int) == key,
        entry_value(data + entry_bytes(overlap, key, value), data.len() as int) == value,
        (data + entry_bytes(overlap, key, value)).len() == data.len() + 6 + (key.len() - overlap)
            + value.len(),
{
    lemma_pow_values();
    let off = data.len() as int;
    let rest = key.subrange(overlap as int, key.len() as int);
    let k = (key.len() - overlap) as nat;
    let a = u16_be(overlap as u16);
    let b = u16_be(k as u16);
    let c = u16_be(value.len() as u16);
    lemma_be_bytes_len(overlap, 2);
    lemma_be_bytes_len(k, 2);
    lemma_be_bytes_len(value.len(), 2);
    let whole = data + entry_bytes(overlap, key, value);
    assert(whole =~= data + be_bytes(overlap, 2) + (b + rest + c + value));
    lemma_read_be_of(data, overlap, 2, b + rest + c + value);
    assert(whole =~= (data + a) + be_bytes(k, 2) + (rest + c + value));
    lemma_read_be_of(data + a, k, 2, rest + c + value);
    assert(whole =~= (data + a + b + rest) + be_bytes(value.len(), 2) + value);
    lemma_read_be_of(data + a + b + rest, value.len(), 2, value);
    assert(whole.subrange(off + 4, off + 4 + k) =~= rest);
    assert(whole.subrange(off + 6 + k, off + 6 + k + value.len()) =~= value);
    assert(fk.subrange(0, overlap as int) + rest =~= key);
}

proof fn lemma_first_entry(b: Block, key: Seq<u8>, value: Seq<u8>)
    requires
        key.len() < 0x1_0000,
        value.len() < 0x1_0000,
        b.data@ == entry_bytes(0, key, value),
        b.offsets@ == seq![0u16],
    ensures
        b.wf(),
        b.first_key() == key,
        b.key_at(0) == key,
        b.value_at(0) == value,
        b.data@.len() == 6 + key.len() + value.len(),
{
    let x = b.data@;
    assert(key.subrange(0, key.len() as int) =~= key);
    lemma_pow_values();
    lemma_be_bytes_len(0, 2);
    lemma_be_bytes_len(key.len(), 2);
    assert(x =~= u16_be(0) + (u16_be(key.len() as u16) + key + u16_be(value.len() as u16) + value));
    lemma_read_be_of(u16_be(0), key.len(), 2, key + u16_be(value.len() as u16) + value);
    assert(x =~= u16_be(0) + be_bytes(key.len(), 2) + (key + u16_be(value.len() as u16) + value));
    assert(x.subrange(4, 4 + key.len() as int) =~= key);
    assert(b.first_key() =~= key);
    lemma_new_entry(Seq::empty(), key, 0, key, value);
    assert(Seq::<u8>::empty() + x =~= x);
    assert(key.subrange(0, 0) =~= Seq::<u8>::empty());
}

#[verifier::rlimit(100)]
proof fn lemma_append_entry(
    old_b: Block,
    b: Block,
    fk: Seq<u8>,
    overlap: nat,
    key: Seq<u8>,
    value: Seq<u8>,
)
    requires
        old_b.wf(),
        old_b.len() > 0,
        old_b.first_key() == fk,
        overlap <= fk.len(),
        overlap <= key.len(),
        fk.subrange(0, overlap as int) == key.subrange(0, overlap as int),
        key.len() < 0x1_0000,
        value.len() < 0x1_0000,
        key_lt(old_b.key_at(old_b.len() - 1), key),
        b.data@ == old_b.data@ + entry_bytes(overlap, key, value),
        b.offsets@ == old_b.offsets@.push(old_b.data@.len() as u16),
        old_b.data@.len() < 0x1_0000,
    ensures
        b.wf(),
        b.first_key() == fk,
        forall|j: int| 0 <= j < old_b.len() ==> #[trigger] b.key_at(j) == old_b.key_at(j) && b.value_at(j) == old_b.value_at(j),
        b.key_at(old_b.len() as int) == key,
        b.value_at(old_b.len() as int) == value,
        b.data@.len() == old_b.data@.len() + 6 + (key.len() - overlap) + value.len(),
{
    let old_data = old_b.data@;
    let x = entry_bytes(overlap, key, value);
    let n = old_b.len() as int;
    lemma_new_entry(old_data, fk, overlap, key, value);
    lemma_extend_keeps(old_data, x, 2, 2);
    lemma_extend_keeps(old_data, x, 4, u16_at(old_data, 2));
    assert(b.first_key() == fk);
    assert forall|j: int| 0 <= j < n implies entry_fits(b.data@, fk, #[trigger] b.offsets@[j] as int)
        && b.key_at(j) == old_b.key_at(j) && b.value_at(j) == old_b.value_at(j) by {
        assert(b.offsets@[j] == old_b.offsets@[j]);
        assert(entry_fits(old_data, fk, old_b.offsets@[j] as int));
        lemma_extend_keeps_entry(old_data, x, fk, old_b.offsets@[j] as int);
    }
    assert(b.offsets@[n] as int == old_data.len());
    assert(b.key_at(n) == key);
    assert forall|j: int, k: int| 0 <= j < k < b.len() implies key_lt(#[trigger] b.key_at(j), #[trigger] b.key_at(k)) by {
        if k == n {
            if j < n - 1 {
                assert(key_lt(old_b.key_at(j), old_b.key_at(n - 1)));
                lemma_key_lt_trans(old_b.key_at(j), old_b.key_at(n - 1), key);
            }
        } else {
            assert(key_lt(old_b.key_at(j), old_b.key_at(k)));
        }
    }
}

/// Length of the longest common prefix of `a` and `b`.
fn common_prefix_len(a: &[u8], b: &[u8]) -> (r: usize)
    ensures
        r <= a@.len(),
        r <= b@.len(),
        a@.subrange(0, r as int) == b@.subrange(0, r as int),
{
    let mut i: usize = 0;
    while i < a.len() && i < b.len() && a[i] == b[i]
        invariant
            i <= a@.len(),
            i <= b@.len(),
            a@.subrange(0, i as int) == b@.subrange(0, i as int),
        decreases a@.len() - i,
    {
        assert(a@.subrange(0, i + 1) =~= a@.subrange(0, i as int).push(a@[i as int]));
        assert(b@.subrange(0, i + 1) =~= b@.subrange(0, i as int).push(b@[i as int]));
        i = i + 1;
    }
    i
}

/// Builds a block from pairs added in strictly ascending key order.
pub struct BlockBuilder {
    offsets: Vec<u16>,
    data: Vec<u8>,
    block_size: usize,
    first_key: Vec<u8>,
    added: Ghost<Seq<(Seq<u8>, Seq<u8>)>>,
}

impl BlockBuilder {
    /// The pairs added so far.
    pub closed spec fn entries(&self) -> Seq<(Seq<u8>, Seq<u8>)> {
        self.added@
    }

    pub closed spec fn target_size(&self) -> nat {
        self.block_size as nat
    }

    /// The size that the encoded block would have now.
    pub closed spec fn size(&self) -> nat {
        (2 * self.offsets@.len() + self.data@.len() + 2) as nat
    }

    /// Whether a pair of these lengths would be taken now.
    pub closed spec fn takes(&self, key_len: nat, value_len: nat) -> bool {
        &&& self.data@.len() < 0x1_0000
        &&& self.offsets@.len() < 0xFFFF
        &&& (self.offsets@.len() == 0 || self.size() + key_len + value_len + 6 <= self.block_size)
    }

    pub closed spec fn inv(&self) -> bool {
        let b = Block { data: self.data, offsets: self.offsets };
        &&& self.offsets@.len() == self.added@.len()
        &&& self.offsets@.len() < 0x1_0000
        &&& self.data@.len() < 0x3_0010
        &&& (self.offsets@.len() == 0 ==> self.data@.len() == 0)
        &&& (self.offsets@.len() > 0 ==> {
            &&& b.wf()
            &&& b.entries() == self.added@
            &&& self.first_key@ == b.first_key()
            &&& self.offsets@[0] == 0
        })
        &&& forall|i: int| 0 <= i < self.offsets@.len() ==> #[trigger] self.offsets@[i] < self.data@.len()
    }

    /// A builder for blocks of about `block_size` encoded bytes.
    pub fn new(block_size: usize) -> (r: BlockBuilder)
        ensures
            r.inv(),
            r.entries() == Seq::<(Seq<u8>, Seq<u8>)>::empty(),
            r.target_size() == block_size,
    {
        BlockBuilder {
            offsets: Vec::new(),
            data: Vec::new(),
            block_size,
            first_key: Vec::new(),
            added: Ghost(Seq::empty()),
        }
    }

    /// An empty builder takes any pair.
    pub proof fn lemma_empty_takes(&self, key_len: nat, value_len: nat)
        requires
            self.inv(),
            self.entries().len() == 0,
        ensures
            self.takes(key_len, value_len),
    {
    }

    pub fn is_empty(&self) -> (r: bool)
        requires
            self.inv(),
        ensures
            r == (self.entries().len() == 0),
    {
        self.offsets.len() == 0
    }

    /// Adds a pair, whose key must sort after every key added before. Returns false, and
    /// changes nothing, when the block is not empty and the pair would take it past its
    /// target size (or past what `u16` offsets can address).
    #[verifier::rlimit(60)]
    pub fn add(&mut self, key: &[u8], value: &[u8]) -> (r: bool)
        requires
            old(self).inv(),
            key@.len() < 0x1_0000,
            value@.len() < 0x1_0000,
            old(self).entries().len() > 0 ==> key_lt(old(self).entries().last().0, key@),
        ensures
            final(self).inv(),
            final(self).target_size() == old(self).target_size(),
            r == old(self).takes(key@.len(), value@.len()),
            r ==> final(self).entries() == old(self).entries().push((key@, value@)),
            !r ==> final(self).entries() == old(self).entries(),
    {
        let n = self.offsets.len();
        if self.data.len() >= 0x1_0000 || n >= 0xFFFF {
            return false;
        }
        if n > 0 {
            let size = 2 * n + self.data.len() + 2;
            if key.len() + value.len() + 6 > self.block_size || size > self.block_size - (
            key.len() + value.len() + 6) {
                return false;
            }
        }
        let ghost old_data = self.data@;
        let ghost old_block = Block { data: self.data, offsets: self.offsets };
        let ghost old_added = self.added@;
        assert(old_block.entries() == old_added);
        let off = self.data.len() as u16;
        if n == 0 {
            self.first_key = copy_range(key, 0, key.len());
        }
        let overlap = if n == 0 {
            0
        } else {
            common_prefix_len(self.first_key.as_slice(), key)
        };
        put_u16(&mut self.data, overlap as u16);
        put_u16(&mut self.data, (key.len() - overlap) as u16);
        put_slice(&mut self.data, &key[overlap..key.len()]);
        put_u16(&mut self.data, value.len() as u16);
        put_slice(&mut self.data, value);
        self.offsets.push(off);
        self.added = Ghost(self.added@.push((key@, value@)));
        proof {
            let fk = self.first_key@;
            let x = entry_bytes(overlap as nat, key@, value@);
            assert(self.data@ =~= old_data + x);
            let b = Block { data: self.data, offsets: self.offsets };
            assert(self.offsets@ == old_block.offsets@.push(off));
            assert(self.added@ == old_added.push((key@, value@)));
            if n == 0 {
                assert(old_block.offsets@ =~= Seq::<u16>::empty());
                assert(self.offsets@ =~= seq![0u16]);
                assert(self.data@ =~= x);
                lemma_first_entry(b, key@, value@);
            } else {
                lemma_append_entry(old_block, b, fk, overlap as nat, key@, value@);
                assert forall|j: int| 0 <= j <= n implies #[trigger] b.entries()[j] == self.added@[j] by {
                    if j < n {
                        assert(b.key_at(j) == old_block.key_at(j));
                        assert(old_block.entries()[j] == old_added[j]);
                    }
                }
            }
            assert(b.entries() =~= self.added@);
            assert(b.wf());
            assert(self.offsets@.len() == self.added@.len());
            assert(self.offsets@.len() < 0x1_0000);
            assert(self.first_key@ == b.first_key());
            assert(self.offsets@[0] == 0);
            assert forall|i: int| 0 <= i < self.offsets@.len() implies #[trigger] self.offsets@[i] < self.data@.len() by {
                if i < n {
                    assert(old_block.offsets@[i] < old_data.len());
                }
            }
        }
        true
    }

    /// The block built from the pairs added.
    pub fn build(self) -> (r: Block)
        requires
            self.inv(),
            self.entries().len() > 0,
        ensures
            r.wf(),
            r.entries() == self.entries(),
            r.offsets@.len() < 0x1_0000,
            r.offsets@[0] == 0,
            r.data@.len() < 0x3_0010,
    {
        Block { data: self.data, offsets: self.offsets }
    }
}

} // verus!

verus! {

impl Block {
    /// The key of the first entry, read from where it is stored whole.
    fn get_first_key(&self) -> (r: Vec<u8>)
        requires
            self.wf(),
        ensures
            r@ == self.first_key(),
    {
        let key_len = get_u16(self.data.as_slice(), 2) as usize;
        copy_range(self.data.as_slice(), 4, 4 + key_len)
    }
}

/// The first position whose key is not below `key` in a sorted run of entries, or their
/// number when there is none.
pub open spec fn is_lower_bound(entries: Seq<(Seq<u8>, Seq<u8>)>, key: Seq<u8>, i: int) -> bool {
    &&& 0 <= i <= entries.len()
    &&& forall|j: int| 0 <= j < i ==> key_lt(#[trigger] entries[j].0, key)
    &&& i < entries.len() ==> !key_lt(entries[i].0, key)
}

/// A cursor over the entries of one block.
pub struct BlockIterator {
    block: std::sync::Arc<Block>,
    key: Vec<u8>,
    value_range: (usize, usize),
    idx: usize,
    first_key: Vec<u8>,
}

impl BlockIterator {
    /// The entries of the block under the cursor.
    pub open spec fn entries(&self) -> Seq<(Seq<u8>, Seq<u8>)> {
        self.block_spec().entries()
    }

    /// The position of the cursor; the number of entries once it has run off the end.
    pub closed spec fn index(&self) -> int {
        self.idx as int
    }

    pub closed spec fn block_spec(&self) -> Block {
        *self.block
    }

    pub open spec fn valid(&self) -> bool {
        self.index() < self.entries().len()
    }

    pub closed spec fn inv(&self) -> bool {
        &&& self.block.wf()
        &&& self.first_key@ == self.block.first_key()
        &&& self.idx <= self.block.len()
        &&& self.idx < self.block.len() ==> {
            &&& self.key@ == self.block.key_at(self.idx as int)
            &&& self.value_range.0 <= self.value_range.1 <= self.block.data@.len()
            &&& self.block.data@.subrange(self.value_range.0 as int, self.value_range.1 as int)
                == self.block.value_at(self.idx as int)
        }
    }

    fn new(block: std::sync::Arc<Block>) -> (r: BlockIterator)
        requires
            block.wf(),
        ensures
            r.inv(),
            r.block_spec() == *block,
            r.index() == block.len(),
    {
        let first_key = block.get_first_key();
        let idx = block.offsets.len();
        BlockIterator { first_key, block, key: Vec::new(), value_range: (0, 0), idx }
    }

    /// Creates a cursor on the first entry of `block`.
    pub fn create_and_seek_to_first(block: std::sync::Arc<Block>) -> (r: BlockIterator)
        requires
            block.wf(),
        ensures
            r.inv(),
            r.block_spec() == *block,
            r.index() == 0,
    {
        let mut iter = BlockIterator::new(block);
        iter.seek_to_first();
        iter
    }

    /// Creates a cursor on the first entry whose key is not below `key`.
    pub fn create_and_seek_to_key(block: std::sync::Arc<Block>, key: &[u8]) -> (r: BlockIterator)
        requires
            block.wf(),
        ensures
            r.inv(),
            r.block_spec() == *block,
            is_lower_bound(r.entries(), key@, r.index()),
    {
        let mut iter = BlockIterator::new(block);
        iter.seek_to_key(key);
        iter
    }

    /// The key of the current entry.
    pub fn key(&self) -> (r: &[u8])
        requires
            self.inv(),
            self.valid(),
        ensures
            r@ == self.entries()[self.index()].0,
    {
        self.key.as_slice()
    }

    /// The value of the current entry.
    pub fn value(&self) -> (r: &[u8])
        requires
            self.inv(),
            self.valid(),
        ensures
            r@ == self.entries()[self.index()].1,
    {
        let data = self.block.data.as_slice();
        &data[self.value_range.0..self.value_range.1]
    }

    /// Whether the cursor is on an entry.
    pub fn is_valid(&self) -> (r: bool)
        requires
            self.inv(),
        ensures
            r == self.valid(),
    {
        self.idx < self.block.offsets.len()
    }

    /// Moves to the first entry.
    pub fn seek_to_first(&mut self)
        requires
            old(self).inv(),
        ensures
            final(self).inv(),
            final(self).block_spec() == old(self).block_spec(),
            final(self).index() == 0,
    {
        self.seek_to(0);
    }

    /// Moves to entry `idx`, or past the end when there is no such entry.
    fn seek_to(&mut self, idx: usize)
        requires
            old(self).inv(),
        ensures
            final(self).inv(),
            final(self).block_spec() == old(self).block_spec(),
            final(self).index() == if idx < old(self).entries().len() {
                idx as int
            } else {
                old(self).entries().len() as int
            },
    {
        if idx >= self.block.offsets.len() {
            self.key.clear();
            self.value_range = (0, 0);
            self.idx = self.block.offsets.len();
            return;
        }
        let offset = self.block.offsets[idx] as usize;
        self.seek_to_offset(offset, Ghost(idx as int));
        self.idx = idx;
    }

    /// Reads the entry at `offset` into the current key and value.
    fn seek_to_offset(&mut self, offset: usize, Ghost(i): Ghost<int>)
        requires
            old(self).inv(),
            0 <= i < old(self).block.len(),
            old(self).block.offsets@[i] == offset,
        ensures
            final(self).block == old(self).block,
            final(self).first_key == old(self).first_key,
            final(self).idx == old(self).idx,
            final(self).key@ == old(self).block.key_at(i),
            final(self).value_range.0 <= final(self).value_range.1 <= old(self).block.data@.len(),
            old(self).block.data@.subrange(final(self).value_range.0 as int, final(self).value_range.1 as int)
                == old(self).block.value_at(i),
    {
        let data = self.block.data.as_slice();
        proof {
            assert(entry_fits(self.block.data@, self.block.first_key(), self.block.offsets@[i] as int));
        }
        let overlap = get_u16(data, offset) as usize;
        let key_len = get_u16(data, offset + 2) as usize;
        let mut key = copy_range(self.first_key.as_slice(), 0, overlap);
        put_slice(&mut key, &data[offset + 4..offset + 4 + key_len]);
        let value_len = get_u16(data, offset + 4 + key_len) as usize;
        let value_begin = offset + 6 + key_len;
        let value_end = value_begin + value_len;
        self.key = key;
        self.value_range = (value_begin, value_end);
    }

    /// Moves to the next entry.
    pub fn next(&mut self)
        requires
            old(self).inv(),
            old(self).valid(),
        ensures
            final(self).inv(),
            final(self).block_spec() == old(self).block_spec(),
            final(self).index() == old(self).index() + 1,
    {
        let n = self.block.offsets.len();
        assert(self.idx < n);
        let next = self.idx + 1;
        self.seek_to(next);
    }

    /// Moves to the first entry whose key is not below `key` (past the end if none is).
    pub fn seek_to_key(&mut self, key: &[u8])
        requires
            old(self).inv(),
        ensures
            final(self).inv(),
            final(self).block_spec() == old(self).block_spec(),
            is_lower_bound(final(self).entries(), key@, final(self).index()),
    {
        let ghost b = self.block_spec();
        let mut low: usize = 0;
        let mut high: usize = self.block.offsets.len();
        while low < high
            invariant
                self.inv(),
                self.block_spec() == b,
                b == old(self).block_spec(),
                low <= high <= b.len(),
                forall|j: int| 0 <= j < low ==> key_lt(#[trigger] b.key_at(j), key@),
                forall|j: int| high <= j < b.len() ==> !key_lt(#[trigger] b.key_at(j), key@),
            decreases high - low,
        {
            let mid = low + (high - low) / 2;
            self.seek_to(mid);
            let c = compare_keys(self.key(), key);
            if c < 0 {
                proof {
                    assert forall|j: int| 0 <= j <= mid implies key_lt(#[trigger] b.key_at(j), key@) by {
                        if j < mid {
                            lemma_key_lt_trans(b.key_at(j), b.key_at(mid as int), key@);
                        }
                    }
                }
                low = mid + 1;
            } else if c > 0 {
                proof {
                    assert forall|j: int| mid <= j < b.len() implies !key_lt(#[trigger] b.key_at(j), key@) by {
                        crate::keys::lemma_key_lt_asymmetric(b.key_at(mid as int), key@);
                        if j > mid && key_lt(b.key_at(j), key@) {
                            lemma_key_lt_trans(key@, b.key_at(mid as int), b.key_at(j));
                            crate::keys::lemma_key_lt_asymmetric(key@, b.key_at(j));
                        }
                    }
                }
                high = mid;
            } else {
                proof {
                    crate::keys::lemma_key_lt_irreflexive(key@);
                    assert forall|j: int| 0 <= j < mid implies key_lt(#[trigger] b.key_at(j), key@) by {
                        assert(key_lt(b.key_at(j), b.key_at(mid as int)));
                    }
                }
                return;
            }
        }
        self.seek_to(low);
    }
}

} // verus!

verus! {

impl Block {
    /// Whether the entry at `off` lies inside the data.
    fn entry_fits_at(&self, first_key_len: usize, off: usize) -> (r: bool)
        requires
            first_key_len == self.first_key().len(),
            4 + u16_at(self.data@, 2) <= self.data@.len(),
        ensures
            r == entry_fits(self.data@, self.first_key(), off as int),
    {
        let data = self.data.as_slice();
        let n = data.len();
        if off > n || n - off < 4 {
            return false;
        }
        let overlap = get_u16(data, off) as usize;
        let key_len = get_u16(data, off + 2) as usize;
        if overlap > first_key_len || n - off - 4 < key_len + 2 {
            return false;
        }
        let value_len = get_u16(data, off + 4 + key_len) as usize;
        value_len <= n - off - 6 - key_len
    }

    /// The key of the entry at `off`, which must lie inside the data.
    fn entry_key_at(&self, first_key: &[u8], off: usize) -> (r: Vec<u8>)
        requires
            first_key@ == self.first_key(),
            entry_fits(self.data@, self.first_key(), off as int),
        ensures
            r@ == entry_key(self.data@, self.first_key(), off as int),
    {
        let data = self.data.as_slice();
        let n = data.len();
        assert(off + 4 <= n);
        let overlap = get_u16(data, off) as usize;
        let key_len = get_u16(data, off + 2) as usize;
        let mut key = copy_range(first_key, 0, overlap);
        put_slice(&mut key, &data[off + 4..off + 4 + key_len]);
        key
    }

    /// Checks what `wf` states: for blocks read back from storage.
    pub fn is_well_formed(&self) -> (r: bool)
        ensures
            r == self.wf(),
    {
        let n = self.data.len();
        if n < 4 {
            return false;
        }
        let first_len = get_u16(self.data.as_slice(), 2) as usize;
        if first_len > n - 4 {
            return false;
        }
        let first_key = copy_range(self.data.as_slice(), 4, 4 + first_len);
        let count = self.offsets.len();
        let mut prev: Vec<u8> = Vec::new();
        let mut i: usize = 0;
        while i < count
            invariant
                i <= count == self.len(),
                4 <= self.data@.len(),
                4 + u16_at(self.data@, 2) <= self.data@.len(),
                first_key@ == self.first_key(),
                first_len as int == self.first_key().len(),
                forall|j: int| 0 <= j < i ==> entry_fits(self.data@, self.first_key(), #[trigger] self.offsets@[j] as int),
                forall|j: int, k: int| 0 <= j < k < i ==> key_lt(#[trigger] self.key_at(j), #[trigger] self.key_at(k)),
                i > 0 ==> prev@ == self.key_at(i - 1),
            decreases count - i,
        {
            let off = self.offsets[i] as usize;
            if !self.entry_fits_at(first_len, off) {
                return false;
            }
            let key = self.entry_key_at(first_key.as_slice(), off);
            if i > 0 {
                if compare_keys(prev.as_slice(), key.as_slice()) >= 0 {
                    assert(!key_lt(self.key_at(i - 1), self.key_at(i as int)));
                    return false;
                }
                proof {
                    assert forall|j: int, k: int| 0 <= j < k < i + 1 implies key_lt(#[trigger] self.key_at(j), #[trigger] self.key_at(k)) by {
                        if k == i && j < i - 1 {
                            lemma_key_lt_trans(self.key_at(j), self.key_at(i - 1), self.key_at(k));
                        }
                    }
                }
            }
            prev = key;
            i = i + 1;
        }
        true
    }
}

/// A block that is built, encoded and decoded again holds the same pairs: decoding gives back
/// the data and offsets that were encoded, so the block read back is well formed and its
/// entries, which the iterator walks in order, are the ones built.
pub proof fn lemma_block_round_trip(b: Block, read_back: Block)
    requires
        b.wf(),
        b.offsets@.len() < 0x1_0000,
        read_back.data@ == decoded_data(encode_spec(b.data@, b.offsets@)),
        read_back.offsets@ == decoded_offsets(encode_spec(b.data@, b.offsets@)),
    ensures
        framed(encode_spec(b.data@, b.offsets@)),
        read_back.data@ == b.data@,
        read_back.offsets@ == b.offsets@,
        read_back.wf(),
        read_back.entries() == b.entries(),
{
    lemma_block_codec_round_trip(b.data@, b.offsets@);
    assert(read_back.first_key() == b.first_key());
    assert forall|i: int| 0 <= i < b.len() implies #[trigger] read_back.key_at(i) == b.key_at(i)
        && read_back.value_at(i) == b.value_at(i) by {}
    assert forall|i: int, j: int| 0 <= i < j < read_back.len() implies key_lt(
        #[trigger] read_back.key_at(i),
        #[trigger] read_back.key_at(j),
    ) by {
        assert(key_lt(b.key_at(i), b.key_at(j)));
    }
    assert(read_back.entries() =~= b.entries());
}

} // verus!

verus! {

impl Block {
    /// The key of entry `i`.
    pub fn key_of(&self, i: usize) -> (r: Vec<u8>)
        requires
            self.wf(),
            i < self.len(),
        ensures
            r@ == self.key_at(i as int),
    {
        let first_key = self.get_first_key();
        assert(entry_fits(self.data@, self.first_key(), self.offsets@[i as int] as int));
        self.entry_key_at(first_key.as_slice(), self.offsets[i] as usize)
    }

    pub fn num_entries(&self) -> (r: usize)
        ensures
            r == self.len(),
    {
        self.offsets.len()
    }
}

/// In a well-formed block every key lies between the first and the last.
pub proof fn lemma_block_key_bounds(b: Block, i: int)
    requires
        b.wf(),
        0 <= i < b.len(),
    ensures
        key_le(b.key_at(0), b.key_at(i)),
        key_le(b.key_at(i), b.key_at(b.len() - 1)),
{
}

} // verus!

verus! {

/// Two blocks with the same data and offsets hold the same entries, and are well formed
/// alike.
pub proof fn lemma_same_views(a: Block, b: Block)
    requires
        a.data@ == b.data@,
        a.offsets@ == b.offsets@,
    ensures
        a.wf() == b.wf(),
        a.len() == b.len(),
        a.entries() == b.entries(),
        forall|i: int| #[trigger] a.key_at(i) == b.key_at(i) && a.value_at(i) == b.value_at(i),
{
    assert forall|i: int| #[trigger] a.key_at(i) == b.key_at(i) && a.value_at(i) == b.value_at(i) by {}
    assert(a.entries() =~= b.entries());
    if a.wf() {
        assert forall|i: int, j: int| 0 <= i < j < b.len() implies key_lt(#[trigger] b.key_at(i), #[trigger] b.key_at(j)) by {
            assert(key_lt(a.key_at(i), a.key_at(j)));
        }
    }
    if b.wf() {
        assert forall|i: int, j: int| 0 <= i < j < a.len() implies key_lt(#[trigger] a.key_at(i), #[trigger] a.key_at(j)) by {
            assert(key_lt(b.key_at(i), b.key_at(j)));
        }
    }
}

} // verus!
