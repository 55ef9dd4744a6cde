use vstd::prelude::*;

use crossbeam_skiplist::SkipMap;

use crate::checksum::{crc32, crc32_of};
use crate::encoding::{
    copy_range, get_u16, get_u32, lemma_be_bytes_len, lemma_pow_values, lemma_read_be_of,
    put_slice, put_u16, put_u32, read_be, u16_be, u32_be,
};
use crate::error::StorageError;
use crate::keys::{compare_keys, key_le, key_lt, lemma_key_lt_trans};
use crate::merge::{run_has_key, run_view, sorted_run};

verus! {

#[verifier::external_type_specification]
#[verifier::external_body]
#[verifier::reject_recursive_types(K)]
#[verifier::reject_recursive_types(V)]
pub struct ExSkipMap<K, V>(SkipMap<K, V>);

/// The map with no entry.
pub open spec fn empty_map() -> Map<Seq<u8>, Seq<u8>> {
    Map::empty()
}

/// What a skip map of byte strings holds.
pub uninterp spec fn skipmap_contents(m: SkipMap<Vec<u8>, Vec<u8>>) -> Map<Seq<u8>, Seq<u8>>;

/// Relies on `SkipMap::new`: a new map is empty.
#[verifier::external_body]
fn skipmap_new() -> (r: SkipMap<Vec<u8>, Vec<u8>>)
    ensures
        skipmap_contents(r) == empty_map(),
{
    SkipMap::new()
}

/// Relies on `SkipMap::insert`: the pair replaces any entry with an equal key.
#[verifier::external_body]
fn skipmap_insert(m: &mut SkipMap<Vec<u8>, Vec<u8>>, key: Vec<u8>, value: Vec<u8>)
    ensures
        skipmap_contents(*final(m)) == skipmap_contents(*old(m)).insert(key@, value@),
{
    m.insert(key, value);
}

/// Relies on `SkipMap::get`: the entry with an equal key, if there is one.
#[verifier::external_body]
fn skipmap_get(m: &SkipMap<Vec<u8>, Vec<u8>>, key: &[u8]) -> (r: Option<Vec<u8>>)
    ensures
        r is Some <==> skipmap_contents(*m).contains_key(key@),
        r matches Some(v) ==> v@ == skipmap_contents(*m)[key@],
{
    m.get(key).map(|e| e.value().clone())
}

/// Relies on `SkipMap::is_empty`: true when the map holds no entry.
#[verifier::external_body]
fn skipmap_is_empty(m: &SkipMap<Vec<u8>, Vec<u8>>) -> (r: bool)
    ensures
        r == (skipmap_contents(*m) == empty_map()),
{
    m.is_empty()
}

/// Relies on `SkipMap::iter`: every entry of the map, sorted by key (a `Vec<u8>` key sorts
/// lexicographically).
#[verifier::external_body]
fn skipmap_entries(m: &SkipMap<Vec<u8>, Vec<u8>>) -> (r: Vec<(Vec<u8>, Vec<u8>)>)
    ensures
        sorted_run(run_view(r@)),
        forall|i: int| 0 <= i < r@.len() ==> skipmap_contents(*m).contains_key(#[trigger] r@[i].0@)
            && skipmap_contents(*m)[r@[i].0@] == r@[i].1@,
        forall|k: Seq<u8>| #[trigger] skipmap_contents(*m).contains_key(k) ==> run_has_key(run_view(r@), k),
{
    m.iter().map(|e| (e.key().clone(), e.value().clone())).collect()
}

/// The part of a log record that its checksum covers: key length, key, value length, value.
pub open spec fn wal_body(key: Seq<u8>, value: Seq<u8>) -> Seq<u8> {
    u16_be(key.len() as u16) + key + u16_be(value.len() as u16) + value
}

/// One write-ahead-log record: the body, then the CRC-32 of the body.
pub open spec fn wal_record(key: Seq<u8>, value: Seq<u8>) -> Seq<u8> {
    wal_body(key, value) + u32_be(crc32_of(wal_body(key, value)))
}

/// The log that a run of puts writes, one record each, in order.
pub open spec fn wal_log(puts: Seq<(Seq<u8>, Seq<u8>)>) -> Seq<u8>
    decreases puts.len(),
{
    if puts.len() == 0 {
        Seq::empty()
    } else {
        wal_log(puts.drop_last()) + wal_record(puts.last().0, puts.last().1)
    }
}

/// The map that a run of puts leaves, applied in order to `m`: a later put of a key
/// replaces an earlier one.
pub open spec fn apply_puts(m: Map<Seq<u8>, Seq<u8>>, puts: Seq<(Seq<u8>, Seq<u8>)>) -> Map<Seq<u8>, Seq<u8>>
    decreases puts.len(),
{
    if puts.len() == 0 {
        m
    } else {
        apply_puts(m, puts.drop_last()).insert(puts.last().0, puts.last().1)
    }
}

/// Keys and values short enough for the log's `u16` lengths.
pub open spec fn fits_log(puts: Seq<(Seq<u8>, Seq<u8>)>) -> bool {
    forall|i: int| 0 <= i < puts.len() ==> (#[trigger] puts[i]).0.len() < 0x1_0000 && puts[i].1.len() < 0x1_0000
}

/// The records that a log holds, read from the front: each must be whole and match its
/// checksum.
pub open spec fn parse_wal(s: Seq<u8>) -> Result<Seq<(Seq<u8>, Seq<u8>)>, StorageError>
    decreases s.len(),
{
    if s.len() == 0 {
        Ok(Seq::empty())
    } else if s.len() < 2 {
        Err(StorageError::WalTruncated)
    } else {
        let k = read_be(s, 0, 2) as int;
        if s.len() < 4 + k {
            Err(StorageError::WalTruncated)
        } else {
            let v = read_be(s, 2 + k, 2) as int;
            if s.len() < 8 + k + v {
                Err(StorageError::WalTruncated)
            } else if read_be(s, 4 + k + v, 4) != crc32_of(s.subrange(0, 4 + k + v)) as nat {
                Err(StorageError::WalChecksumMismatch)
            } else {
                match parse_wal(s.subrange(8 + k + v, s.len() as int)) {
                    Ok(rest) => Ok(seq![(s.subrange(2, 2 + k), s.subrange(4 + k, 4 + k + v))] + rest),
                    Err(e) => Err(e),
                }
            }
        }
    }
}

/// An append-only log of puts. It holds the bytes that the log's file holds once synced.
pub struct Wal {
    data: Vec<u8>,
}

impl Wal {
    pub closed spec fn contents(&self) -> Seq<u8> {
        self.data@
    }

    /// An empty log.
    pub fn create() -> (r: Wal)
        ensures
            r.contents() == Seq::<u8>::empty(),
    {
        Wal { data: Vec::new() }
    }

    /// Appends one record for the pair.
    pub fn put(&mut self, key: &[u8], value: &[u8])
        requires
            key@.len() < 0x1_0000,
            value@.len() < 0x1_0000,
        ensures
            final(self).contents() == old(self).contents() + wal_record(key@, value@),
    {
        let mut buf: Vec<u8> = Vec::new();
        put_u16(&mut buf, key.len() as u16);
        put_slice(&mut buf, key);
        put_u16(&mut buf, value.len() as u16);
        put_slice(&mut buf, value);
        let sum = crc32(buf.as_slice());
        put_u32(&mut buf, sum);
        put_slice(&mut self.data, buf.as_slice());
    }

    /// The bytes of the log.
    pub fn bytes(&self) -> (r: &[u8])
        ensures
            r@ == self.contents(),
    {
        self.data.as_slice()
    }

    /// Reads back the records of a log, which then goes on from where it ends.
    #[verifier::rlimit(100)]
    pub fn recover(bytes: &[u8]) -> (r: Result<(Wal, Vec<(Vec<u8>, Vec<u8>)>), StorageError>)
        ensures
            match (r, parse_wal(bytes@)) {
                (Ok((w, recs)), Ok(p)) => w.contents() == bytes@ && recs.len() == p.len() && forall|i: int|
                    0 <= i < p.len() ==> (#[trigger] recs@[i]).0@ == p[i].0 && recs@[i].1@ == p[i].1,
                (Err(e), Err(q)) => e == q,
                _ => false,
            },
    {
        let n = bytes.len();
        let mut pos: usize = 0;
        let mut recs: Vec<(Vec<u8>, Vec<u8>)> = Vec::new();
        let ghost mut acc: Seq<(Seq<u8>, Seq<u8>)> = Seq::empty();
        proof {
            assert(bytes@.subrange(0, n as int) =~= bytes@);
        }
        while pos < n
            invariant
                n == bytes@.len(),
                pos <= n,
                recs.len() == acc.len(),
                forall|i: int| 0 <= i < acc.len() ==> (#[trigger] recs@[i]).0@ == acc[i].0 && recs@[i].1@ == acc[i].1,
                parse_wal(bytes@) == prepend(acc, parse_wal(bytes@.subrange(pos as int, n as int))),
            decreases n - pos,
        {
            let ghost s = bytes@.subrange(pos as int, n as int);
            if n - pos < 2 {
                return Err(StorageError::WalTruncated);
            }
            let key_len = get_u16(bytes, pos) as usize;
            proof {
                assert(s.subrange(0, 2) =~= bytes@.subrange(pos as int, pos + 2));
            }
            if n - pos - 2 < key_len + 2 {
                return Err(StorageError::WalTruncated);
            }
            let value_len = get_u16(bytes, pos + 2 + key_len) as usize;
            proof {
                assert(s.subrange(2 + key_len, 4 + key_len) =~= bytes@.subrange(pos + 2 + key_len, pos + 4 + key_len));
            }
            if n - pos - 4 - key_len < value_len + 4 {
                return Err(StorageError::WalTruncated);
            }
            let body_end = pos + 4 + key_len + value_len;
            let stored = get_u32(bytes, body_end);
            let sum = crc32(&bytes[pos..body_end]);
            proof {
                let b = 4 + key_len + value_len;
                assert(s.subrange(b as int, b + 4) =~= bytes@.subrange(body_end as int, body_end + 4));
                assert(s.subrange(0, b as int) =~= bytes@.subrange(pos as int, body_end as int));
            }
            if stored != sum {
                return Err(StorageError::WalChecksumMismatch);
            }
            let key = copy_range(bytes, pos + 2, pos + 2 + key_len);
            let value = copy_range(bytes, pos + 4 + key_len, body_end);
            proof {
                let k = key_len as int;
                let v = value_len as int;
                assert(s.subrange(2, 2 + k) =~= key@);
                assert(s.subrange(4 + k, 4 + k + v) =~= value@);
                assert(s.subrange(8 + k + v, s.len() as int) =~= bytes@.subrange(body_end + 4, n as int));
                let rest = parse_wal(bytes@.subrange(body_end + 4, n as int));
                let one = seq![(key@, value@)];
                match rest {
                    Ok(rs) => {
                        assert(acc + (one + rs) =~= acc.push((key@, value@)) + rs);
                    },
                    Err(_) => {},
                }
                acc = acc.push((key@, value@));
            }
            recs.push((key, value));
            pos = body_end + 4;
        }
        proof {
            assert(bytes@.subrange(n as int, n as int) =~= Seq::<u8>::empty());
            assert(acc + Seq::<(Seq<u8>, Seq<u8>)>::empty() =~= acc);
        }
        let data = copy_range(bytes, 0, n);
        Ok((Wal { data }, recs))
    }
}

/// `acc` followed by what `r` holds, or `r`'s error.
pub open spec fn prepend(
    acc: Seq<(Seq<u8>, Seq<u8>)>,
    r: Result<Seq<(Seq<u8>, Seq<u8>)>, StorageError>,
) -> Result<Seq<(Seq<u8>, Seq<u8>)>, StorageError> {
    match r {
        Ok(rest) => Ok(acc + rest),
        Err(e) => Err(e),
    }
}

} // verus!

verus! {

/// The in-memory sorted map that takes the newest writes, with an optional log of them.
pub struct MemTable {
    map: SkipMap<Vec<u8>, Vec<u8>>,
    wal: Option<Wal>,
    id: usize,
    approximate_size: usize,
}

impl MemTable {
    /// The pairs the table holds.
    pub closed spec fn contents(&self) -> Map<Seq<u8>, Seq<u8>> {
        skipmap_contents(self.map)
    }

    pub closed spec fn id_spec(&self) -> usize {
        self.id
    }

    pub closed spec fn size_spec(&self) -> usize {
        self.approximate_size
    }

    /// The bytes of the table's log, when it has one.
    pub closed spec fn log(&self) -> Option<Seq<u8>> {
        match self.wal {
            Some(w) => Some(w.contents()),
            None => None,
        }
    }

    /// An empty table without a log.
    pub fn create(id: usize) -> (r: MemTable)
        ensures
            r.contents() == empty_map(),
            r.id_spec() == id,
            r.size_spec() == 0,
            r.log() == None::<Seq<u8>>,
    {
        MemTable { map: skipmap_new(), wal: None, id, approximate_size: 0 }
    }

    /// An empty table with an empty log.
    pub fn create_with_wal(id: usize) -> (r: MemTable)
        ensures
            r.contents() == empty_map(),
            r.id_spec() == id,
            r.size_spec() == 0,
            r.log() == Some(Seq::<u8>::empty()),
            log_consistent(r),
    {
        MemTable { map: skipmap_new(), wal: Some(Wal::create()), id, approximate_size: 0 }
    }

    /// Rebuilds a table from the bytes of its log: every record, in order, with a later
    /// record of a key replacing an earlier one.
    pub fn recover_from_wal(id: usize, bytes: &[u8]) -> (r: Result<MemTable, StorageError>)
        ensures
            match (r, parse_wal(bytes@)) {
                (Ok(t), Ok(p)) => t.contents() == apply_puts(empty_map(), p) && t.id_spec() == id
                    && t.size_spec() == 0 && t.log() == Some(bytes@) && log_consistent(t),
                (Err(e), Err(q)) => e == q,
                _ => false,
            },
    {
        match Wal::recover(bytes) {
            Err(e) => Err(e),
            Ok((wal, recs)) => {
                let ghost p = parse_wal(bytes@)->Ok_0;
                let mut map = skipmap_new();
                let mut i: usize = 0;
                while i < recs.len()
                    invariant
                        i <= recs.len() == p.len(),
                        forall|j: int| 0 <= j < p.len() ==> (#[trigger] recs@[j]).0@ == p[j].0 && recs@[j].1@ == p[j].1,
                        skipmap_contents(map) == apply_puts(empty_map(), p.subrange(0, i as int)),
                    decreases recs.len() - i,
                {
                    let key = copy_range(recs[i].0.as_slice(), 0, recs[i].0.len());
                    let value = copy_range(recs[i].1.as_slice(), 0, recs[i].1.len());
                    skipmap_insert(&mut map, key, value);
                    proof {
                        assert(recs@[i as int].0@.subrange(0, recs@[i as int].0@.len() as int) =~= recs@[i as int].0@);
                        assert(recs@[i as int].1@.subrange(0, recs@[i as int].1@.len() as int) =~= recs@[i as int].1@);
                        assert(p.subrange(0, i + 1).drop_last() =~= p.subrange(0, i as int));
                    }
                    i = i + 1;
                }
                proof {
                    assert(p.subrange(0, p.len() as int) =~= p);
                }
                Ok(MemTable { map, wal: Some(wal), id, approximate_size: 0 })
            },
        }
    }

    pub fn id(&self) -> (r: usize)
        ensures
            r == self.id_spec(),
    {
        self.id
    }

    /// Puts a pair (an empty value marks a deletion), adds the lengths to the size
    /// estimate (saturating; also on overwrite), and appends a record to the log if there
    /// is one.
    pub fn put(&mut self, key: &[u8], value: &[u8])
        requires
            key@.len() < 0x1_0000,
            value@.len() < 0x1_0000,
        ensures
            final(self).contents() == old(self).contents().insert(key@, value@),
            final(self).id_spec() == old(self).id_spec(),
            final(self).size_spec() as int == if old(self).size_spec() + key@.len() + value@.len()
                <= usize::MAX {
                old(self).size_spec() + key@.len() + value@.len()
            } else {
                usize::MAX as int
            },
            final(self).log() == match old(self).log() {
                Some(l) => Some(l + wal_record(key@, value@)),
                None => None,
            },
            log_consistent(*old(self)) ==> log_consistent(*final(self)),
    {
        let estimated = key.len() + value.len();
        skipmap_insert(&mut self.map, copy_range(key, 0, key.len()), copy_range(value, 0, value.len()));
        proof {
            assert(key@.subrange(0, key@.len() as int) =~= key@);
            assert(value@.subrange(0, value@.len() as int) =~= value@);
        }
        self.approximate_size = self.approximate_size.saturating_add(estimated);
        match &mut self.wal {
            Some(w) => w.put(key, value),
            None => {},
        }
        proof {
            if log_consistent(*old(self)) {
                match old(self).log() {
                    Some(l) => {
                        lemma_parse_append(l, key@, value@);
                        let p = parse_wal(l)->Ok_0;
                        assert(p.push((key@, value@)).drop_last() =~= p);
                    },
                    None => {},
                }
            }
        }
    }

    pub fn for_testing_put_slice(&mut self, key: &[u8], value: &[u8])
        requires
            key@.len() < 0x1_0000,
            value@.len() < 0x1_0000,
        ensures
            final(self).contents() == old(self).contents().insert(key@, value@),
    {
        self.put(key, value)
    }

    /// The value put last for `key`, as it was put (an empty value is returned as is).
    pub fn get(&self, key: &[u8]) -> (r: Option<Vec<u8>>)
        ensures
            r is Some <==> self.contents().contains_key(key@),
            r matches Some(v) ==> v@ == self.contents()[key@],
    {
        skipmap_get(&self.map, key)
    }

    pub fn for_testing_get_slice(&self, key: &[u8]) -> (r: Option<Vec<u8>>)
        ensures
            r is Some <==> self.contents().contains_key(key@),
            r matches Some(v) ==> v@ == self.contents()[key@],
    {
        self.get(key)
    }

    pub fn is_empty(&self) -> (r: bool)
        ensures
            r == (self.contents() == empty_map()),
    {
        skipmap_is_empty(&self.map)
    }

    /// The size estimate: the sum of key and value lengths over all puts.
    pub fn approximate_size(&self) -> (r: usize)
        ensures
            r == self.size_spec(),
    {
        self.approximate_size
    }

    /// The bytes of the log, when the table has one.
    pub fn wal_bytes(&self) -> (r: Option<&[u8]>)
        ensures
            match (r, self.log()) {
                (Some(b), Some(l)) => b@ == l,
                (None, None) => true,
                _ => false,
            },
    {
        match &self.wal {
            Some(w) => Some(w.bytes()),
            None => None,
        }
    }
}

} // verus!

verus! {

proof fn lemma_parse_record(key: Seq<u8>, value: Seq<u8>, t: Seq<u8>)
    requires
        key.len() < 0x1_0000,
        value.len() < 0x1_0000,
    ensures
        parse_wal(wal_record(key, value) + t) == prepend(seq![(key, value)], parse_wal(t)),
{
    lemma_pow_values();
    let kl = key.len();
    let vl = value.len();
    let c = crc32_of(wal_body(key, value));
    lemma_be_bytes_len(kl, 2);
    lemma_be_bytes_len(vl, 2);
    lemma_be_bytes_len(c as nat, 4);
    let s = wal_record(key, value) + t;
    let a = u16_be(kl as u16);
    let b = u16_be(vl as u16);
    let d = u32_be(c);
    assert(s =~= Seq::<u8>::empty() + a + (key + b + value + d + t));
    lemma_read_be_of(Seq::empty(), kl, 2, key + b + value + d + t);
    assert(s =~= (a + key) + b + (value + d + t));
    lemma_read_be_of(a + key, vl, 2, value + d + t);
    assert(s =~= (a + key + b + value) + d + t);
    lemma_read_be_of(a + key + b + value, c as nat, 4, t);
    let k = kl as int;
    let v = vl as int;
    assert(s.subrange(0, 4 + k + v) =~= wal_body(key, value));
    assert(s.subrange(2, 2 + k) =~= key);
    assert(s.subrange(4 + k, 4 + k + v) =~= value);
    assert(s.subrange(8 + k + v, s.len() as int) =~= t);
}

proof fn lemma_wal_log_front(puts: Seq<(Seq<u8>, Seq<u8>)>)
    requires
        puts.len() > 0,
    ensures
        wal_log(puts) == wal_record(puts[0].0, puts[0].1) + wal_log(puts.subrange(1, puts.len() as int)),
    decreases puts.len(),
{
    let rest = puts.subrange(1, puts.len() as int);
    if puts.len() == 1 {
        assert(puts.drop_last() =~= Seq::<(Seq<u8>, Seq<u8>)>::empty());
        assert(rest =~= Seq::<(Seq<u8>, Seq<u8>)>::empty());
        assert(wal_log(puts.drop_last()) == Seq::<u8>::empty());
        assert(wal_log(rest) == Seq::<u8>::empty());
        assert(puts.last() == puts[0]);
        assert(wal_log(puts) =~= wal_record(puts[0].0, puts[0].1) + Seq::<u8>::empty());
    } else {
        let init = puts.drop_last();
        lemma_wal_log_front(init);
        assert(init.subrange(1, init.len() as int) =~= rest.drop_last());
        assert(rest.last() == puts.last());
        assert(wal_log(puts) =~= wal_record(puts[0].0, puts[0].1) + wal_log(rest));
    }
}

/// A log written by a run of puts reads back as exactly those puts, in order.
pub proof fn lemma_wal_round_trip(puts: Seq<(Seq<u8>, Seq<u8>)>)
    requires
        fits_log(puts),
    ensures
        parse_wal(wal_log(puts)) == Ok::<Seq<(Seq<u8>, Seq<u8>)>, StorageError>(puts),
    decreases puts.len(),
{
    if puts.len() > 0 {
        let rest = puts.subrange(1, puts.len() as int);
        assert(fits_log(rest)) by {
            assert forall|i: int| 0 <= i < rest.len() implies (#[trigger] rest[i]).0.len() < 0x1_0000
                && rest[i].1.len() < 0x1_0000 by {
                assert(rest[i] == puts[i + 1]);
            }
        }
        lemma_wal_round_trip(rest);
        lemma_wal_log_front(puts);
        assert(puts[0].0.len() < 0x1_0000 && puts[0].1.len() < 0x1_0000);
        lemma_parse_record(puts[0].0, puts[0].1, wal_log(rest));
        assert(seq![(puts[0].0, puts[0].1)] + rest =~= puts);
    } else {
        assert(wal_log(puts) =~= Seq::<u8>::empty());
        assert(puts =~= Seq::<(Seq<u8>, Seq<u8>)>::empty());
    }
}

/// Replaying puts leaves, for each key, the value of the last put of that key.
pub proof fn lemma_apply_puts_last(puts: Seq<(Seq<u8>, Seq<u8>)>, i: int)
    requires
        0 <= i < puts.len(),
        forall|j: int| i < j < puts.len() ==> (#[trigger] puts[j]).0 != puts[i].0,
    ensures
        apply_puts(empty_map(), puts).contains_key(puts[i].0),
        apply_puts(empty_map(), puts)[puts[i].0] == puts[i].1,
    decreases puts.len(),
{
    if i < puts.len() - 1 {
        let init = puts.drop_last();
        assert forall|j: int| i < j < init.len() implies (#[trigger] init[j]).0 != init[i].0 by {
            assert(init[j] == puts[j]);
        }
        lemma_apply_puts_last(init, i);
        assert(puts.last().0 != puts[i].0);
    }
}

/// Replaying puts that never name `key` leaves it absent.
pub proof fn lemma_apply_puts_absent(puts: Seq<(Seq<u8>, Seq<u8>)>, key: Seq<u8>)
    requires
        forall|j: int| 0 <= j < puts.len() ==> (#[trigger] puts[j]).0 != key,
    ensures
        !apply_puts(empty_map(), puts).contains_key(key),
    decreases puts.len(),
{
    if puts.len() > 0 {
        let init = puts.drop_last();
        assert forall|j: int| 0 <= j < init.len() implies (#[trigger] init[j]).0 != key by {
            assert(init[j] == puts[j]);
        }
        lemma_apply_puts_absent(init, key);
        assert(puts[puts.len() - 1].0 != key);
    }
}

} // verus!

verus! {

/// One end of a key range.
pub enum KeyBound {
    Unbounded,
    Included(Vec<u8>),
    Excluded(Vec<u8>),
}

/// `k` lies on the inner side of `b` taken as a lower bound.
pub open spec fn above_lower(b: KeyBound, k: Seq<u8>) -> bool {
    match b {
        KeyBound::Unbounded => true,
        KeyBound::Included(x) => key_le(x@, k),
        KeyBound::Excluded(x) => key_lt(x@, k),
    }
}

/// `k` lies on the inner side of `b` taken as an upper bound.
pub open spec fn below_upper(b: KeyBound, k: Seq<u8>) -> bool {
    match b {
        KeyBound::Unbounded => true,
        KeyBound::Included(x) => key_le(k, x@),
        KeyBound::Excluded(x) => key_lt(k, x@),
    }
}

fn is_above(b: &KeyBound, k: &[u8]) -> (r: bool)
    ensures
        r == above_lower(*b, k@),
{
    match b {
        KeyBound::Unbounded => true,
        KeyBound::Included(x) => compare_keys(x.as_slice(), k) <= 0,
        KeyBound::Excluded(x) => compare_keys(x.as_slice(), k) < 0,
    }
}

fn is_below(b: &KeyBound, k: &[u8]) -> (r: bool)
    ensures
        r == below_upper(*b, k@),
{
    match b {
        KeyBound::Unbounded => true,
        KeyBound::Included(x) => compare_keys(k, x.as_slice()) <= 0,
        KeyBound::Excluded(x) => compare_keys(k, x.as_slice()) < 0,
    }
}

/// A cursor over the pairs of a memtable within a key range, in ascending key order. It
/// holds its own copy of them, so a new cursor starts over.
pub struct MemTableIterator {
    items: Vec<(Vec<u8>, Vec<u8>)>,
    idx: usize,
}

impl MemTableIterator {
    pub closed spec fn items_spec(&self) -> Seq<(Seq<u8>, Seq<u8>)> {
        run_view(self.items@)
    }

    pub closed spec fn index(&self) -> int {
        self.idx as int
    }

    pub open spec fn valid(&self) -> bool {
        0 <= self.index() < self.items_spec().len()
    }

    pub fn is_valid(&self) -> (r: bool)
        ensures
            r == self.valid(),
    {
        self.idx < self.items.len()
    }

    pub fn key(&self) -> (r: &[u8])
        requires
            self.valid(),
        ensures
            r@ == self.items_spec()[self.index()].0,
    {
        self.items[self.idx].0.as_slice()
    }

    pub fn value(&self) -> (r: &[u8])
        requires
            self.valid(),
        ensures
            r@ == self.items_spec()[self.index()].1,
    {
        self.items[self.idx].1.as_slice()
    }

    pub fn next(&mut self)
        requires
            old(self).valid(),
        ensures
            final(self).items_spec() == old(self).items_spec(),
            final(self).index() == old(self).index() + 1,
    {
        let n = self.items.len();
        assert(self.idx < n);
        self.idx = self.idx + 1;
    }
}

impl MemTable {
    /// A cursor on the table's pairs whose keys lie within `lower` and `upper`, ascending.
    pub fn scan(&self, lower: &KeyBound, upper: &KeyBound) -> (r: MemTableIterator)
        ensures
            r.index() == 0,
            sorted_run(r.items_spec()),
            forall|i: int| 0 <= i < r.items_spec().len() ==> {
                let (k, v) = #[trigger] r.items_spec()[i];
                above_lower(*lower, k) && below_upper(*upper, k) && self.contents().contains_key(k)
                    && self.contents()[k] == v
            },
            forall|k: Seq<u8>| #[trigger] self.contents().contains_key(k) && above_lower(*lower, k) && below_upper(
                *upper,
                k,
            ) ==> run_has_key(r.items_spec(), k),
    {
        let all = skipmap_entries(&self.map);
        let ghost src = run_view(all@);
        let mut items: Vec<(Vec<u8>, Vec<u8>)> = Vec::new();
        let mut i: usize = 0;
        while i < all.len()
            invariant
                src == run_view(all@),
                sorted_run(src),
                i <= all@.len(),
                forall|j: int| 0 <= j < all@.len() ==> self.contents().contains_key(#[trigger] all@[j].0@)
                    && self.contents()[all@[j].0@] == all@[j].1@,
                sorted_run(run_view(items@)),
                i < all@.len() ==> forall|t: int| 0 <= t < items@.len() ==> key_lt(#[trigger] run_view(items@)[t].0, src[i as int].0),
                forall|t: int| 0 <= t < items@.len() ==> {
                    let (k, v) = #[trigger] run_view(items@)[t];
                    above_lower(*lower, k) && below_upper(*upper, k) && self.contents().contains_key(k)
                        && self.contents()[k] == v
                },
                forall|j: int| 0 <= j < i && above_lower(*lower, #[trigger] src[j].0) && below_upper(*upper, src[j].0)
                    ==> run_has_key(run_view(items@), src[j].0),
            decreases all@.len() - i,
        {
            let ghost before = run_view(items@);
            let key = all[i].0.as_slice();
            assert(src[i as int].0 == key@);
            if is_above(lower, key) && is_below(upper, key) {
                let k = crate::encoding::copy_range(key, 0, key.len());
                let v = crate::encoding::copy_range(all[i].1.as_slice(), 0, all[i].1.len());
                proof {
                    assert(key@.subrange(0, key@.len() as int) =~= key@);
                    assert(all@[i as int].1@.subrange(0, all@[i as int].1@.len() as int) =~= all@[i as int].1@);
                }
                items.push((k, v));
                proof {
                    let now = run_view(items@);
                    assert(now =~= before.push(src[i as int]));
                    assert forall|x: int, y: int| 0 <= x < y < now.len() implies key_lt(#[trigger] now[x].0, #[trigger] now[y].0) by {
                        if y == before.len() {
                            assert(key_lt(before[x].0, src[i as int].0));
                        } else {
                            assert(key_lt(before[x].0, before[y].0));
                        }
                    }
                    assert forall|j: int| 0 <= j < i + 1 && above_lower(*lower, #[trigger] src[j].0) && below_upper(*upper, src[j].0)
                        implies run_has_key(now, src[j].0) by {
                        if j == i {
                            assert(now[before.len() as int].0 == src[j].0);
                        } else {
                            let t = choose|t: int| 0 <= t < before.len() && #[trigger] before[t].0 == src[j].0;
                            assert(now[t].0 == src[j].0);
                        }
                    }
                }
            }
            proof {
                let now = run_view(items@);
                if i + 1 < all@.len() {
                    assert forall|t: int| 0 <= t < now.len() implies key_lt(#[trigger] now[t].0, src[i + 1].0) by {
                        assert(key_lt(src[i as int].0, src[i + 1].0));
                        if t < before.len() {
                            lemma_key_lt_trans(before[t].0, src[i as int].0, src[i + 1].0);
                        }
                    }
                }
            }
            i = i + 1;
        }
        proof {
            assert forall|k: Seq<u8>| #[trigger] self.contents().contains_key(k) && above_lower(*lower, k) && below_upper(*upper, k)
                implies run_has_key(run_view(items@), k) by {
                assert(skipmap_contents(self.map).contains_key(k));
                let j = choose|j: int| 0 <= j < src.len() && #[trigger] src[j].0 == k;
            }
        }
        MemTableIterator { items, idx: 0 }
    }
}

} // verus!

verus! {

/// The table's contents are what its log (when it has one) replays to.
pub open spec fn log_consistent(m: MemTable) -> bool {
    match m.log() {
        Some(l) => parse_wal(l) is Ok && m.contents() == apply_puts(empty_map(), parse_wal(l)->Ok_0),
        None => true,
    }
}

/// Appending a record to a log that reads back whole adds that record to what it reads.
pub proof fn lemma_parse_append(l: Seq<u8>, key: Seq<u8>, value: Seq<u8>)
    requires
        parse_wal(l) is Ok,
        key.len() < 0x1_0000,
        value.len() < 0x1_0000,
    ensures
        parse_wal(l + wal_record(key, value)) == Ok::<Seq<(Seq<u8>, Seq<u8>)>, StorageError>(
            parse_wal(l)->Ok_0.push((key, value)),
        ),
    decreases l.len(),
{
    let rec = wal_record(key, value);
    let s = l + rec;
    if l.len() == 0 {
        assert(s =~= rec + Seq::<u8>::empty());
        lemma_parse_record(key, value, Seq::empty());
        assert(parse_wal(Seq::<u8>::empty()) == Ok::<Seq<(Seq<u8>, Seq<u8>)>, StorageError>(Seq::empty()));
        assert(seq![(key, value)] + Seq::<(Seq<u8>, Seq<u8>)>::empty() =~= Seq::<(Seq<u8>, Seq<u8>)>::empty().push((key, value)));
    } else {
        let k = read_be(l, 0, 2) as int;
        let v = read_be(l, 2 + k, 2) as int;
        let n = 8 + k + v;
        assert(l.subrange(0, 2) =~= s.subrange(0, 2));
        assert(l.subrange(2 + k, 4 + k) =~= s.subrange(2 + k, 4 + k));
        assert(l.subrange(4 + k + v, n) =~= s.subrange(4 + k + v, n));
        assert(l.subrange(0, 4 + k + v) =~= s.subrange(0, 4 + k + v));
        assert(l.subrange(2, 2 + k) =~= s.subrange(2, 2 + k));
        assert(l.subrange(4 + k, 4 + k + v) =~= s.subrange(4 + k, 4 + k + v));
        let rest = l.subrange(n, l.len() as int);
        assert(s.subrange(n, s.len() as int) =~= rest + rec);
        lemma_parse_append(rest, key, value);
        let first = seq![(l.subrange(2, 2 + k), l.subrange(4 + k, 4 + k + v))];
        assert(first + parse_wal(rest)->Ok_0.push((key, value)) =~= (first + parse_wal(rest)->Ok_0).push((key, value)));
    }
}

/// A table whose contents its log replays to is rebuilt from that log with the same
/// contents (see `recover_from_wal`): a clean shutdown loses nothing of it.
pub proof fn lemma_log_restores(m: MemTable, bytes: Seq<u8>)
    requires
        log_consistent(m),
        m.log() == Some(bytes),
    ensures
        parse_wal(bytes) is Ok,
        apply_puts(empty_map(), parse_wal(bytes)->Ok_0) == m.contents(),
{
}

} // verus!
