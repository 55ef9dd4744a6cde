use vstd::prelude::*;

use crate::checksum::{crc32, crc32_of};
use crate::encoding::{
    copy_range, get_u32, get_u64, lemma_be_bytes_len, lemma_pow_values, lemma_read_be_of,
    put_slice, put_u32, put_u64, read_be, u32_be, u64_be,
};
use crate::error::StorageError;

verus! {

/// A structural change that must survive a crash.
#[derive(Debug, Clone, Copy, PartialEq, Eq, Structural)]
pub enum ManifestRecord {
    /// The memtable with this id was written out as the table with the same id.
    Flush(usize),
    /// A memtable with this id became the active one.
    NewMemtable(usize),
}

/// One manifest record on disk: the payload's length (`u64`), the payload, its CRC-32.
pub open spec fn frame_spec(payload: Seq<u8>) -> Seq<u8> {
    u64_be(payload.len() as u64) + payload + u32_be(crc32_of(payload))
}

/// The payloads of a manifest, read from the front: each record must be whole and match
/// its checksum.
pub open spec fn parse_frames(s: Seq<u8>) -> Result<Seq<Seq<u8>>, StorageError>
    decreases s.len(),
{
    if s.len() == 0 {
        Ok(Seq::empty())
    } else if s.len() < 8 {
        Err(StorageError::ManifestTruncated)
    } else {
        let n = read_be(s, 0, 8) as int;
        if s.len() < 12 + n {
            Err(StorageError::ManifestTruncated)
        } else if read_be(s, 8 + n, 4) != crc32_of(s.subrange(8, 8 + n)) as nat {
            Err(StorageError::ManifestChecksumMismatch)
        } else {
            match parse_frames(s.subrange(12 + n, s.len() as int)) {
                Ok(rest) => Ok(seq![s.subrange(8, 8 + n)] + rest),
                Err(e) => Err(e),
            }
        }
    }
}

pub open spec fn prepend_frames(acc: Seq<Seq<u8>>, r: Result<Seq<Seq<u8>>, StorageError>) -> Result<
    Seq<Seq<u8>>,
    StorageError,
> {
    match r {
        Ok(rest) => Ok(acc + rest),
        Err(e) => Err(e),
    }
}

/// The append-only manifest log, as bytes.
pub struct Manifest {
    data: Vec<u8>,
}

impl Manifest {
    pub closed spec fn contents(&self) -> Seq<u8> {
        self.data@
    }

    /// An empty manifest.
    pub fn create() -> (r: Manifest)
        ensures
            r.contents() == Seq::<u8>::empty(),
    {
        Manifest { data: Vec::new() }
    }

    /// The frame for one record's payload.
    pub fn encode_record(payload: &[u8]) -> (r: Vec<u8>)
        ensures
            r@ == frame_spec(payload@),
    {
        let mut buf: Vec<u8> = Vec::new();
        put_u64(&mut buf, payload.len() as u64);
        put_slice(&mut buf, payload);
        put_u32(&mut buf, crc32(payload));
        buf
    }

    /// Appends the frame for one record's payload.
    pub fn add_record(&mut self, payload: &[u8]) -> (r: Vec<u8>)
        ensures
            r@ == frame_spec(payload@),
            final(self).contents() == old(self).contents() + frame_spec(payload@),
    {
        let frame = Manifest::encode_record(payload);
        put_slice(&mut self.data, frame.as_slice());
        frame
    }

    /// Reads back the payloads of a manifest; the manifest then goes on from where it ends.
    pub fn recover(bytes: &[u8]) -> (r: Result<(Manifest, Vec<Vec<u8>>), StorageError>)
        ensures
            match (r, parse_frames(bytes@)) {
                (Ok((m, ps)), Ok(p)) => m.contents() == bytes@ && ps.len() == p.len() && forall|i: int|
                    0 <= i < p.len() ==> (#[trigger] ps@[i])@ == p[i],
                (Err(e), Err(q)) => e == q,
                _ => false,
            },
    {
        let n = bytes.len();
        let mut pos: usize = 0;
        let mut out: Vec<Vec<u8>> = Vec::new();
        let ghost mut acc: Seq<Seq<u8>> = Seq::empty();
        proof {
            assert(bytes@.subrange(0, n as int) =~= bytes@);
        }
        while pos < n
            invariant
                n == bytes@.len(),
                pos <= n,
                out.len() == acc.len(),
                forall|i: int| 0 <= i < acc.len() ==> (#[trigger] out@[i])@ == acc[i],
                parse_frames(bytes@) == prepend_frames(acc, parse_frames(bytes@.subrange(pos as int, n as int))),
            decreases n - pos,
        {
            let ghost s = bytes@.subrange(pos as int, n as int);
            if n - pos < 8 {
                return Err(StorageError::ManifestTruncated);
            }
            let len = get_u64(bytes, pos);
            proof {
                assert(s.subrange(0, 8) =~= bytes@.subrange(pos as int, pos + 8));
            }
            if len > (n - pos - 8) as u64 || n - pos - 8 - (len as usize) < 4 {
                return Err(StorageError::ManifestTruncated);
            }
            let len = len as usize;
            let end = pos + 8 + len;
            let stored = get_u32(bytes, end);
            let sum = crc32(&bytes[pos + 8..end]);
            proof {
                assert(s.subrange(8 + len, 12 + len) =~= bytes@.subrange(end as int, end + 4));
                assert(s.subrange(8, 8 + len) =~= bytes@.subrange(pos + 8, end as int));
            }
            if stored != sum {
                return Err(StorageError::ManifestChecksumMismatch);
            }
            let payload = copy_range(bytes, pos + 8, end);
            proof {
                assert(s.subrange(12 + len, s.len() as int) =~= bytes@.subrange(end + 4, n as int));
                match parse_frames(bytes@.subrange(end + 4, n as int)) {
                    Ok(rs) => {
                        assert(acc + (seq![payload@] + rs) =~= acc.push(payload@) + rs);
                    },
                    Err(_) => {},
                }
                acc = acc.push(payload@);
            }
            out.push(payload);
            pos = end + 4;
        }
        proof {
            assert(bytes@.subrange(n as int, n as int) =~= Seq::<u8>::empty());
            assert(acc + Seq::<Seq<u8>>::empty() =~= acc);
        }
        let data = copy_range(bytes, 0, n);
        Ok((Manifest { data }, out))
    }
}

/// What a manifest's records leave: the memtables not yet flushed (ascending), the L0
/// tables (newest first), the levels, and the largest id seen (at least one).
pub struct ManifestReplay {
    pub memtables: Vec<usize>,
    pub l0_sstables: Vec<usize>,
    pub levels: Vec<(usize, Vec<usize>)>,
    pub max_id: usize,
}

pub open spec fn ascending(s: Seq<usize>) -> bool {
    forall|i: int, j: int| 0 <= i < j < s.len() ==> s[i] < s[j]
}

pub open spec fn levels_view(l: Seq<(usize, Vec<usize>)>) -> Seq<(usize, Seq<usize>)> {
    Seq::new(l.len(), |i: int| (l[i].0, l[i].1@))
}

/// The replay as plain values: memtable ids, L0 ids, levels, largest id.
pub type ReplayView = (Set<usize>, Seq<usize>, Seq<(usize, Seq<usize>)>, nat);

/// Replays records in order. A flush removes its memtable (an error if none is
/// outstanding) and puts its table in front of L0, or in a level of its own in front of the
/// levels when flushes do not go to L0; a new memtable is recorded as outstanding. Both
/// raise the largest id seen.
pub open spec fn replay_spec(
    records: Seq<ManifestRecord>,
    flush_to_l0: bool,
    levels: Seq<(usize, Seq<usize>)>,
) -> Result<ReplayView, StorageError>
    decreases records.len(),
{
    if records.len() == 0 {
        Ok((Set::empty(), Seq::empty(), levels, 1))
    } else {
        match replay_spec(records.drop_last(), flush_to_l0, levels) {
            Err(e) => Err(e),
            Ok((mems, l0, lv, mx)) => match records.last() {
                ManifestRecord::Flush(id) => if !mems.contains(id) {
                    Err(StorageError::UnknownMemtable)
                } else if flush_to_l0 {
                    Ok((mems.remove(id), seq![id] + l0, lv, if id > mx { id as nat } else { mx }))
                } else {
                    Ok((mems.remove(id), l0, seq![(id, seq![id])] + lv, if id > mx { id as nat } else { mx }))
                },
                ManifestRecord::NewMemtable(id) => Ok(
                    (mems.insert(id), l0, lv, if id > mx { id as nat } else { mx }),
                ),
            },
        }
    }
}

/// Inserts `x` into an ascending vector of distinct ids.
fn insert_sorted(v: &mut Vec<usize>, x: usize)
    requires
        ascending(old(v)@),
    ensures
        ascending(final(v)@),
        final(v)@.to_set() == old(v)@.to_set().insert(x),
{
    let mut i: usize = 0;
    while i < v.len() && v[i] < x
        invariant
            i <= v@.len(),
            forall|j: int| 0 <= j < i ==> v@[j] < x,
        decreases v@.len() - i,
    {
        i = i + 1;
    }
    if i < v.len() && v[i] == x {
        assert(old(v)@.to_set().insert(x) =~= old(v)@.to_set()) by {
            assert(old(v)@.contains(x) ==> old(v)@.to_set().contains(x));
            assert(old(v)@[i as int] == x);
        }
        return;
    }
    v.insert(i, x);
    proof {
        let o = old(v)@;
        assert(final(v)@ =~= o.subrange(0, i as int).push(x) + o.subrange(i as int, o.len() as int));
        assert forall|a: int, b: int| 0 <= a < b < final(v)@.len() implies final(v)@[a] < final(v)@[b] by {
            if a < i && b > i {
                assert(o[a] < x);
                assert(x <= o[b - 1]);
            } else if a == i && b > i {
                assert(x <= o[b - 1]);
                if x == o[b - 1] {
                    assert(b - 1 >= i);
                    if b - 1 > i {
                        assert(o[i as int] < o[b - 1]);
                        assert(o[i as int] >= x);
                    }
                }
            } else if b == i {
                assert(o[a] < x);
            } else if a > i {
                assert(o[a - 1] < o[b - 1]);
            } else {
                assert(o[a] < o[b]);
            }
        }
        assert(final(v)@.to_set() =~= o.to_set().insert(x)) by {
            assert forall|y: usize| final(v)@.to_set().contains(y) <==> o.to_set().insert(x).contains(y) by {
                if final(v)@.contains(y) {
                    let k = choose|k: int| 0 <= k < final(v)@.len() && final(v)@[k] == y;
                    if k < i {
                        assert(o[k] == y);
                    } else if k > i {
                        assert(o[k - 1] == y);
                    }
                }
                if o.contains(y) {
                    let k = choose|k: int| 0 <= k < o.len() && o[k] == y;
                    if k < i {
                        assert(final(v)@[k] == y);
                    } else {
                        assert(final(v)@[k + 1] == y);
                    }
                }
                if y == x {
                    assert(final(v)@[i as int] == x);
                }
            }
        }
    }
}

/// Removes `x` from an ascending vector of distinct ids; false if it was not there.
fn remove_sorted(v: &mut Vec<usize>, x: usize) -> (r: bool)
    requires
        ascending(old(v)@),
    ensures
        ascending(final(v)@),
        r == old(v)@.to_set().contains(x),
        final(v)@.to_set() == old(v)@.to_set().remove(x),
{
    let mut i: usize = 0;
    while i < v.len() && v[i] != x
        invariant
            i <= v@.len(),
            forall|j: int| 0 <= j < i ==> v@[j] != x,
        decreases v@.len() - i,
    {
        i = i + 1;
    }
    if i == v.len() {
        assert(!old(v)@.contains(x));
        assert(old(v)@.to_set().remove(x) =~= old(v)@.to_set());
        return false;
    }
    v.remove(i);
    proof {
        let o = old(v)@;
        assert(o.contains(x) && o[i as int] == x);
        assert(final(v)@ =~= o.subrange(0, i as int) + o.subrange(i + 1, o.len() as int));
        assert forall|a: int, b: int| 0 <= a < b < final(v)@.len() implies final(v)@[a] < final(v)@[b] by {
            if a < i && b >= i {
                assert(o[a] < o[b + 1]);
            } else if a >= i {
                assert(o[a + 1] < o[b + 1]);
            } else {
                assert(o[a] < o[b]);
            }
        }
        assert(final(v)@.to_set() =~= o.to_set().remove(x)) by {
            assert forall|y: usize| final(v)@.to_set().contains(y) <==> o.to_set().remove(x).contains(y) by {
                if final(v)@.contains(y) {
                    let k = choose|k: int| 0 <= k < final(v)@.len() && final(v)@[k] == y;
                    if k < i {
                        assert(o[k] == y);
                        assert(o[k] < o[i as int]);
                    } else {
                        assert(o[k + 1] == y);
                        assert(o[i as int] < o[k + 1]);
                    }
                }
                if o.contains(y) && y != x {
                    let k = choose|k: int| 0 <= k < o.len() && o[k] == y;
                    if k < i {
                        assert(final(v)@[k] == y);
                    } else {
                        assert(k != i);
                        assert(final(v)@[k - 1] == y);
                    }
                }
            }
        }
    }
    true
}

/// Replays the records of a manifest, starting from the given levels.
pub fn replay_manifest(
    records: &[ManifestRecord],
    flush_to_l0: bool,
    levels: Vec<(usize, Vec<usize>)>,
) -> (r: Result<ManifestReplay, StorageError>)
    ensures
        match (r, replay_spec(records@, flush_to_l0, levels_view(levels@))) {
            (Ok(p), Ok((mems, l0, lv, mx))) => ascending(p.memtables@) && p.memtables@.to_set() == mems
                && p.l0_sstables@ == l0 && levels_view(p.levels@) == lv && p.max_id == mx,
            (Err(e), Err(f)) => e == f,
            _ => false,
        },
{
    let ghost init = levels_view(levels@);
    let mut memtables: Vec<usize> = Vec::new();
    let mut l0: Vec<usize> = Vec::new();
    let mut lv = levels;
    let mut max_id: usize = 1;
    let mut i: usize = 0;
    proof {
        assert(records@.subrange(0, 0) =~= Seq::<ManifestRecord>::empty());
        assert(memtables@.to_set() =~= Set::<usize>::empty());
    }
    while i < records.len()
        invariant
            i <= records@.len(),
            ascending(memtables@),
            init == levels_view(levels@),
            replay_spec(records@.subrange(0, i as int), flush_to_l0, init) == Ok::<ReplayView, StorageError>(
                (memtables@.to_set(), l0@, levels_view(lv@), max_id as nat),
            ),
        decreases records@.len() - i,
    {
        proof {
            assert(records@.subrange(0, i + 1).drop_last() =~= records@.subrange(0, i as int));
            assert(records@.subrange(0, i + 1).last() == records@[i as int]);
        }
        let ghost l0_before = l0@;
        let ghost mems_before = memtables@.to_set();
        let ghost lv_before = lv@;
        match records[i] {
            ManifestRecord::Flush(id) => {
                if !remove_sorted(&mut memtables, id) {
                    proof {
                        assert(!mems_before.contains(id));
                        assert(replay_spec(records@.subrange(0, i + 1), flush_to_l0, init) == Err::<ReplayView, StorageError>(StorageError::UnknownMemtable));
                        lemma_replay_error_stays(records@, (i + 1) as int, flush_to_l0, init);
                    }
                    return Err(StorageError::UnknownMemtable);
                }
                if flush_to_l0 {
                    l0.insert(0, id);
                    assert(l0@ =~= seq![id] + l0_before);
                } else {
                    let one = vec![id];
                    assert(one@ =~= seq![id]);
                    lv.insert(0, (id, one));
                    assert(levels_view(lv@) =~= seq![(id, seq![id])] + levels_view(lv_before));
                }
                if id > max_id {
                    max_id = id;
                }
            },
            ManifestRecord::NewMemtable(id) => {
                insert_sorted(&mut memtables, id);
                if id > max_id {
                    max_id = id;
                }
            },
        }
        i = i + 1;
    }
    proof {
        assert(records@.subrange(0, i as int) =~= records@);
    }
    Ok(ManifestReplay { memtables, l0_sstables: l0, levels: lv, max_id })
}

/// Once a prefix of the records fails to replay, so do all the records.
proof fn lemma_replay_error_stays(
    records: Seq<ManifestRecord>,
    k: int,
    flush_to_l0: bool,
    levels: Seq<(usize, Seq<usize>)>,
)
    requires
        0 <= k <= records.len(),
        replay_spec(records.subrange(0, k), flush_to_l0, levels) is Err,
    ensures
        replay_spec(records, flush_to_l0, levels) == replay_spec(records.subrange(0, k), flush_to_l0, levels),
    decreases records.len() - k,
{
    if k < records.len() {
        let p = records.subrange(0, k + 1);
        assert(p.drop_last() =~= records.subrange(0, k));
        lemma_replay_error_stays(records, k + 1, flush_to_l0, levels);
    } else {
        assert(records.subrange(0, k) =~= records);
    }
}

} // verus!
