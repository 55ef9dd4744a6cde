use vstd::prelude::*;

use std::collections::HashMap;
use std::sync::Arc;

use crate::error::StorageError;
use crate::keys::{key_le, key_lt, lemma_key_lt_asymmetric, lemma_key_lt_total, lemma_key_lt_trans};
use crate::manifest::{levels_view, ManifestRecord, ManifestReplay};
use crate::memtable::{apply_puts, empty_map, MemTable};
use crate::sstable::{
    holds_block, is_read_error, key_within, table_get, table_has, table_has_key, table_sound, SsTable,
};

verus! {

broadcast use vstd::std_specs::hash::group_hash_axioms;

/// Simple leveled compaction: a size ratio between levels, an L0 trigger, a fixed number of levels.
#[derive(Debug, Clone, Copy, PartialEq, Eq, Structural)]
pub struct SimpleLeveledCompactionOptions {
    pub size_ratio_percent: usize,
    pub level0_file_num_compaction_trigger: usize,
    pub max_levels: usize,
}

/// Leveled compaction with partial compaction and dynamic level sizes.
#[derive(Debug, Clone, Copy, PartialEq, Eq, Structural)]
pub struct LeveledCompactionOptions {
    pub level_size_multiplier: usize,
    pub level0_file_num_compaction_trigger: usize,
    pub max_levels: usize,
    pub base_level_size_mb: usize,
}

/// Tiered (universal) compaction: sorted runs merged by tier.
#[derive(Debug, Clone, Copy, PartialEq, Eq, Structural)]
pub struct TieredCompactionOptions {
    pub num_tiers: usize,
    pub max_size_amplification_percent: usize,
    pub size_ratio: usize,
    pub min_merge_width: usize,
}

/// The compaction strategy, chosen at open time.
#[derive(Debug, Clone, Copy, PartialEq, Eq, Structural)]
pub enum CompactionOptions {
    Leveled(LeveledCompactionOptions),
    Tiered(TieredCompactionOptions),
    Simple(SimpleLeveledCompactionOptions),
    /// Everything stays in L0.
    NoCompaction,
}

impl CompactionOptions {
    /// Whether flushed tables go to L0 (all strategies but tiered).
    pub fn flush_to_l0(&self) -> (r: bool)
        ensures
            r == !(*self is Tiered),
    {
        match self {
            CompactionOptions::Tiered(_) => false,
            _ => true,
        }
    }
}

/// The levels a new state starts with: one empty level per level number for leveled and
/// simple compaction, none for tiered, a single level 1 without compaction.
pub open spec fn initial_levels(c: CompactionOptions) -> Seq<(usize, Seq<usize>)> {
    match c {
        CompactionOptions::Leveled(o) => Seq::new(o.max_levels as nat, |i: int| ((i + 1) as usize, Seq::<usize>::empty())),
        CompactionOptions::Simple(o) => Seq::new(o.max_levels as nat, |i: int| ((i + 1) as usize, Seq::<usize>::empty())),
        CompactionOptions::Tiered(_) => Seq::empty(),
        CompactionOptions::NoCompaction => seq![(1usize, Seq::<usize>::empty())],
    }
}

/// The engine's options.
#[derive(Debug, Clone, Copy, PartialEq, Eq, Structural)]
pub struct LsmStorageOptions {
    /// Bytes per block.
    pub block_size: usize,
    /// Bytes per table; also the size at which a memtable is frozen.
    pub target_sst_size: usize,
    /// Most immutable memtables kept in memory before a flush.
    pub num_memtable_limit: usize,
    pub compaction_options: CompactionOptions,
    pub enable_wal: bool,
    /// Reserved for a transaction layer.
    pub serializable: bool,
}

impl LsmStorageOptions {
    /// Blocks of 4096 bytes, 2 MiB tables, 50 memtables, no compaction, no log.
    pub fn default_for_week1_test() -> (r: LsmStorageOptions)
        ensures
            r.block_size == 4096,
            r.target_sst_size == 2 * 1024 * 1024,
            r.num_memtable_limit == 50,
            r.compaction_options == CompactionOptions::NoCompaction,
            !r.enable_wal,
            !r.serializable,
    {
        LsmStorageOptions {
            block_size: 4096,
            target_sst_size: 2 * 1024 * 1024,
            compaction_options: CompactionOptions::NoCompaction,
            enable_wal: false,
            num_memtable_limit: 50,
            serializable: false,
        }
    }
}

/// One write of a batch: a put, or a delete (a put of the empty value).
pub enum WriteBatchRecord {
    Put(Vec<u8>, Vec<u8>),
    Del(Vec<u8>),
}

impl WriteBatchRecord {
    /// The put that the record stands for.
    pub open spec fn as_put(&self) -> (Seq<u8>, Seq<u8>) {
        match self {
            WriteBatchRecord::Put(k, v) => (k@, v@),
            WriteBatchRecord::Del(k) => (k@, Seq::empty()),
        }
    }

    pub open spec fn fits(&self) -> bool {
        match self {
            WriteBatchRecord::Put(k, v) => k@.len() < 0x1_0000 && v@.len() < 0x1_0000,
            WriteBatchRecord::Del(k) => 0 < k@.len() < 0x1_0000,
        }
    }
}

pub open spec fn batch_puts(batch: Seq<WriteBatchRecord>) -> Seq<(Seq<u8>, Seq<u8>)> {
    Seq::new(batch.len(), |i: int| batch[i].as_put())
}

/// The value that the first layer holding `key` gives it.
pub open spec fn lookup_layers(layers: Seq<Map<Seq<u8>, Seq<u8>>>, key: Seq<u8>) -> Option<Seq<u8>>
    decreases layers.len(),
{
    if layers.len() == 0 {
        None
    } else if layers[0].contains_key(key) {
        Some(layers[0][key])
    } else {
        lookup_layers(layers.drop_first(), key)
    }
}

/// The table ids of the levels, level after level.
pub open spec fn concat_levels(l: Seq<(usize, Seq<usize>)>) -> Seq<usize>
    decreases l.len(),
{
    if l.len() == 0 {
        Seq::empty()
    } else {
        concat_levels(l.drop_last()) + l.last().1
    }
}

/// The state of the engine: the active memtable, the immutable ones (newest first), the L0
/// tables (newest first), the levels, and the open tables by id.
pub struct LsmStorageState {
    pub memtable: MemTable,
    pub imm_memtables: Vec<MemTable>,
    pub l0_sstables: Vec<usize>,
    pub levels: Vec<(usize, Vec<usize>)>,
    pub sstables: HashMap<usize, Arc<SsTable>>,
}

impl LsmStorageState {
    /// The memtables' contents, newest first.
    pub open spec fn layers(&self) -> Seq<Map<Seq<u8>, Seq<u8>>> {
        seq![self.memtable.contents()] + Seq::new(
            self.imm_memtables@.len(),
            |i: int| self.imm_memtables@[i].contents(),
        )
    }

    /// The order in which reads probe tables: L0 newest first, then the levels.
    pub open spec fn probe_order(&self) -> Seq<usize> {
        self.l0_sstables@ + concat_levels(levels_view(self.levels@))
    }

    pub open spec fn tables_wf(&self) -> bool {
        forall|id: usize| #[trigger] self.sstables@.contains_key(id) ==> self.sstables@[id].wf()
    }

    /// No table probed before position `i` holds `key`.
    pub open spec fn misses_before(&self, key: Seq<u8>, i: int) -> bool {
        forall|j: int|
            0 <= j < i ==> self.sstables@.contains_key(#[trigger] self.probe_order()[j])
                && !table_has_key(*self.sstables@[self.probe_order()[j]], key)
    }

    /// What a successful read of `key` gives: the newest memtable that holds it decides
    /// (an empty value reads as absent); failing that, the first table in probe order that
    /// holds it.
    pub open spec fn read_spec(&self, key: Seq<u8>) -> Option<Seq<u8>> {
        read_of(lookup_layers(self.layers(), key), self.probe_order(), self.sstables@, key)
    }

    /// Every table in probe order is open, and every block of it reads.
    pub open spec fn tables_readable(&self) -> bool {
        forall|i: int|
            0 <= i < self.probe_order().len() ==> self.sstables@.contains_key(#[trigger] self.probe_order()[i])
                && table_sound(*self.sstables@[self.probe_order()[i]])
    }

    /// The table probed at position `i` is the first to hold `key`, with `value`.
    pub open spec fn first_hit(&self, key: Seq<u8>, i: int, value: Seq<u8>) -> bool {
        &&& 0 <= i < self.probe_order().len()
        &&& self.misses_before(key, i)
        &&& self.sstables@.contains_key(self.probe_order()[i])
        &&& table_has(*self.sstables@[self.probe_order()[i]], key, value)
    }

    /// A fresh state: an empty memtable with id 0, no tables, and the strategy's levels.
    pub fn create(options: &LsmStorageOptions) -> (r: LsmStorageState)
        ensures
            r.memtable.contents() == empty_map(),
            r.memtable.id_spec() == 0,
            r.memtable.log() == None::<Seq<u8>>,
            r.imm_memtables@.len() == 0,
            r.l0_sstables@.len() == 0,
            levels_view(r.levels@) == initial_levels(options.compaction_options),
            r.sstables@ == Map::<usize, Arc<SsTable>>::empty(),
    {
        let mut levels: Vec<(usize, Vec<usize>)> = Vec::new();
        match options.compaction_options {
            CompactionOptions::Leveled(o) => {
                fill_levels(&mut levels, o.max_levels);
            },
            CompactionOptions::Simple(o) => {
                fill_levels(&mut levels, o.max_levels);
            },
            CompactionOptions::Tiered(_) => {},
            CompactionOptions::NoCompaction => {
                levels.push((1, Vec::new()));
            },
        }
        assert(levels_view(levels@) =~= initial_levels(options.compaction_options));
        LsmStorageState {
            memtable: MemTable::create(0),
            imm_memtables: Vec::new(),
            l0_sstables: Vec::new(),
            levels,
            sstables: HashMap::new(),
        }
    }
}

fn fill_levels(levels: &mut Vec<(usize, Vec<usize>)>, max_levels: usize)
    requires
        old(levels)@.len() == 0,
    ensures
        levels_view(final(levels)@) =~= Seq::new(max_levels as nat, |i: int| ((i + 1) as usize, Seq::<usize>::empty())),
{
    let mut i: usize = 0;
    while i < max_levels
        invariant
            i <= max_levels,
            levels_view(levels@) =~= Seq::new(i as nat, |j: int| ((j + 1) as usize, Seq::<usize>::empty())),
        decreases max_levels - i,
    {
        let empty: Vec<usize> = Vec::new();
        assert(empty@ =~= Seq::<usize>::empty());
        let ghost before = levels@;
        levels.push((i + 1, empty));
        assert(levels@.len() == before.len() + 1 && levels@[before.len() as int].0 == i + 1);
        assert(levels@[before.len() as int].1@ =~= Seq::<usize>::empty());
        assert(levels_view(levels@) =~= levels_view(before).push(((i + 1) as usize, Seq::<usize>::empty())));
        i = i + 1;
    }
}

} // verus!

verus! {

proof fn lemma_lookup_skip(layers: Seq<Map<Seq<u8>, Seq<u8>>>, i: int, key: Seq<u8>)
    requires
        0 <= i <= layers.len(),
        forall|j: int| 0 <= j < i ==> !(#[trigger] layers[j]).contains_key(key),
    ensures
        lookup_layers(layers, key) == lookup_layers(layers.subrange(i, layers.len() as int), key),
    decreases i,
{
    if i == 0 {
        assert(layers.subrange(0, layers.len() as int) =~= layers);
    } else {
        let d = layers.drop_first();
        assert forall|j: int| 0 <= j < i - 1 implies !(#[trigger] d[j]).contains_key(key) by {
            assert(d[j] == layers[j + 1]);
        }
        lemma_lookup_skip(d, i - 1, key);
        assert(d.subrange(i - 1, d.len() as int) =~= layers.subrange(i, layers.len() as int));
        assert(!layers[0].contains_key(key));
    }
}

/// Putting a pair into the newest layer changes the lookup of that key alone.
proof fn lemma_lookup_put(layers: Seq<Map<Seq<u8>, Seq<u8>>>, key: Seq<u8>, value: Seq<u8>, k: Seq<u8>)
    requires
        layers.len() >= 1,
    ensures
        lookup_layers(layers.update(0, layers[0].insert(key, value)), k) == if k == key {
            Some(value)
        } else {
            lookup_layers(layers, k)
        },
{
    let n = layers.update(0, layers[0].insert(key, value));
    assert(n.drop_first() =~= layers.drop_first());
}

/// An empty newest layer in front changes no lookup.
proof fn lemma_lookup_empty_front(layers: Seq<Map<Seq<u8>, Seq<u8>>>, k: Seq<u8>)
    ensures
        lookup_layers(seq![empty_map()] + layers, k) == lookup_layers(layers, k),
{
    assert((seq![empty_map()] + layers).drop_first() =~= layers);
}

/// The value of `key` after a batch: the batch's last put of it, or what it was before.
pub open spec fn overlay(puts: Seq<(Seq<u8>, Seq<u8>)>, before: Option<Seq<u8>>, key: Seq<u8>) -> Option<Seq<u8>> {
    let m = apply_puts(empty_map(), puts);
    if m.contains_key(key) {
        Some(m[key])
    } else {
        before
    }
}

/// After the first `n` puts of `puts`, every lookup in `after` gives what those puts
/// leave over `before`.
pub open spec fn prefix_applied(
    before: Seq<Map<Seq<u8>, Seq<u8>>>,
    after: Seq<Map<Seq<u8>, Seq<u8>>>,
    puts: Seq<(Seq<u8>, Seq<u8>)>,
    n: int,
) -> bool {
    forall|k: Seq<u8>| #[trigger] lookup_layers(after, k) == overlay(puts.subrange(0, n), lookup_layers(before, k), k)
}

/// The non-empty tables of `ms` (given oldest first), newest first.
pub open spec fn newest_nonempty(ms: Seq<Map<Seq<u8>, Seq<u8>>>) -> Seq<Map<Seq<u8>, Seq<u8>>>
    decreases ms.len(),
{
    if ms.len() == 0 {
        Seq::empty()
    } else if ms.last() == empty_map() {
        newest_nonempty(ms.drop_last())
    } else {
        seq![ms.last()] + newest_nonempty(ms.drop_last())
    }
}

/// The table at position `i` of `order` is the first there to hold `key`, with `value`.
pub open spec fn first_hit_in(
    order: Seq<usize>,
    tables: Map<usize, Arc<SsTable>>,
    key: Seq<u8>,
    i: int,
    value: Seq<u8>,
) -> bool {
    &&& 0 <= i < order.len()
    &&& forall|j: int|
        0 <= j < i ==> tables.contains_key(#[trigger] order[j]) && !table_has_key(*tables[order[j]], key)
    &&& tables.contains_key(order[i])
    &&& table_has(*tables[order[i]], key, value)
}

/// The value of `key` given what the memtables say (`mem`) and, failing that, what the
/// tables in `order` say; an empty value reads as absent.
#[verifier::opaque]
pub open spec fn read_of(
    mem: Option<Seq<u8>>,
    order: Seq<usize>,
    tables: Map<usize, Arc<SsTable>>,
    key: Seq<u8>,
) -> Option<Seq<u8>> {
    let v = match mem {
        Some(v) => Some(v),
        None => if exists|i: int, x: Seq<u8>| #[trigger] first_hit_in(order, tables, key, i, x) {
            Some((choose|i: int, x: Seq<u8>| #[trigger] first_hit_in(order, tables, key, i, x)).1)
        } else {
            None
        },
    };
    match v {
        Some(x) => if x.len() == 0 {
            None
        } else {
            Some(x)
        },
        None => None,
    }
}

proof fn lemma_read_mem(st: LsmStorageState, key: Seq<u8>, v: Seq<u8>)
    requires
        lookup_layers(st.layers(), key) == Some(v),
    ensures
        st.read_spec(key) == (if v.len() == 0 {
            None
        } else {
            Some(v)
        }),
{
    reveal(read_of);
}

proof fn lemma_read_miss(st: LsmStorageState, key: Seq<u8>)
    requires
        lookup_layers(st.layers(), key) is None,
        st.misses_before(key, st.probe_order().len() as int),
    ensures
        st.read_spec(key) is None,
{
    reveal(read_of);
    if exists|i: int, x: Seq<u8>| #[trigger] first_hit_in(st.probe_order(), st.sstables@, key, i, x) {
        let (i, x) = choose|i: int, x: Seq<u8>| #[trigger] first_hit_in(st.probe_order(), st.sstables@, key, i, x);
        assert(!table_has_key(*st.sstables@[st.probe_order()[i]], key));
    }
}

proof fn lemma_read_hit(st: LsmStorageState, key: Seq<u8>, i: int, v: Seq<u8>)
    requires
        st.tables_wf(),
        lookup_layers(st.layers(), key) is None,
        st.first_hit(key, i, v),
    ensures
        st.read_spec(key) == (if v.len() == 0 {
            None
        } else {
            Some(v)
        }),
{
    reveal(read_of);
    assert(first_hit_in(st.probe_order(), st.sstables@, key, i, v));
    let (j, y) = choose|j: int, y: Seq<u8>| #[trigger] first_hit_in(st.probe_order(), st.sstables@, key, j, y);
    lemma_first_hit_unique(st, key, i, v, j, y);
}

pub open spec fn opt_view(o: Option<Vec<u8>>) -> Option<Seq<u8>> {
    match o {
        Some(v) => Some(v@),
        None => None,
    }
}

/// Of the tables in probe order, the first that holds a key decides its value.
proof fn lemma_first_hit_unique(st: LsmStorageState, key: Seq<u8>, i: int, x: Seq<u8>, j: int, y: Seq<u8>)
    requires
        st.tables_wf(),
        st.first_hit(key, i, x),
        first_hit_in(st.probe_order(), st.sstables@, key, j, y),
    ensures
        i == j,
        x == y,
{
    if i < j {
        assert(!table_has_key(*st.sstables@[st.probe_order()[i]], key));
    } else if j < i {
        assert(!table_has_key(*st.sstables@[st.probe_order()[j]], key));
    } else {
        let t = *st.sstables@[st.probe_order()[i]];
        assert(st.sstables@.contains_key(st.probe_order()[i]));
        crate::sstable::lemma_table_value_unique(t, key, x, y);
    }
}

/// The table behind a shared handle.
pub open spec fn table_of(t: Arc<SsTable>) -> SsTable {
    *t
}

/// The storage engine: the state, the next id to hand out, and the options.
pub struct LsmStorageInner {
    state: LsmStorageState,
    next_sst_id: usize,
    options: LsmStorageOptions,
}

impl LsmStorageInner {
    pub closed spec fn st(&self) -> LsmStorageState {
        self.state
    }

    pub closed spec fn next_id(&self) -> usize {
        self.next_sst_id
    }

    pub closed spec fn opts(&self) -> LsmStorageOptions {
        self.options
    }

    pub closed spec fn inv(&self) -> bool {
        self.state.tables_wf()
    }

    /// The same tables, in the same places.
    pub open spec fn same_tables(&self, other: &LsmStorageInner) -> bool {
        &&& self.st().l0_sstables@ == other.st().l0_sstables@
        &&& self.st().levels@ == other.st().levels@
        &&& self.st().sstables@ == other.st().sstables@
    }

    pub fn state(&self) -> (r: &LsmStorageState)
        ensures
            *r == self.st(),
    {
        &self.state
    }

    pub fn options(&self) -> (r: &LsmStorageOptions)
        ensures
            *r == self.opts(),
    {
        &self.options
    }

    /// Hands out the next id.
    pub fn next_sst_id(&mut self) -> (r: Result<usize, StorageError>)
        ensures
            final(self).st() == old(self).st(),
            final(self).opts() == old(self).opts(),
            final(self).inv() == old(self).inv(),
            old(self).next_id() < usize::MAX ==> r == Ok::<usize, StorageError>(old(self).next_id())
                && final(self).next_id() == old(self).next_id() + 1,
            old(self).next_id() == usize::MAX ==> r == Err::<usize, StorageError>(StorageError::IdSpaceExhausted)
                && final(self).next_id() == old(self).next_id(),
    {
        if self.next_sst_id == usize::MAX {
            return Err(StorageError::IdSpaceExhausted);
        }
        let id = self.next_sst_id;
        self.next_sst_id = id + 1;
        Ok(id)
    }

    /// The engine as a first open leaves it: memtable 0 (with a log when enabled), no
    /// tables, next id 1; and the record that makes memtable 0 durable.
    pub fn create(options: LsmStorageOptions) -> (r: (LsmStorageInner, ManifestRecord))
        ensures
            r.0.inv(),
            r.0.opts() == options,
            r.0.st().layers() == seq![empty_map()],
            r.0.st().memtable.id_spec() == 0,
            r.0.st().memtable.log() is Some == options.enable_wal,
            r.0.st().l0_sstables@.len() == 0,
            levels_view(r.0.st().levels@) == initial_levels(options.compaction_options),
            r.0.st().sstables@ == Map::<usize, Arc<SsTable>>::empty(),
            r.0.st().imm_memtables@.len() == 0,
            r.0.next_id() == 1,
            r.1 == ManifestRecord::NewMemtable(0),
    {
        let mut state = LsmStorageState::create(&options);
        if options.enable_wal {
            state.memtable = MemTable::create_with_wal(0);
        }
        assert(state.layers() =~= seq![empty_map()]);
        (LsmStorageInner { state, next_sst_id: 1, options }, ManifestRecord::NewMemtable(0))
    }

    /// The engine that a replayed manifest describes, given its tables (opened) and the
    /// memtables recovered from their logs (oldest first): the non-empty ones become the
    /// immutable memtables, newest first, and a new memtable takes the id after the largest
    /// seen. Returns the record that makes the new memtable durable.
    pub fn from_recovery(
        options: LsmStorageOptions,
        replay: ManifestReplay,
        tables: Vec<SsTable>,
        memtables: Vec<MemTable>,
    ) -> (r: Result<(LsmStorageInner, ManifestRecord), StorageError>)
        requires
            forall|i: int| 0 <= i < tables@.len() ==> (#[trigger] tables@[i]).wf(),
        ensures
            replay.max_id >= usize::MAX - 1 <==> r is Err,
            r is Err ==> r == Err::<(LsmStorageInner, ManifestRecord), StorageError>(StorageError::IdSpaceExhausted),
            r matches Ok((e, rec)) ==> {
                &&& e.inv()
                &&& e.opts() == options
                &&& e.st().memtable.contents() == empty_map()
                &&& e.st().memtable.id_spec() == replay.max_id + 1
                &&& e.st().memtable.log() is Some == options.enable_wal
                &&& e.st().layers().drop_first() == newest_nonempty(
                    Seq::new(memtables@.len(), |i: int| memtables@[i].contents()),
                )
                &&& e.st().l0_sstables@ == replay.l0_sstables@
                &&& e.st().levels@ == replay.levels@
                &&& forall|id: usize| #[trigger] e.st().sstables@.contains_key(id) <==> exists|i: int|
                    0 <= i < tables@.len() && (#[trigger] tables@[i]).id_spec() == id
                &&& e.next_id() == replay.max_id + 2
                &&& rec == ManifestRecord::NewMemtable((replay.max_id + 1) as usize)
            },
    {
        if replay.max_id >= usize::MAX - 1 {
            return Err(StorageError::IdSpaceExhausted);
        }
        let mut sstables: HashMap<usize, Arc<SsTable>> = HashMap::new();
        let mut tables = tables;
        let ghost all_tables = tables@;
        let mut k: usize = tables.len();
        while k > 0
            invariant
                k == tables@.len(),
                k <= all_tables.len(),
                tables@ == all_tables.subrange(0, k as int),
                forall|i: int| 0 <= i < all_tables.len() ==> (#[trigger] all_tables[i]).wf(),
                forall|id: usize| #[trigger] sstables@.contains_key(id) ==> sstables@[id].wf(),
                forall|id: usize| #[trigger] sstables@.contains_key(id) <==> exists|i: int|
                    k <= i < all_tables.len() && (#[trigger] all_tables[i]).id_spec() == id,
            decreases k,
        {
            let t = tables.pop().unwrap();
            k = k - 1;
            let id = t.sst_id();
            proof {
                assert(t == all_tables[k as int]);
            }
            if !sstables.contains_key(&id) {
                sstables.insert(id, Arc::new(t));
            }
            proof {
                assert forall|x: usize| #[trigger] sstables@.contains_key(x) <==> exists|i: int|
                    k <= i < all_tables.len() && (#[trigger] all_tables[i]).id_spec() == x by {
                    if x == id {
                        assert(all_tables[k as int].id_spec() == x);
                    } else if exists|i: int| k <= i < all_tables.len() && (#[trigger] all_tables[i]).id_spec() == x {
                        let i = choose|i: int| k <= i < all_tables.len() && (#[trigger] all_tables[i]).id_spec() == x;
                        assert(i != k);
                        assert(k + 1 <= i);
                    }
                }
            }
        }
        let mut imm: Vec<MemTable> = Vec::new();
        let ghost contents = Seq::new(memtables@.len(), |i: int| memtables@[i].contents());
        let mut memtables = memtables;
        let mut rest: Vec<MemTable> = Vec::new();
        // move the recovered memtables into `rest`, so that they come out oldest first
        let mut n = memtables.len();
        while n > 0
            invariant
                n == memtables@.len(),
                n <= contents.len(),
                rest@.len() == contents.len() - n,
                forall|i: int| 0 <= i < n ==> (#[trigger] memtables@[i]).contents() == contents[i],
                forall|i: int| 0 <= i < rest@.len() ==> (#[trigger] rest@[i]).contents() == contents[contents.len() - 1 - i],
            decreases n,
        {
            let m = memtables.pop().unwrap();
            rest.push(m);
            n = n - 1;
        }
        let mut i: usize = 0;
        let total = rest.len();
        while i < total
            invariant
                total == contents.len(),
                i <= total,
                rest@.len() == total - i,
                forall|j: int| 0 <= j < rest@.len() ==> (#[trigger] rest@[j]).contents() == contents[i + (rest@.len() - 1 - j)],
                Seq::new(imm@.len(), |j: int| imm@[j].contents()) == newest_nonempty(contents.subrange(0, i as int)),
            decreases total - i,
        {
            let m = rest.pop().unwrap();
            proof {
                assert(m.contents() == contents[i as int]);
                assert(contents.subrange(0, i + 1).drop_last() =~= contents.subrange(0, i as int));
                assert(contents.subrange(0, i + 1).last() == contents[i as int]);
            }
            if !m.is_empty() {
                let ghost before = imm@;
                imm.insert(0, m);
                assert(Seq::new(imm@.len(), |j: int| imm@[j].contents()) =~= seq![contents[i as int]]
                    + Seq::new(before.len(), |j: int| before[j].contents()));
            }
            i = i + 1;
        }
        proof {
            assert(contents.subrange(0, total as int) =~= contents);
        }
        let id = replay.max_id + 1;
        let memtable = if options.enable_wal {
            MemTable::create_with_wal(id)
        } else {
            MemTable::create(id)
        };
        let state = LsmStorageState {
            memtable,
            imm_memtables: imm,
            l0_sstables: replay.l0_sstables,
            levels: replay.levels,
            sstables,
        };
        assert(state.layers().drop_first() =~= Seq::new(state.imm_memtables@.len(), |j: int| state.imm_memtables@[j].contents()));
        Ok((LsmStorageInner { state, next_sst_id: id + 1, options }, ManifestRecord::NewMemtable(id)))
    }
}

} // verus!

verus! {

impl LsmStorageState {
    /// The table ids in the order that reads probe them.
    pub fn probe_order_vec(&self) -> (r: Vec<usize>)
        ensures
            r@ == self.probe_order(),
    {
        let mut order: Vec<usize> = Vec::new();
        let mut i: usize = 0;
        while i < self.l0_sstables.len()
            invariant
                i <= self.l0_sstables@.len(),
                order@ == self.l0_sstables@.subrange(0, i as int),
            decreases self.l0_sstables@.len() - i,
        {
            order.push(self.l0_sstables[i]);
            i = i + 1;
            assert(order@ =~= self.l0_sstables@.subrange(0, i as int));
        }
        assert(self.l0_sstables@.subrange(0, i as int) =~= self.l0_sstables@);
        let ghost lv = levels_view(self.levels@);
        let mut k: usize = 0;
        assert(concat_levels(lv.subrange(0, 0)) =~= Seq::<usize>::empty());
        assert(order@ =~= self.l0_sstables@ + concat_levels(lv.subrange(0, 0)));
        while k < self.levels.len()
            invariant
                lv == levels_view(self.levels@),
                k <= self.levels@.len(),
                order@ == self.l0_sstables@ + concat_levels(lv.subrange(0, k as int)),
            decreases self.levels@.len() - k,
        {
            let ids = &self.levels[k].1;
            let ghost start = order@;
            let mut j: usize = 0;
            while j < ids.len()
                invariant
                    j <= ids@.len(),
                    order@ == start + ids@.subrange(0, j as int),
                decreases ids@.len() - j,
            {
                order.push(ids[j]);
                j = j + 1;
                assert(order@ =~= start + ids@.subrange(0, j as int));
            }
            proof {
                assert(ids@.subrange(0, j as int) =~= ids@);
                let s = lv.subrange(0, k + 1);
                assert(s.drop_last() =~= lv.subrange(0, k as int));
                assert(s.last().1 == ids@);
                assert(order@ =~= self.l0_sstables@ + concat_levels(lv.subrange(0, k + 1)));
            }
            k = k + 1;
        }
        assert(lv.subrange(0, k as int) =~= lv);
        order
    }
}

impl LsmStorageInner {
    /// Makes the active memtable immutable (the newest immutable one) and puts a new empty
    /// memtable, with the next id and a log when enabled, in its place. Every lookup gives
    /// what it gave before. Returns the record that makes the new memtable durable.
    pub fn force_freeze_memtable(&mut self) -> (r: Result<ManifestRecord, StorageError>)
        requires
            old(self).inv(),
        ensures
            final(self).inv(),
            final(self).opts() == old(self).opts(),
            final(self).same_tables(&*old(self)),
            forall|k: Seq<u8>| #[trigger] lookup_layers(final(self).st().layers(), k) == lookup_layers(old(self).st().layers(), k),
            forall|k: Seq<u8>| #[trigger] final(self).st().read_spec(k) == old(self).st().read_spec(k),
            match r {
                Ok(rec) => {
                    &&& rec == ManifestRecord::NewMemtable(old(self).next_id())
                    &&& final(self).next_id() == old(self).next_id() + 1
                    &&& final(self).st().layers() == seq![empty_map()] + old(self).st().layers()
                    &&& final(self).st().imm_memtables@.len() == old(self).st().imm_memtables@.len() + 1
                    &&& final(self).st().imm_memtables@ == seq![old(self).st().memtable] + old(self).st().imm_memtables@
                    &&& final(self).st().memtable.size_spec() == 0
                    &&& final(self).st().memtable.id_spec() == old(self).next_id()
                    &&& final(self).st().memtable.log() is Some == old(self).opts().enable_wal
                },
                Err(e) => e == StorageError::IdSpaceExhausted && old(self).next_id() == usize::MAX
                    && final(self).st() == old(self).st() && final(self).next_id() == old(self).next_id(),
            },
    {
        let id = match self.next_sst_id() {
            Ok(i) => i,
            Err(e) => return Err(e),
        };
        let memtable = if self.options.enable_wal {
            MemTable::create_with_wal(id)
        } else {
            MemTable::create(id)
        };
        let ghost old_layers = self.state.layers();
        self.freeze_memtable_with_memtable(memtable);
        proof {
            assert forall|k: Seq<u8>| #[trigger] lookup_layers(self.state.layers(), k) == lookup_layers(old_layers, k) by {
                lemma_lookup_empty_front(old_layers, k);
            }
        }
        Ok(ManifestRecord::NewMemtable(id))
    }

    /// Puts `memtable` in place of the active memtable, which becomes the newest immutable one.
    fn freeze_memtable_with_memtable(&mut self, memtable: MemTable)
        requires
            old(self).inv(),
        ensures
            final(self).inv(),
            final(self).opts() == old(self).opts(),
            final(self).next_id() == old(self).next_id(),
            final(self).same_tables(&*old(self)),
            final(self).st().memtable == memtable,
            final(self).st().imm_memtables@ == seq![old(self).st().memtable] + old(self).st().imm_memtables@,
            final(self).st().layers() == seq![memtable.contents()] + old(self).st().layers(),
    {
        let mut memtable = memtable;
        let ghost old_layers = self.state.layers();
        let ghost old_imm = self.state.imm_memtables@;
        core::mem::swap(&mut self.state.memtable, &mut memtable);
        self.state.imm_memtables.insert(0, memtable);
        assert(self.state.imm_memtables@ =~= seq![old(self).state.memtable] + old_imm);
        assert(self.state.layers() =~= seq![self.state.memtable.contents()] + old_layers);
    }

    /// Freezes the active memtable when both the size seen by the writer and its size now
    /// have reached the target table size.
    pub fn try_freeze(&mut self, estimated_size: usize) -> (r: Result<Option<ManifestRecord>, StorageError>)
        requires
            old(self).inv(),
        ensures
            final(self).inv(),
            final(self).opts() == old(self).opts(),
            final(self).same_tables(&*old(self)),
            forall|k: Seq<u8>| #[trigger] lookup_layers(final(self).st().layers(), k) == lookup_layers(old(self).st().layers(), k),
            (estimated_size >= old(self).opts().target_sst_size && old(self).st().memtable.size_spec()
                >= old(self).opts().target_sst_size) <==> !(r == Ok::<Option<ManifestRecord>, StorageError>(None)),
            r == Ok::<Option<ManifestRecord>, StorageError>(None) ==> final(self).st() == old(self).st()
                && final(self).next_id() == old(self).next_id(),
            r matches Ok(Some(rec)) ==> rec == ManifestRecord::NewMemtable(old(self).next_id())
                && final(self).st().imm_memtables@.len() == old(self).st().imm_memtables@.len() + 1,
            r is Err ==> r == Err::<Option<ManifestRecord>, StorageError>(StorageError::IdSpaceExhausted),
            old(self).next_id() <= final(self).next_id() <= old(self).next_id() + 1,
            r is Err ==> old(self).next_id() == usize::MAX,
    {
        let target = self.options.target_sst_size;
        if estimated_size >= target && self.state.memtable.approximate_size() >= target {
            match self.force_freeze_memtable() {
                Ok(rec) => Ok(Some(rec)),
                Err(e) => Err(e),
            }
        } else {
            Ok(None)
        }
    }

    /// Writes one pair into the active memtable, then freezes it if it has grown to the
    /// target size.
    fn write_one(&mut self, key: &[u8], value: &[u8]) -> (r: Result<Option<ManifestRecord>, StorageError>)
        requires
            old(self).inv(),
            key@.len() < 0x1_0000,
            value@.len() < 0x1_0000,
        ensures
            final(self).inv(),
            final(self).opts() == old(self).opts(),
            final(self).same_tables(&*old(self)),
            forall|k: Seq<u8>| #[trigger] lookup_layers(final(self).st().layers(), k) == if k == key@ {
                Some(value@)
            } else {
                lookup_layers(old(self).st().layers(), k)
            },
            r is Err ==> r == Err::<Option<ManifestRecord>, StorageError>(StorageError::IdSpaceExhausted),
            old(self).next_id() <= final(self).next_id() <= old(self).next_id() + 1,
            r is Err ==> old(self).next_id() == usize::MAX,
    {
        let ghost old_layers = self.state.layers();
        self.state.memtable.put(key, value);
        let size = self.state.memtable.approximate_size();
        proof {
            assert(self.state.layers() =~= old_layers.update(0, old_layers[0].insert(key@, value@)));
            assert forall|k: Seq<u8>| #[trigger] lookup_layers(self.state.layers(), k) == if k == key@ {
                Some(value@)
            } else {
                lookup_layers(old_layers, k)
            } by {
                lemma_lookup_put(old_layers, key@, value@, k);
            }
        }
        self.try_freeze(size)
    }

    /// Puts a pair. Returns the records of any freeze it caused, which must be made durable.
    pub fn put(&mut self, key: &[u8], value: &[u8]) -> (r: Result<Vec<ManifestRecord>, StorageError>)
        requires
            old(self).inv(),
            key@.len() < 0x1_0000,
            value@.len() < 0x1_0000,
        ensures
            final(self).inv(),
            final(self).opts() == old(self).opts(),
            final(self).same_tables(&*old(self)),
            forall|k: Seq<u8>| #[trigger] lookup_layers(final(self).st().layers(), k) == if k == key@ {
                Some(value@)
            } else {
                lookup_layers(old(self).st().layers(), k)
            },
            r is Err ==> r == Err::<Vec<ManifestRecord>, StorageError>(StorageError::IdSpaceExhausted),
            old(self).next_id() <= final(self).next_id() <= old(self).next_id() + 1,
            r is Err ==> old(self).next_id() == usize::MAX,
            forall|k: Seq<u8>| k != key@ ==> #[trigger] final(self).st().read_spec(k) == old(self).st().read_spec(k),
    {
        let mut records: Vec<ManifestRecord> = Vec::new();
        match self.write_one(key, value) {
            Ok(Some(rec)) => records.push(rec),
            Ok(None) => {},
            Err(e) => return Err(e),
        }
        Ok(records)
    }

    /// Deletes a key: puts the empty value, which reads then take as absent.
    pub fn delete(&mut self, key: &[u8]) -> (r: Result<Vec<ManifestRecord>, StorageError>)
        requires
            old(self).inv(),
            0 < key@.len() < 0x1_0000,
        ensures
            final(self).inv(),
            final(self).opts() == old(self).opts(),
            final(self).same_tables(&*old(self)),
            forall|k: Seq<u8>| #[trigger] lookup_layers(final(self).st().layers(), k) == if k == key@ {
                Some(Seq::<u8>::empty())
            } else {
                lookup_layers(old(self).st().layers(), k)
            },
            r is Err ==> r == Err::<Vec<ManifestRecord>, StorageError>(StorageError::IdSpaceExhausted),
            old(self).next_id() <= final(self).next_id() <= old(self).next_id() + 1,
            r is Err ==> old(self).next_id() == usize::MAX,
            forall|k: Seq<u8>| k != key@ ==> #[trigger] final(self).st().read_spec(k) == old(self).st().read_spec(k),
    {
        let empty: [u8; 0] = [];
        let value: &[u8] = &empty;
        assert(value@ =~= Seq::<u8>::empty());
        self.put(key, value)
    }

    /// Writes a batch in order; each pair is visible once written. Returns the records of
    /// the freezes it caused. On an error the writes before it stay.
    pub fn write_batch(&mut self, batch: &[WriteBatchRecord]) -> (r: Result<Vec<ManifestRecord>, StorageError>)
        requires
            old(self).inv(),
            forall|i: int| 0 <= i < batch@.len() ==> (#[trigger] batch@[i]).fits(),
        ensures
            final(self).inv(),
            final(self).opts() == old(self).opts(),
            final(self).same_tables(&*old(self)),
            r is Ok ==> forall|k: Seq<u8>| #[trigger] lookup_layers(final(self).st().layers(), k) == overlay(
                batch_puts(batch@),
                lookup_layers(old(self).st().layers(), k),
                k,
            ),
            r is Err ==> r == Err::<Vec<ManifestRecord>, StorageError>(StorageError::IdSpaceExhausted),
            old(self).next_id() + batch@.len() < usize::MAX ==> r is Ok,
            r is Err ==> exists|i: int|
                0 <= i < batch@.len() && #[trigger] prefix_applied(
                    old(self).st().layers(),
                    final(self).st().layers(),
                    batch_puts(batch@),
                    i + 1,
                ),
            r is Ok ==> forall|k: Seq<u8>| !apply_puts(empty_map(), batch_puts(batch@)).contains_key(k)
                ==> #[trigger] final(self).st().read_spec(k) == old(self).st().read_spec(k),
    {
        let ghost start = self.state.layers();
        let ghost puts = batch_puts(batch@);
        let mut records: Vec<ManifestRecord> = Vec::new();
        let mut i: usize = 0;
        while i < batch.len()
            invariant
                self.inv(),
                self.opts() == old(self).opts(),
                self.same_tables(&*old(self)),
                start == old(self).st().layers(),
                puts == batch_puts(batch@),
                i <= batch@.len(),
                old(self).next_id() <= self.next_id() <= old(self).next_id() + i,
                forall|j: int| 0 <= j < batch@.len() ==> (#[trigger] batch@[j]).fits(),
                forall|k: Seq<u8>| #[trigger] lookup_layers(self.st().layers(), k) == overlay(
                    puts.subrange(0, i as int),
                    lookup_layers(start, k),
                    k,
                ),
            decreases batch@.len() - i,
        {
            let ghost before = self.st().layers();
            assert(batch@[i as int].fits());
            let res = match &batch[i] {
                WriteBatchRecord::Put(key, value) => self.write_one(key.as_slice(), value.as_slice()),
                WriteBatchRecord::Del(key) => {
                    let empty: [u8; 0] = [];
                    let value: &[u8] = &empty;
                    assert(value@ =~= Seq::<u8>::empty());
                    self.write_one(key.as_slice(), value)
                },
            };
            proof {
                let p = puts.subrange(0, i + 1);
                assert(p.drop_last() =~= puts.subrange(0, i as int));
                assert(p.last() == batch@[i as int].as_put());
            }
            match res {
                Ok(Some(rec)) => records.push(rec),
                Ok(None) => {},
                Err(e) => {
                    proof {
                        assert forall|k: Seq<u8>| #[trigger] lookup_layers(self.st().layers(), k) == overlay(
                            puts.subrange(0, i + 1),
                            lookup_layers(start, k),
                            k,
                        ) by {}
                        assert(prefix_applied(start, self.st().layers(), puts, i + 1));
                    }
                    return Err(e);
                },
            }
            i = i + 1;
        }
        proof {
            assert(puts.subrange(0, i as int) =~= puts);
        }
        Ok(records)
    }

    /// Reads a key: the newest memtable that holds it decides; failing that, the first
    /// table in probe order (L0 newest first, then the levels) whose key range includes it
    /// and that holds it. An empty value (a deletion) reads as absent, as does a key found
    /// nowhere.
    pub fn get(&self, key: &[u8]) -> (r: Result<Option<Vec<u8>>, StorageError>)
        requires
            self.inv(),
        ensures
            r matches Ok(o) ==> opt_view(o) == self.st().read_spec(key@),
            match lookup_layers(self.st().layers(), key@) {
                Some(v) => r matches Ok(o) && (v.len() == 0 ==> o is None) && (v.len() > 0 ==> (o matches Some(x)
                    && x@ == v)),
                None => {
                    &&& r matches Ok(Some(x)) ==> x@.len() > 0 && exists|i: int| self.st().first_hit(key@, i, x@)
                    &&& r matches Ok(None) ==> self.st().misses_before(key@, self.st().probe_order().len() as int)
                        || exists|i: int| self.st().first_hit(key@, i, Seq::<u8>::empty())
                    &&& self.st().tables_readable() ==> r is Ok
                    &&& r matches Err(e) ==> e == StorageError::UnknownTable || is_read_error(e)
                    &&& r == Err::<Option<Vec<u8>>, StorageError>(StorageError::UnknownTable) ==> exists|i: int|
                        0 <= i < self.st().probe_order().len() && !self.st().sstables@.contains_key(
                            #[trigger] self.st().probe_order()[i],
                        )
                },
            },
    {
        let ghost layers = self.state.layers();
        match self.state.memtable.get(key) {
            Some(v) => {
                proof {
                    assert(layers[0].contains_key(key@));
                    lemma_read_mem(self.st(), key@, v@);
                }
                if v.len() == 0 {
                    return Ok(None);
                }
                return Ok(Some(v));
            },
            None => {},
        }
        let mut i: usize = 0;
        while i < self.state.imm_memtables.len()
            invariant
                layers == self.st().layers(),
                i <= self.state.imm_memtables@.len(),
                forall|j: int| 0 <= j < i + 1 ==> !(#[trigger] layers[j]).contains_key(key@),
            decreases self.state.imm_memtables@.len() - i,
        {
            match self.state.imm_memtables[i].get(key) {
                Some(v) => {
                    proof {
                        lemma_lookup_skip(layers, i + 1, key@);
                        assert(layers[i + 1] == self.state.imm_memtables@[i as int].contents());
                        assert(layers.subrange(i + 1, layers.len() as int)[0] == layers[i + 1]);
                        lemma_read_mem(self.st(), key@, v@);
                    }
                    if v.len() == 0 {
                        return Ok(None);
                    }
                    return Ok(Some(v));
                },
                None => {
                    assert(layers[i + 1] == self.state.imm_memtables@[i as int].contents());
                },
            }
            i = i + 1;
        }
        proof {
            lemma_lookup_skip(layers, layers.len() as int, key@);
            assert(layers.subrange(layers.len() as int, layers.len() as int).len() == 0);
        }
        let order = self.state.probe_order_vec();
        let mut i: usize = 0;
        while i < order.len()
            invariant
                self.inv(),
                order@ == self.st().probe_order(),
                i <= order@.len(),
                self.st().misses_before(key@, i as int),
                lookup_layers(self.st().layers(), key@) is None,
            decreases order@.len() - i,
        {
            let id = order[i];
            match self.state.sstables.get(&id) {
                None => {
                    assert(!self.st().sstables@.contains_key(self.st().probe_order()[i as int]));
                    assert(!self.st().tables_readable());
                    return Err(StorageError::UnknownTable);
                },
                Some(t) => {
                    if key_within(key, t.first_key(), t.last_key()) {
                        match table_get(t, key) {
                            Err(e) => {
                                assert(!table_sound(**t));
                                assert(!self.st().tables_readable());
                                return Err(e);
                            },
                            Ok(Some(v)) => {
                                assert(self.st().first_hit(key@, i as int, v@));
                                proof {
                                    lemma_read_hit(self.st(), key@, i as int, v@);
                                }
                                if v.len() == 0 {
                                    assert(v@ =~= Seq::<u8>::empty());
                                    return Ok(None);
                                }
                                return Ok(Some(v));
                            },
                            Ok(None) => {},
                        }
                    } else {
                        proof {
                            crate::sstable::lemma_outside_range(table_of(self.st().sstables@[id]), key@);
                        }
                    }
                },
            }
            i = i + 1;
        }
        proof {
            lemma_read_miss(self.st(), key@);
        }
        Ok(None)
    }
}

} // verus!

verus! {

/// `ms` from last to first.
pub open spec fn reversed(ms: Seq<Map<Seq<u8>, Seq<u8>>>) -> Seq<Map<Seq<u8>, Seq<u8>>> {
    Seq::new(ms.len(), |i: int| ms[ms.len() - 1 - i])
}

proof fn lemma_newest_nonempty_lookup(ms: Seq<Map<Seq<u8>, Seq<u8>>>, k: Seq<u8>)
    ensures
        lookup_layers(newest_nonempty(ms), k) == lookup_layers(reversed(ms), k),
    decreases ms.len(),
{
    if ms.len() > 0 {
        let init = ms.drop_last();
        lemma_newest_nonempty_lookup(init, k);
        assert(reversed(ms).drop_first() =~= reversed(init));
        assert(reversed(ms)[0] == ms.last());
        if ms.last() == empty_map() {
            assert(!ms.last().contains_key(k));
        } else {
            assert((seq![ms.last()] + newest_nonempty(init)).drop_first() =~= newest_nonempty(init));
        }
    }
}

/// Reopening after a clean shutdown: when the memtables come back from their logs, oldest
/// first, with the contents they had (newest first, in `before`), the engine that
/// `from_recovery` builds gives every key the value it had.
pub proof fn lemma_reopen_keeps_lookups(
    before: Seq<Map<Seq<u8>, Seq<u8>>>,
    reopened: LsmStorageInner,
    k: Seq<u8>,
)
    requires
        reopened.st().memtable.contents() == empty_map(),
        reopened.st().layers().drop_first() == newest_nonempty(reversed(before)),
    ensures
        lookup_layers(reopened.st().layers(), k) == lookup_layers(before, k),
{
    let l = reopened.st().layers();
    assert(!l[0].contains_key(k));
    lemma_newest_nonempty_lookup(reversed(before), k);
    assert(reversed(reversed(before)) =~= before);
}

} // verus!
