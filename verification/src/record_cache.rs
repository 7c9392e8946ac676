//! An explicit cache of hot records with a budget in bytes: under pressure the
//! records that were used longest ago leave first.

use crate::error;
use crate::error::XyzError;
use crate::record::{Record, RecordV};
use crate::sort;
use crate::text;
use dashmap::DashMap;
use vstd::prelude::*;

verus! {

/// A cached record with its estimated size and when it was last used.
pub struct CachedRecord {
    pub record: Record,
    pub size: usize,
    pub clock: u64,
}

/// What a [`CachedRecord`] holds.
pub struct CachedV {
    pub record: RecordV,
    pub size: usize,
    pub clock: u64,
}

impl View for CachedRecord {
    type V = CachedV;

    open spec fn view(&self) -> CachedV {
        CachedV { record: self.record@, size: self.size, clock: self.clock }
    }
}

impl CachedRecord {
    /// The same entry.
    pub fn clone_entry(&self) -> (r: CachedRecord)
        ensures
            r@ == self@,
    {
        CachedRecord { record: self.record.clone_record(), size: self.size, clock: self.clock }
    }
}

/// `dashmap::DashMap`, a hash map that threads can share.
#[verifier::external_type_specification]
#[verifier::external_body]
#[verifier::reject_recursive_types(K)]
#[verifier::reject_recursive_types(V)]
#[verifier::reject_recursive_types(S)]
pub struct ExDashMap<K, V, S>(dashmap::DashMap<K, V, S>);

/// What a map of cached records holds under each lobe and identity.
pub uninterp spec fn entries(m: DashMap<(u16, u128), CachedRecord>) -> Map<(u16, u128), CachedV>;

/// No entry.
pub open spec fn no_entries() -> Map<(u16, u128), CachedV> {
    Map::empty()
}

/// `DashMap::new`: the map holds nothing.
#[verifier::external_body]
fn new_map() -> (m: DashMap<(u16, u128), CachedRecord>)
    ensures
        entries(m) == no_entries(),
{
    DashMap::new()
}

/// `DashMap::insert`: the key holds the value, and what it held before is handed
/// out.
#[verifier::external_body]
fn put_entry(
    m: &mut DashMap<(u16, u128), CachedRecord>,
    key: (u16, u128),
    value: CachedRecord,
) -> (r: Option<CachedRecord>)
    ensures
        entries(*final(m)) == entries(*old(m)).insert(key, value@),
        r is Some <==> entries(*old(m)).contains_key(key),
        r is Some ==> r->Some_0@ == entries(*old(m))[key],
{
    m.insert(key, value)
}

/// `DashMap::remove`: the key holds nothing, and what it held is handed out.
#[verifier::external_body]
fn take_entry(m: &mut DashMap<(u16, u128), CachedRecord>, key: (u16, u128)) -> (r: Option<
    CachedRecord,
>)
    ensures
        entries(*final(m)) == entries(*old(m)).remove(key),
        r is Some <==> entries(*old(m)).contains_key(key),
        r is Some ==> r->Some_0@ == entries(*old(m))[key],
{
    m.remove(&key).map(|e| e.1)
}

/// `DashMap::get`: a copy of what the key holds.
#[verifier::external_body]
fn read_entry(m: &DashMap<(u16, u128), CachedRecord>, key: (u16, u128)) -> (r: Option<CachedRecord>)
    ensures
        r is Some <==> entries(*m).contains_key(key),
        r is Some ==> r->Some_0@ == entries(*m)[key],
{
    m.get(&key).map(|e| e.value().clone_entry())
}

/// `DashMap::iter`: the keys, each once, in no particular order.
#[verifier::external_body]
fn entry_keys(m: &DashMap<(u16, u128), CachedRecord>) -> (r: Vec<(u16, u128)>)
    ensures
        r@.no_duplicates(),
        r@.to_set() == entries(*m).dom(),
{
    m.iter().map(|e| *e.key()).collect()
}

/// The bytes that entries are estimated to take.
pub open spec fn total(m: Map<(u16, u128), CachedV>) -> nat
    decreases m.dom().len(),
{
    if m.dom().finite() && m.dom().len() > 0 {
        let k = m.dom().choose();
        m[k].size as nat + total(m.remove(k))
    } else {
        0
    }
}

/// Each entry adds its size.
pub proof fn lemma_total_remove(m: Map<(u16, u128), CachedV>, k: (u16, u128))
    requires
        m.dom().finite(),
        m.contains_key(k),
    ensures
        total(m) == m[k].size as nat + total(m.remove(k)),
    decreases m.dom().len(),
{
    let c = m.dom().choose();
    if c != k {
        let less = m.remove(c);
        lemma_total_remove(less, k);
        assert(less.remove(k) =~= m.remove(k).remove(c));
        lemma_total_remove(m.remove(k), c);
    }
}

/// A new entry adds its size; one that is replaced took its own with it.
proof fn lemma_total_insert(m: Map<(u16, u128), CachedV>, k: (u16, u128), v: CachedV)
    requires
        m.dom().finite(),
    ensures
        total(m.insert(k, v)) == total(m.remove(k)) + v.size as nat,
        total(m) == total(m.remove(k)) + if m.contains_key(k) {
            m[k].size as nat
        } else {
            0
        },
{
    lemma_total_remove(m.insert(k, v), k);
    assert(m.insert(k, v).remove(k) =~= m.remove(k));
    if m.contains_key(k) {
        lemma_total_remove(m, k);
    } else {
        assert(m.remove(k) =~= m);
    }
}

/// Bytes per megabyte.
pub const MEGABYTE: usize = 1_048_576;

/// What a cache holds: its entries, the lobes that records were loaded for, how
/// often it was used, and its budget in bytes.
pub struct CacheV {
    pub entries: Map<(u16, u128), CachedV>,
    pub lobes: Seq<u16>,
    pub counter: u64,
    pub budget: usize,
}

/// The count after one more use.
pub open spec fn next_clock(counter: u64) -> u64 {
    if counter < u64::MAX {
        (counter + 1) as u64
    } else {
        counter
    }
}

/// The cache with a record stored, as the one used last.
pub open spec fn stored(c: CacheV, lobe: u16, rec: RecordV, size: usize) -> CacheV {
    let now = next_clock(c.counter);
    CacheV {
        entries: c.entries.insert((lobe, rec.lid), CachedV { record: rec, size, clock: now }),
        counter: now,
        ..c
    }
}

/// The cache after a use of one of its records.
pub open spec fn touched(c: CacheV, lobe: u16, lid: u128) -> CacheV {
    let e = c.entries[(lobe, lid)];
    stored(c, lobe, e.record, e.size)
}

/// The cache with a lobe known to it.
pub open spec fn with_lobe(c: CacheV, lobe: u16) -> CacheV {
    CacheV {
        lobes: if c.lobes.contains(lobe) {
            c.lobes
        } else {
            c.lobes.push(lobe)
        },
        ..c
    }
}

/// The records of a batch with their estimated sizes.
pub open spec fn batch_view(s: Seq<(Record, usize)>) -> Seq<(RecordV, usize)> {
    s.map_values(|e: (Record, usize)| (e.0@, e.1))
}

/// The cache with a batch stored, from first to last.
pub open spec fn loaded(c: CacheV, lobe: u16, batch: Seq<(RecordV, usize)>) -> CacheV
    decreases batch.len(),
{
    if batch.len() == 0 {
        c
    } else {
        stored(loaded(c, lobe, batch.drop_last()), lobe, batch.last().0, batch.last().1)
    }
}

/// The bytes that a batch is estimated to take.
pub open spec fn batch_bytes(batch: Seq<(RecordV, usize)>) -> nat
    decreases batch.len(),
{
    if batch.len() == 0 {
        0
    } else {
        batch_bytes(batch.drop_last()) + batch.last().1 as nat
    }
}

/// `last` left, and none that left was used after it.
pub open spec fn left_last(
    before: Map<(u16, u128), CachedV>,
    after: Map<(u16, u128), CachedV>,
    last: (u16, u128),
) -> bool {
    &&& before.contains_key(last)
    &&& !after.contains_key(last)
    &&& forall|k: (u16, u128)| #[trigger]
        before.contains_key(k) && !after.contains_key(k) ==> before[k].clock
            <= before[last].clock
}

/// Enough entries have left to free `target` bytes, or all have: those used
/// longest ago, and no more than that takes.
pub open spec fn evicted(
    before: Map<(u16, u128), CachedV>,
    after: Map<(u16, u128), CachedV>,
    target: nat,
) -> bool {
    let freed = total(before) - total(after);
    &&& forall|k: (u16, u128)| #[trigger]
        after.contains_key(k) ==> before.contains_key(k) && after[k] == before[k]
    &&& forall|k: (u16, u128), kept: (u16, u128)|
        #![trigger before.contains_key(k), after.contains_key(kept)]
        before.contains_key(k) && !after.contains_key(k) && after.contains_key(kept)
            ==> before[k].clock <= before[kept].clock
    &&& freed >= target || after == no_entries()
    &&& after == before || exists|last: (u16, u128)| #[trigger]
        left_last(before, after, last) && freed - before[last].size < target
}

/// One more item.
proof fn lemma_push_to_set(s: Seq<(u16, u128)>, x: (u16, u128))
    ensures
        s.push(x).to_set() == s.to_set().insert(x),
{
    assert forall|y: (u16, u128)| #[trigger]
        s.push(x).to_set().contains(y) == s.to_set().insert(x).contains(y) by {
        if s.contains(y) {
            let i = choose|i: int| 0 <= i < s.len() && s[i] == y;
            assert(s.push(x)[i] == y);
        }
        assert(s.push(x)[s.len() as int] == x);
    }
    assert(s.push(x).to_set() =~= s.to_set().insert(x));
}

/// The keys in the order of their last use are the keys, each once.
proof fn lemma_sorted_keys(
    keys: Seq<(u16, u128)>,
    snap: Seq<((u16, u128), u64)>,
    oldest: Seq<((u16, u128), u64)>,
    before: Map<(u16, u128), CachedV>,
)
    requires
        keys.no_duplicates(),
        keys.to_set() == before.dom(),
        snap.len() == keys.len(),
        forall|j: int|
            0 <= j < keys.len() ==> #[trigger] snap[j] == (keys[j], before[keys[j]].clock),
        oldest.to_multiset() == snap.to_multiset(),
    ensures
        oldest.map_values(|e: ((u16, u128), u64)| e.0).no_duplicates(),
        oldest.map_values(|e: ((u16, u128), u64)| e.0).to_set() == before.dom(),
        forall|j: int|
            0 <= j < oldest.len() ==> (#[trigger] oldest[j]).1 == before[oldest[j].0].clock,
{
    let key = |e: ((u16, u128), u64)| e.0;
    let ks = oldest.map_values(key);
    sort::lemma_map_keeps_items(oldest, snap, key);
    assert(snap.map_values(key) =~= keys);
    keys.lemma_multiset_has_no_duplicates();
    ks.lemma_multiset_has_no_duplicates_conv();
    keys.to_multiset_ensures();
    ks.to_multiset_ensures();
    assert forall|k: (u16, u128)| #[trigger] ks.to_set().contains(k) == before.dom().contains(
        k,
    ) by {
        assert(ks.contains(k) == (ks.to_multiset().count(k) > 0));
        assert(keys.contains(k) == (keys.to_multiset().count(k) > 0));
        assert(keys.to_set().contains(k) == keys.contains(k));
    }
    assert(ks.to_set() =~= before.dom());
    snap.to_multiset_ensures();
    oldest.to_multiset_ensures();
    assert forall|j: int| 0 <= j < oldest.len() implies (#[trigger] oldest[j]).1
        == before[oldest[j].0].clock by {
        let e = oldest[j];
        assert(oldest.contains(e));
        assert(oldest.to_multiset().count(e) > 0);
        assert(snap.to_multiset().count(e) > 0);
        assert(snap.contains(e));
    }
}

/// Taking entries out in the order of their last use, until enough is free,
/// evicts those used longest ago.
proof fn lemma_evicted(
    before: Map<(u16, u128), CachedV>,
    oldest: Seq<((u16, u128), u64)>,
    n: int,
    target: nat,
)
    requires
        before.dom().finite(),
        0 <= n <= oldest.len(),
        oldest.map_values(|e: ((u16, u128), u64)| e.0).no_duplicates(),
        oldest.map_values(|e: ((u16, u128), u64)| e.0).to_set() == before.dom(),
        forall|j: int|
            0 <= j < oldest.len() ==> (#[trigger] oldest[j]).1 == before[oldest[j].0].clock,
        sort::sorted(oldest, |a: ((u16, u128), u64), b: ((u16, u128), u64)| a.1 < b.1),
        ({
            let ks = oldest.map_values(|e: ((u16, u128), u64)| e.0);
            let after = before.remove_keys(ks.take(n).to_set());
            let freed = total(before) - total(after);
            &&& freed >= target || n == oldest.len()
            &&& n > 0 ==> freed - before[ks[n - 1]].size < target
        }),
    ensures
        evicted(
            before,
            before.remove_keys(
                oldest.map_values(|e: ((u16, u128), u64)| e.0).take(n).to_set(),
            ),
            target,
        ),
{
    let ks = oldest.map_values(|e: ((u16, u128), u64)| e.0);
    let gone = ks.take(n);
    let after = before.remove_keys(gone.to_set());
    assert forall|k: (u16, u128)| #[trigger] before.contains_key(k) implies exists|j: int|
        0 <= j < ks.len() && ks[j] == k by {
        assert(ks.to_set().contains(k));
        assert(ks.contains(k));
    }
    assert forall|k: (u16, u128)| #[trigger]
        before.contains_key(k) && !after.contains_key(k) implies exists|j: int|
        0 <= j < n && ks[j] == k by {
        assert(gone.to_set().contains(k));
        assert(gone.contains(k));
        let j = choose|j: int| 0 <= j < gone.len() && gone[j] == k;
        assert(ks[j] == k);
    }
    assert forall|k: (u16, u128)| #[trigger] after.contains_key(k) implies exists|j: int|
        n <= j < ks.len() && ks[j] == k by {
        assert(before.contains_key(k));
        let j = choose|j: int| 0 <= j < ks.len() && ks[j] == k;
        if j < n {
            assert(gone[j] == k);
            assert(gone.contains(k));
        }
    }
    assert forall|k: (u16, u128), kept: (u16, u128)|
        #![trigger before.contains_key(k), after.contains_key(kept)]
        before.contains_key(k) && !after.contains_key(k) && after.contains_key(
            kept,
        ) implies before[k].clock <= before[kept].clock by {
        let a = choose|j: int| 0 <= j < n && ks[j] == k;
        let b = choose|j: int| n <= j < ks.len() && ks[j] == kept;
        assert(oldest[a].0 == k && oldest[b].0 == kept);
    }
    if n == oldest.len() {
        assert(gone =~= ks);
        assert(after =~= no_entries());
    }
    if n == 0 {
        assert(gone.to_set() =~= Set::empty());
        assert(after =~= before);
    } else {
        let last = ks[n - 1];
        assert(gone[n - 1] == last);
        assert(gone.contains(last));
        assert(ks.to_set().contains(last));
        assert forall|k: (u16, u128)| #[trigger]
            before.contains_key(k) && !after.contains_key(k) implies before[k].clock
            <= before[last].clock by {
            let a = choose|j: int| 0 <= j < n && ks[j] == k;
            assert(oldest[a].0 == k && oldest[n - 1].0 == last);
        }
        assert(left_last(before, after, last));
    }
}

/// The entries of one lobe.
pub open spec fn of_lobe(m: Map<(u16, u128), CachedV>, lobe: u16) -> Map<(u16, u128), CachedV> {
    m.restrict(Set::new(|k: (u16, u128)| k.0 == lobe))
}

/// The entries of the other lobes.
pub open spec fn without_lobe(m: Map<(u16, u128), CachedV>, lobe: u16) -> Map<
    (u16, u128),
    CachedV,
> {
    m.restrict(Set::new(|k: (u16, u128)| k.0 != lobe))
}

/// The records of one lobe in the cache.
#[derive(Clone, Copy, Debug, PartialEq, Eq, Structural)]
pub struct LobeCacheInfo {
    pub lobe_id: u16,
    pub record_count: usize,
    pub estimated_bytes: usize,
}

/// What the cache holds of each lobe, and how much of its budget it uses.
#[derive(Clone, Debug)]
pub struct CacheStats {
    pub lobes: Vec<LobeCacheInfo>,
    pub used_bytes: usize,
    pub budget_bytes: usize,
}

/// An explicit cache of hot records with a budget in bytes.
pub struct RecordCache {
    records: DashMap<(u16, u128), CachedRecord>,
    lobes: Vec<u16>,
    access_counter: u64,
    budget: usize,
    used: usize,
}

impl View for RecordCache {
    type V = CacheV;

    closed spec fn view(&self) -> CacheV {
        CacheV {
            entries: entries(self.records),
            lobes: self.lobes@,
            counter: self.access_counter,
            budget: self.budget,
        }
    }
}

/// The key under which an entry lies is that of its record, in a lobe that is
/// known, and no entry was used later than the last use.
pub open spec fn sound(c: CacheV) -> bool {
    &&& c.entries.dom().finite()
    &&& c.lobes.no_duplicates()
    &&& forall|k: (u16, u128)| #[trigger]
        c.entries.contains_key(k) ==> c.entries[k].record.lid == k.1 && c.lobes.contains(k.0)
            && c.entries[k].clock <= c.counter
}

impl RecordCache {
    /// The cache is sound, and counts the bytes of its entries.
    pub closed spec fn wf(&self) -> bool {
        &&& sound(self@)
        &&& self.used == total(self@.entries)
    }

    /// An empty cache.
    pub fn new(budget_bytes: usize) -> (r: Self)
        ensures
            r.wf(),
            r@ == (CacheV {
                entries: no_entries(),
                lobes: Seq::empty(),
                counter: 0,
                budget: budget_bytes,
            }),
    {
        let r = RecordCache {
            records: new_map(),
            lobes: Vec::new(),
            access_counter: 0,
            budget: budget_bytes,
            used: 0,
        };
        assert(r.lobes@ =~= Seq::empty());
        r
    }

    /// The bytes that the cached records are estimated to take.
    pub fn used_bytes(&self) -> (n: usize)
        requires
            self.wf(),
        ensures
            n == total(self@.entries),
    {
        self.used
    }

    /// Stores a record as the one used last.
    fn store(&mut self, lobe_id: u16, record: Record, size: usize)
        requires
            old(self).wf(),
            old(self)@.lobes.contains(lobe_id),
            total(old(self)@.entries) + size <= usize::MAX,
        ensures
            final(self).wf(),
            final(self)@ == stored(old(self)@, lobe_id, record@, size),
            total(final(self)@.entries) <= total(old(self)@.entries) + size,
    {
        let now: u64 = self.access_counter.saturating_add(1);
        let key = (lobe_id, record.lid);
        let ghost before = entries(self.records);
        let entry = CachedRecord { record, size, clock: now };
        let ghost v = entry@;
        let replaced = put_entry(&mut self.records, key, entry);
        proof {
            lemma_total_insert(before, key, v);
        }
        if let Some(e) = replaced {
            self.used = self.used - e.size;
        }
        self.used = self.used + size;
        self.access_counter = now;
    }

    /// Evicts the records that were used longest ago until `target_bytes` are
    /// free or the cache is empty. The bytes freed are handed back.
    pub fn evict_lru(&mut self, target_bytes: usize) -> (freed: usize)
        requires
            old(self).wf(),
        ensures
            final(self).wf(),
            final(self)@ == (CacheV { entries: final(self)@.entries, ..old(self)@ }),
            evicted(old(self)@.entries, final(self)@.entries, target_bytes as nat),
            freed == total(old(self)@.entries) - total(final(self)@.entries),
    {
        if target_bytes == 0 {
            return 0;
        }
        let ghost before = entries(self.records);
        let keys = entry_keys(&self.records);
        let mut snapshot: Vec<((u16, u128), u64)> = Vec::new();
        let mut i: usize = 0;
        while i < keys.len()
            invariant
                i <= keys@.len(),
                self.records == old(self).records,
                before == entries(self.records),
                keys@.to_set() == before.dom(),
                snapshot@.len() == i,
                forall|j: int|
                    0 <= j < i ==> #[trigger] snapshot@[j] == (keys@[j], before[keys@[j]].clock),
            decreases keys@.len() - i,
        {
            assert(keys@.to_set().contains(keys@[i as int]));
            if let Some(e) = read_entry(&self.records, keys[i]) {
                snapshot.push((keys[i], e.clock));
            }
            i = i + 1;
        }
        let f = |a: &((u16, u128), u64), b: &((u16, u128), u64)| -> (r: bool)
            ensures
                r == (a.1 < b.1),
            { a.1 < b.1 };
        let ghost lt = |a: ((u16, u128), u64), b: ((u16, u128), u64)| a.1 < b.1;
        let ghost snap = snapshot@;
        let oldest = sort::merge_sort(snapshot, &f, Ghost(lt));
        let ghost ks = oldest@.map_values(|e: ((u16, u128), u64)| e.0);
        proof {
            lemma_sorted_keys(keys@, snap, oldest@, before);
            assert(ks.take(0).to_set() =~= Set::empty());
            assert(before.remove_keys(Set::empty()) =~= before);
        }
        let mut freed: usize = 0;
        let mut n: usize = 0;
        while n < oldest.len() && freed < target_bytes
            invariant
                n <= oldest@.len(),
                ks == oldest@.map_values(|e: ((u16, u128), u64)| e.0),
                ks.no_duplicates(),
                ks.to_set() == before.dom(),
                before.dom().finite(),
                total(before) <= usize::MAX,
                sound(old(self)@),
                before == old(self)@.entries,
                entries(self.records) == before.remove_keys(ks.take(n as int).to_set()),
                self@ == (CacheV { entries: self@.entries, ..old(self)@ }),
                self.wf(),
                freed == total(before) - total(self@.entries),
                n > 0 ==> freed - before[ks[n - 1]].size < target_bytes,
            decreases oldest@.len() - n,
        {
            let key = oldest[n].0;
            let ghost now = entries(self.records);
            proof {
                assert(ks[n as int] == key);
                assert(ks.to_set().contains(key));
                assert(!ks.take(n as int).contains(key));
                lemma_total_remove(now, key);
                assert(ks.take(n + 1) =~= ks.take(n as int).push(key));
                lemma_push_to_set(ks.take(n as int), key);
                assert(now.remove(key) =~= before.remove_keys(ks.take(n + 1).to_set()));
            }
            if let Some(e) = take_entry(&mut self.records, key) {
                self.used = self.used - e.size;
                freed = freed + e.size;
            }
            n = n + 1;
        }
        proof {
            lemma_evicted(before, oldest@, n as int, target_bytes as nat);
        }
        freed
    }

    /// Loads records of a lobe, with their estimated sizes. Where they do not fit
    /// beside what is cached, the records used longest ago make room; a batch that
    /// exceeds the whole budget is refused.
    pub fn load_records(&mut self, lobe_id: u16, records: Vec<(Record, usize)>) -> (r: Result<
        usize,
        XyzError,
    >)
        requires
            old(self).wf(),
            batch_bytes(batch_view(records@)) <= usize::MAX,
        ensures
            final(self).wf(),
            if batch_bytes(batch_view(records@)) > old(self)@.budget {
                &&& final(self)@ == old(self)@
                &&& error::is_invalid(
                    r,
                    too_large(batch_bytes(batch_view(records@)), old(self)@.budget),
                )
            } else {
                &&& r == Ok::<usize, XyzError>(records@.len() as usize)
                &&& is_loaded(old(self)@, final(self)@, lobe_id, batch_view(records@))
                &&& total(final(self)@.entries) <= old(self)@.budget
            },
    {
        let ghost batch = batch_view(records@);
        let estimated: usize = batch_size(&records);
        if estimated > self.budget {
            let a = text::decimal_text((estimated / MEGABYTE) as i128);
            let b = text::decimal_text((self.budget / MEGABYTE) as i128);
            let head = text::join3("INCACHE batch ~", a.as_str(), "MB exceeds total budget ");
            let message = text::join3(head.as_str(), b.as_str(), "MB. Use WHERE to filter.");
            assert(message@ =~= too_large(batch_bytes(batch), self@.budget));
            return Err(XyzError::InvalidQuery(message));
        }
        let free: usize = self.budget - estimated;
        if self.used > free {
            let needed: usize = self.used - free;
            let _freed: usize = self.evict_lru(needed);
        }
        let ghost kept = self@.entries;
        proof {
            assert(room_made(old(self)@, kept, batch_bytes(batch)));
            assert(total(kept) + batch_bytes(batch) <= old(self)@.budget) by {
                if kept == no_entries() {
                    assert(total(kept) == 0);
                }
            }
        }
        if !contains_lobe(&self.lobes, lobe_id) {
            let ghost lobes = self.lobes@;
            self.lobes.push(lobe_id);
            proof {
                assert(self.lobes@[lobes.len() as int] == lobe_id);
                assert forall|l: u16| lobes.contains(l) implies #[trigger] self.lobes@.contains(
                    l,
                ) by {
                    let i = choose|i: int| 0 <= i < lobes.len() && lobes[i] == l;
                    assert(self.lobes@[i] == l);
                }
            }
        }
        let ghost start = with_lobe(CacheV { entries: kept, ..old(self)@ }, lobe_id);
        let count: usize = records.len();
        let mut todo = sort::reversed(records);
        let ghost mut n: int = 0;
        assert(batch.take(0) =~= Seq::empty());
        while todo.len() > 0
            invariant
                todo@.len() + n == batch.len(),
                0 <= n <= batch.len(),
                forall|j: int|
                    0 <= j < todo@.len() ==> (#[trigger] todo@[j]).0@ == batch[batch.len() - 1
                        - j].0 && todo@[j].1 == batch[batch.len() - 1 - j].1,
                self.wf(),
                self@.lobes == start.lobes,
                self@.lobes.contains(lobe_id),
                self@ == loaded(start, lobe_id, batch.take(n)),
                total(self@.entries) <= total(kept) + batch_bytes(batch.take(n)),
                total(kept) + batch_bytes(batch) <= old(self)@.budget,
            decreases todo@.len(),
        {
            if let Some((record, size)) = todo.pop() {
                proof {
                    lemma_part_bytes(batch, n + 1);
                    assert(batch.take(n + 1).drop_last() =~= batch.take(n));
                    assert(batch.take(n + 1).last() == (record@, size));
                }
                self.store(lobe_id, record, size);
                proof {
                    n = n + 1;
                }
            }
        }
        assert(batch.take(n) =~= batch);
        Ok(count)
    }

    /// Marks a cached record as the one used last.
    fn touch(&mut self, lobe_id: u16, lid: u128)
        requires
            old(self).wf(),
            old(self)@.entries.contains_key((lobe_id, lid)),
        ensures
            final(self).wf(),
            final(self)@ == touched(old(self)@, lobe_id, lid),
            total(final(self)@.entries) == total(old(self)@.entries),
    {
        let now: u64 = self.access_counter.saturating_add(1);
        let key = (lobe_id, lid);
        let ghost before = entries(self.records);
        if let Some(e) = take_entry(&mut self.records, key) {
            let entry = CachedRecord { record: e.record, size: e.size, clock: now };
            let ghost v = entry@;
            let _before = put_entry(&mut self.records, key, entry);
            proof {
                lemma_total_insert(before, key, v);
                assert(before.remove(key).insert(key, v) =~= before.insert(key, v));
            }
        }
        self.access_counter = now;
    }

    /// The cached record with an identity, if there is one. It is then the one
    /// used last.
    pub fn get(&mut self, lobe_id: u16, lid: u128) -> (r: Option<Record>)
        requires
            old(self).wf(),
        ensures
            final(self).wf(),
            match r {
                Some(rec) => {
                    &&& old(self)@.entries.contains_key((lobe_id, lid))
                    &&& rec@ == old(self)@.entries[(lobe_id, lid)].record
                    &&& final(self)@ == touched(old(self)@, lobe_id, lid)
                },
                None => !old(self)@.entries.contains_key((lobe_id, lid)) && final(self)@ == old(
                    self,
                )@,
            },
    {
        match read_entry(&self.records, (lobe_id, lid)) {
            Some(e) => {
                self.touch(lobe_id, lid);
                Some(e.record)
            },
            None => None,
        }
    }

    /// Whether a record of the lobe is cached.
    pub fn has_lobe(&self, lobe_id: u16) -> (r: bool)
        requires
            self.wf(),
        ensures
            r <==> exists|k: (u16, u128)| #[trigger]
                self@.entries.contains_key(k) && k.0 == lobe_id,
    {
        let keys = entry_keys(&self.records);
        let mut i: usize = 0;
        while i < keys.len()
            invariant
                i <= keys@.len(),
                keys@.to_set() == self@.entries.dom(),
                forall|j: int| 0 <= j < i ==> (#[trigger] keys@[j]).0 != lobe_id,
            decreases keys@.len() - i,
        {
            if keys[i].0 == lobe_id {
                assert(keys@.to_set().contains(keys@[i as int]));
                assert(self@.entries.contains_key(keys@[i as int]));
                return true;
            }
            i = i + 1;
        }
        assert forall|k: (u16, u128)| #[trigger] self@.entries.contains_key(k) implies k.0
            != lobe_id by {
            assert(keys@.to_set().contains(k));
            assert(keys@.contains(k));
        }
        false
    }

    /// The cached records of a lobe that pass the filter, in no particular order.
    /// Each is used once.
    pub fn scan_lobe<F: Fn(&Record) -> bool>(&mut self, lobe_id: u16, filter: F) -> (r: Vec<Record>)
        requires
            old(self).wf(),
            forall|rec: &Record| #[trigger] filter.requires((rec,)),
        ensures
            final(self).wf(),
            exists|lids: Seq<u128>| #[trigger]
                is_scanned(old(self)@, lobe_id, filter, lids) && r@.len() == lids.len() && (forall|
                    i: int,
                |
                    0 <= i < lids.len() ==> (#[trigger] r@[i])@ == old(self)@.entries[(
                        lobe_id,
                        lids[i],
                    )].record) && final(self)@ == all_touched(old(self)@, lobe_id, lids),
    {
        let ghost before = self@.entries;
        let keys = entry_keys(&self.records);
        let mut out: Vec<Record> = Vec::new();
        let mut lids: Vec<u128> = Vec::new();
        let mut i: usize = 0;
        while i < keys.len()
            invariant
                i <= keys@.len(),
                *self == *old(self),
                self.wf(),
                before == self@.entries,
                keys@.no_duplicates(),
                keys@.to_set() == before.dom(),
                forall|rec: &Record| #[trigger] filter.requires((rec,)),
                out@.len() == lids@.len(),
                lids@.no_duplicates(),
                forall|j: int|
                    0 <= j < lids@.len() ==> before.contains_key((lobe_id, #[trigger] lids@[j]))
                        && keys@.take(i as int).contains((lobe_id, lids@[j])),
                forall|j: int|
                    0 <= j < lids@.len() ==> (#[trigger] out@[j])@ == before[(
                        lobe_id,
                        lids@[j],
                    )].record,
                forall|j: int|
                    0 <= j < i && (#[trigger] keys@[j]).0 == lobe_id ==> passes(
                        filter,
                        before[keys@[j]].record,
                        lids@.contains(keys@[j].1),
                    ),
            decreases keys@.len() - i,
        {
            let key = keys[i];
            let ghost lids0 = lids@;
            proof {
                assert(keys@.to_set().contains(key));
                assert(!keys@.take(i as int).contains(key));
                assert(keys@.take(i + 1) =~= keys@.take(i as int).push(key));
                assert forall|k: (u16, u128)| keys@.take(i as int).contains(
                    k,
                ) implies #[trigger] keys@.take(i + 1).contains(k) by {
                    let j = choose|j: int|
                        0 <= j < i && keys@.take(i as int)[j] == k;
                    assert(keys@.take(i + 1)[j] == k);
                }
                assert(keys@.take(i + 1)[i as int] == key);
                if key.0 == lobe_id && lids0.contains(key.1) {
                    let j = choose|j: int| 0 <= j < lids0.len() && lids0[j] == key.1;
                    assert(keys@.take(i as int).contains((lobe_id, lids0[j])));
                }
            }
            if key.0 == lobe_id {
                if let Some(e) = read_entry(&self.records, key) {
                    let passed = filter(&e.record);
                    assert(passes(filter, before[key].record, passed));
                    if passed {
                        out.push(e.record);
                        lids.push(key.1);
                        assert(lids@[lids0.len() as int] == key.1);
                    }
                }
            }
            proof {
                assert forall|j: int|
                    0 <= j < i + 1 && (#[trigger] keys@[j]).0 == lobe_id implies passes(
                    filter,
                    before[keys@[j]].record,
                    lids@.contains(keys@[j].1),
                ) by {
                    if j < i {
                        let l = keys@[j].1;
                        assert(keys@[j] != key);
                        if lids0.contains(l) {
                            let m = choose|m: int| 0 <= m < lids0.len() && lids0[m] == l;
                            assert(lids@[m] == l);
                        }
                        assert(lids@.contains(l) == lids0.contains(l));
                    }
                }
            }
            i = i + 1;
        }
        proof {
            assert forall|lid: u128| #[trigger] before.contains_key((lobe_id, lid)) implies passes(
                filter,
                before[(lobe_id, lid)].record,
                lids@.contains(lid),
            ) by {
                assert(keys@.to_set().contains((lobe_id, lid)));
                let j = choose|j: int| 0 <= j < keys@.len() && keys@[j] == (lobe_id, lid);
                assert(keys@[j].1 == lid);
            }
            assert(is_scanned(old(self)@, lobe_id, filter, lids@));
        }
        let mut n: usize = 0;
        assert(lids@.take(0) =~= Seq::empty());
        while n < lids.len()
            invariant
                n <= lids@.len(),
                before == old(self)@.entries,
                self.wf(),
                forall|j: int|
                    0 <= j < lids@.len() ==> before.contains_key((lobe_id, #[trigger] lids@[j])),
                self@.entries.dom() == before.dom(),
                self@ == all_touched(old(self)@, lobe_id, lids@.take(n as int)),
            decreases lids@.len() - n,
        {
            assert(lids@.take(n + 1).drop_last() =~= lids@.take(n as int));
            assert(before.contains_key((lobe_id, lids@[n as int])));
            let ghost now = self@;
            self.touch(lobe_id, lids[n]);
            assert(self@.entries.dom() =~= before.dom());
            n = n + 1;
        }
        assert(lids@.take(n as int) =~= lids@);
        out
    }

    /// Stores the new version of a record, if records of its lobe were loaded.
    pub fn update_record(&mut self, lobe_id: u16, record: &Record, size: usize)
        requires
            old(self).wf(),
            total(old(self)@.entries) + size <= usize::MAX,
        ensures
            final(self).wf(),
            final(self)@ == if old(self)@.lobes.contains(lobe_id) {
                stored(old(self)@, lobe_id, record@, size)
            } else {
                old(self)@
            },
    {
        if contains_lobe(&self.lobes, lobe_id) {
            self.store(lobe_id, record.clone_record(), size);
        }
    }

    /// Takes a record out of the cache.
    pub fn invalidate_record(&mut self, lobe_id: u16, lid: u128)
        requires
            old(self).wf(),
        ensures
            final(self).wf(),
            final(self)@ == (CacheV {
                entries: old(self)@.entries.remove((lobe_id, lid)),
                ..old(self)@
            }),
    {
        let ghost before = entries(self.records);
        proof {
            if before.contains_key((lobe_id, lid)) {
                lemma_total_remove(before, (lobe_id, lid));
            } else {
                assert(before.remove((lobe_id, lid)) =~= before);
            }
        }
        if let Some(e) = take_entry(&mut self.records, (lobe_id, lid)) {
            self.used = self.used - e.size;
        }
    }

    /// Takes all records of a lobe out of the cache, which then knows nothing of
    /// the lobe.
    pub fn evict_lobe(&mut self, lobe_id: u16)
        requires
            old(self).wf(),
        ensures
            final(self).wf(),
            final(self)@.entries == without_lobe(old(self)@.entries, lobe_id),
            final(self)@.counter == old(self)@.counter,
            final(self)@.budget == old(self)@.budget,
            is_lobe_dropped(old(self)@.lobes, final(self)@.lobes, lobe_id),
    {
        let ghost before = entries(self.records);
        let keys = entry_keys(&self.records);
        let mut i: usize = 0;
        proof {
            assert(keys@.take(0) =~= Seq::empty());
            assert(before =~= before.remove_keys(
                Set::new(|k: (u16, u128)| k.0 == lobe_id && keys@.take(0).contains(k)),
            ));
        }
        while i < keys.len()
            invariant
                i <= keys@.len(),
                keys@.no_duplicates(),
                keys@.to_set() == before.dom(),
                before == old(self)@.entries,
                self.wf(),
                entries(self.records) == before.remove_keys(
                    Set::new(|k: (u16, u128)| k.0 == lobe_id && keys@.take(i as int).contains(k)),
                ),
                self@ == (CacheV { entries: self@.entries, ..old(self)@ }),
            decreases keys@.len() - i,
        {
            let key = keys[i];
            let ghost now = entries(self.records);
            proof {
                assert(keys@.to_set().contains(key));
                assert(!keys@.take(i as int).contains(key));
                assert(keys@.take(i + 1) =~= keys@.take(i as int).push(key));
                lemma_push_to_set(keys@.take(i as int), key);
                let gone = Set::new(
                    |k: (u16, u128)| k.0 == lobe_id && keys@.take(i + 1).contains(k),
                );
                assert forall|k: (u16, u128)| #[trigger] keys@.take(i + 1).contains(k) == (
                keys@.take(i as int).contains(k) || k == key) by {
                    assert(keys@.take(i + 1).to_set().contains(k) == keys@.take(i + 1).contains(k));
                    assert(keys@.take(i as int).to_set().contains(k) == keys@.take(
                        i as int,
                    ).contains(k));
                }
                if key.0 == lobe_id {
                    lemma_total_remove(now, key);
                    assert(now.remove(key) =~= before.remove_keys(gone));
                } else {
                    assert(now =~= before.remove_keys(gone));
                }
            }
            if key.0 == lobe_id {
                if let Some(e) = take_entry(&mut self.records, key) {
                    self.used = self.used - e.size;
                }
            }
            i = i + 1;
        }
        proof {
            assert(keys@.take(i as int) =~= keys@);
            assert forall|k: (u16, u128)| #[trigger] before.contains_key(k) implies keys@.contains(
                k,
            ) by {
                assert(keys@.to_set().contains(k));
            }
            assert(self@.entries =~= without_lobe(before, lobe_id));
        }
        let mut p: usize = 0;
        while p < self.lobes.len()
            invariant
                p <= self.lobes@.len(),
                before == old(self)@.entries,
                self.wf(),
                self@ == (CacheV { entries: without_lobe(before, lobe_id), ..old(self)@ }),
                forall|j: int| 0 <= j < p ==> #[trigger] self.lobes@[j] != lobe_id,
            decreases self.lobes@.len() - p,
        {
            if self.lobes[p] == lobe_id {
                let ghost lobes = self.lobes@;
                let _lobe: u16 = self.lobes.remove(p);
                proof {
                    assert(lobes[p as int] == lobe_id);
                    assert(self.lobes@ =~= lobes.remove(p as int));
                    assert forall|l: u16| lobes.contains(l) && l
                        != lobe_id implies #[trigger] self.lobes@.contains(l) by {
                        let j = choose|j: int| 0 <= j < lobes.len() && lobes[j] == l;
                        if j < p {
                            assert(self.lobes@[j] == l);
                        } else {
                            assert(self.lobes@[j - 1] == l);
                        }
                    }
                }
                return;
            }
            p = p + 1;
        }
    }

    /// What the cache holds.
    pub fn stats(&self) -> (r: CacheStats)
        requires
            self.wf(),
        ensures
            r.used_bytes == total(self@.entries),
            r.budget_bytes == self@.budget,
            r.lobes@.len() == self@.lobes.len(),
            forall|i: int|
                0 <= i < r.lobes@.len() ==> is_lobe_info(
                    self@,
                    self@.lobes[i],
                    #[trigger] r.lobes@[i],
                ),
    {
        let keys = entry_keys(&self.records);
        let mut lobes: Vec<LobeCacheInfo> = Vec::new();
        let mut i: usize = 0;
        while i < self.lobes.len()
            invariant
                i <= self.lobes@.len(),
                self.wf(),
                keys@.no_duplicates(),
                keys@.to_set() == self@.entries.dom(),
                lobes@.len() == i,
                forall|j: int|
                    0 <= j < i ==> is_lobe_info(self@, self@.lobes[j], #[trigger] lobes@[j]),
            decreases self.lobes@.len() - i,
        {
            let info = self.lobe_info(&keys, self.lobes[i]);
            lobes.push(info);
            i = i + 1;
        }
        CacheStats { lobes, used_bytes: self.used, budget_bytes: self.budget }
    }

    /// What the cache holds of one lobe.
    fn lobe_info(&self, keys: &Vec<(u16, u128)>, lobe_id: u16) -> (r: LobeCacheInfo)
        requires
            self.wf(),
            keys@.no_duplicates(),
            keys@.to_set() == self@.entries.dom(),
        ensures
            is_lobe_info(self@, lobe_id, r),
    {
        let ghost m = self@.entries;
        let ghost mut seen: Map<(u16, u128), CachedV> = Map::empty();
        let mut record_count: usize = 0;
        let mut estimated_bytes: usize = 0;
        let mut i: usize = 0;
        while i < keys.len()
            invariant
                i <= keys@.len(),
                self.wf(),
                m == self@.entries,
                keys@.no_duplicates(),
                keys@.to_set() == m.dom(),
                record_count <= i,
                seen.dom().finite(),
                forall|k: (u16, u128)| #[trigger]
                    seen.contains_key(k) <==> k.0 == lobe_id && keys@.take(i as int).contains(k),
                forall|k: (u16, u128)| #[trigger]
                    seen.contains_key(k) ==> m.contains_key(k) && seen[k] == m[k],
                record_count == seen.dom().len(),
                estimated_bytes == total(seen),
            decreases keys@.len() - i,
        {
            let key = keys[i];
            proof {
                assert(keys@.to_set().contains(key));
                assert(!keys@.take(i as int).contains(key));
                assert(keys@.take(i + 1) =~= keys@.take(i as int).push(key));
                lemma_push_to_set(keys@.take(i as int), key);
                assert forall|k: (u16, u128)| #[trigger] keys@.take(i + 1).contains(k) == (
                keys@.take(i as int).contains(k) || k == key) by {
                    assert(keys@.take(i + 1).to_set().contains(k) == keys@.take(i + 1).contains(k));
                    assert(keys@.take(i as int).to_set().contains(k) == keys@.take(
                        i as int,
                    ).contains(k));
                }
            }
            if key.0 == lobe_id {
                if let Some(e) = read_entry(&self.records, key) {
                    proof {
                        let more = seen.insert(key, m[key]);
                        lemma_total_insert(seen, key, m[key]);
                        assert(seen.remove(key) =~= seen);
                        lemma_total_part(m, more);
                        seen = more;
                    }
                    record_count = record_count + 1;
                    estimated_bytes = estimated_bytes + e.size;
                }
            }
            i = i + 1;
        }
        proof {
            assert(keys@.take(i as int) =~= keys@);
            assert forall|k: (u16, u128)| #[trigger] m.contains_key(k) implies keys@.contains(k) by {
                assert(keys@.to_set().contains(k));
            }
            assert(seen =~= of_lobe(m, lobe_id));
        }
        LobeCacheInfo { lobe_id, record_count, estimated_bytes }
    }
}

/// The info says how many records of the lobe are cached, and what they take.
pub open spec fn is_lobe_info(c: CacheV, lobe: u16, info: LobeCacheInfo) -> bool {
    &&& info.lobe_id == lobe
    &&& info.record_count == of_lobe(c.entries, lobe).dom().len()
    &&& info.estimated_bytes == total(of_lobe(c.entries, lobe))
}

/// The lobe is dropped from the list, if it is there.
pub open spec fn is_lobe_dropped(before: Seq<u16>, after: Seq<u16>, lobe: u16) -> bool {
    if before.contains(lobe) {
        exists|i: int| 0 <= i < before.len() && before[i] == lobe && after == #[trigger] before.remove(i)
    } else {
        after == before
    }
}

/// The filter may answer `b` for a record.
pub open spec fn passes<F: Fn(&Record) -> bool>(filter: F, rec: RecordV, b: bool) -> bool {
    exists|r: &Record| r@ == rec && #[trigger] filter.ensures((r,), b)
}

/// The identities of the cached records of a lobe that pass the filter, each once.
pub open spec fn is_scanned<F: Fn(&Record) -> bool>(
    c: CacheV,
    lobe: u16,
    filter: F,
    lids: Seq<u128>,
) -> bool {
    &&& lids.no_duplicates()
    &&& forall|i: int| 0 <= i < lids.len() ==> c.entries.contains_key((lobe, #[trigger] lids[i]))
    &&& forall|lid: u128| #[trigger]
        c.entries.contains_key((lobe, lid)) ==> passes(
            filter,
            c.entries[(lobe, lid)].record,
            lids.contains(lid),
        )
}

/// The cache after a use of several records, from first to last.
pub open spec fn all_touched(c: CacheV, lobe: u16, lids: Seq<u128>) -> CacheV
    decreases lids.len(),
{
    if lids.len() == 0 {
        c
    } else {
        touched(all_touched(c, lobe, lids.drop_last()), lobe, lids.last())
    }
}

/// The message for a batch that exceeds the whole budget.
pub open spec fn too_large(bytes: nat, budget: usize) -> Seq<char> {
    "INCACHE batch ~"@ + text::decimal(bytes as int / 1_048_576)
        + "MB exceeds total budget "@ + text::decimal(budget as int / 1_048_576)
        + "MB. Use WHERE to filter."@
}

/// What is kept when room is made for `bytes` more.
pub open spec fn room_made(
    c: CacheV,
    kept: Map<(u16, u128), CachedV>,
    bytes: nat,
) -> bool {
    if total(c.entries) + bytes <= c.budget {
        kept == c.entries
    } else {
        evicted(c.entries, kept, (total(c.entries) + bytes - c.budget) as nat)
    }
}

/// The batch is stored, after room was made for it.
pub open spec fn is_loaded(
    before: CacheV,
    after: CacheV,
    lobe: u16,
    batch: Seq<(RecordV, usize)>,
) -> bool {
    exists|kept: Map<(u16, u128), CachedV>| #[trigger]
        room_made(before, kept, batch_bytes(batch)) && after == loaded(
            with_lobe(CacheV { entries: kept, ..before }, lobe),
            lobe,
            batch,
        )
}

/// A part of the entries takes no more than all of them.
proof fn lemma_total_part(m: Map<(u16, u128), CachedV>, part: Map<(u16, u128), CachedV>)
    requires
        m.dom().finite(),
        part.dom().finite(),
        forall|k: (u16, u128)| #[trigger]
            part.contains_key(k) ==> m.contains_key(k) && part[k] == m[k],
    ensures
        total(part) <= total(m),
    decreases part.dom().len(),
{
    if part.dom().len() > 0 {
        let k = part.dom().choose();
        assert(part.contains_key(k));
        lemma_total_remove(m, k);
        lemma_total_part(m.remove(k), part.remove(k));
    }
}

/// The first records of a batch take no more than all of them.
proof fn lemma_part_bytes(batch: Seq<(RecordV, usize)>, n: int)
    requires
        0 <= n <= batch.len(),
    ensures
        batch_bytes(batch.take(n)) <= batch_bytes(batch),
    decreases batch.len(),
{
    if n == batch.len() {
        assert(batch.take(n) =~= batch);
    } else {
        lemma_part_bytes(batch.drop_last(), n);
        assert(batch.drop_last().take(n) =~= batch.take(n));
    }
}

/// The bytes that a batch is estimated to take.
fn batch_size(records: &Vec<(Record, usize)>) -> (n: usize)
    requires
        batch_bytes(batch_view(records@)) <= usize::MAX,
    ensures
        n == batch_bytes(batch_view(records@)),
{
    let ghost batch = batch_view(records@);
    let mut n: usize = 0;
    let mut i: usize = 0;
    assert(batch.take(0) =~= Seq::empty());
    while i < records.len()
        invariant
            i <= records@.len(),
            batch == batch_view(records@),
            batch_bytes(batch) <= usize::MAX,
            n == batch_bytes(batch.take(i as int)),
        decreases records@.len() - i,
    {
        proof {
            lemma_part_bytes(batch, i + 1);
            assert(batch.take(i + 1).drop_last() =~= batch.take(i as int));
        }
        n = n + records[i].1;
        i = i + 1;
    }
    assert(batch.take(i as int) =~= batch);
    n
}

/// Whether a lobe is in the list.
fn contains_lobe(lobes: &Vec<u16>, lobe: u16) -> (r: bool)
    ensures
        r == lobes@.contains(lobe),
{
    let mut i: usize = 0;
    while i < lobes.len()
        invariant
            i <= lobes@.len(),
            forall|j: int| 0 <= j < i ==> #[trigger] lobes@[j] != lobe,
        decreases lobes@.len() - i,
    {
        if lobes[i] == lobe {
            return true;
        }
        i = i + 1;
    }
    false
}

/// What a batch stores is found: the last record of the batch with an identity is
/// the one that is cached under it.
pub proof fn law_loaded_is_cached(c: CacheV, lobe: u16, batch: Seq<(RecordV, usize)>, i: int)
    requires
        0 <= i < batch.len(),
        forall|j: int| i < j < batch.len() ==> (#[trigger] batch[j]).0.lid != batch[i].0.lid,
    ensures
        loaded(c, lobe, batch).entries.contains_key((lobe, batch[i].0.lid)),
        loaded(c, lobe, batch).entries[(lobe, batch[i].0.lid)].record == batch[i].0,
    decreases batch.len(),
{
    if i < batch.len() - 1 {
        assert(batch[batch.len() - 1].0.lid != batch[i].0.lid);
        assert forall|j: int| i < j < batch.drop_last().len() implies (
        #[trigger] batch.drop_last()[j]).0.lid != batch.drop_last()[i].0.lid by {
            assert(batch[j].0.lid != batch[i].0.lid);
        }
        law_loaded_is_cached(c, lobe, batch.drop_last(), i);
    }
}

/// A record that was just used is evicted only after every record that was used
/// before it, as long as the count of uses does not run out.
pub proof fn law_used_record_leaves_last(
    c: CacheV,
    lobe: u16,
    lid: u128,
    after: Map<(u16, u128), CachedV>,
    target: nat,
)
    requires
        sound(c),
        c.counter < u64::MAX,
        c.entries.contains_key((lobe, lid)),
        evicted(touched(c, lobe, lid).entries, after, target),
        !after.contains_key((lobe, lid)),
    ensures
        after == no_entries(),
{
    let now = touched(c, lobe, lid).entries;
    assert forall|k: (u16, u128)| !after.contains_key(k) by {
        if after.contains_key(k) {
            assert(now.contains_key((lobe, lid)) && now.contains_key(k));
            assert(k != (lobe, lid));
            assert(c.entries.contains_key(k));
            assert(now[k] == c.entries[k]);
        }
    }
    assert(after =~= no_entries());
}

/// Asking for nothing evicts nothing.
pub proof fn law_nothing_asked_nothing_evicted(
    before: Map<(u16, u128), CachedV>,
    after: Map<(u16, u128), CachedV>,
)
    requires
        before.dom().finite(),
        evicted(before, after, 0),
    ensures
        after == before,
{
    if after != before {
        let last = choose|last: (u16, u128)| #[trigger]
            left_last(before, after, last) && total(before) - total(after) - before[last].size < 0;
        let rest = before.remove(last);
        lemma_total_remove(before, last);
        assert(after.dom().subset_of(before.dom()));
        vstd::set_lib::lemma_set_subset_finite(before.dom(), after.dom());
        lemma_total_part(rest, after);
    }
}

/// What entries take together is what each takes: an entry that is added counts its own
/// size, in place of that of one it replaces.
pub proof fn law_sizes_add_up(m: Map<(u16, u128), CachedV>, k: (u16, u128), v: CachedV)
    requires
        m.dom().finite(),
    ensures
        total(Map::<(u16, u128), CachedV>::empty()) == 0,
        total(m.insert(k, v)) + if m.contains_key(k) {
            m[k].size as nat
        } else {
            0
        } == total(m) + v.size,
{
    lemma_total_insert(m, k, v);
}

/// A use of a cached record changes nothing but when it was used last.
pub proof fn law_use_keeps_records(c: CacheV, lobe: u16, lid: u128, k: (u16, u128))
    requires
        sound(c),
        c.entries.contains_key((lobe, lid)),
    ensures
        touched(c, lobe, lid).entries.contains_key(k) <==> c.entries.contains_key(k),
        c.entries.contains_key(k) ==> touched(c, lobe, lid).entries[k].record
            == c.entries[k].record && touched(c, lobe, lid).entries[k].size == c.entries[k].size,
        c.entries.contains_key(k) && k != (lobe, lid) ==> touched(c, lobe, lid).entries[k]
            == c.entries[k],
        c.counter < u64::MAX && c.entries.contains_key(k) && k != (lobe, lid) ==> touched(
            c,
            lobe,
            lid,
        ).entries[k].clock < touched(c, lobe, lid).entries[(lobe, lid)].clock,
        total(touched(c, lobe, lid).entries) == total(c.entries),
{
    let e = c.entries[(lobe, lid)];
    assert(e.record.lid == lid);
    let v = CachedV { record: e.record, size: e.size, clock: next_clock(c.counter) };
    lemma_total_insert(c.entries, (lobe, lid), v);
}

proof fn lemma_loaded_bytes(c: CacheV, lobe: u16, batch: Seq<(RecordV, usize)>)
    requires
        c.entries.dom().finite(),
    ensures
        loaded(c, lobe, batch).entries.dom().finite(),
        total(loaded(c, lobe, batch).entries) <= total(c.entries) + batch_bytes(batch),
        loaded(c, lobe, batch).budget == c.budget,
    decreases batch.len(),
{
    if batch.len() > 0 {
        let before = loaded(c, lobe, batch.drop_last());
        lemma_loaded_bytes(c, lobe, batch.drop_last());
        let rec = batch.last().0;
        let v = CachedV { record: rec, size: batch.last().1, clock: next_clock(before.counter) };
        lemma_total_insert(before.entries, (lobe, rec.lid), v);
    }
}

/// After a batch is stored that fits in the budget, the records in the cache fit in it
/// too.
pub proof fn law_cache_stays_in_budget(
    before: CacheV,
    after: CacheV,
    lobe: u16,
    batch: Seq<(RecordV, usize)>,
)
    requires
        sound(before),
        is_loaded(before, after, lobe, batch),
        batch_bytes(batch) <= before.budget,
    ensures
        total(after.entries) <= after.budget,
        after.budget == before.budget,
{
    let kept = choose|kept: Map<(u16, u128), CachedV>| #[trigger]
        room_made(before, kept, batch_bytes(batch)) && after == loaded(
            with_lobe(CacheV { entries: kept, ..before }, lobe),
            lobe,
            batch,
        );
    assert(kept.dom().subset_of(before.entries.dom()));
    vstd::set_lib::lemma_set_subset_finite(before.entries.dom(), kept.dom());
    lemma_loaded_bytes(with_lobe(CacheV { entries: kept, ..before }, lobe), lobe, batch);
    if kept == no_entries() {
        assert(total(kept) == 0);
    }
}

/// Loading a batch of one lobe drops no record of any lobe but those that made room, and
/// changes no record that is not in the batch.
pub proof fn law_load_leaves_other_records(
    before: CacheV,
    after: CacheV,
    lobe: u16,
    batch: Seq<(RecordV, usize)>,
    k: (u16, u128),
)
    requires
        is_loaded(before, after, lobe, batch),
        forall|i: int| 0 <= i < batch.len() ==> k != (lobe, (#[trigger] batch[i]).0.lid),
    ensures
        after.entries.contains_key(k) ==> before.entries.contains_key(k) && after.entries[k]
            == before.entries[k],
        total(before.entries) + batch_bytes(batch) <= before.budget ==> (after.entries.contains_key(
            k,
        ) <==> before.entries.contains_key(k)),
{
    let kept = choose|kept: Map<(u16, u128), CachedV>| #[trigger]
        room_made(before, kept, batch_bytes(batch)) && after == loaded(
            with_lobe(CacheV { entries: kept, ..before }, lobe),
            lobe,
            batch,
        );
    lemma_loaded_others(with_lobe(CacheV { entries: kept, ..before }, lobe), lobe, batch, k);
}

proof fn lemma_loaded_others(
    c: CacheV,
    lobe: u16,
    batch: Seq<(RecordV, usize)>,
    k: (u16, u128),
)
    requires
        forall|i: int| 0 <= i < batch.len() ==> k != (lobe, (#[trigger] batch[i]).0.lid),
    ensures
        loaded(c, lobe, batch).entries.contains_key(k) <==> c.entries.contains_key(k),
        c.entries.contains_key(k) ==> loaded(c, lobe, batch).entries[k] == c.entries[k],
    decreases batch.len(),
{
    if batch.len() > 0 {
        let d = batch.drop_last();
        assert forall|i: int| 0 <= i < d.len() implies k != (lobe, (#[trigger] d[i]).0.lid) by {
            assert(d[i] == batch[i]);
        }
        lemma_loaded_others(c, lobe, d, k);
        assert(k != (lobe, batch[batch.len() - 1].0.lid));
    }
}

/// Every entry is of its own lobe alone.
pub proof fn law_entries_are_of_one_lobe(
    m: Map<(u16, u128), CachedV>,
    lobe: u16,
    k: (u16, u128),
)
    ensures
        of_lobe(m, lobe).contains_key(k) <==> m.contains_key(k) && k.0 == lobe,
        without_lobe(m, lobe).contains_key(k) <==> m.contains_key(k) && k.0 != lobe,
        of_lobe(m, lobe).contains_key(k) ==> of_lobe(m, lobe)[k] == m[k],
        without_lobe(m, lobe).contains_key(k) ==> without_lobe(m, lobe)[k] == m[k],
{
}

/// A use of several cached records keeps every record.
pub proof fn law_uses_keep_records(c: CacheV, lobe: u16, lids: Seq<u128>, k: (u16, u128))
    requires
        sound(c),
        forall|i: int| 0 <= i < lids.len() ==> c.entries.contains_key((lobe, #[trigger] lids[i])),
    ensures
        all_touched(c, lobe, lids).entries.contains_key(k) <==> c.entries.contains_key(k),
        c.entries.contains_key(k) ==> all_touched(c, lobe, lids).entries[k].record
            == c.entries[k].record && all_touched(c, lobe, lids).entries[k].size
            == c.entries[k].size,
        forall|n: (u16, u128)| #[trigger]
            all_touched(c, lobe, lids).entries.contains_key(n) ==> all_touched(
                c,
                lobe,
                lids,
            ).entries[n].record.lid == n.1,
    decreases lids.len(),
{
    if lids.len() > 0 {
        let d = lids.drop_last();
        assert forall|i: int| 0 <= i < d.len() implies c.entries.contains_key(
            (lobe, #[trigger] d[i]),
        ) by {
            assert(d[i] == lids[i]);
        }
        law_uses_keep_records(c, lobe, d, k);
        law_uses_keep_records(c, lobe, d, (lobe, lids.last()));
        let before = all_touched(c, lobe, d);
        assert(c.entries.contains_key((lobe, lids[lids.len() - 1])));
        assert(before.entries.contains_key((lobe, lids.last())));
        assert(before.entries[(lobe, lids.last())].record.lid == lids.last());
    }
}

/// A scan of the cache finds each record of the lobe for which the filter says so, once,
/// and no other.
pub proof fn law_cache_scan_finds_what_passes<F: Fn(&Record) -> bool>(
    c: CacheV,
    lobe: u16,
    filter: F,
    lids: Seq<u128>,
    lid: u128,
    rec: &Record,
    b: bool,
)
    requires
        is_scanned(c, lobe, filter, lids),
        forall|r: &Record, s: &Record, x: bool, y: bool|
            #![trigger filter.ensures((r,), x), filter.ensures((s,), y)]
            r@ == s@ && filter.ensures((r,), x) && filter.ensures((s,), y) ==> x == y,
        filter.ensures((rec,), b),
        c.entries.contains_key((lobe, lid)) ==> c.entries[(lobe, lid)].record == rec@,
    ensures
        lids.contains(lid) <==> c.entries.contains_key((lobe, lid)) && b,
        lids.no_duplicates(),
{
    if lids.contains(lid) {
        let i = choose|i: int| 0 <= i < lids.len() && lids[i] == lid;
        assert(c.entries.contains_key((lobe, lids[i])));
    }
    if c.entries.contains_key((lobe, lid)) {
        assert(passes(filter, c.entries[(lobe, lid)].record, lids.contains(lid)));
    }
}

/// Once a lobe is dropped the other lobes are known as before, and it is not.
pub proof fn law_dropped_lobe_is_not_known(before: Seq<u16>, after: Seq<u16>, lobe: u16, other: u16)
    requires
        is_lobe_dropped(before, after, lobe),
        before.no_duplicates(),
    ensures
        after.contains(other) <==> before.contains(other) && other != lobe,
{
    if before.contains(lobe) {
        let i = choose|i: int|
            0 <= i < before.len() && before[i] == lobe && after == #[trigger] before.remove(i);
        if before.contains(other) && other != lobe {
            let k = choose|k: int| 0 <= k < before.len() && before[k] == other;
            if k < i {
                assert(after[k] == other);
            } else {
                assert(after[k - 1] == other);
            }
        }
        if after.contains(other) {
            let k = choose|k: int| 0 <= k < after.len() && after[k] == other;
            if k < i {
                assert(before[k] == other);
            } else {
                assert(before[k + 1] == other);
            }
        }
    }
}

} // verus!
