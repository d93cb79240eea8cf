use dashmap::{DashMap, DashSet};

use vstd::prelude::*;

use crate::time::Timestamp;

verus! {

#[verifier::external_type_specification]
#[verifier::external_body]
#[verifier::reject_recursive_types(K)]
#[verifier::reject_recursive_types(V)]
#[verifier::reject_recursive_types(S)]
pub struct ExDashMap<K, V, S>(dashmap::DashMap<K, V, S>);

#[verifier::external_type_specification]
#[verifier::external_body]
#[verifier::reject_recursive_types(K)]
#[verifier::reject_recursive_types(S)]
pub struct ExDashSet<K, S>(dashmap::DashSet<K, S>);

/// Directory file id to (last modified, total size), shared between threads.
pub type RecordMap = DashMap<u64, (Timestamp, u64)>;

/// What a record map holds: directory file id to (last modified, total size).
pub uninterp spec fn records_of(m: RecordMap) -> Map<u64, (Timestamp, u64)>;

/// What an id set holds.
pub uninterp spec fn ids_of(s: DashSet<u64>) -> Set<u64>;

/// Relies on dashmap::DashMap::new: an empty map.
#[verifier::external_body]
fn records_new() -> (r: RecordMap)
    ensures
        records_of(r).dom() == Set::<u64>::empty(),
{
    DashMap::new()
}

/// Relies on dashmap::DashMap::get: the value stored under `k`, if any.
#[verifier::external_body]
fn records_get(m: &RecordMap, k: u64) -> (r: Option<(Timestamp, u64)>)
    ensures
        r == (if records_of(*m).contains_key(k) {
            Some(records_of(*m)[k])
        } else {
            None
        }),
{
    m.get(&k).map(|e| *e.value())
}

/// Relies on dashmap::DashMap::insert: `v` is stored under `k`, replacing
/// what was there.
#[verifier::external_body]
fn records_insert(m: &mut RecordMap, k: u64, v: (Timestamp, u64))
    ensures
        records_of(*final(m)) == records_of(*old(m)).insert(k, v),
{
    m.insert(k, v);
}

/// Relies on dashmap::DashMap::is_empty: whether the map holds no entry.
#[verifier::external_body]
fn records_is_empty(m: &RecordMap) -> (r: bool)
    ensures
        r == (records_of(*m).dom() == Set::<u64>::empty()),
{
    m.is_empty()
}

/// Relies on dashmap::DashSet::new: an empty set.
#[verifier::external_body]
fn ids_new() -> (r: DashSet<u64>)
    ensures
        ids_of(r) == Set::<u64>::empty(),
{
    DashSet::new()
}

/// Relies on dashmap::DashSet::insert: `k` is in the set afterwards.
#[verifier::external_body]
fn ids_insert(s: &mut DashSet<u64>, k: u64)
    ensures
        ids_of(*final(s)) == ids_of(*old(s)).insert(k),
{
    s.insert(k);
}

/// Relies on dashmap::DashSet::iter: every element once, in no given order.
#[verifier::external_body]
fn ids_list(s: &DashSet<u64>) -> (r: Vec<u64>)
    ensures
        r@.no_duplicates(),
        r@.to_set() == ids_of(*s),
{
    s.iter().map(|k| *k.key()).collect()
}

/// The map that a list of records gives, a later record for a key winning.
pub open spec fn map_of(s: Seq<(u64, (Timestamp, u64))>) -> Map<u64, (Timestamp, u64)>
    decreases s.len(),
{
    if s.len() == 0 {
        Map::empty()
    } else {
        map_of(s.drop_last()).insert(s.last().0, s.last().1)
    }
}

/// Whether `r` holds, once each, exactly the records of `c` whose
/// directories were used.
pub open spec fn saved_exactly(r: Seq<(u64, (Timestamp, u64))>, c: CacheView) -> bool {
    &&& forall|i: int, j: int| 0 <= i < r.len() && 0 <= j < r.len() && r[i].0 == r[j].0 ==> i == j
    &&& forall|i: int|
        0 <= i < r.len() ==> c.used.contains(#[trigger] r[i].0) && c.entries.contains_key(r[i].0)
            && r[i].1 == c.entries[r[i].0]
    &&& forall|k: u64|
        c.used.contains(k) && c.entries.contains_key(k) ==> exists|i: int| 0 <= i < r.len() && #[trigger] r[i].0 == k
}

/// The mathematical value of a `CacheStore`.
pub struct CacheView {
    /// Directory file id to (last modified, total size).
    pub entries: Map<u64, (Timestamp, u64)>,
    /// The file ids used in this run.
    pub used: Set<u64>,
}

/// Totals of directories from earlier runs, keyed by the directory's file id,
/// with the set of ids used in this run.
pub struct CacheStore {
    entries: RecordMap,
    used: DashSet<u64>,
}

impl View for CacheStore {
    type V = CacheView;

    closed spec fn view(&self) -> CacheView {
        CacheView { entries: records_of(self.entries), used: ids_of(self.used) }
    }
}

impl CacheStore {
    /// An empty store.
    pub fn new() -> (r: CacheStore)
        ensures
            r@.entries == Map::<u64, (Timestamp, u64)>::empty(),
            r@.used == Set::<u64>::empty(),
    {
        CacheStore { entries: records_new(), used: ids_new() }
    }

    /// A store holding the given records, a later record for a key winning.
    pub fn from_records(data: &Vec<(u64, (Timestamp, u64))>) -> (r: CacheStore)
        ensures
            r@.entries == map_of(data@),
            r@.used == Set::<u64>::empty(),
    {
        let mut r = CacheStore::new();
        let mut i: usize = 0;
        while i < data.len()
            invariant
                0 <= i <= data@.len(),
                r@.entries == map_of(data@.take(i as int)),
                r@.used == Set::<u64>::empty(),
            decreases data@.len() - i,
        {
            let (k, v) = data[i];
            records_insert(&mut r.entries, k, v);
            proof {
                assert(data@.take(i + 1).drop_last() == data@.take(i as int));
            }
            i += 1;
        }
        proof {
            assert(data@.take(i as int) == data@);
        }
        r
    }

    /// Whether the store holds no record.
    pub fn is_empty(&self) -> (r: bool)
        ensures
            r == (self@.entries.dom() == Set::<u64>::empty()),
    {
        records_is_empty(&self.entries)
    }

    /// The depth to analyse to: one past `max_depth` when records from an
    /// earlier run are at hand, else two.
    pub fn depth_budget(&self, max_depth: usize) -> (r: usize)
        ensures
            r == (if self@.entries.dom() == Set::<u64>::empty() {
                2
            } else if max_depth < usize::MAX {
                max_depth + 1
            } else {
                usize::MAX as int
            }),
    {
        if self.is_empty() {
            2
        } else {
            max_depth.saturating_add(1)
        }
    }

    /// The record kept for directory `k`, if any.
    pub fn lookup(&self, k: u64) -> (r: Option<(Timestamp, u64)>)
        ensures
            r == (if self@.entries.contains_key(k) {
                Some(self@.entries[k])
            } else {
                None
            }),
    {
        records_get(&self.entries, k)
    }

    /// Marks directory `k` as used in this run.
    pub fn mark_used(&mut self, k: u64)
        ensures
            final(self)@.entries == old(self)@.entries,
            final(self)@.used == old(self)@.used.insert(k),
    {
        ids_insert(&mut self.used, k);
    }

    /// Stores `(last_modified, size)` for directory `k` and marks it used.
    pub fn store(&mut self, k: u64, last_modified: Timestamp, size: u64)
        ensures
            final(self)@.entries == old(self)@.entries.insert(k, (last_modified, size)),
            final(self)@.used == old(self)@.used.insert(k),
    {
        records_insert(&mut self.entries, k, (last_modified, size));
        ids_insert(&mut self.used, k);
    }

    /// The records of the directories used in this run, each once, in no
    /// given order; records never used are left out.
    pub fn used_records(&self) -> (r: Vec<(u64, (Timestamp, u64))>)
        ensures
            saved_exactly(r@, self@),
    {
        let ids = ids_list(&self.used);
        let mut out: Vec<(u64, (Timestamp, u64))> = Vec::new();
        let mut i: usize = 0;
        while i < ids.len()
            invariant
                0 <= i <= ids@.len(),
                ids@.no_duplicates(),
                ids@.to_set() == self@.used,
                forall|p: int, q: int| 0 <= p < out@.len() && 0 <= q < out@.len() && out@[p].0 == out@[q].0 ==> p == q,
                forall|p: int|
                    0 <= p < out@.len() ==> (exists|j: int| 0 <= j < i && ids@[j] == #[trigger] out@[p].0)
                        && self@.entries.contains_key(out@[p].0) && out@[p].1 == self@.entries[out@[p].0],
                forall|j: int|
                    0 <= j < i && self@.entries.contains_key(#[trigger] ids@[j]) ==> exists|p: int|
                        0 <= p < out@.len() && out@[p].0 == ids@[j],
            decreases ids@.len() - i,
        {
            let k = ids[i];
            match records_get(&self.entries, k) {
                Some(v) => {
                    let ghost before = out@;
                    out.push((k, v));
                    proof {
                        assert forall|p: int| 0 <= p < before.len() implies out@[p].0 != k by {
                            let j = choose|j: int| 0 <= j < i && ids@[j] == before[p].0;
                            assert(ids@[j] == out@[p].0);
                        }
                        assert forall|j: int|
                            0 <= j < i + 1 && self@.entries.contains_key(#[trigger] ids@[j]) implies exists|p: int|
                            0 <= p < out@.len() && out@[p].0 == ids@[j] by {
                            if j == i {
                                assert(out@[before.len() as int].0 == ids@[j]);
                            } else {
                                let p = choose|p: int| 0 <= p < before.len() && before[p].0 == ids@[j];
                                assert(out@[p].0 == ids@[j]);
                            }
                        }
                        assert forall|p: int|
                            0 <= p < out@.len() implies (exists|j: int| 0 <= j < i + 1 && ids@[j] == #[trigger] out@[p].0) by {
                            if p == before.len() {
                                assert(ids@[i as int] == out@[p].0);
                            } else {
                                let j = choose|j: int| 0 <= j < i && ids@[j] == before[p].0;
                                assert(ids@[j] == out@[p].0);
                            }
                        }
                    }
                },
                None => {},
            }
            i += 1;
        }
        proof {
            assert forall|p: int| 0 <= p < out@.len() implies self@.used.contains(#[trigger] out@[p].0) by {
                let j = choose|j: int| 0 <= j < i && ids@[j] == out@[p].0;
                assert(ids@.contains(out@[p].0));
            }
            assert forall|k: u64| self@.used.contains(k) && self@.entries.contains_key(k) implies exists|p: int|
                0 <= p < out@.len() && #[trigger] out@[p].0 == k by {
                assert(ids@.to_set().contains(k));
                let j = choose|j: int| 0 <= j < ids@.len() && ids@[j] == k;
                assert(self@.entries.contains_key(ids@[j]));
            }
        }
        out
    }
}

} // verus!
