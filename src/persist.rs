use vstd::prelude::*;

use crate::cache::{map_of, CacheStore};
use crate::time::Timestamp;

verus! {

broadcast use vstd::std_specs::vec::group_vec_axioms;

/// The value of a saved cache as MessagePack sees it: volume id, expiry as
/// (seconds, nanoseconds), target directory, and per directory file id the
/// last-modified time and the total size.
pub type WireView = (u64, (u64, u32), Seq<char>, Seq<(u64, ((u64, u32), u64))>);

type Wire = (u64, (u64, u32), String, Vec<(u64, ((u64, u32), u64))>);

/// The bytes that MessagePack encoding gives for a value.
pub uninterp spec fn msgpack_of(v: WireView) -> Seq<u8>;

/// The value that MessagePack decoding reads from bytes, if they hold one.
pub uninterp spec fn msgpack_value(b: Seq<u8>) -> Option<WireView>;

#[verifier::external_type_specification]
#[verifier::external_body]
pub struct ExEncodeError(rmp_serde::encode::Error);

#[verifier::external_type_specification]
#[verifier::external_body]
pub struct ExDecodeError(rmp_serde::decode::Error);

pub open spec fn wire_view(w: Wire) -> WireView {
    (w.0, w.1, w.2@, w.3@)
}

/// Relies on rmp_serde::to_vec: the MessagePack bytes of the value. Writing
/// into a `Vec` fails only when memory runs out, and lengths are written, not
/// refused, so it succeeds; decoding the bytes gives the value back.
#[verifier::external_body]
fn encode_wire(w: &Wire) -> (r: Result<Vec<u8>, rmp_serde::encode::Error>)
    ensures
        r is Ok,
        r->Ok_0@ == msgpack_of(wire_view(*w)),
        msgpack_value(r->Ok_0@) == Some(wire_view(*w)),
{
    rmp_serde::to_vec(w)
}

/// Relies on rmp_serde::from_slice: the value that the bytes encode, or an
/// error when they encode none of this shape.
#[verifier::external_body]
fn decode_wire(b: &[u8]) -> (r: Result<Wire, rmp_serde::decode::Error>)
    ensures
        r is Ok <==> msgpack_value(b@) is Some,
        r is Ok ==> msgpack_value(b@) == Some(wire_view(r->Ok_0)),
{
    rmp_serde::from_slice(b)
}

/// Why bytes could not be read back as a cache.
#[derive(Clone, Copy, Debug, PartialEq, Eq, Structural)]
pub enum CodecError {
    Decode,
}

/// The cache as it is saved between runs.
pub struct Cache {
    pub volume_id: u64,
    pub expire: Timestamp,
    pub target_dir: String,
    pub data: Vec<(u64, (Timestamp, u64))>,
}

pub open spec fn record_wire(e: (u64, (Timestamp, u64))) -> (u64, ((u64, u32), u64)) {
    (e.0, ((e.1.0.secs, e.1.0.nanos), e.1.1))
}

pub open spec fn records_wire(s: Seq<(u64, (Timestamp, u64))>) -> Seq<(u64, ((u64, u32), u64))> {
    s.map_values(|e: (u64, (Timestamp, u64))| record_wire(e))
}

/// Whether a saved cache may be used for a run on `target_dir`, volume
/// `volume_id`, at `now`.
pub open spec fn usable(c: Cache, target_dir: Seq<char>, now: Timestamp, volume_id: u64) -> bool {
    &&& same_path(c.target_dir@, target_dir)
    &&& now.total_nanos() <= c.expire.total_nanos()
    &&& c.volume_id == volume_id
}

/// Whether two strings name the same path, component by component.
pub uninterp spec fn same_path(a: Seq<char>, b: Seq<char>) -> bool;

/// Relies on `PartialEq` for std::path::Path: equal when the components are.
#[verifier::external_body]
fn paths_equal(a: &str, b: &str) -> (r: bool)
    ensures
        r == same_path(a@, b@),
{
    std::path::Path::new(a) == std::path::Path::new(b)
}

impl Cache {
    pub open spec fn wire(self) -> WireView {
        (self.volume_id, (self.expire.secs, self.expire.nanos), self.target_dir@, records_wire(self.data@))
    }

    pub fn new(volume_id: u64, target_dir: &str, data: Vec<(u64, (Timestamp, u64))>, expire: Timestamp) -> (r: Cache)
        ensures
            r.volume_id == volume_id,
            r.target_dir@ == target_dir@,
            r.data@ == data@,
            r.expire == expire,
    {
        Cache { volume_id, target_dir: target_dir.to_owned(), data, expire }
    }

    /// The MessagePack bytes of this cache; reading them back gives it again.
    pub fn to_bytes(&self) -> (r: Vec<u8>)
        ensures
            r@ == msgpack_of(self.wire()),
            msgpack_value(r@) == Some(self.wire()),
    {
        let mut recs: Vec<(u64, ((u64, u32), u64))> = Vec::new();
        let mut i: usize = 0;
        while i < self.data.len()
            invariant
                0 <= i <= self.data@.len(),
                recs@ == records_wire(self.data@.take(i as int)),
            decreases self.data@.len() - i,
        {
            let (k, (t, size)) = self.data[i];
            recs.push((k, ((t.secs, t.nanos), size)));
            proof {
                assert(records_wire(self.data@.take(i + 1)) == records_wire(self.data@.take(i as int)).push(
                    record_wire(self.data@[i as int]),
                ));
            }
            i += 1;
        }
        proof {
            assert(self.data@.take(i as int) == self.data@);
        }
        let w: Wire = (self.volume_id, (self.expire.secs, self.expire.nanos), self.target_dir.clone(), recs);
        match encode_wire(&w) {
            Ok(b) => b,
            Err(_) => Vec::new(),
        }
    }

    /// The cache that MessagePack bytes hold.
    pub fn from_bytes(b: &[u8]) -> (r: Result<Cache, CodecError>)
        ensures
            r is Ok <==> msgpack_value(b@) is Some,
            r is Ok ==> msgpack_value(b@) == Some(r->Ok_0.wire()),
            r is Err ==> r == Err::<Cache, CodecError>(CodecError::Decode),
    {
        match decode_wire(b) {
            Err(_) => Err(CodecError::Decode),
            Ok(w) => {
                let (volume_id, (secs, nanos), target_dir, recs) = w;
                let mut data: Vec<(u64, (Timestamp, u64))> = Vec::new();
                let mut i: usize = 0;
                while i < recs.len()
                    invariant
                        0 <= i <= recs@.len(),
                        data@.len() == i,
                        records_wire(data@) == recs@.take(i as int),
                    decreases recs@.len() - i,
                {
                    let (k, ((s, ns), size)) = recs[i];
                    let ghost before = data@;
                    data.push((k, (Timestamp { secs: s, nanos: ns }, size)));
                    proof {
                        assert(records_wire(data@) == records_wire(before).push(recs@[i as int]));
                        assert(recs@.take(i + 1) == recs@.take(i as int).push(recs@[i as int]));
                    }
                    i += 1;
                }
                proof {
                    assert(recs@.take(i as int) == recs@);
                }
                Ok(Cache { volume_id, expire: Timestamp { secs, nanos }, target_dir, data })
            },
        }
    }

    /// The store this saved cache gives for a run on `target_dir`, volume
    /// `volume_id`, at `now`: its records when it was saved for that
    /// directory and volume and has not expired, else an empty store.
    pub fn into_store(self, target_dir: &str, now: Timestamp, volume_id: u64) -> (r: CacheStore)
        ensures
            r@.used == Set::<u64>::empty(),
            r@.entries == (if usable(self, target_dir@, now, volume_id) {
                map_of(self.data@)
            } else {
                Map::<u64, (Timestamp, u64)>::empty()
            }),
    {
        let same = paths_equal(self.target_dir.as_str(), target_dir);
        if same && now.as_nanos() <= self.expire.as_nanos() && self.volume_id == volume_id {
            CacheStore::from_records(&self.data)
        } else {
            CacheStore::new()
        }
    }
}

proof fn lemma_records_wire_injective(a: Seq<(u64, (Timestamp, u64))>, b: Seq<(u64, (Timestamp, u64))>)
    requires
        records_wire(a) == records_wire(b),
    ensures
        a == b,
{
    assert(a.len() == records_wire(a).len());
    assert(b.len() == records_wire(b).len());
    assert forall|i: int| 0 <= i < a.len() implies a[i] == b[i] by {
        assert(records_wire(a)[i] == records_wire(b)[i]);
    }
    assert(a =~= b);
}

/// Reading back the bytes of a saved cache gives a cache equal to it in
/// every field, entries in the same order: when `to_bytes` gave `b` for `c`
/// and `from_bytes(b)` succeeded with `d`.
pub proof fn law_cache_round_trip(c: Cache, b: Seq<u8>, d: Cache)
    requires
        msgpack_value(b) == Some(c.wire()),
        msgpack_value(b) == Some(d.wire()),
    ensures
        d.volume_id == c.volume_id,
        d.expire == c.expire,
        d.target_dir@ == c.target_dir@,
        d.data@ == c.data@,
{
    lemma_records_wire_injective(d.data@, c.data@);
}

impl CacheStore {
    /// The cache to save after a run: only the records used in it.
    pub fn to_saved(&self, volume_id: u64, target_dir: &str, expire: Timestamp) -> (r: Cache)
        ensures
            r.volume_id == volume_id,
            r.target_dir@ == target_dir@,
            r.expire == expire,
            crate::cache::saved_exactly(r.data@, self@),
    {
        Cache::new(volume_id, target_dir, self.used_records(), expire)
    }
}

} // verus!
