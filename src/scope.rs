use dashmap::DashMap;

use vstd::prelude::*;

verus! {

/// `a + b`, held at `u64::MAX`.
pub open spec fn sat_add(a: u64, b: u64) -> u64 {
    if a + b > u64::MAX {
        u64::MAX
    } else {
        (a + b) as u64
    }
}

/// `a - b`, held at zero.
pub open spec fn sat_sub(a: u64, b: u64) -> u64 {
    if a >= b {
        (a - b) as u64
    } else {
        0
    }
}

/// One occurrence of file id `k` carrying `v` bytes: the first occurrence in
/// a scope is recorded with a zero delta, every later one adds `v` to it.
pub open spec fn bump(m: Map<u64, u64>, k: u64, v: u64) -> Map<u64, u64> {
    if m.contains_key(k) {
        m.insert(k, sat_add(m[k], v))
    } else {
        m.insert(k, 0u64)
    }
}

/// The scope `p` after every pair of `c` was folded into it by `bump`; as the
/// keys of `c` differ, the order of folding does not matter. An id new to `p`
/// comes in with a zero delta, not with the delta it carried in `c`: that
/// delta is lost on the way up. Whether this is meant or an oversight is an
/// open question; the rule is kept as it stands.
pub open spec fn merged(p: Map<u64, u64>, c: Map<u64, u64>) -> Map<u64, u64> {
    Map::new(
        |k: u64| p.contains_key(k) || c.contains_key(k),
        |k: u64|
            if p.contains_key(k) {
                if c.contains_key(k) {
                    sat_add(p[k], c[k])
                } else {
                    p[k]
                }
            } else {
                0u64
            },
    )
}

/// Exact sum of the values of a finite map.
pub open spec fn total(m: Map<u64, u64>) -> int
    decreases m.dom().len(),
{
    if !m.dom().finite() || m.dom().len() == 0 {
        0
    } else {
        let k = m.dom().choose();
        total(m.remove(k)) + m[k]
    }
}

/// Sum of the deltas of a scope, held at `u64::MAX`.
pub open spec fn delta_sum(m: Map<u64, u64>) -> u64 {
    if total(m) > u64::MAX {
        u64::MAX
    } else {
        total(m) as u64
    }
}

pub proof fn lemma_total_remove(m: Map<u64, u64>, k: u64)
    requires
        m.dom().finite(),
        m.contains_key(k),
    ensures
        total(m) == total(m.remove(k)) + m[k],
    decreases m.dom().len(),
{
    let j = m.dom().choose();
    if j != k {
        lemma_total_remove(m.remove(j), k);
        lemma_total_remove(m.remove(k), j);
        assert(m.remove(j).remove(k) =~= m.remove(k).remove(j));
    }
}

pub proof fn lemma_total_nonneg(m: Map<u64, u64>)
    ensures
        total(m) >= 0,
    decreases m.dom().len(),
{
    if m.dom().finite() && m.dom().len() > 0 {
        lemma_total_nonneg(m.remove(m.dom().choose()));
    }
}

/// The pairs of `s` as a map.
pub open spec fn pairs_map(s: Seq<(u64, u64)>) -> Map<u64, u64>
    decreases s.len(),
{
    if s.len() == 0 {
        Map::empty()
    } else {
        pairs_map(s.drop_last()).insert(s.last().0, s.last().1)
    }
}

pub open spec fn distinct_keys(s: Seq<(u64, u64)>) -> bool {
    forall|i: int, j: int| 0 <= i < s.len() && 0 <= j < s.len() && s[i].0 == s[j].0 ==> i == j
}

/// What a scope map holds: file id to extra size.
pub uninterp spec fn deltas_of(m: DashMap<u64, u64>) -> Map<u64, u64>;

/// Relies on dashmap::DashMap::new: an empty map.
#[verifier::external_body]
fn deltas_new() -> (r: DashMap<u64, u64>)
    ensures
        deltas_of(r).dom() == Set::<u64>::empty(),
{
    DashMap::new()
}

/// Relies on dashmap::DashMap::get: the value stored under `k`, if any.
#[verifier::external_body]
fn deltas_get(m: &DashMap<u64, u64>, k: u64) -> (r: Option<u64>)
    ensures
        r == (if deltas_of(*m).contains_key(k) {
            Some(deltas_of(*m)[k])
        } else {
            None
        }),
{
    m.get(&k).map(|e| *e.value())
}

/// Relies on dashmap::DashMap::insert: `v` is stored under `k`, replacing
/// what was there.
#[verifier::external_body]
fn deltas_insert(m: &mut DashMap<u64, u64>, k: u64, v: u64)
    ensures
        deltas_of(*final(m)) == deltas_of(*old(m)).insert(k, v),
{
    m.insert(k, v);
}

/// Relies on `IntoIterator` for dashmap::DashMap: every entry once, in no
/// given order.
#[verifier::external_body]
fn deltas_drain(m: DashMap<u64, u64>) -> (r: Vec<(u64, u64)>)
    ensures
        distinct_keys(r@),
        pairs_map(r@) == deltas_of(m),
{
    m.into_iter().collect()
}

proof fn lemma_pairs_map(s: Seq<(u64, u64)>)
    requires
        distinct_keys(s),
    ensures
        pairs_map(s).dom().finite(),
        pairs_map(s).dom().len() == s.len(),
        forall|i: int| 0 <= i < s.len() ==> #[trigger] pairs_map(s).contains_key(s[i].0) && pairs_map(s)[s[i].0] == s[i].1,
        forall|k: u64| pairs_map(s).contains_key(k) ==> exists|i: int| 0 <= i < s.len() && #[trigger] s[i].0 == k,
    decreases s.len(),
{
    if s.len() > 0 {
        let u = s.drop_last();
        assert(distinct_keys(u));
        lemma_pairs_map(u);
        assert(!pairs_map(u).contains_key(s.last().0)) by {
            if pairs_map(u).contains_key(s.last().0) {
                let i = choose|i: int| 0 <= i < u.len() && #[trigger] u[i].0 == s.last().0;
                assert(s[i].0 == s[s.len() - 1].0);
            }
        }
        assert forall|k: u64| pairs_map(s).contains_key(k) implies exists|i: int| 0 <= i < s.len() && #[trigger] s[i].0 == k by {
            if k != s.last().0 {
                let i = choose|i: int| 0 <= i < u.len() && #[trigger] u[i].0 == k;
                assert(s[i].0 == k);
            } else {
                assert(s[s.len() - 1].0 == k);
            }
        }
        assert forall|i: int| 0 <= i < s.len() implies #[trigger] pairs_map(s).contains_key(s[i].0) && pairs_map(s)[s[i].0] == s[i].1 by {
            if i < s.len() - 1 {
                assert(u[i] == s[i]);
            }
        }
    }
}

/// The map from file id to extra size for the direct entries of one directory.
pub struct HardlinkScope {
    deltas: DashMap<u64, u64>,
}

impl View for HardlinkScope {
    type V = Map<u64, u64>;

    closed spec fn view(&self) -> Map<u64, u64> {
        deltas_of(self.deltas)
    }
}

impl HardlinkScope {
    pub open spec fn wf(&self) -> bool {
        self@.dom().finite()
    }

    pub fn new() -> (r: HardlinkScope)
        ensures
            r.wf(),
            r@ == Map::<u64, u64>::empty(),
    {
        let r = HardlinkScope { deltas: deltas_new() };
        proof {
            assert(r@ =~= Map::<u64, u64>::empty());
        }
        r
    }

    /// Records one occurrence of file id `k` whose size is `v`.
    pub fn record(&mut self, k: u64, v: u64)
        requires
            old(self).wf(),
        ensures
            final(self).wf(),
            final(self)@ == bump(old(self)@, k, v),
    {
        match deltas_get(&self.deltas, k) {
            Some(cur) => deltas_insert(&mut self.deltas, k, cur.saturating_add(v)),
            None => deltas_insert(&mut self.deltas, k, 0),
        }
    }

    /// Folds this scope into the scope of the enclosing directory, and
    /// returns the sum of its deltas: the bytes it charged more than once.
    pub fn merge_into(self, parent: &mut HardlinkScope) -> (r: u64)
        requires
            self.wf(),
            old(parent).wf(),
        ensures
            r == delta_sum(self@),
            final(parent).wf(),
            final(parent)@ == merged(old(parent)@, self@),
    {
        let ghost c = self@;
        let pairs = deltas_drain(self.deltas);
        proof {
            lemma_pairs_map(pairs@);
        }
        let mut acc: u64 = 0;
        let mut i: usize = 0;
        while i < pairs.len()
            invariant
                0 <= i <= pairs@.len(),
                distinct_keys(pairs@),
                pairs_map(pairs@) == c,
                acc == delta_sum(pairs_map(pairs@.take(i as int))),
                parent.wf(),
                parent@ == merged(old(parent)@, pairs_map(pairs@.take(i as int))),
            decreases pairs@.len() - i,
        {
            let (k, v) = pairs[i];
            proof {
                let t = pairs@.take(i as int);
                assert(pairs@.take(i + 1).drop_last() == t);
                assert(distinct_keys(t));
                assert(distinct_keys(pairs@.take(i + 1)));
                lemma_pairs_map(t);
                lemma_pairs_map(pairs@.take(i + 1));
                assert(!pairs_map(t).contains_key(k)) by {
                    if pairs_map(t).contains_key(k) {
                        let j = choose|j: int| 0 <= j < t.len() && #[trigger] t[j].0 == k;
                        assert(pairs@[j].0 == k);
                    }
                }
                let m = pairs_map(pairs@.take(i + 1));
                lemma_total_remove(m, k);
                assert(m.remove(k) =~= pairs_map(t));
                lemma_total_nonneg(pairs_map(t));
                assert(merged(old(parent)@, m) =~= bump(merged(old(parent)@, pairs_map(t)), k, v));
            }
            acc = acc.saturating_add(v);
            parent.record(k, v);
            i += 1;
        }
        proof {
            assert(pairs@.take(i as int) == pairs@);
        }
        acc
    }
}

} // verus!
