use vstd::prelude::*;

use crate::analyze::{cold, dir_run, plain_analysis, run_list, run_node, AnalyzeConfig, AnalyzeError, Run};
use crate::cache::CacheView;
use crate::order::{insert_desc, sort_desc};
use crate::time::Timestamp;
use crate::scope::{delta_sum, lemma_total_remove, merged, sat_add, total};
use crate::tree::{leaf, size_sum, FileInfo, ItemView, Node};

verus! {

/// The items of `s` whose size is `d`, in order.
pub open spec fn of_size(s: Seq<ItemView>, d: u64) -> Seq<ItemView>
    decreases s.len(),
{
    if s.len() == 0 {
        s
    } else {
        let r = of_size(s.drop_last(), d);
        if s.last().disk_size == d {
            r.push(s.last())
        } else {
            r
        }
    }
}

pub open spec fn descending(s: Seq<ItemView>) -> bool {
    forall|i: int, j: int| 0 <= i < j < s.len() ==> s[i].disk_size >= s[j].disk_size
}

proof fn lemma_insert_bound(t: Seq<ItemView>, x: ItemView, m: u64)
    requires
        forall|i: int| 0 <= i < t.len() ==> t[i].disk_size >= m,
        x.disk_size >= m,
    ensures
        insert_desc(t, x).len() == t.len() + 1,
        forall|i: int| 0 <= i < insert_desc(t, x).len() ==> insert_desc(t, x)[i].disk_size >= m,
    decreases t.len(),
{
    if t.len() > 0 && t.last().disk_size < x.disk_size {
        lemma_insert_bound(t.drop_last(), x, m);
    }
}

proof fn lemma_insert_descending(t: Seq<ItemView>, x: ItemView)
    requires
        descending(t),
    ensures
        descending(insert_desc(t, x)),
    decreases t.len(),
{
    if t.len() > 0 && t.last().disk_size < x.disk_size {
        let u = t.drop_last();
        lemma_insert_descending(u, x);
        lemma_insert_bound(u, x, t.last().disk_size);
    }
}

proof fn lemma_insert_of_size(t: Seq<ItemView>, x: ItemView, d: u64)
    ensures
        of_size(insert_desc(t, x), d) == (if x.disk_size == d {
            of_size(t, d).push(x)
        } else {
            of_size(t, d)
        }),
    decreases t.len(),
{
    if t.len() == 0 || t.last().disk_size >= x.disk_size {
        assert(t.push(x).drop_last() == t);
    } else {
        let u = t.drop_last();
        lemma_insert_of_size(u, x, d);
        let r = insert_desc(u, x);
        assert(r.push(t.last()).drop_last() == r);
    }
}

/// Sorting orders children by descending size, and the children of each
/// size keep the order they had.
pub proof fn law_sort_descending_stable(s: Seq<ItemView>)
    ensures
        descending(sort_desc(s)),
        forall|d: u64| #[trigger] of_size(sort_desc(s), d) == of_size(s, d),
    decreases s.len(),
{
    if s.len() > 0 {
        law_sort_descending_stable(s.drop_last());
        lemma_insert_descending(sort_desc(s.drop_last()), s.last());
        assert forall|d: u64| #[trigger] of_size(sort_desc(s), d) == of_size(s, d) by {
            lemma_insert_of_size(sort_desc(s.drop_last()), s.last(), d);
        }
    }
}

/// A directory whose cached modification time differs from its own is sized
/// from its entries: the cached total is not used, whatever the windows. It
/// keeps its children exactly when depth is left, and when it is cold its
/// record is rewritten with its time and the size just found.
pub proof fn law_changed_directory_recomputed(
    n: Node,
    file_id: u64,
    last_modified: Timestamp,
    cfg: AnalyzeConfig,
    now: Timestamp,
    caching: bool,
    depth: nat,
    scope: Map<u64, u64>,
    cache: CacheView,
)
    requires
        n.info == Some(FileInfo::Directory { volume_id: cfg.root_dev, file_id, last_modified }),
        n.entries is Some,
        cache.entries.contains_key(file_id),
        cache.entries[file_id].0 != last_modified,
    ensures
        run_node(n, cfg, now, caching, depth, scope, cache) == dir_run(
            n.name@,
            n.entries->0@,
            file_id,
            last_modified,
            cold(cfg, now, caching, depth, last_modified),
            cfg,
            now,
            caching,
            depth,
            scope,
            cache,
        ),
        run_node(n, cfg, now, caching, depth, scope, cache).item is Ok,
        run_node(n, cfg, now, caching, depth, scope, cache).item->Ok_0.children is Some <==> depth > 0,
        cold(cfg, now, caching, depth, last_modified) ==> run_node(n, cfg, now, caching, depth, scope, cache).cache.entries[file_id]
            == (last_modified, run_node(n, cfg, now, caching, depth, scope, cache).item->Ok_0.disk_size),
{
}

proof fn lemma_run_list_prefix(
    s: Seq<Node>,
    t: Seq<Node>,
    i: int,
    cfg: AnalyzeConfig,
    now: Timestamp,
    caching: bool,
    depth: nat,
    scope: Map<u64, u64>,
    cache: CacheView,
)
    requires
        0 <= i <= s.len(),
        i <= t.len(),
        forall|j: int| 0 <= j < i ==> s[j] == t[j],
    ensures
        run_list(s, i, cfg, now, caching, depth, scope, cache) == run_list(t, i, cfg, now, caching, depth, scope, cache),
    decreases i,
{
    if i > 0 {
        lemma_run_list_prefix(s, t, i - 1, cfg, now, caching, depth, scope, cache);
    }
}

/// A directory on another volume than the root yields no item, records
/// nothing and leaves the cache alone.
pub proof fn law_other_volume_no_item(
    b: Node,
    cfg: AnalyzeConfig,
    now: Timestamp,
    caching: bool,
    depth: nat,
    scope: Map<u64, u64>,
    cache: CacheView,
)
    requires
        b.info is Some,
        b.info->0 is Directory,
        b.info->0->Directory_volume_id != cfg.root_dev,
    ensures
        run_node(b, cfg, now, caching, depth, scope, cache) == (Run {
            item: Err(AnalyzeError::BoundaryCrossed),
            scope,
            cache,
        }),
{
}

proof fn lemma_other_volume_inserted(
    s: Seq<Node>,
    j: int,
    b: Node,
    i: int,
    cfg: AnalyzeConfig,
    now: Timestamp,
    caching: bool,
    depth: nat,
    scope: Map<u64, u64>,
    cache: CacheView,
)
    requires
        0 <= j <= i <= s.len(),
        b.info is Some,
        b.info->0 is Directory,
        b.info->0->Directory_volume_id != cfg.root_dev,
    ensures
        run_list(s.insert(j, b), i + 1, cfg, now, caching, depth, scope, cache) == run_list(
            s,
            i,
            cfg,
            now,
            caching,
            depth,
            scope,
            cache,
        ),
    decreases i,
{
    let t = s.insert(j, b);
    if i == j {
        lemma_run_list_prefix(t, s, j, cfg, now, caching, depth, scope, cache);
        let p = run_list(s, j, cfg, now, caching, depth, scope, cache);
        assert(t[j] == b);
        let r = run_node(b, cfg, now, caching, depth, p.scope, p.cache);
        assert(r.item is Err && r.scope == p.scope && r.cache == p.cache);
        let q = run_list(t, j + 1, cfg, now, caching, depth, scope, cache);
        assert(q.items == p.items && q.scope == p.scope && q.cache == p.cache);
    } else {
        lemma_other_volume_inserted(s, j, b, i - 1, cfg, now, caching, depth, scope, cache);
        assert(t[i] == s[i - 1]);
    }
}

/// A directory on another volume than the root, placed anywhere among a
/// directory's entries, changes nothing of what the others give: the same
/// items in the same order, the same scope and the same cache, and so the
/// same directory item.
pub proof fn law_other_volume_left_out(
    s: Seq<Node>,
    j: int,
    b: Node,
    name: Seq<char>,
    file_id: u64,
    last_modified: Timestamp,
    c: bool,
    cfg: AnalyzeConfig,
    now: Timestamp,
    caching: bool,
    depth: nat,
    scope: Map<u64, u64>,
    cache: CacheView,
)
    requires
        0 <= j <= s.len(),
        b.info is Some,
        b.info->0 is Directory,
        b.info->0->Directory_volume_id != cfg.root_dev,
    ensures
        run_list(s.insert(j, b), s.len() + 1int, cfg, now, caching, depth, scope, cache) == run_list(
            s,
            s.len() as int,
            cfg,
            now,
            caching,
            depth,
            scope,
            cache,
        ),
        dir_run(name, s.insert(j, b), file_id, last_modified, c, cfg, now, caching, depth, scope, cache)
            == dir_run(name, s, file_id, last_modified, c, cfg, now, caching, depth, scope, cache),
{
    lemma_other_volume_inserted(s, j, b, s.len() as int, cfg, now, caching, depth, scope, cache);
    if depth > 0 {
        lemma_other_volume_inserted(s, j, b, s.len() as int, cfg, now, caching, (depth - 1) as nat, Map::empty(), cache);
    }
}

/// Total size of the files under a path, every link counted, paths that
/// cannot be read and directories on another volume than `root_dev` left
/// out; `None` when the path itself is left out.
pub open spec fn node_total(n: Node, root_dev: u64) -> Option<u64>
    decreases n, 0int,
{
    match n.info {
        None => None,
        Some(FileInfo::File { size, .. }) => Some(size),
        Some(FileInfo::Directory { volume_id, .. }) => {
            if volume_id != root_dev {
                None
            } else {
                match n.entries {
                    None => None,
                    Some(ents) => Some(list_total(ents@, ents@.len() as int, root_dev)),
                }
            }
        },
    }
}

/// Total size of the first `i` entries of `s`, held at `u64::MAX`.
pub open spec fn list_total(s: Seq<Node>, i: int, root_dev: u64) -> u64
    decreases s, i,
{
    if i <= 0 || i > s.len() {
        0
    } else {
        sat_add(
            list_total(s, i - 1, root_dev),
            match node_total(s[i - 1], root_dev) {
                Some(t) => t,
                None => 0,
            },
        )
    }
}

proof fn lemma_depth_zero_node(
    n: Node,
    cfg: AnalyzeConfig,
    now: Timestamp,
    scope: Map<u64, u64>,
    cache: CacheView,
)
    ensures
        ({
            let r = run_node(n, cfg, now, false, 0, scope, cache);
            &&& (node_total(n, cfg.root_dev) is Some <==> r.item is Ok)
            &&& r.item is Ok ==> r.item->Ok_0 == leaf(n.name@, node_total(n, cfg.root_dev)->0)
        }),
    decreases n, 0int,
{
    match n.info {
        Some(FileInfo::Directory { volume_id, .. }) => {
            if volume_id == cfg.root_dev {
                match n.entries {
                    Some(ents) => {
                        lemma_depth_zero_list(ents@, ents@.len() as int, cfg, now, scope, cache);
                    },
                    None => {},
                }
            }
        },
        _ => {},
    }
}

proof fn lemma_depth_zero_list(
    s: Seq<Node>,
    i: int,
    cfg: AnalyzeConfig,
    now: Timestamp,
    scope: Map<u64, u64>,
    cache: CacheView,
)
    ensures
        size_sum(run_list(s, i, cfg, now, false, 0, scope, cache).items) == list_total(s, i, cfg.root_dev),
    decreases s, i,
{
    if i > 0 && i <= s.len() {
        lemma_depth_zero_list(s, i - 1, cfg, now, scope, cache);
        let p = run_list(s, i - 1, cfg, now, false, 0, scope, cache);
        lemma_depth_zero_node(s[i - 1], cfg, now, p.scope, p.cache);
        let r = run_node(s[i - 1], cfg, now, false, 0, p.scope, p.cache);
        if r.item is Ok {
            assert(p.items.push(r.item->Ok_0).drop_last() == p.items);
        }
    }
}

/// With no depth left, a directory keeps no children and its size is the
/// total of everything under it.
pub proof fn law_depth_zero_total(root: Node, apparent: bool, root_dev: u64)
    requires
        root.info is Some,
        root.info->0 is Directory,
        root.info->0->Directory_volume_id == root_dev,
        root.entries is Some,
    ensures
        node_total(root, root_dev) is Some,
        plain_analysis(root, apparent, root_dev, 0) == Ok::<ItemView, AnalyzeError>(
            leaf(root.name@, node_total(root, root_dev)->0),
        ),
{
    let cfg = crate::analyze::plain_config(apparent, root_dev);
    lemma_depth_zero_node(root, cfg, crate::analyze::epoch(), Map::empty(), crate::analyze::empty_cache());
}

/// The ids of the files under a path, one per link.
pub open spec fn file_ids(n: Node) -> Seq<u64>
    decreases n, 0int,
{
    match n.info {
        Some(FileInfo::File { file_id, .. }) => seq![file_id],
        Some(FileInfo::Directory { .. }) => match n.entries {
            Some(ents) => list_ids(ents@, ents@.len() as int),
            None => Seq::empty(),
        },
        None => Seq::empty(),
    }
}

/// The ids of the files under the first `i` entries of `s`.
pub open spec fn list_ids(s: Seq<Node>, i: int) -> Seq<u64>
    decreases s, i,
{
    if i <= 0 || i > s.len() {
        Seq::empty()
    } else {
        list_ids(s, i - 1) + file_ids(s[i - 1])
    }
}

/// Whether `v` and every directory below it that keeps its children has the
/// sum of their sizes (held at `u64::MAX`) as its own.
pub open spec fn sums_hold(v: ItemView) -> bool
    decreases v, 0int,
{
    match v.children {
        None => true,
        Some(kids) => v.disk_size == size_sum(kids) && sums_hold_all(kids, kids.len() as int),
    }
}

pub open spec fn sums_hold_all(s: Seq<ItemView>, i: int) -> bool
    decreases s, i,
{
    if i <= 0 || i > s.len() {
        true
    } else {
        sums_hold_all(s, i - 1) && sums_hold(s[i - 1])
    }
}

pub open spec fn int_sum(s: Seq<ItemView>) -> int
    decreases s.len(),
{
    if s.len() == 0 {
        0
    } else {
        int_sum(s.drop_last()) + s.last().disk_size
    }
}

pub open spec fn zeros(m: Map<u64, u64>) -> bool {
    forall|k: u64| m.contains_key(k) ==> #[trigger] m[k] == 0
}

proof fn lemma_sums_all(s: Seq<ItemView>, i: int)
    requires
        forall|j: int| 0 <= j < s.len() ==> sums_hold(#[trigger] s[j]),
    ensures
        sums_hold_all(s, i),
    decreases i,
{
    if i > 0 && i <= s.len() {
        lemma_sums_all(s, i - 1);
    }
}

proof fn lemma_size_sum_min(s: Seq<ItemView>)
    ensures
        int_sum(s) >= 0,
        size_sum(s) == (if int_sum(s) > u64::MAX {
            u64::MAX as int
        } else {
            int_sum(s)
        }),
    decreases s.len(),
{
    if s.len() > 0 {
        lemma_size_sum_min(s.drop_last());
    }
}

proof fn lemma_insert_sum(t: Seq<ItemView>, x: ItemView)
    ensures
        int_sum(insert_desc(t, x)) == int_sum(t) + x.disk_size,
        forall|i: int|
            0 <= i < insert_desc(t, x).len() ==> #[trigger] insert_desc(t, x)[i] == x || t.contains(
                insert_desc(t, x)[i],
            ),
        insert_desc(t, x).len() == t.len() + 1,
    decreases t.len(),
{
    if t.len() == 0 || t.last().disk_size >= x.disk_size {
        assert(t.push(x).drop_last() == t);
        assert forall|i: int| 0 <= i < t.len() implies t.contains(#[trigger] t.push(x)[i]) by {
            assert(t[i] == t.push(x)[i]);
        }
    } else {
        let u = t.drop_last();
        lemma_insert_sum(u, x);
        let r = insert_desc(u, x);
        assert(r.push(t.last()).drop_last() == r);
        assert forall|i: int| 0 <= i < r.len() + 1 && r.push(t.last())[i] != x implies t.contains(
            #[trigger] r.push(t.last())[i],
        ) by {
            if i < r.len() {
                let j = choose|j: int| 0 <= j < u.len() && u[j] == r[i];
                assert(t[j] == r[i]);
            } else {
                assert(t[t.len() - 1] == t.last());
            }
        }
    }
}

proof fn lemma_sort_sum(s: Seq<ItemView>)
    ensures
        int_sum(sort_desc(s)) == int_sum(s),
        sort_desc(s).len() == s.len(),
        forall|i: int| 0 <= i < sort_desc(s).len() ==> s.contains(#[trigger] sort_desc(s)[i]),
    decreases s.len(),
{
    if s.len() > 0 {
        let u = s.drop_last();
        lemma_sort_sum(u);
        lemma_insert_sum(sort_desc(u), s.last());
        assert forall|i: int| 0 <= i < sort_desc(s).len() implies s.contains(#[trigger] sort_desc(s)[i]) by {
            let e = sort_desc(s)[i];
            if e == s.last() {
                assert(s[s.len() - 1] == e);
            } else {
                let j = choose|j: int| 0 <= j < sort_desc(u).len() && sort_desc(u)[j] == e;
                let k = choose|k: int| 0 <= k < u.len() && u[k] == sort_desc(u)[j];
                assert(s[k] == e);
            }
        }
    }
}

proof fn lemma_zero_delta(m: Map<u64, u64>)
    requires
        zeros(m),
    ensures
        delta_sum(m) == 0,
    decreases m.dom().len(),
{
    if m.dom().finite() && m.dom().len() > 0 {
        let k = m.dom().choose();
        lemma_zero_delta(m.remove(k));
    }
}

proof fn lemma_concat_nodup(a: Seq<u64>, b: Seq<u64>)
    requires
        (a + b).no_duplicates(),
    ensures
        a.no_duplicates(),
        b.no_duplicates(),
        forall|x: u64| a.contains(x) ==> !b.contains(x),
{
    let c = a + b;
    assert forall|i: int, j: int| 0 <= i < a.len() && 0 <= j < a.len() && i != j implies a[i] != a[j] by {
        assert(c[i] == a[i] && c[j] == a[j]);
    }
    assert forall|i: int, j: int| 0 <= i < b.len() && 0 <= j < b.len() && i != j implies b[i] != b[j] by {
        assert(c[a.len() + i] == b[i] && c[a.len() + j] == b[j]);
    }
    assert forall|x: u64| a.contains(x) implies !b.contains(x) by {
        if b.contains(x) {
            let i = choose|i: int| 0 <= i < a.len() && a[i] == x;
            let j = choose|j: int| 0 <= j < b.len() && b[j] == x;
            assert(c[i] == x && c[a.len() + j] == x);
        }
    }
}

proof fn lemma_no_links_node(
    n: Node,
    cfg: AnalyzeConfig,
    now: Timestamp,
    depth: nat,
    scope: Map<u64, u64>,
    cache: CacheView,
)
    requires
        file_ids(n).no_duplicates(),
        forall|k: u64| file_ids(n).contains(k) ==> !scope.contains_key(k),
    ensures
        ({
            let r = run_node(n, cfg, now, false, depth, scope, cache);
            &&& forall|k: u64| #[trigger] scope.contains_key(k) ==> r.scope.contains_key(k) && r.scope[k] == scope[k]
            &&& forall|k: u64| #[trigger] r.scope.contains_key(k) && !scope.contains_key(k) ==> r.scope[k] == 0
            &&& forall|k: u64| r.scope.contains_key(k) ==> scope.contains_key(k) || file_ids(n).contains(k)
            &&& r.item is Ok ==> sums_hold(r.item->Ok_0)
        }),
    decreases n, 0int,
{
    let r = run_node(n, cfg, now, false, depth, scope, cache);
    match n.info {
        Some(FileInfo::File { size, file_id, .. }) => {
            assert(file_ids(n)[0] == file_id);
            assert forall|k: u64| r.scope.contains_key(k) implies scope.contains_key(k) || file_ids(n).contains(k) by {
                if k == file_id {
                    assert(file_ids(n).contains(k));
                }
            }
        },
        Some(FileInfo::Directory { volume_id, file_id, last_modified }) => {
            if volume_id == cfg.root_dev {
                match n.entries {
                    Some(ents) => {
                        let s = ents@;
                        assert(r == dir_run(n.name@, s, file_id, last_modified, false, cfg, now, false, depth, scope, cache));
                        assert(file_ids(n) == list_ids(s, s.len() as int));
                        if depth > 0 {
                            lemma_no_links_list(s, s.len() as int, cfg, now, (depth - 1) as nat, Map::empty(), cache);
                            let l = run_list(s, s.len() as int, cfg, now, false, (depth - 1) as nat, Map::empty(), cache);
                            assert(zeros(l.scope));
                            lemma_zero_delta(l.scope);
                            lemma_sort_sum(l.items);
                            lemma_size_sum_min(l.items);
                            lemma_size_sum_min(sort_desc(l.items));
                            let kids = if cfg.sort { sort_desc(l.items) } else { l.items };
                            assert forall|j: int| 0 <= j < kids.len() implies sums_hold(#[trigger] kids[j]) by {
                                if cfg.sort {
                                    let e = sort_desc(l.items)[j];
                                    let k = choose|k: int| 0 <= k < l.items.len() && l.items[k] == e;
                                    assert(sums_hold(l.items[k]));
                                }
                            }
                            lemma_sums_all(kids, kids.len() as int);
                            assert forall|k: u64| r.scope.contains_key(k) implies scope.contains_key(k) || file_ids(n).contains(k) by {
                                assert(r.scope == merged(scope, l.scope));
                                if !scope.contains_key(k) {
                                    assert(l.scope.contains_key(k));
                                    assert(!Map::<u64, u64>::empty().contains_key(k));
                                }
                            }
                        } else {
                            lemma_no_links_list(s, s.len() as int, cfg, now, 0, scope, cache);
                        }
                    },
                    None => {},
                }
            }
        },
        None => {},
    }
}

proof fn lemma_no_links_list(
    s: Seq<Node>,
    i: int,
    cfg: AnalyzeConfig,
    now: Timestamp,
    depth: nat,
    scope: Map<u64, u64>,
    cache: CacheView,
)
    requires
        list_ids(s, i).no_duplicates(),
        forall|k: u64| list_ids(s, i).contains(k) ==> !scope.contains_key(k),
    ensures
        ({
            let l = run_list(s, i, cfg, now, false, depth, scope, cache);
            &&& forall|k: u64| #[trigger] scope.contains_key(k) ==> l.scope.contains_key(k) && l.scope[k] == scope[k]
            &&& forall|k: u64| #[trigger] l.scope.contains_key(k) && !scope.contains_key(k) ==> l.scope[k] == 0
            &&& forall|k: u64| l.scope.contains_key(k) ==> scope.contains_key(k) || list_ids(s, i).contains(k)
            &&& forall|j: int| 0 <= j < l.items.len() ==> sums_hold(#[trigger] l.items[j])
        }),
    decreases s, i,
{
    if i > 0 && i <= s.len() {
        let a = list_ids(s, i - 1);
        let b = file_ids(s[i - 1]);
        assert(list_ids(s, i) == a + b);
        lemma_concat_nodup(a, b);
        assert forall|k: u64| a.contains(k) implies !scope.contains_key(k) by {
            let j = choose|j: int| 0 <= j < a.len() && a[j] == k;
            assert((a + b)[j] == k);
        }
        lemma_no_links_list(s, i - 1, cfg, now, depth, scope, cache);
        let p = run_list(s, i - 1, cfg, now, false, depth, scope, cache);
        assert forall|k: u64| b.contains(k) implies !p.scope.contains_key(k) by {
            let j = choose|j: int| 0 <= j < b.len() && b[j] == k;
            assert((a + b)[a.len() + j] == k);
            assert(list_ids(s, i).contains(k));
            assert(!a.contains(k));
            assert(!scope.contains_key(k));
        }
        lemma_no_links_node(s[i - 1], cfg, now, depth, p.scope, p.cache);
        let r = run_node(s[i - 1], cfg, now, false, depth, p.scope, p.cache);
        let l = run_list(s, i, cfg, now, false, depth, scope, cache);
        assert forall|k: u64| l.scope.contains_key(k) implies scope.contains_key(k) || list_ids(s, i).contains(k) by {
            if p.scope.contains_key(k) && !scope.contains_key(k) {
                let j = choose|j: int| 0 <= j < a.len() && a[j] == k;
                assert((a + b)[j] == k);
            } else if !p.scope.contains_key(k) {
                let j = choose|j: int| 0 <= j < b.len() && b[j] == k;
                assert((a + b)[a.len() + j] == k);
            }
        }
        if r.item is Ok {
            assert forall|j: int| 0 <= j < l.items.len() implies sums_hold(#[trigger] l.items[j]) by {
                if j < p.items.len() {
                    assert(l.items[j] == p.items[j]);
                }
            }
        }
    }
}

/// In a tree where no two file entries share an id, every directory that
/// keeps its children has the sum of their sizes (held at `u64::MAX`) as
/// its own size.
pub proof fn law_no_hardlinks_sums(root: Node, apparent: bool, root_dev: u64, depth: nat)
    requires
        file_ids(root).no_duplicates(),
    ensures
        plain_analysis(root, apparent, root_dev, depth) is Ok ==> sums_hold(
            plain_analysis(root, apparent, root_dev, depth)->Ok_0,
        ),
{
    let cfg = crate::analyze::plain_config(apparent, root_dev);
    if root.info is Some && root.info->0 is Directory {
        lemma_no_links_node(root, cfg, crate::analyze::epoch(), depth, Map::empty(), crate::analyze::empty_cache());
    }
}

/// Whether `e` is a readable file with id `id` and size `size`.
pub open spec fn is_link(e: Node, id: u64, size: u64) -> bool {
    e.info matches Some(FileInfo::File { size: sz, file_id: f, .. }) && sz == size && f == id
}

/// How many of the first `p` entries of `s` are links to `id` of size `size`.
pub open spec fn link_count(s: Seq<Node>, p: int, id: u64, size: u64) -> nat
    decreases p,
{
    if p <= 0 || p > s.len() {
        0
    } else {
        link_count(s, p - 1, id, size) + if is_link(s[p - 1], id, size) {
            1nat
        } else {
            0nat
        }
    }
}

/// Whether no value but `id` occurs twice in `ids`.
pub open spec fn repeats_only(ids: Seq<u64>, id: u64) -> bool {
    forall|a: int, b: int| 0 <= a < ids.len() && 0 <= b < ids.len() && a != b && ids[a] == ids[b] ==> ids[a] == id
}

proof fn lemma_ids_prefix(s: Seq<Node>, p: int, q: int)
    requires
        0 <= p <= q <= s.len(),
    ensures
        list_ids(s, p).len() <= list_ids(s, q).len(),
        list_ids(s, q).subrange(0, list_ids(s, p).len() as int) == list_ids(s, p),
    decreases q - p,
{
    if p < q {
        lemma_ids_prefix(s, p, q - 1);
        let a = list_ids(s, q - 1);
        assert(list_ids(s, q) == a + file_ids(s[q - 1]));
        assert((a + file_ids(s[q - 1])).subrange(0, list_ids(s, p).len() as int) == a.subrange(
            0,
            list_ids(s, p).len() as int,
        ));
    } else {
        assert(list_ids(s, q).subrange(0, list_ids(s, q).len() as int) == list_ids(s, q));
    }
}

proof fn lemma_link_count_le(s: Seq<Node>, p: int, q: int, id: u64, size: u64)
    requires
        0 <= p <= q <= s.len(),
    ensures
        link_count(s, p, id, size) <= link_count(s, q, id, size),
    decreases q - p,
{
    if p < q {
        lemma_link_count_le(s, p, q - 1, id, size);
    }
}

proof fn lemma_links_among(
    s: Seq<Node>,
    p: int,
    id: u64,
    size: u64,
    cfg: AnalyzeConfig,
    now: Timestamp,
    depth: nat,
    cache: CacheView,
)
    requires
        0 <= p <= s.len(),
        forall|j: int| 0 <= j < s.len() ==> is_link(#[trigger] s[j], id, size) || !file_ids(s[j]).contains(id),
        repeats_only(list_ids(s, s.len() as int), id),
        link_count(s, s.len() as int, id, size) * size <= u64::MAX,
    ensures
        ({
            let l = run_list(s, p, cfg, now, false, depth, Map::empty(), cache);
            let c = link_count(s, p, id, size);
            &&& forall|k: u64| #[trigger] l.scope.contains_key(k) && k != id ==> l.scope[k] == 0
            &&& l.scope.contains_key(id) <==> c >= 1
            &&& c >= 1 ==> l.scope[id] == (c - 1) * size
            &&& forall|k: u64| #[trigger] l.scope.contains_key(k) ==> list_ids(s, p).contains(k)
            &&& int_sum(l.items) >= c * size
        }),
    decreases p,
{
    if p > 0 {
        lemma_links_among(s, p - 1, id, size, cfg, now, depth, cache);
        let q = run_list(s, p - 1, cfg, now, false, depth, Map::empty(), cache);
        let l = run_list(s, p, cfg, now, false, depth, Map::empty(), cache);
        let e = s[p - 1];
        let a = list_ids(s, p - 1);
        let b = file_ids(e);
        let full = list_ids(s, s.len() as int);
        assert(list_ids(s, p) == a + b);
        lemma_ids_prefix(s, p, s.len() as int);
        lemma_link_count_le(s, p, s.len() as int, id, size);
        let c0 = link_count(s, p - 1, id, size);
        let c = link_count(s, p, id, size);
        assert forall|k: u64| a.contains(k) implies (a + b).contains(k) by {
            let j = choose|j: int| 0 <= j < a.len() && a[j] == k;
            assert((a + b)[j] == k);
        }
        let r = run_node(e, cfg, now, false, depth, q.scope, q.cache);
        if is_link(e, id, size) {
            assert(c == c0 + 1);
            assert(c * size <= u64::MAX) by (nonlinear_arith)
                requires
                    c <= link_count(s, s.len() as int, id, size),
                    link_count(s, s.len() as int, id, size) * size <= u64::MAX,
            ;
            assert((c0 - 1) * size + size == c0 * size) by (nonlinear_arith);
            assert(c0 * size + size == c * size) by (nonlinear_arith)
                requires
                    c == c0 + 1,
            ;
            assert(c0 * size >= 0) by (nonlinear_arith);
            assert(b[0] == id);
            assert((a + b)[a.len() as int] == id);
            assert(r.item == Ok::<ItemView, AnalyzeError>(leaf(e.name@, size)));
            assert(l.items.drop_last() == q.items);
            if c0 >= 1 {
                assert(r.scope == q.scope.insert(id, (c0 * size) as u64));
            } else {
                assert(r.scope == q.scope.insert(id, 0u64));
                assert(c == 1);
            }
        } else {
            assert(c == c0);
            assert(!b.contains(id));
            assert forall|x: int, y: int| 0 <= x < b.len() && 0 <= y < b.len() && x != y implies b[x] != b[y] by {
                assert(full[a.len() + x] == (a + b)[a.len() + x]);
                assert(full[a.len() + y] == (a + b)[a.len() + y]);
                if b[x] == b[y] {
                    assert(b.contains(b[x]));
                }
            }
            assert forall|k: u64| b.contains(k) implies !q.scope.contains_key(k) by {
                if q.scope.contains_key(k) {
                    let x = choose|x: int| 0 <= x < b.len() && b[x] == k;
                    let j = choose|j: int| 0 <= j < a.len() && a[j] == k;
                    assert(full[j] == (a + b)[j]);
                    assert(full[a.len() + x] == (a + b)[a.len() + x]);
                }
            }
            lemma_no_links_node(e, cfg, now, depth, q.scope, q.cache);
            assert forall|k: u64| #[trigger] l.scope.contains_key(k) && k != id implies l.scope[k] == 0 by {
                if q.scope.contains_key(k) {
                    assert(l.scope[k] == q.scope[k]);
                }
            }
            assert forall|k: u64| #[trigger] l.scope.contains_key(k) implies list_ids(s, p).contains(k) by {
                if !q.scope.contains_key(k) {
                    let x = choose|x: int| 0 <= x < b.len() && b[x] == k;
                    assert((a + b)[a.len() + x] == k);
                }
            }
            if r.item is Ok {
                assert(l.items.drop_last() == q.items);
                assert(l.items.last().disk_size >= 0);
            }
        }
    }
}

/// Hardlinks to one file among the entries of one directory are charged
/// once: when no other id repeats under it and the linked id occurs nowhere
/// else below it, its children's sizes add up to its own size plus the size
/// of the file once for each link but one.
pub proof fn law_sibling_hardlinks_charged_once(
    n: Node,
    id: u64,
    size: u64,
    cfg: AnalyzeConfig,
    now: Timestamp,
    depth: nat,
    scope: Map<u64, u64>,
    cache: CacheView,
)
    requires
        n.info is Some,
        n.info->0 is Directory,
        n.info->0->Directory_volume_id == cfg.root_dev,
        n.entries is Some,
        depth >= 1,
        link_count(n.entries->0@, n.entries->0@.len() as int, id, size) >= 1,
        forall|j: int|
            0 <= j < n.entries->0@.len() ==> is_link(#[trigger] n.entries->0@[j], id, size) || !file_ids(
                n.entries->0@[j],
            ).contains(id),
        repeats_only(file_ids(n), id),
        link_count(n.entries->0@, n.entries->0@.len() as int, id, size) * size <= u64::MAX,
    ensures
        ({
            let r = run_node(n, cfg, now, false, depth, scope, cache);
            let links = link_count(n.entries->0@, n.entries->0@.len() as int, id, size);
            &&& r.item is Ok
            &&& r.item->Ok_0.children is Some
            &&& int_sum(r.item->Ok_0.children->0) <= u64::MAX ==> int_sum(r.item->Ok_0.children->0)
                == r.item->Ok_0.disk_size + (links - 1) * size
        }),
{
    let s = n.entries->0@;
    let fid = n.info->0->Directory_file_id;
    let lm = n.info->0->Directory_last_modified;
    let r = run_node(n, cfg, now, false, depth, scope, cache);
    assert(r == dir_run(n.name@, s, fid, lm, false, cfg, now, false, depth, scope, cache));
    assert(file_ids(n) == list_ids(s, s.len() as int));
    let d = (depth - 1) as nat;
    lemma_links_among(s, s.len() as int, id, size, cfg, now, d, cache);
    let l = run_list(s, s.len() as int, cfg, now, false, d, Map::empty(), cache);
    let nl = link_count(s, s.len() as int, id, size);
    let ids = list_ids(s, s.len() as int);
    assert(l.scope.dom().subset_of(ids.to_set()));
    vstd::seq_lib::seq_to_set_is_finite(ids);
    vstd::set_lib::lemma_set_subset_finite(ids.to_set(), l.scope.dom());
    lemma_total_remove(l.scope, id);
    assert(zeros(l.scope.remove(id)));
    lemma_zero_delta(l.scope.remove(id));
    crate::scope::lemma_total_nonneg(l.scope.remove(id));
    assert((nl - 1) * size <= nl * size) by (nonlinear_arith);
    assert((nl - 1) * size >= 0) by (nonlinear_arith)
        requires
            nl >= 1,
    ;
    assert(delta_sum(l.scope) == ((nl - 1) * size) as u64);
    lemma_sort_sum(l.items);
    lemma_size_sum_min(l.items);
}

/// The file ids of the directories at and under a path.
pub open spec fn dir_ids(n: Node) -> Seq<u64>
    decreases n, 0int,
{
    match n.info {
        Some(FileInfo::Directory { file_id, .. }) => match n.entries {
            Some(ents) => seq![file_id] + list_dir_ids(ents@, ents@.len() as int),
            None => seq![file_id],
        },
        _ => Seq::empty(),
    }
}

/// The file ids of the directories at and under the first `i` entries of `s`.
pub open spec fn list_dir_ids(s: Seq<Node>, i: int) -> Seq<u64>
    decreases s, i,
{
    if i <= 0 || i > s.len() {
        Seq::empty()
    } else {
        list_dir_ids(s, i - 1) + dir_ids(s[i - 1])
    }
}

proof fn lemma_record_untouched_node(
    n: Node,
    k: u64,
    cfg: AnalyzeConfig,
    now: Timestamp,
    caching: bool,
    depth: nat,
    scope: Map<u64, u64>,
    cache: CacheView,
)
    requires
        !dir_ids(n).contains(k),
    ensures
        run_node(n, cfg, now, caching, depth, scope, cache).cache.entries.contains_key(k) == cache.entries.contains_key(k),
        run_node(n, cfg, now, caching, depth, scope, cache).cache.entries[k] == cache.entries[k],
    decreases n, 0int,
{
    match n.info {
        Some(FileInfo::Directory { volume_id, file_id, .. }) => {
            assert(dir_ids(n)[0] == file_id);
            if volume_id == cfg.root_dev {
                match n.entries {
                    Some(ents) => {
                        let s = ents@;
                        let rest = list_dir_ids(s, s.len() as int);
                        assert(dir_ids(n) == seq![file_id] + rest);
                        assert forall|x: u64| rest.contains(x) implies dir_ids(n).contains(x) by {
                            let j = choose|j: int| 0 <= j < rest.len() && rest[j] == x;
                            assert(dir_ids(n)[j + 1] == x);
                        }
                        if depth > 0 {
                            lemma_record_untouched_list(s, s.len() as int, k, cfg, now, caching, (depth - 1) as nat, Map::empty(), cache);
                        } else {
                            lemma_record_untouched_list(s, s.len() as int, k, cfg, now, caching, 0, scope, cache);
                        }
                    },
                    None => {},
                }
            }
        },
        _ => {},
    }
}

proof fn lemma_record_untouched_list(
    s: Seq<Node>,
    i: int,
    k: u64,
    cfg: AnalyzeConfig,
    now: Timestamp,
    caching: bool,
    depth: nat,
    scope: Map<u64, u64>,
    cache: CacheView,
)
    requires
        !list_dir_ids(s, i).contains(k),
    ensures
        run_list(s, i, cfg, now, caching, depth, scope, cache).cache.entries.contains_key(k) == cache.entries.contains_key(k),
        run_list(s, i, cfg, now, caching, depth, scope, cache).cache.entries[k] == cache.entries[k],
    decreases s, i,
{
    if i > 0 && i <= s.len() {
        let a = list_dir_ids(s, i - 1);
        let b = dir_ids(s[i - 1]);
        assert(list_dir_ids(s, i) == a + b);
        assert forall|x: u64| a.contains(x) implies (a + b).contains(x) by {
            let j = choose|j: int| 0 <= j < a.len() && a[j] == x;
            assert((a + b)[j] == x);
        }
        assert forall|x: u64| b.contains(x) implies (a + b).contains(x) by {
            let j = choose|j: int| 0 <= j < b.len() && b[j] == x;
            assert((a + b)[a.len() + j] == x);
        }
        lemma_record_untouched_list(s, i - 1, k, cfg, now, caching, depth, scope, cache);
        let p = run_list(s, i - 1, cfg, now, caching, depth, scope, cache);
        lemma_record_untouched_node(s[i - 1], k, cfg, now, caching, depth, p.scope, p.cache);
    }
}

/// A directory that is not cold leaves its own record as it was, provided no
/// directory below it has its file id.
pub proof fn law_warm_directory_record_kept(
    n: Node,
    file_id: u64,
    last_modified: Timestamp,
    cfg: AnalyzeConfig,
    now: Timestamp,
    caching: bool,
    depth: nat,
    scope: Map<u64, u64>,
    cache: CacheView,
)
    requires
        n.info == Some(FileInfo::Directory { volume_id: cfg.root_dev, file_id, last_modified }),
        n.entries is Some,
        !list_dir_ids(n.entries->0@, n.entries->0@.len() as int).contains(file_id),
        !cold(cfg, now, caching, depth, last_modified),
    ensures
        run_node(n, cfg, now, caching, depth, scope, cache).cache.entries.contains_key(file_id)
            == cache.entries.contains_key(file_id),
        run_node(n, cfg, now, caching, depth, scope, cache).cache.entries[file_id] == cache.entries[file_id],
{
    let s = n.entries->0@;
    if depth > 0 {
        lemma_record_untouched_list(s, s.len() as int, file_id, cfg, now, caching, (depth - 1) as nat, Map::empty(), cache);
    } else {
        lemma_record_untouched_list(s, s.len() as int, file_id, cfg, now, caching, 0, scope, cache);
    }
}

} // verus!
