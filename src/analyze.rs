use vstd::prelude::*;

use crate::cache::{CacheStore, CacheView};
use crate::order::{sort_by_size, sort_desc};
use crate::scope::{bump, delta_sum, merged, sat_sub, HardlinkScope};
use crate::time::{elapsed_nanos, is_cold, Timestamp};
use crate::tree::{leaf, lemma_views_push, size_sum, total_size, views, DiskItem, FileInfo, ItemView, Node};

verus! {

broadcast use vstd::std_specs::vec::group_vec_axioms;

/// How a subtree is analysed.
#[derive(Clone, Copy, Debug, PartialEq, Eq, Structural)]
pub struct AnalyzeConfig {
    /// Volume id of the root; a directory on another volume is left out.
    pub root_dev: u64,
    /// How long, in nanoseconds, a directory below the kept tree must have
    /// stayed unchanged before its cached total is trusted.
    pub cache_valid_duration: u128,
    /// The same window, in nanoseconds, for a directory whose children are kept.
    pub parent_cold_duration: u128,
    /// Whether file sizes were read as allocated sizes rather than lengths.
    pub apparent: bool,
    /// Whether kept children are ordered by descending size.
    pub sort: bool,
}

/// Why a path yields no item.
#[derive(Clone, Copy, Debug, PartialEq, Eq, Structural)]
pub enum AnalyzeError {
    /// Its metadata could not be read.
    Metadata,
    /// It is a directory on another volume than the root.
    BoundaryCrossed,
    /// It is a directory whose entries could not be listed.
    Listing,
    /// The root of an analysis is not a directory.
    NotADirectory,
}

/// The outcome of analysing one path: its item or error, the hardlink scope
/// of its parent afterwards, and the cache afterwards.
pub struct Run {
    pub item: Result<ItemView, AnalyzeError>,
    pub scope: Map<u64, u64>,
    pub cache: CacheView,
}

/// The outcome of analysing a prefix of a directory's entries.
pub struct ListRun {
    pub items: Seq<ItemView>,
    pub scope: Map<u64, u64>,
    pub cache: CacheView,
}

/// The staleness window that applies at a given remaining depth.
pub open spec fn threshold(cfg: AnalyzeConfig, depth: nat) -> u128 {
    if depth > 0 {
        cfg.parent_cold_duration
    } else {
        cfg.cache_valid_duration
    }
}

/// Whether a directory is cold enough for its cache entry to be read or written.
pub open spec fn cold(cfg: AnalyzeConfig, now: Timestamp, caching: bool, depth: nat, last_modified: Timestamp) -> bool {
    caching && elapsed_nanos(now, last_modified) > threshold(cfg, depth)
}

/// Whether the cache holds a trusted total for the directory: one recorded
/// at the modification time the directory has now.
pub open spec fn cache_hit(c: CacheView, file_id: u64, last_modified: Timestamp) -> bool {
    &&& c.entries.contains_key(file_id)
    &&& c.entries[file_id].0 == last_modified
}

/// The cache after the total of a directory was written and marked used.
pub open spec fn stored(c: CacheView, file_id: u64, last_modified: Timestamp, size: u64) -> CacheView {
    CacheView { entries: c.entries.insert(file_id, (last_modified, size)), used: c.used.insert(file_id) }
}

/// The cache after the record of a directory was marked used.
pub open spec fn touched(c: CacheView, file_id: u64) -> CacheView {
    CacheView { entries: c.entries, used: c.used.insert(file_id) }
}

/// Analysis of one path at remaining depth `depth`, recording files into
/// `scope` (the scope of its parent directory). A file is a leaf of its own
/// size. A directory with depth left keeps its children, and its size is
/// the sum of theirs (held at `u64::MAX`) less the deltas of its own scope
/// (held at zero); with no depth left it keeps no children and records its
/// entries into its parent's scope. With `caching`, a cold directory whose
/// record carries its own known modification time is a leaf of the recorded
/// size, and a cold directory that is sized gets its record written.
pub open spec fn run_node(
    n: Node,
    cfg: AnalyzeConfig,
    now: Timestamp,
    caching: bool,
    depth: nat,
    scope: Map<u64, u64>,
    cache: CacheView,
) -> Run
    decreases n, 0int,
{
    match n.info {
        None => Run { item: Err(AnalyzeError::Metadata), scope, cache },
        Some(FileInfo::File { size, file_id, .. }) => Run {
            item: Ok(leaf(n.name@, size)),
            scope: bump(scope, file_id, size),
            cache,
        },
        Some(FileInfo::Directory { volume_id, file_id, last_modified }) => {
            if volume_id != cfg.root_dev {
                Run { item: Err(AnalyzeError::BoundaryCrossed), scope, cache }
            } else {
                match n.entries {
                    None => Run { item: Err(AnalyzeError::Listing), scope, cache },
                    Some(ents) => {
                        let c = cold(cfg, now, caching, depth, last_modified);
                        if c && cache_hit(cache, file_id, last_modified) {
                            Run {
                                item: Ok(leaf(n.name@, cache.entries[file_id].1)),
                                scope,
                                cache: touched(cache, file_id),
                            }
                        } else {
                            dir_run(n.name@, ents@, file_id, last_modified, c, cfg, now, caching, depth, scope, cache)
                        }
                    },
                }
            }
        },
    }
}

/// Analysis of a directory from its entries, its cache entry not consulted;
/// `c` says whether its total is written to the cache.
pub open spec fn dir_run(
    name: Seq<char>,
    ents: Seq<Node>,
    file_id: u64,
    last_modified: Timestamp,
    c: bool,
    cfg: AnalyzeConfig,
    now: Timestamp,
    caching: bool,
    depth: nat,
    scope: Map<u64, u64>,
    cache: CacheView,
) -> Run
    decreases ents, ents.len() + 1,
{
    if depth > 0 {
        let l = run_list(ents, ents.len() as int, cfg, now, caching, (depth - 1) as nat, Map::empty(), cache);
        let size = sat_sub(size_sum(l.items), delta_sum(l.scope));
        let kids = if cfg.sort { sort_desc(l.items) } else { l.items };
        Run {
            item: Ok(ItemView { name, disk_size: size, children: Some(kids) }),
            scope: merged(scope, l.scope),
            cache: if c { stored(l.cache, file_id, last_modified, size) } else { l.cache },
        }
    } else {
        let l = run_list(ents, ents.len() as int, cfg, now, caching, 0, scope, cache);
        let size = size_sum(l.items);
        Run {
            item: Ok(leaf(name, size)),
            scope: l.scope,
            cache: if c { stored(l.cache, file_id, last_modified, size) } else { l.cache },
        }
    }
}

/// Analysis of the first `i` entries of `s`, in order, each at remaining
/// depth `depth`; entries that yield an error are left out.
pub open spec fn run_list(
    s: Seq<Node>,
    i: int,
    cfg: AnalyzeConfig,
    now: Timestamp,
    caching: bool,
    depth: nat,
    scope: Map<u64, u64>,
    cache: CacheView,
) -> ListRun
    decreases s, i,
{
    if i <= 0 || i > s.len() {
        ListRun { items: Seq::empty(), scope, cache }
    } else {
        let p = run_list(s, i - 1, cfg, now, caching, depth, scope, cache);
        let r = run_node(s[i - 1], cfg, now, caching, depth, p.scope, p.cache);
        ListRun {
            items: match r.item {
                Ok(v) => p.items.push(v),
                Err(_) => p.items,
            },
            scope: r.scope,
            cache: r.cache,
        }
    }
}

/// Whether an executable result is the item, or the error, of a run.
pub open spec fn matches_run(r: Result<DiskItem, AnalyzeError>, item: Result<ItemView, AnalyzeError>) -> bool {
    match r {
        Ok(d) => item == Ok::<ItemView, AnalyzeError>(d@),
        Err(e) => item == Err::<ItemView, AnalyzeError>(e),
    }
}

/// Analysis from a root: the root must be a readable directory.
pub open spec fn root_run(
    root: Node,
    cfg: AnalyzeConfig,
    now: Timestamp,
    caching: bool,
    depth: nat,
    cache: CacheView,
) -> Run {
    match root.info {
        None => Run { item: Err(AnalyzeError::Metadata), scope: Map::empty(), cache },
        Some(FileInfo::File { .. }) => Run {
            item: Err(AnalyzeError::NotADirectory),
            scope: Map::empty(),
            cache,
        },
        Some(FileInfo::Directory { .. }) => run_node(root, cfg, now, caching, depth, Map::empty(), cache),
    }
}

/// The configuration of an analysis without cache: children always sorted.
pub open spec fn plain_config(apparent: bool, root_dev: u64) -> AnalyzeConfig {
    AnalyzeConfig { root_dev, cache_valid_duration: 0, parent_cold_duration: 0, apparent, sort: true }
}

/// The Unix epoch: the time an analysis without cache passes, unread.
pub open spec fn epoch() -> Timestamp {
    Timestamp { secs: 0, nanos: 0 }
}

/// A cache with no record and nothing used.
pub open spec fn empty_cache() -> CacheView {
    CacheView { entries: Map::empty(), used: Set::empty() }
}

/// The item that an analysis without cache gives.
pub open spec fn plain_analysis(root: Node, apparent: bool, root_dev: u64, depth: nat) -> Result<ItemView, AnalyzeError> {
    root_run(root, plain_config(apparent, root_dev), epoch(), false, depth, empty_cache()).item
}

impl DiskItem {
    /// Sizes the tree under `root`, keeping children down to `depth_limit`
    /// levels below it; hardlinks are charged once per directory scope and
    /// directories on another volume than `root_dev` are left out.
    pub fn from_analyze(root: &Node, apparent: bool, root_dev: u64, depth_limit: usize) -> (r: Result<DiskItem, AnalyzeError>)
        ensures
            matches_run(r, plain_analysis(*root, apparent, root_dev, depth_limit as nat)),
    {
        let cfg = AnalyzeConfig { root_dev, cache_valid_duration: 0, parent_cold_duration: 0, apparent, sort: true };
        let mut cache = CacheStore::new();
        let now = Timestamp { secs: 0, nanos: 0 };
        Self::analyze_root(root, &cfg, now, false, depth_limit, &mut cache)
    }

    /// As `from_analyze`, and directories cold at `now` are read from and
    /// written to `cache`.
    pub fn with_cache(
        root: &Node,
        config: AnalyzeConfig,
        depth_limit: usize,
        now: Timestamp,
        cache: &mut CacheStore,
    ) -> (r: Result<DiskItem, AnalyzeError>)
        ensures
            ({
                let run = root_run(*root, config, now, true, depth_limit as nat, old(cache)@);
                &&& matches_run(r, run.item)
                &&& final(cache)@ == run.cache
            }),
    {
        Self::analyze_root(root, &config, now, true, depth_limit, cache)
    }

    fn analyze_root(
        root: &Node,
        cfg: &AnalyzeConfig,
        now: Timestamp,
        caching: bool,
        depth: usize,
        cache: &mut CacheStore,
    ) -> (r: Result<DiskItem, AnalyzeError>)
        ensures
            ({
                let run = root_run(*root, *cfg, now, caching, depth as nat, old(cache)@);
                &&& matches_run(r, run.item)
                &&& final(cache)@ == run.cache
            }),
    {
        match root.info {
            None => Err(AnalyzeError::Metadata),
            Some(FileInfo::File { .. }) => Err(AnalyzeError::NotADirectory),
            Some(FileInfo::Directory { .. }) => {
                let mut scope = HardlinkScope::new();
                build(root, cfg, now, caching, depth, &mut scope, cache)
            },
        }
    }
}

impl CacheStore {
    /// Whether an analysis with this cache, at `now` and remaining depth
    /// `depth`, serves a path with metadata `info` from its record, so that
    /// the entries of that directory are never read.
    pub fn serves(&self, cfg: &AnalyzeConfig, now: Timestamp, depth: usize, info: FileInfo) -> (r: bool)
        ensures
            r == (match info {
                FileInfo::Directory { volume_id, file_id, last_modified } => volume_id == cfg.root_dev
                    && cold(*cfg, now, true, depth as nat, last_modified) && cache_hit(self@, file_id, last_modified),
                FileInfo::File { .. } => false,
            }),
    {
        match info {
            FileInfo::File { .. } => false,
            FileInfo::Directory { volume_id, file_id, last_modified } => {
                if volume_id != cfg.root_dev {
                    return false;
                }
                let window = if depth > 0 {
                    cfg.parent_cold_duration
                } else {
                    cfg.cache_valid_duration
                };
                if !is_cold(now, last_modified, window) {
                    return false;
                }
                match self.lookup(file_id) {
                    Some((t, _)) => t == last_modified,
                    None => false,
                }
            },
        }
    }
}

fn build(
    n: &Node,
    cfg: &AnalyzeConfig,
    now: Timestamp,
    caching: bool,
    depth: usize,
    scope: &mut HardlinkScope,
    cache: &mut CacheStore,
) -> (r: Result<DiskItem, AnalyzeError>)
    requires
        old(scope).wf(),
    ensures
        final(scope).wf(),
        ({
            let run = run_node(*n, *cfg, now, caching, depth as nat, old(scope)@, old(cache)@);
            &&& matches_run(r, run.item)
            &&& final(scope)@ == run.scope
            &&& final(cache)@ == run.cache
        }),
    decreases n,
{
    match n.info {
        None => Err(AnalyzeError::Metadata),
        Some(FileInfo::File { size, file_id, .. }) => {
            scope.record(file_id, size);
            Ok(DiskItem { name: n.name.clone(), disk_size: size, children: None })
        },
        Some(FileInfo::Directory { volume_id, file_id, last_modified }) => {
            if volume_id != cfg.root_dev {
                return Err(AnalyzeError::BoundaryCrossed);
            }
            match &n.entries {
                None => Err(AnalyzeError::Listing),
                Some(ents) => {
                    let window = if depth > 0 {
                        cfg.parent_cold_duration
                    } else {
                        cfg.cache_valid_duration
                    };
                    let c = caching && is_cold(now, last_modified, window);
                    if c {
                        match cache.lookup(file_id) {
                            Some((t, size)) => {
                                if t == last_modified {
                                    cache.mark_used(file_id);
                                    return Ok(DiskItem { name: n.name.clone(), disk_size: size, children: None });
                                }
                            },
                            None => {},
                        }
                    }
                    if depth > 0 {
                        let mut sub = HardlinkScope::new();
                        let items = build_list(ents, cfg, now, caching, depth - 1, &mut sub, cache);
                        let sum = total_size(&items);
                        let rep = sub.merge_into(scope);
                        let size = sum.saturating_sub(rep);
                        if c {
                            cache.store(file_id, last_modified, size);
                        }
                        let kids = if cfg.sort {
                            sort_by_size(items)
                        } else {
                            items
                        };
                        Ok(DiskItem { name: n.name.clone(), disk_size: size, children: Some(kids) })
                    } else {
                        let items = build_list(ents, cfg, now, caching, 0, scope, cache);
                        let size = total_size(&items);
                        if c {
                            cache.store(file_id, last_modified, size);
                        }
                        Ok(DiskItem { name: n.name.clone(), disk_size: size, children: None })
                    }
                },
            }
        },
    }
}

fn build_list(
    ents: &Vec<Node>,
    cfg: &AnalyzeConfig,
    now: Timestamp,
    caching: bool,
    depth: usize,
    scope: &mut HardlinkScope,
    cache: &mut CacheStore,
) -> (r: Vec<DiskItem>)
    requires
        old(scope).wf(),
    ensures
        final(scope).wf(),
        ({
            let l = run_list(ents@, ents@.len() as int, *cfg, now, caching, depth as nat, old(scope)@, old(cache)@);
            &&& views(r@) == l.items
            &&& final(scope)@ == l.scope
            &&& final(cache)@ == l.cache
        }),
    decreases ents,
{
    let mut items: Vec<DiskItem> = Vec::new();
    let mut i: usize = 0;
    while i < ents.len()
        invariant
            0 <= i <= ents@.len(),
            scope.wf(),
            ({
                let l = run_list(ents@, i as int, *cfg, now, caching, depth as nat, old(scope)@, old(cache)@);
                &&& views(items@) == l.items
                &&& scope@ == l.scope
                &&& cache@ == l.cache
            }),
        decreases ents@.len() - i,
    {
        let r = build(&ents[i], cfg, now, caching, depth, scope, cache);
        match r {
            Ok(d) => {
                proof {
                    lemma_views_push(items@, d);
                }
                items.push(d);
            },
            Err(_) => {},
        }
        i += 1;
    }
    items
}

} // verus!
