use dirstat_rs::analyze::{AnalyzeConfig, AnalyzeError};
use dirstat_rs::cache::CacheStore;
use dirstat_rs::time::is_cold;
use dirstat_rs::{DiskItem, FileInfo, HardlinkScope, Node, Timestamp};

const DEV: u64 = 7;

fn file(name: &str, size: u64, id: u64) -> Node {
    Node {
        name: name.to_string(),
        info: Some(FileInfo::File { size, volume_id: DEV, file_id: id }),
        entries: None,
    }
}

fn dir_at(name: &str, id: u64, dev: u64, modified: Timestamp, entries: Vec<Node>) -> Node {
    Node {
        name: name.to_string(),
        info: Some(FileInfo::Directory { volume_id: dev, file_id: id, last_modified: modified }),
        entries: Some(entries),
    }
}

fn dir(name: &str, id: u64, entries: Vec<Node>) -> Node {
    dir_at(name, id, DEV, Timestamp { secs: 1000, nanos: 0 }, entries)
}

fn names(item: &DiskItem) -> Vec<(String, u64)> {
    item.children
        .as_ref()
        .unwrap()
        .iter()
        .map(|c| (c.name.clone(), c.disk_size))
        .collect()
}

fn sample_tree() -> Node {
    dir(
        "root",
        1,
        vec![
            file("b.txt", 50, 11),
            dir("sub", 2, vec![file("c.txt", 25, 12)]),
            file("a.txt", 100, 10),
        ],
    )
}

#[test]
fn concrete_tree_totals_and_order() {
    let root = sample_tree();
    let item = DiskItem::from_analyze(&root, false, DEV, 2).unwrap();
    assert_eq!(item.disk_size, 175);
    assert_eq!(
        names(&item),
        vec![("a.txt".to_string(), 100), ("b.txt".to_string(), 50), ("sub".to_string(), 25)]
    );
    let sub = &item.children.as_ref().unwrap()[2];
    assert_eq!(names(sub), vec![("c.txt".to_string(), 25)]);
}

#[test]
fn two_hardlinks_charged_once() {
    let root = dir("root", 1, vec![file("x.txt", 40, 9), file("y.txt", 40, 9)]);
    let item = DiskItem::from_analyze(&root, false, DEV, 1).unwrap();
    assert_eq!(item.disk_size, 40);
    assert_eq!(item.children.as_ref().unwrap().len(), 2);
}

#[test]
fn many_sibling_hardlinks_charged_once() {
    let root = dir(
        "root",
        1,
        vec![file("x", 30, 9), file("other", 5, 4), file("y", 30, 9), file("z", 30, 9)],
    );
    let item = DiskItem::from_analyze(&root, false, DEV, 3).unwrap();
    assert_eq!(item.disk_size, 35);
}

#[test]
fn no_hardlinks_sum_of_children() {
    let root = dir(
        "root",
        1,
        vec![
            dir("a", 2, vec![file("1", 3, 10), file("2", 4, 11)]),
            dir("b", 3, vec![dir("c", 4, vec![file("3", 5, 12)])]),
            file("4", 6, 13),
        ],
    );
    let item = DiskItem::from_analyze(&root, false, DEV, 5).unwrap();
    assert_eq!(item.disk_size, 18);
    let kids = item.children.as_ref().unwrap();
    let sum: u64 = kids.iter().map(|c| c.disk_size).sum();
    assert_eq!(sum, item.disk_size);
    for k in kids {
        if let Some(grand) = &k.children {
            let s: u64 = grand.iter().map(|c| c.disk_size).sum();
            assert_eq!(s, k.disk_size);
        }
    }
}

#[test]
fn depth_zero_keeps_no_children_but_full_total() {
    let root = sample_tree();
    let item = DiskItem::from_analyze(&root, false, DEV, 0).unwrap();
    assert!(item.children.is_none());
    assert_eq!(item.disk_size, 175);
}

#[test]
fn depth_zero_below_counts_every_link() {
    let root = dir("root", 1, vec![dir("d", 2, vec![file("x", 40, 9), file("y", 40, 9)])]);
    let item = DiskItem::from_analyze(&root, false, DEV, 1).unwrap();
    let d = &item.children.as_ref().unwrap()[0];
    assert!(d.children.is_none());
    assert_eq!(d.disk_size, 80);
    // the links were recorded in the root's own scope, which charges them once
    assert_eq!(item.disk_size, 40);
}

#[test]
fn other_volume_left_out() {
    let root = dir(
        "root",
        1,
        vec![
            file("a", 10, 10),
            dir_at("mnt", 2, 99, Timestamp { secs: 5, nanos: 0 }, vec![file("big", 1000, 11)]),
            dir("same", 3, vec![file("c", 5, 12)]),
        ],
    );
    let item = DiskItem::from_analyze(&root, false, DEV, 2).unwrap();
    assert_eq!(item.disk_size, 15);
    assert_eq!(names(&item), vec![("a".to_string(), 10), ("same".to_string(), 5)]);
}

#[test]
fn unreadable_entries_dropped() {
    let broken = Node { name: "gone".to_string(), info: None, entries: None };
    let unlisted = Node {
        name: "locked".to_string(),
        info: Some(FileInfo::Directory {
            volume_id: DEV,
            file_id: 5,
            last_modified: Timestamp { secs: 1, nanos: 0 },
        }),
        entries: None,
    };
    let root = dir("root", 1, vec![broken, file("a", 8, 10), unlisted]);
    let item = DiskItem::from_analyze(&root, false, DEV, 1).unwrap();
    assert_eq!(item.disk_size, 8);
    assert_eq!(names(&item), vec![("a".to_string(), 8)]);
}

#[test]
fn root_errors() {
    let broken = Node { name: "gone".to_string(), info: None, entries: None };
    assert_eq!(DiskItem::from_analyze(&broken, false, DEV, 1).err(), Some(AnalyzeError::Metadata));
    let f = file("f", 3, 3);
    assert_eq!(DiskItem::from_analyze(&f, false, DEV, 1).err(), Some(AnalyzeError::NotADirectory));
    let other = dir_at("r", 1, 42, Timestamp { secs: 1, nanos: 0 }, vec![]);
    assert_eq!(DiskItem::from_analyze(&other, false, DEV, 1).err(), Some(AnalyzeError::BoundaryCrossed));
    let unlisted = Node {
        name: "r".to_string(),
        info: Some(FileInfo::Directory {
            volume_id: DEV,
            file_id: 1,
            last_modified: Timestamp { secs: 1, nanos: 0 },
        }),
        entries: None,
    };
    assert_eq!(DiskItem::from_analyze(&unlisted, false, DEV, 1).err(), Some(AnalyzeError::Listing));
}

#[test]
fn sort_is_stable_on_ties() {
    let root = dir(
        "root",
        1,
        vec![file("p", 5, 10), file("q", 9, 11), file("r", 5, 12), file("s", 9, 13), file("t", 1, 14)],
    );
    let item = DiskItem::from_analyze(&root, false, DEV, 1).unwrap();
    let order: Vec<String> = names(&item).into_iter().map(|(n, _)| n).collect();
    assert_eq!(order, vec!["q", "s", "p", "r", "t"]);
}

#[test]
fn cross_directory_links_merge_as_described() {
    // the first occurrence in a scope carries a zero delta upward, so two
    // single links in sibling directories are both charged
    let root = dir("root", 1, vec![dir("a", 2, vec![file("x", 40, 9)]), dir("b", 3, vec![file("y", 40, 9)])]);
    let item = DiskItem::from_analyze(&root, false, DEV, 2).unwrap();
    assert_eq!(item.disk_size, 80);
}

#[test]
fn sizes_saturate() {
    let root = dir("root", 1, vec![file("a", u64::MAX, 10), file("b", 5, 11)]);
    let item = DiskItem::from_analyze(&root, false, DEV, 1).unwrap();
    assert_eq!(item.disk_size, u64::MAX);
}

fn config(sort: bool) -> AnalyzeConfig {
    AnalyzeConfig {
        root_dev: DEV,
        cache_valid_duration: 100,
        parent_cold_duration: 100,
        apparent: false,
        sort,
    }
}

#[test]
fn cold_directory_cached_then_reused() {
    let now = Timestamp { secs: 5000, nanos: 0 };
    let root = sample_tree();
    let mut store = CacheStore::new();
    let first = DiskItem::with_cache(&root, config(false), 2, now, &mut store).unwrap();
    assert_eq!(first.disk_size, 175);
    assert_eq!(names(&first)[0].0, "b.txt");
    let saved = store.used_records();
    assert_eq!(saved.len(), 2);
    assert!(saved.contains(&(2, (Timestamp { secs: 1000, nanos: 0 }, 25))));
    assert!(saved.contains(&(1, (Timestamp { secs: 1000, nanos: 0 }, 175))));

    // a second run trusts the cached root total without looking inside
    let mut store = CacheStore::from_records(&vec![(1, (Timestamp { secs: 1000, nanos: 0 }, 999))]);
    let again = DiskItem::with_cache(&root, config(true), 2, now, &mut store).unwrap();
    assert_eq!(again.disk_size, 999);
    assert!(again.children.is_none());
    assert_eq!(store.used_records(), vec![(1, (Timestamp { secs: 1000, nanos: 0 }, 999))]);
}

#[test]
fn changed_directory_not_reused() {
    let now = Timestamp { secs: 5000, nanos: 0 };
    let root = sample_tree();
    let mut store = CacheStore::from_records(&vec![(1, (Timestamp { secs: 999, nanos: 0 }, 999))]);
    let mut wide = config(true);
    wide.parent_cold_duration = 0;
    wide.cache_valid_duration = 0;
    let item = DiskItem::with_cache(&root, wide, 2, now, &mut store).unwrap();
    assert_eq!(item.disk_size, 175);
    assert!(store.used_records().contains(&(1, (Timestamp { secs: 1000, nanos: 0 }, 175))));
}

#[test]
fn warm_directory_not_cached() {
    let now = Timestamp { secs: 1000, nanos: 50 };
    let root = sample_tree();
    let mut store = CacheStore::from_records(&vec![(1, (Timestamp { secs: 1000, nanos: 0 }, 999))]);
    let item = DiskItem::with_cache(&root, config(true), 2, now, &mut store).unwrap();
    assert_eq!(item.disk_size, 175);
    assert_eq!(store.used_records(), vec![]);
}

#[test]
fn epoch_time_is_an_ordinary_time() {
    let now = Timestamp { secs: 5000, nanos: 0 };
    let epoch = Timestamp { secs: 0, nanos: 0 };
    let root = dir_at("root", 1, DEV, epoch, vec![file("a", 4, 10)]);
    let mut store = CacheStore::from_records(&vec![(1, (epoch, 999))]);
    let item = DiskItem::with_cache(&root, config(true), 1, now, &mut store).unwrap();
    assert_eq!(item.disk_size, 999);
    assert!(item.children.is_none());
}

#[test]
fn scope_records_and_merges() {
    let mut child = HardlinkScope::new();
    child.record(9, 40);
    child.record(9, 40);
    child.record(3, 7);
    let mut parent = HardlinkScope::new();
    parent.record(9, 10);
    // 9 was present: its delta is added; 3 was absent: it comes in at zero
    assert_eq!(child.merge_into(&mut parent), 40);
    parent.record(3, 5);
    let mut top = HardlinkScope::new();
    assert_eq!(parent.merge_into(&mut top), 45);
    assert_eq!(top.merge_into(&mut HardlinkScope::new()), 0);
}

#[test]
fn cold_needs_strictly_longer_window() {
    let then = Timestamp { secs: 10, nanos: 500 };
    assert!(!is_cold(Timestamp { secs: 11, nanos: 500 }, then, 1_000_000_000));
    assert!(is_cold(Timestamp { secs: 11, nanos: 501 }, then, 1_000_000_000));
    assert!(!is_cold(Timestamp { secs: 9, nanos: 0 }, then, 0));
    assert_eq!(then.as_nanos(), 10_000_000_500);
}

#[test]
fn serves_only_cold_recorded_directories() {
    let t = Timestamp { secs: 1000, nanos: 0 };
    let store = CacheStore::from_records(&vec![(1, (t, 999))]);
    let cfg = AnalyzeConfig {
        root_dev: DEV,
        cache_valid_duration: 100,
        parent_cold_duration: 10_000_000_000_000,
        apparent: false,
        sort: false,
    };
    let info = FileInfo::Directory { volume_id: DEV, file_id: 1, last_modified: t };
    let now = Timestamp { secs: 5000, nanos: 0 };
    assert!(store.serves(&cfg, now, 0, info));
    // the ancestor window applies while children are kept
    assert!(!store.serves(&cfg, now, 1, info));
    let moved = FileInfo::Directory { volume_id: DEV, file_id: 1, last_modified: Timestamp { secs: 1001, nanos: 0 } };
    assert!(!store.serves(&cfg, now, 0, moved));
    let other = FileInfo::Directory { volume_id: 8, file_id: 1, last_modified: t };
    assert!(!store.serves(&cfg, now, 0, other));
    assert!(!store.serves(&cfg, now, 0, FileInfo::File { size: 1, volume_id: DEV, file_id: 1 }));
}
