use vstd::prelude::*;

use crate::scope::sat_add;
use crate::time::Timestamp;

verus! {

broadcast use vstd::std_specs::vec::group_vec_axioms;

/// What the metadata of one path says, in plain values.
#[derive(Clone, Copy, Debug, PartialEq, Eq, Structural)]
pub enum FileInfo {
    File { size: u64, volume_id: u64, file_id: u64 },
    Directory { volume_id: u64, file_id: u64, last_modified: Timestamp },
}

/// One path of a filesystem subtree as it was read: its display name, its
/// metadata (`None` when it could not be read) and, for a directory, its
/// direct entries (`None` when the listing could not be read).
pub struct Node {
    pub name: String,
    pub info: Option<FileInfo>,
    pub entries: Option<Vec<Node>>,
}

/// The size of a file, or of a directory and everything under it.
pub struct DiskItem {
    pub name: String,
    pub disk_size: u64,
    pub children: Option<Vec<DiskItem>>,
}

/// The mathematical value of a `DiskItem`.
pub struct ItemView {
    pub name: Seq<char>,
    pub disk_size: u64,
    pub children: Option<Seq<ItemView>>,
}

impl View for DiskItem {
    type V = ItemView;

    open spec fn view(&self) -> ItemView
        decreases *self,
    {
        ItemView {
            name: self.name@,
            disk_size: self.disk_size,
            children: match self.children {
                Some(v) => Some(views(v@)),
                None => None,
            },
        }
    }
}

/// The views of a sequence of items, in order.
pub open spec fn views(s: Seq<DiskItem>) -> Seq<ItemView>
    decreases s,
{
    if s.len() == 0 {
        Seq::empty()
    } else {
        views(s.subrange(0, s.len() - 1)).push(s[s.len() - 1]@)
    }
}

pub proof fn lemma_views(s: Seq<DiskItem>)
    ensures
        views(s).len() == s.len(),
        forall|i: int| 0 <= i < s.len() ==> #[trigger] views(s)[i] == s[i]@,
    decreases s.len(),
{
    if s.len() > 0 {
        let sub = s.subrange(0, s.len() - 1);
        lemma_views(sub);
        assert(views(s) == views(sub).push(s[s.len() - 1]@));
        assert forall|i: int| 0 <= i < s.len() implies #[trigger] views(s)[i] == s[i]@ by {
            if i < s.len() - 1 {
                assert(views(sub)[i] == sub[i]@);
            }
        }
    }
}

pub proof fn lemma_views_push(s: Seq<DiskItem>, x: DiskItem)
    ensures
        views(s.push(x)) == views(s).push(x@),
{
    assert(s.push(x).subrange(0, s.len() as int) == s);
}

/// A leaf: a file, or a directory whose children were not kept.
pub open spec fn leaf(name: Seq<char>, size: u64) -> ItemView {
    ItemView { name, disk_size: size, children: None }
}

/// Sum of the sizes of `s`, held at `u64::MAX`.
pub open spec fn size_sum(s: Seq<ItemView>) -> u64
    decreases s.len(),
{
    if s.len() == 0 {
        0
    } else {
        sat_add(size_sum(s.drop_last()), s.last().disk_size)
    }
}

/// Sum of the sizes of the items, held at `u64::MAX`.
pub fn total_size(items: &Vec<DiskItem>) -> (r: u64)
    ensures
        r == size_sum(views(items@)),
{
    let mut acc: u64 = 0;
    let mut i: usize = 0;
    while i < items.len()
        invariant
            0 <= i <= items@.len(),
            acc == size_sum(views(items@.take(i as int))),
        decreases items@.len() - i,
    {
        proof {
            let t = items@.take(i as int);
            assert(items@.take(i + 1) == t.push(items@[i as int]));
            lemma_views_push(t, items@[i as int]);
            assert(views(t.push(items@[i as int])).drop_last() == views(t));
        }
        acc = acc.saturating_add(items[i].disk_size);
        i += 1;
    }
    proof {
        assert(items@.take(i as int) == items@);
    }
    acc
}

} // verus!
