use vstd::prelude::*;

use crate::tree::{lemma_views, views, DiskItem, ItemView};

verus! {

broadcast use vstd::std_specs::vec::group_vec_axioms;

/// `x` placed into `s` after every item whose size is at least its own,
/// counted from the end.
pub open spec fn insert_desc(s: Seq<ItemView>, x: ItemView) -> Seq<ItemView>
    decreases s.len(),
{
    if s.len() == 0 || s.last().disk_size >= x.disk_size {
        s.push(x)
    } else {
        insert_desc(s.drop_last(), x).push(s.last())
    }
}

/// `s` ordered by descending size; items of equal size keep their order.
pub open spec fn sort_desc(s: Seq<ItemView>) -> Seq<ItemView>
    decreases s.len(),
{
    if s.len() == 0 {
        s
    } else {
        insert_desc(sort_desc(s.drop_last()), s.last())
    }
}

proof fn lemma_insert_at(s: Seq<ItemView>, x: ItemView, j: int)
    requires
        0 <= j <= s.len(),
        forall|k: int| j <= k < s.len() ==> s[k].disk_size < x.disk_size,
        j == 0 || s[j - 1].disk_size >= x.disk_size,
    ensures
        insert_desc(s, x) == s.insert(j, x),
    decreases s.len(),
{
    if s.len() == 0 {
        assert(s.insert(j, x) == s.push(x));
    } else if s.last().disk_size >= x.disk_size {
        assert(s.insert(j, x) == s.push(x));
    } else {
        let t = s.drop_last();
        lemma_insert_at(t, x, j);
        assert(t.insert(j, x).push(s.last()) == s.insert(j, x));
    }
}

/// Orders items by strictly descending size, keeping the order of equal sizes.
pub fn sort_by_size(items: Vec<DiskItem>) -> (r: Vec<DiskItem>)
    ensures
        views(r@) == sort_desc(views(items@)),
{
    let ghost all = items@;
    let mut rest = items;
    let mut out: Vec<DiskItem> = Vec::new();
    proof {
        assert(all.take(0) == Seq::<DiskItem>::empty());
    }
    while rest.len() > 0
        invariant
            rest@.len() <= all.len(),
            rest@ == all.skip(all.len() - rest@.len()),
            views(out@) == sort_desc(views(all.take(all.len() - rest@.len()))),
        decreases rest@.len(),
    {
        let ghost n = all.len() - rest@.len();
        let x = rest.remove(0);
        let mut j: usize = out.len();
        proof {
            lemma_views(out@);
        }
        while j > 0 && out[j - 1].disk_size < x.disk_size
            invariant
                0 <= j <= out@.len(),
                forall|k: int| j <= k < out@.len() ==> out@[k].disk_size < x.disk_size,
            decreases j,
        {
            j -= 1;
        }
        let ghost before = out@;
        out.insert(j, x);
        proof {
            let vb = views(before);
            lemma_views(before);
            lemma_views(out@);
            lemma_insert_at(vb, x@, j as int);
            assert(views(out@) == vb.insert(j as int, x@));
            let pre = all.take(n);
            assert(all.take(n + 1) == pre.push(x));
            crate::tree::lemma_views_push(pre, x);
            assert(views(pre.push(x)).drop_last() == views(pre));
            assert(rest@ == all.skip(n + 1));
        }
    }
    proof {
        assert(all.take(all.len() as int) == all);
    }
    out
}

} // verus!
