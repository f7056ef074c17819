use std::collections::VecDeque;
use vstd::prelude::*;

use crate::entry::{EntryView, HistoryEntry};

verus! {

/// One coalesced edit of the list, as a list view consumes it: from
/// `position` on, `removed` rows left and `added` rows took their place.
#[derive(Clone, Copy, Debug, PartialEq, Eq, Structural)]
pub struct Change {
    pub position: usize,
    pub removed: usize,
    pub added: usize,
}

/// `c` turns `before` into `after`: the rows ahead of the change and the
/// rows behind it are kept.
pub open spec fn describes(c: Change, before: Seq<EntryView>, after: Seq<EntryView>) -> bool {
    &&& c.position + c.removed <= before.len()
    &&& c.position + c.added <= after.len()
    &&& before.len() - c.removed == after.len() - c.added
    &&& before.take(c.position as int) == after.take(c.position as int)
    &&& before.skip(c.position + c.removed) == after.skip(c.position + c.added)
}

/// `c` reports no kept row as changed: where both sides of the change hold
/// rows, their first rows differ and their last rows differ.
pub open spec fn tight(c: Change, before: Seq<EntryView>, after: Seq<EntryView>) -> bool {
    c.removed > 0 && c.added > 0 ==> {
        &&& before[c.position as int] != after[c.position as int]
        &&& before[c.position + c.removed - 1] != after[c.position + c.added - 1]
    }
}

/// `c` replaces the rows `old_w` by `new_w` at `lo`, and reports no kept row
/// as changed.
pub open spec fn window_change(c: Change, lo: int, old_w: Seq<EntryView>, new_w: Seq<EntryView>) -> bool {
    let p = c.position - lo;
    &&& lo <= c.position
    &&& p + c.removed <= old_w.len()
    &&& p + c.added <= new_w.len()
    &&& old_w.len() - c.removed == new_w.len() - c.added
    &&& old_w.take(p) == new_w.take(p)
    &&& old_w.skip(p + c.removed) == new_w.skip(p + c.added)
    &&& c.removed > 0 && c.added > 0 ==> {
        &&& old_w[p] != new_w[p]
        &&& old_w[p + c.removed - 1] != new_w[p + c.added - 1]
    }
}

pub open spec fn views(q: Seq<HistoryEntry>) -> Seq<EntryView> {
    q.map_values(|e: HistoryEntry| e@)
}

pub proof fn lemma_splice(
    c: Change,
    pre: Seq<EntryView>,
    old_w: Seq<EntryView>,
    new_w: Seq<EntryView>,
    post: Seq<EntryView>,
)
    requires
        window_change(c, pre.len() as int, old_w, new_w),
    ensures
        describes(c, pre + old_w + post, pre + new_w + post),
        tight(c, pre + old_w + post, pre + new_w + post),
{
    let lo = pre.len() as int;
    let p = c.position - lo;
    let before = pre + old_w + post;
    let after = pre + new_w + post;
    assert(before.take(c.position as int) =~= pre + old_w.take(p));
    assert(after.take(c.position as int) =~= pre + new_w.take(p));
    assert(before.skip(c.position + c.removed) =~= old_w.skip(p + c.removed) + post);
    assert(after.skip(c.position + c.added) =~= new_w.skip(p + c.added) + post);
    if c.removed > 0 && c.added > 0 {
        assert(before[c.position as int] == old_w[p]);
        assert(after[c.position as int] == new_w[p]);
        assert(before[c.position + c.removed - 1] == old_w[p + c.removed - 1]);
        assert(after[c.position + c.added - 1] == new_w[p + c.added - 1]);
    }
}

/// The change that replaces the rows `old_w` by `new_w` at `lo`, with the
/// rows both windows begin and end with left out.
pub(crate) fn coalesce(lo: usize, old_w: &VecDeque<HistoryEntry>, new_w: &VecDeque<HistoryEntry>) -> (c: Change)
    requires
        lo + old_w@.len() <= usize::MAX,
    ensures
        window_change(c, lo as int, views(old_w@), views(new_w@)),
{
    let ghost ow = views(old_w@);
    let ghost nw = views(new_w@);
    let no = old_w.len();
    let nn = new_w.len();
    let mut p: usize = 0;
    while p < no && p < nn && old_w[p] == new_w[p]
        invariant
            0 <= p <= no,
            p <= nn,
            no == ow.len(),
            nn == nw.len(),
            ow == views(old_w@),
            nw == views(new_w@),
            ow.take(p as int) == nw.take(p as int),
        decreases no - p,
    {
        assert(ow.take(p + 1) =~= ow.take(p as int).push(ow[p as int]));
        assert(nw.take(p + 1) =~= nw.take(p as int).push(nw[p as int]));
        p = p + 1;
    }
    let mut q: usize = 0;
    while q < no - p && q < nn - p && old_w[no - 1 - q] == new_w[nn - 1 - q]
        invariant
            0 <= p <= no,
            p <= nn,
            0 <= q <= no - p,
            q <= nn - p,
            no == ow.len(),
            nn == nw.len(),
            ow == views(old_w@),
            nw == views(new_w@),
            ow.skip(no - q) == nw.skip(nn - q),
        decreases no - p - q,
    {
        assert(ow.skip(no - q - 1) =~= seq![ow[no - q - 1]] + ow.skip(no - q));
        assert(nw.skip(nn - q - 1) =~= seq![nw[nn - q - 1]] + nw.skip(nn - q));
        q = q + 1;
    }
    Change { position: lo + p, removed: no - p - q, added: nn - p - q }
}

} // verus!
