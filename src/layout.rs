use vstd::prelude::*;

use crate::entry::{entry_day, first_id, is_divider, last_id, valid_item, EntryView};

verus! {

/// The divider shown between two neighbouring items: none when they were
/// sent on the same day, else one that carries the newer item's day.
pub open spec fn separator(newer: EntryView, older: EntryView) -> Seq<EntryView> {
    if entry_day(newer) == entry_day(older) {
        Seq::empty()
    } else {
        seq![EntryView::DayDivider(entry_day(newer))]
    }
}

/// The rows shown for a newest-first sequence of items: the items in order,
/// with a divider between every two neighbours of different days.
#[verifier::opaque]
pub open spec fn render(items: Seq<EntryView>) -> Seq<EntryView>
    decreases items.len(),
{
    if items.len() <= 1 {
        items
    } else {
        seq![items[0]] + separator(items[0], items[1]) + render(items.drop_first())
    }
}

/// The divider that joins two runs of items, when both are non-empty.
pub open spec fn join(a: Seq<EntryView>, b: Seq<EntryView>) -> Seq<EntryView> {
    if a.len() == 0 || b.len() == 0 {
        Seq::empty()
    } else {
        separator(a.last(), b[0])
    }
}

/// The items of a list of rows: every row but the dividers, in order.
pub open spec fn items_of(rows: Seq<EntryView>) -> Seq<EntryView>
    decreases rows.len(),
{
    if rows.len() == 0 {
        Seq::empty()
    } else {
        (if is_divider(rows[0]) {
            Seq::empty()
        } else {
            seq![rows[0]]
        }) + items_of(rows.drop_first())
    }
}

/// Items that are valid and strictly ordered by descending message id.
pub open spec fn items_ordered(items: Seq<EntryView>) -> bool {
    &&& forall|i: int| 0 <= i < items.len() ==> valid_item(#[trigger] items[i])
    &&& forall|i: int, j: int|
        0 <= i < j < items.len() ==> last_id(#[trigger] items[i]) > first_id(#[trigger] items[j])
}

/// A well-formed list of rows: ordered items, shown with exactly the
/// dividers that their days call for.
pub open spec fn well_formed(rows: Seq<EntryView>) -> bool {
    &&& items_ordered(items_of(rows))
    &&& rows == render(items_of(rows))
}

/// Every divider stands between two items of different days and carries
/// the day of the newer one.
pub open spec fn dividers_separate_days(rows: Seq<EntryView>) -> bool {
    forall|i: int|
        0 <= i < rows.len() && is_divider(#[trigger] rows[i]) ==> {
            &&& 0 < i < rows.len() - 1
            &&& !is_divider(rows[i - 1])
            &&& !is_divider(rows[i + 1])
            &&& rows[i] == EntryView::DayDivider(entry_day(rows[i - 1]))
            &&& entry_day(rows[i - 1]) != entry_day(rows[i + 1])
        }
}

/// Two items that stand next to each other share their day.
pub open spec fn neighbours_share_day(rows: Seq<EntryView>) -> bool {
    forall|i: int|
        0 <= i < rows.len() - 1 && !is_divider(#[trigger] rows[i]) && !is_divider(rows[i + 1])
            ==> entry_day(rows[i]) == entry_day(rows[i + 1])
}

/// Of two items in the list, the newer one holds only larger ids.
pub open spec fn rows_ordered(rows: Seq<EntryView>) -> bool {
    forall|i: int, j: int|
        0 <= i < j < rows.len() && !is_divider(#[trigger] rows[i]) && !is_divider(#[trigger] rows[j])
            ==> last_id(rows[i]) > first_id(rows[j])
}

pub open spec fn no_dividers(items: Seq<EntryView>) -> bool {
    forall|i: int| 0 <= i < items.len() ==> !is_divider(#[trigger] items[i])
}

pub proof fn lemma_render_concat(a: Seq<EntryView>, b: Seq<EntryView>)
    ensures
        render(a + b) == render(a) + join(a, b) + render(b),
    decreases a.len(),
{
    reveal(render);
    if a.len() == 0 {
        assert(a + b =~= b);
        assert(render(a) =~= Seq::<EntryView>::empty());
        assert(render(a + b) =~= render(a) + join(a, b) + render(b));
    } else if b.len() == 0 {
        assert(a + b =~= a);
        assert(render(b) =~= Seq::<EntryView>::empty());
        assert(render(a + b) =~= render(a) + join(a, b) + render(b));
    } else if a.len() == 1 {
        assert((a + b).drop_first() =~= b);
        assert((a + b)[0] == a[0]);
        assert((a + b)[1] == b[0]);
        assert(render(a + b) =~= render(a) + join(a, b) + render(b));
    } else {
        lemma_render_concat(a.drop_first(), b);
        assert((a + b).drop_first() =~= a.drop_first() + b);
        assert((a + b)[0] == a[0]);
        assert((a + b)[1] == a[1]);
        assert(a.drop_first().last() == a.last());
        assert(render(a + b) =~= render(a) + join(a, b) + render(b));
    }
}

pub proof fn lemma_items_of_concat(a: Seq<EntryView>, b: Seq<EntryView>)
    ensures
        items_of(a + b) == items_of(a) + items_of(b),
    decreases a.len(),
{
    if a.len() == 0 {
        assert(a + b =~= b);
        assert(items_of(a + b) =~= items_of(a) + items_of(b));
    } else {
        lemma_items_of_concat(a.drop_first(), b);
        assert((a + b).drop_first() =~= a.drop_first() + b);
        assert((a + b)[0] == a[0]);
        assert(items_of(a + b) =~= items_of(a) + items_of(b));
    }
}

pub proof fn lemma_items_of_render(s: Seq<EntryView>)
    requires
        no_dividers(s),
    ensures
        items_of(render(s)) == s,
    decreases s.len(),
{
    reveal(render);
    if s.len() == 0 {
    } else if s.len() == 1 {
        let t = s.drop_first();
        assert(items_of(t) =~= Seq::<EntryView>::empty());
        assert(items_of(s) =~= s);
    } else {
        let t = s.drop_first();
        lemma_items_of_render(t);
        let sep = separator(s[0], s[1]);
        lemma_items_of_concat(seq![s[0]], sep + render(t));
        lemma_items_of_concat(sep, render(t));
        assert(items_of(seq![s[0]]) =~= seq![s[0]]) by {
            let one = seq![s[0]];
            assert(one.drop_first() =~= Seq::<EntryView>::empty());
            assert(items_of(one.drop_first()) =~= Seq::<EntryView>::empty());
            assert(!is_divider(one[0]));
        }
        assert(items_of(sep) =~= Seq::<EntryView>::empty()) by {
            if sep.len() == 1 {
                assert(sep.drop_first() =~= Seq::<EntryView>::empty());
                assert(items_of(sep.drop_first()) =~= Seq::<EntryView>::empty());
            }
        }
        assert(seq![s[0]] + sep + render(t) =~= seq![s[0]] + (sep + render(t)));
        assert(items_of(render(s)) =~= s);
    }
}

/// The shape of rendered rows: where the dividers stand, which items are
/// neighbours, and that every item row is one of the items.
pub proof fn lemma_render_shape(s: Seq<EntryView>)
    requires
        no_dividers(s),
    ensures
        render(s).len() >= s.len(),
        s.len() > 0 ==> render(s)[0] == s[0] && render(s).last() == s.last(),
        dividers_separate_days(render(s)),
        neighbours_share_day(render(s)),
        forall|i: int|
            0 <= i < render(s).len() && !is_divider(#[trigger] render(s)[i]) ==> exists|k: int|
                0 <= k < s.len() && s[k] == render(s)[i],
    decreases s.len(),
{
    reveal(render);
    let r = render(s);
    if s.len() <= 1 {
        assert forall|i: int| 0 <= i < r.len() && !is_divider(#[trigger] r[i]) implies exists|k: int|
            0 <= k < s.len() && s[k] == r[i] by {
            assert(s[i] == r[i]);
        }
    } else {
        let t = s.drop_first();
        lemma_render_shape(t);
        let sep = separator(s[0], s[1]);
        let rt = render(t);
        let off = 1 + sep.len();
        assert(r == seq![s[0]] + sep + rt);
        assert forall|i: int| off <= i < r.len() implies #[trigger] r[i] == rt[i - off] by {}
        assert(rt[0] == s[1]);
        assert(r.last() == rt.last());
        assert(dividers_separate_days(r)) by {
            assert forall|i: int| 0 <= i < r.len() && is_divider(#[trigger] r[i]) implies {
                &&& 0 < i < r.len() - 1
                &&& !is_divider(r[i - 1])
                &&& !is_divider(r[i + 1])
                &&& r[i] == EntryView::DayDivider(entry_day(r[i - 1]))
                &&& entry_day(r[i - 1]) != entry_day(r[i + 1])
            } by {
                if i == 0 {
                } else if i < off {
                    assert(r[i + 1] == rt[0]);
                } else {
                    assert(r[i] == rt[i - off]);
                    assert(is_divider(rt[i - off]));
                    assert(r[i + 1] == rt[i + 1 - off]);
                    assert(r[i - 1] == rt[i - 1 - off]);
                }
            }
        }
        assert(neighbours_share_day(r)) by {
            assert forall|i: int|
                0 <= i < r.len() - 1 && !is_divider(#[trigger] r[i]) && !is_divider(r[i + 1])
                    implies entry_day(r[i]) == entry_day(r[i + 1]) by {
                if i == 0 {
                    if sep.len() == 0 {
                        assert(r[1] == rt[0]);
                    } else {
                        assert(r[1] == sep[0]);
                    }
                } else if i < off {
                } else {
                    assert(r[i] == rt[i - off]);
                    assert(r[i + 1] == rt[i + 1 - off]);
                }
            }
        }
        assert forall|i: int| 0 <= i < r.len() && !is_divider(#[trigger] r[i]) implies exists|k: int|
            0 <= k < s.len() && s[k] == r[i] by {
            if i == 0 {
                assert(s[0] == r[0]);
            } else if i < off {
                assert(r[i] == sep[0]);
            } else {
                assert(r[i] == rt[i - off]);
                let k = choose|k: int| 0 <= k < t.len() && t[k] == rt[i - off];
                assert(s[k + 1] == r[i]);
            }
        }
    }
}

pub proof fn lemma_ordered_no_dividers(s: Seq<EntryView>)
    requires
        items_ordered(s),
    ensures
        no_dividers(s),
{
    assert forall|i: int| 0 <= i < s.len() implies !is_divider(#[trigger] s[i]) by {
        assert(valid_item(s[i]));
    }
}

pub proof fn lemma_render_ordered(s: Seq<EntryView>)
    requires
        items_ordered(s),
    ensures
        rows_ordered(render(s)),
    decreases s.len(),
{
    reveal(render);
    lemma_ordered_no_dividers(s);
    let r = render(s);
    if s.len() > 1 {
        let t = s.drop_first();
        assert(items_ordered(t)) by {
            assert forall|i: int, j: int| 0 <= i < j < t.len() implies last_id(#[trigger] t[i])
                > first_id(#[trigger] t[j]) by {
                assert(t[i] == s[i + 1] && t[j] == s[j + 1]);
            }
            assert forall|i: int| 0 <= i < t.len() implies valid_item(#[trigger] t[i]) by {
                assert(t[i] == s[i + 1]);
            }
        }
        lemma_render_ordered(t);
        lemma_render_shape(t);
        let sep = separator(s[0], s[1]);
        let rt = render(t);
        let off = 1 + sep.len();
        assert(r == seq![s[0]] + sep + rt);
        assert forall|i: int, j: int|
            0 <= i < j < r.len() && !is_divider(#[trigger] r[i]) && !is_divider(#[trigger] r[j])
                implies last_id(r[i]) > first_id(r[j]) by {
            if i == 0 {
                if j < off {
                    assert(r[j] == sep[0]);
                } else {
                    assert(r[j] == rt[j - off]);
                    let k = choose|k: int| 0 <= k < t.len() && t[k] == rt[j - off];
                    assert(s[k + 1] == r[j]);
                    assert(last_id(s[0]) > first_id(s[k + 1]));
                }
            } else if i < off {
                assert(r[i] == sep[0]);
            } else {
                assert(r[i] == rt[i - off]);
                assert(r[j] == rt[j - off]);
            }
        }
    }
}

/// The prefix of the rows that stands before the item at `k`.
pub open spec fn rows_before(s: Seq<EntryView>, k: int) -> Seq<EntryView> {
    render(s.take(k)) + join(s.take(k), seq![s[k]])
}

/// The rows of `s`, cut around the item at `k`.
pub proof fn lemma_render_around(s: Seq<EntryView>, k: int)
    requires
        0 <= k < s.len(),
    ensures
        render(s) == rows_before(s, k) + seq![s[k]] + join(seq![s[k]], s.skip(k + 1)) + render(
            s.skip(k + 1),
        ),
{
    let a = s.take(k);
    let x = seq![s[k]];
    let b = s.skip(k + 1);
    assert(s =~= a + (x + b));
    lemma_render_concat(a, x + b);
    lemma_render_concat(x, b);
    lemma_render_small(x);
    assert(join(a, x + b) == join(a, x)) by {
        if a.len() > 0 {
            assert((x + b)[0] == x[0]);
        }
    }
    assert(render(s) =~= rows_before(s, k) + x + join(x, b) + render(b));
}

/// The item that stands at a non-divider row `i`, and where it stands.
pub proof fn lemma_locate(s: Seq<EntryView>, i: int) -> (k: int)
    requires
        no_dividers(s),
        0 <= i < render(s).len(),
        !is_divider(render(s)[i]),
    ensures
        0 <= k < s.len(),
        s[k] == render(s)[i],
        rows_before(s, k).len() == i,
    decreases s.len(),
{
    reveal(render);
    if s.len() <= 1 {
        assert(s.take(0) =~= Seq::<EntryView>::empty());
        0
    } else {
        let t = s.drop_first();
        let sep = separator(s[0], s[1]);
        let rt = render(t);
        let off = 1 + sep.len();
        assert(render(s) == seq![s[0]] + sep + rt);
        if i == 0 {
            assert(s.take(0) =~= Seq::<EntryView>::empty());
            0
        } else {
            if i < off {
                assert(render(s)[i] == sep[0]);
                assert(false);
            }
            assert(render(s)[i] == rt[i - off]);
            assert(no_dividers(t)) by {
                assert forall|j: int| 0 <= j < t.len() implies !is_divider(#[trigger] t[j]) by {
                    assert(t[j] == s[j + 1]);
                }
            }
            let k1 = lemma_locate(t, i - off);
            let k = k1 + 1;
            let a = s.take(k);
            assert(a.drop_first() =~= t.take(k1));
            assert(a[0] == s[0]);
            if k1 == 0 {
                assert(a =~= seq![s[0]]);
                assert(render(a) == a);
                assert(t.take(0) =~= Seq::<EntryView>::empty());
            } else {
                assert(a[1] == s[1]);
                assert(render(a) == seq![s[0]] + sep + render(t.take(k1)));
                assert(a.last() == t.take(k1).last());
            }
            assert(s[k] == t[k1]);
            k
        }
    }
}

pub proof fn lemma_render_small(s: Seq<EntryView>)
    requires
        s.len() <= 1,
    ensures
        render(s) == s,
{
    reveal(render);
}

} // verus!
