//! Proofs that the edits of the model keep its rows well formed.

use vstd::prelude::*;

use crate::entry::{
    entry_ids, first_id, is_divider, last_id, shrink, valid_group, valid_item, EntryView,
};
use crate::layout::{
    dividers_separate_days, items_of, items_ordered, join, lemma_items_of_render, lemma_locate,
    lemma_ordered_no_dividers, lemma_render_around, lemma_render_concat, lemma_render_ordered,
    lemma_render_shape, lemma_render_small, no_dividers, render, rows_ordered, well_formed,
};
use crate::message::Message;
use crate::model::{holds_id, locates, oldest_id, without_message};

verus! {

pub proof fn lemma_item_ids(e: EntryView)
    requires
        valid_item(e),
    ensures
        entry_ids(e).len() > 0,
        forall|a: int, b: int|
            0 <= a < b < entry_ids(e).len() ==> entry_ids(e)[a] > entry_ids(e)[b],
        forall|j: int|
            0 <= j < entry_ids(e).len() ==> last_id(e) <= #[trigger] entry_ids(e)[j] <= first_id(e),
{
    let ids = entry_ids(e);
    assert forall|j: int| 0 <= j < ids.len() implies last_id(e) <= #[trigger] ids[j] <= first_id(
        e,
    ) by {
        if j > 0 {
            assert(ids[0] > ids[j]);
        }
        if j < ids.len() - 1 {
            assert(ids[j] > ids[ids.len() - 1]);
        }
    }
}

/// In well-formed rows the first row holds the newest message and the last
/// row the oldest.
pub proof fn lemma_id_bounds(rows: Seq<EntryView>)
    requires
        well_formed(rows),
    ensures
        rows.len() > 0 ==> !is_divider(rows[0]) && !is_divider(rows.last()),
        forall|i: int, j: int|
            0 <= i < rows.len() && 0 <= j < entry_ids(rows[i]).len() ==> oldest_id(rows)
                <= #[trigger] entry_ids(rows[i])[j] <= first_id(rows[0]),
{
    let s = items_of(rows);
    lemma_ordered_no_dividers(s);
    lemma_render_shape(s);
    lemma_render_ordered(s);
    assert forall|i: int, j: int|
        0 <= i < rows.len() && 0 <= j < entry_ids(rows[i]).len() implies oldest_id(rows)
        <= #[trigger] entry_ids(rows[i])[j] <= first_id(rows[0]) by {
        if is_divider(rows[i]) {
        } else {
            let k = choose|k: int| 0 <= k < s.len() && s[k] == rows[i];
            assert(valid_item(s[k]));
            lemma_item_ids(rows[i]);
            assert(valid_item(s[0]));
            assert(valid_item(s.last()));
            lemma_item_ids(rows[0]);
            lemma_item_ids(rows.last());
            if i > 0 {
                assert(last_id(rows[0]) > first_id(rows[i]));
            }
            if i < rows.len() - 1 {
                assert(last_id(rows[i]) > first_id(rows[rows.len() - 1]));
            }
        }
    }
}

pub proof fn lemma_ordered_prepend(e: EntryView, s: Seq<EntryView>)
    requires
        items_ordered(s),
        valid_item(e),
        s.len() > 0 ==> last_id(e) > first_id(s[0]),
    ensures
        items_ordered(seq![e] + s),
{
    let t = seq![e] + s;
    assert forall|i: int| 0 <= i < t.len() implies valid_item(#[trigger] t[i]) by {
        if i > 0 {
            assert(t[i] == s[i - 1]);
        }
    }
    assert forall|i: int, j: int| 0 <= i < j < t.len() implies last_id(#[trigger] t[i]) > first_id(
        #[trigger] t[j],
    ) by {
        assert(t[j] == s[j - 1]);
        if i == 0 {
            if j > 1 {
                assert(valid_item(s[0]));
                lemma_item_ids(s[0]);
                assert(last_id(s[0]) > first_id(s[j - 1]));
            }
        } else {
            assert(t[i] == s[i - 1]);
        }
    }
}

pub proof fn lemma_ordered_push(s: Seq<EntryView>, e: EntryView)
    requires
        items_ordered(s),
        valid_item(e),
        s.len() > 0 ==> last_id(s.last()) > first_id(e),
    ensures
        items_ordered(s.push(e)),
{
    let t = s.push(e);
    assert forall|i: int| 0 <= i < t.len() implies valid_item(#[trigger] t[i]) by {
        if i < s.len() {
            assert(t[i] == s[i]);
        }
    }
    assert forall|i: int, j: int| 0 <= i < j < t.len() implies last_id(#[trigger] t[i]) > first_id(
        #[trigger] t[j],
    ) by {
        assert(t[i] == s[i]);
        if j == s.len() {
            if i < s.len() - 1 {
                assert(valid_item(s.last()));
                lemma_item_ids(s.last());
                assert(last_id(s[i]) > first_id(s[s.len() - 1]));
            }
        } else {
            assert(t[j] == s[j]);
        }
    }
}

/// What well-formed rows offer a search: item rows are valid and ordered,
/// and each holds ids between its first and its last.
pub proof fn lemma_rows_facts(rows: Seq<EntryView>)
    requires
        well_formed(rows),
    ensures
        rows_ordered(rows),
        dividers_separate_days(rows),
        forall|i: int| 0 <= i < rows.len() && !is_divider(#[trigger] rows[i]) ==> valid_item(rows[i]),
        forall|i: int, j: int|
            0 <= i < rows.len() && !is_divider(rows[i]) && 0 <= j < entry_ids(rows[i]).len()
                ==> last_id(rows[i]) <= #[trigger] entry_ids(rows[i])[j] <= first_id(rows[i]),
{
    let s = items_of(rows);
    lemma_ordered_no_dividers(s);
    lemma_render_shape(s);
    lemma_render_ordered(s);
    assert forall|i: int| 0 <= i < rows.len() && !is_divider(#[trigger] rows[i]) implies valid_item(
        rows[i],
    ) by {
        let k = choose|k: int| 0 <= k < s.len() && s[k] == rows[i];
        assert(valid_item(s[k]));
    }
    assert forall|i: int, j: int|
        0 <= i < rows.len() && !is_divider(rows[i]) && 0 <= j < entry_ids(rows[i]).len()
            implies last_id(rows[i]) <= #[trigger] entry_ids(rows[i])[j] <= first_id(rows[i]) by {
        assert(!is_divider(rows[i]) ==> valid_item(rows[i]));
        lemma_item_ids(rows[i]);
    }
}

/// Removing one message keeps the items ordered, and leaves no message
/// with its id.
pub proof fn lemma_without_message(s: Seq<EntryView>, k: int, j: int, id: i64)
    requires
        items_ordered(s),
        locates(s, k, j, id),
    ensures
        items_ordered(without_message(s, k, j)),
        forall|k2: int, t: int|
            0 <= k2 < without_message(s, k, j).len() && 0 <= t < entry_ids(
                without_message(s, k, j)[k2],
            ).len() ==> #[trigger] entry_ids(without_message(s, k, j)[k2])[t] != id,
{
    let x = s[k];
    let sh = shrink(x, j);
    let s2 = without_message(s, k, j);
    assert(valid_item(x));
    lemma_item_ids(x);
    // what is left of x is valid, holds ids within those of x, and not `id`
    assert(sh.len() > 0 ==> {
        &&& valid_item(sh[0])
        &&& first_id(sh[0]) <= first_id(x)
        &&& last_id(sh[0]) >= last_id(x)
        &&& forall|t: int| 0 <= t < entry_ids(sh[0]).len() ==> #[trigger] entry_ids(sh[0])[t] != id
    }) by {
        if sh.len() > 0 {
            let ms = x->MediaGroup_0;
            let rest = ms.remove(j);
            assert(entry_ids(x) == ms.map_values(|m: Message| m.id));
            assert(forall|t: int| 0 <= t < rest.len() ==> #[trigger] rest[t] == (if t < j {
                ms[t]
            } else {
                ms[t + 1]
            }));
            assert(forall|t: int| 0 <= t < ms.len() ==> #[trigger] entry_ids(x)[t] == ms[t].id);
            if rest.len() == 1 {
                assert(entry_ids(sh[0]) == seq![rest[0].id]);
                if j == 0 {
                    assert(entry_ids(x)[1] == rest[0].id);
                } else {
                    assert(entry_ids(x)[0] == rest[0].id);
                }
            } else {
                assert(entry_ids(sh[0]) == rest.map_values(|m: Message| m.id));
                assert(valid_group(rest)) by {
                    assert forall|i: int| 0 <= i < rest.len() implies #[trigger] rest[i].album_id
                        == rest[0].album_id by {
                        assert(ms[i].album_id == ms[0].album_id);
                        assert(ms[i + 1].album_id == ms[0].album_id);
                        assert(ms[1].album_id == ms[0].album_id);
                    }
                }
                let last = rest.len() - 1;
                if j == 0 {
                    assert(rest[0] == ms[1]);
                    assert(entry_ids(x)[1] == rest[0].id);
                } else {
                    assert(rest[0] == ms[0]);
                }
                if j == ms.len() - 1 {
                    assert(rest[last] == ms[last]);
                    assert(entry_ids(x)[last] == rest[last].id);
                } else {
                    assert(rest[last] == ms[last + 1]);
                }
            }
        }
    }
    assert forall|i: int| 0 <= i < s2.len() implies valid_item(#[trigger] s2[i]) by {
        if i < k {
            assert(s2[i] == s[i]);
        } else if i < k + sh.len() {
            assert(s2[i] == sh[0]);
        } else {
            assert(s2[i] == s[i - sh.len() + 1]);
        }
    }
    assert forall|a: int, b: int| 0 <= a < b < s2.len() implies last_id(#[trigger] s2[a]) > first_id(
        #[trigger] s2[b],
    ) by {
        let ia = if a < k {
            a
        } else if a < k + sh.len() {
            k
        } else {
            a - sh.len() + 1
        };
        let ib = if b < k {
            b
        } else if b < k + sh.len() {
            k
        } else {
            b - sh.len() + 1
        };
        if a < k {
            assert(s2[a] == s[a]);
        } else if a < k + sh.len() {
            assert(s2[a] == sh[0]);
        } else {
            assert(s2[a] == s[ia]);
        }
        if b < k {
            assert(s2[b] == s[b]);
        } else if b < k + sh.len() {
            assert(s2[b] == sh[0]);
        } else {
            assert(s2[b] == s[ib]);
        }
        if ia < ib {
            assert(last_id(s[ia]) > first_id(s[ib]));
        }
    }
    assert forall|k2: int, t: int|
        0 <= k2 < s2.len() && 0 <= t < entry_ids(s2[k2]).len() implies #[trigger] entry_ids(
            s2[k2],
        )[t] != id by {
        if k2 < k {
            assert(s2[k2] == s[k2]);
            assert(valid_item(s[k2]));
            lemma_item_ids(s[k2]);
            assert(last_id(s[k2]) > first_id(x));
        } else if k2 < k + sh.len() {
            assert(s2[k2] == sh[0]);
        } else {
            let i2 = k2 - sh.len() + 1;
            assert(s2[k2] == s[i2]);
            assert(valid_item(s[i2]));
            lemma_item_ids(s[i2]);
            assert(last_id(x) > first_id(s[i2]));
        }
    }
}

/// The rows between the items `a` and `b` around `mid`, an item or nothing.
pub open spec fn window(a: Seq<EntryView>, mid: Seq<EntryView>, b: Seq<EntryView>) -> Seq<EntryView> {
    if mid.len() == 0 {
        join(a, b)
    } else {
        join(a, mid) + mid + join(mid, b)
    }
}

pub proof fn lemma_render_replace(a: Seq<EntryView>, mid: Seq<EntryView>, b: Seq<EntryView>)
    requires
        mid.len() <= 1,
    ensures
        render(a + mid + b) == render(a) + window(a, mid, b) + render(b),
{
    if mid.len() == 0 {
        assert(a + mid + b =~= a + b);
        lemma_render_concat(a, b);
    } else {
        lemma_render_concat(a, mid + b);
        lemma_render_concat(mid, b);
        lemma_render_small(mid);
        assert(join(a, mid + b) == join(a, mid)) by {
            if a.len() > 0 {
                assert((mid + b)[0] == mid[0]);
            }
        }
        assert(a + mid + b =~= a + (mid + b));
        assert(render(a + mid + b) =~= render(a) + window(a, mid, b) + render(b));
    }
}

/// How well-formed rows stand around the item row `i`: the item `k` with
/// the items `a` before it and `b` after it, the dividers beside it, and
/// the items next to those.
#[verifier::rlimit(40)]
pub proof fn lemma_remove_layout(rows: Seq<EntryView>, i: int) -> (k: int)
    requires
        well_formed(rows),
        0 <= i < rows.len(),
        !is_divider(rows[i]),
    ensures
        ({
            let s = items_of(rows);
            let a = s.take(k);
            let b = s.skip(k + 1);
            let x = seq![s[k]];
            let lo = render(a).len() as int;
            let hi = lo + window(a, x, b).len();
            &&& 0 <= k < s.len()
            &&& s[k] == rows[i]
            &&& rows == render(a) + window(a, x, b) + render(b)
            &&& (i > 0 && is_divider(rows[i - 1])) == (join(a, x).len() == 1)
            &&& (i + 1 < rows.len() && is_divider(rows[i + 1])) == (join(x, b).len() == 1)
            &&& lo == (if join(a, x).len() == 1 { i - 1 } else { i })
            &&& hi == (if join(x, b).len() == 1 { i + 2 } else { i + 1 })
            &&& hi <= rows.len()
            &&& rows.skip(hi) == render(b)
            &&& forall|t: int| 0 <= t < a.len() ==> valid_item(#[trigger] a[t])
            &&& forall|t: int| 0 <= t < b.len() ==> valid_item(#[trigger] b[t])
            &&& lo > 0 ==> a.len() > 0 && rows[lo - 1] == a.last()
            &&& hi < rows.len() ==> b.len() > 0 && rows[hi] == b[0]
            &&& lo == 0 ==> a.len() == 0
            &&& hi == rows.len() ==> b.len() == 0
        }),
{
    let s = items_of(rows);
    lemma_ordered_no_dividers(s);
    lemma_render_shape(s);
    let k = lemma_locate(s, i);
    let a = s.take(k);
    let b = s.skip(k + 1);
    let x = seq![s[k]];
    assert(s =~= a + x + b);
    lemma_render_replace(a, x, b);
    assert(no_dividers(a));
    assert(no_dividers(b));
    lemma_render_shape(a);
    lemma_render_shape(b);
    lemma_render_around(s, k);
    let ra = render(a);
    let rb = render(b);
    let ja = join(a, x);
    let jb = join(x, b);
    assert(rows == ra + ja + x + jb + rb);
    if a.len() == 0 {
        assert(ra =~= Seq::<EntryView>::empty());
    } else {
        if ja.len() == 0 {
            assert(rows[i - 1] == ra.last());
        } else {
            assert(rows[i - 1] == ja[0]);
        }
    }
    if b.len() == 0 {
        assert(rb =~= Seq::<EntryView>::empty());
    } else {
        if jb.len() == 0 {
            assert(rows[i + 1] == rb[0]);
        } else {
            assert(rows[i + 1] == jb[0]);
        }
    }
    let lo = ra.len() as int;
    let hi = lo + window(a, x, b).len();
    assert(rows.skip(hi) =~= rb);
    if lo > 0 {
        assert(rows[lo - 1] == ra.last());
    }
    if hi < rows.len() {
        assert(rows[hi] == rb[0]);
    }
    assert forall|t: int| 0 <= t < a.len() implies valid_item(#[trigger] a[t]) by {
        assert(a[t] == s[t]);
    }
    assert forall|t: int| 0 <= t < b.len() implies valid_item(#[trigger] b[t]) by {
        assert(b[t] == s[t + k + 1]);
    }
    k
}

/// Rows rendered from items that hold no message `id` hold none either.
pub proof fn lemma_render_lacks_id(s: Seq<EntryView>, id: i64)
    requires
        no_dividers(s),
        forall|k: int, t: int|
            0 <= k < s.len() && 0 <= t < entry_ids(s[k]).len() ==> #[trigger] entry_ids(s[k])[t]
                != id,
    ensures
        !holds_id(render(s), id),
{
    let r = render(s);
    lemma_render_shape(s);
    assert forall|i: int, t: int|
        0 <= i < r.len() && 0 <= t < entry_ids(r[i]).len() implies #[trigger] entry_ids(r[i])[t]
        != id by {
        if !is_divider(r[i]) {
            let k = choose|k: int| 0 <= k < s.len() && s[k] == r[i];
            assert(entry_ids(s[k])[t] != id);
        }
    }
}

/// The rows once a message is gone: the rows of the items around it, with
/// what is left of its item between them; they are well formed and do not
/// hold the message.
pub proof fn lemma_removed_rows(s: Seq<EntryView>, k: int, j: int, id: i64)
    requires
        items_ordered(s),
        locates(s, k, j, id),
    ensures
        render(without_message(s, k, j)) == render(s.take(k)) + window(
            s.take(k),
            shrink(s[k], j),
            s.skip(k + 1),
        ) + render(s.skip(k + 1)),
        shrink(s[k], j).len() > 0 ==> valid_item(shrink(s[k], j)[0]),
        well_formed(render(without_message(s, k, j))),
        !holds_id(render(without_message(s, k, j)), id),
{
    let s2 = without_message(s, k, j);
    let sh = shrink(s[k], j);
    lemma_without_message(s, k, j, id);
    if sh.len() > 0 {
        assert(s2[k] == sh[0]);
    }
    lemma_ordered_no_dividers(s2);
    lemma_items_of_render(s2);
    lemma_render_replace(s.take(k), sh, s.skip(k + 1));
    lemma_render_lacks_id(s2, id);
}

} // verus!
