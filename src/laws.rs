use vstd::prelude::*;

use crate::entry::{entry_ids, is_divider, EntryView};
use crate::layout::{
    dividers_separate_days, items_of, neighbours_share_day, render, rows_ordered, well_formed,
};
use crate::edits::{lemma_item_ids, lemma_removed_rows, lemma_rows_facts};
use crate::model::{holds_id, locates, without_message};

verus! {

/// The ids of all messages in the rows, in row order.
pub open spec fn all_ids(rows: Seq<EntryView>) -> Seq<i64>
    decreases rows.len(),
{
    if rows.len() == 0 {
        Seq::empty()
    } else {
        entry_ids(rows[0]) + all_ids(rows.drop_first())
    }
}

pub open spec fn strictly_descending(ids: Seq<i64>) -> bool {
    forall|a: int, b: int| 0 <= a < b < ids.len() ==> ids[a] > ids[b]
}

/// In well-formed rows no two dividers stand next to each other, and every
/// divider stands right after an item of the day it carries.
pub proof fn lemma_dividers_stand_between_days(rows: Seq<EntryView>)
    requires
        well_formed(rows),
    ensures
        forall|i: int|
            0 <= i < rows.len() - 1 && is_divider(#[trigger] rows[i]) ==> !is_divider(rows[i + 1]),
        forall|i: int|
            0 <= i < rows.len() && is_divider(#[trigger] rows[i]) ==> {
                &&& 0 < i
                &&& !is_divider(rows[i - 1])
                &&& rows[i] == EntryView::DayDivider(crate::entry::entry_day(rows[i - 1]))
            },
        dividers_separate_days(rows),
        neighbours_share_day(rows),
{
    let s = items_of(rows);
    crate::layout::lemma_ordered_no_dividers(s);
    crate::layout::lemma_render_shape(s);
}

proof fn lemma_all_ids_descend(rows: Seq<EntryView>)
    requires
        rows_ordered(rows),
        forall|i: int, j: int|
            0 <= i < rows.len() && 0 <= j < entry_ids(rows[i]).len() ==> !is_divider(rows[i]) && (
            crate::entry::last_id(rows[i]) <= #[trigger] entry_ids(rows[i])[j]
                <= crate::entry::first_id(rows[i])),
        forall|i: int|
            0 <= i < rows.len() ==> crate::entry::ids_descending(entry_ids(#[trigger] rows[i])),
    ensures
        strictly_descending(all_ids(rows)),
        forall|t: int|
            0 <= t < all_ids(rows).len() ==> exists|i: int, j: int|
                0 <= i < rows.len() && 0 <= j < entry_ids(rows[i]).len() && #[trigger] all_ids(
                    rows,
                )[t] == entry_ids(rows[i])[j],
    decreases rows.len(),
{
    if rows.len() > 0 {
        let rest = rows.drop_first();
        let e = entry_ids(rows[0]);
        let r = all_ids(rest);
        assert forall|i: int, j: int|
            0 <= i < j < rest.len() && !is_divider(#[trigger] rest[i]) && !is_divider(
                #[trigger] rest[j],
            ) implies crate::entry::last_id(rest[i]) > crate::entry::first_id(rest[j]) by {
            assert(rest[i] == rows[i + 1] && rest[j] == rows[j + 1]);
        }
        assert forall|i: int, j: int|
            0 <= i < rest.len() && 0 <= j < entry_ids(rest[i]).len() implies !is_divider(rest[i]) && (
            crate::entry::last_id(rest[i]) <= #[trigger] entry_ids(rest[i])[j]
                <= crate::entry::first_id(rest[i])) by {
            assert(rest[i] == rows[i + 1]);
        }
        assert forall|i: int| 0 <= i < rest.len() implies crate::entry::ids_descending(
            entry_ids(#[trigger] rest[i]),
        ) by {
            assert(rest[i] == rows[i + 1]);
        }
        lemma_all_ids_descend(rest);
        let all = all_ids(rows);
        assert(all == e + r);
        assert(crate::entry::ids_descending(entry_ids(rows[0])));
        assert forall|a: int, b: int| 0 <= a < b < all.len() implies all[a] > all[b] by {
            if b < e.len() {
            } else if a < e.len() {
                let u = b - e.len();
                assert(all[b] == r[u]);
                let (i, j) = choose|i: int, j: int|
                    0 <= i < rest.len() && 0 <= j < entry_ids(rest[i]).len() && #[trigger] r[u]
                        == entry_ids(rest[i])[j];
                assert(rest[i] == rows[i + 1]);
                assert(entry_ids(rows[i + 1])[j] == r[u]);
                assert(entry_ids(rows[0])[a] == all[a]);
                assert(crate::entry::last_id(rows[0]) > crate::entry::first_id(rows[i + 1]));
            } else {
                assert(all[a] == r[a - e.len()]);
                assert(all[b] == r[b - e.len()]);
            }
        }
        assert forall|t: int| 0 <= t < all.len() implies exists|i: int, j: int|
            0 <= i < rows.len() && 0 <= j < entry_ids(rows[i]).len() && #[trigger] all_ids(rows)[t]
                == entry_ids(rows[i])[j] by {
            if t < e.len() {
                assert(all[t] == entry_ids(rows[0])[t]);
            } else {
                let u = t - e.len();
                assert(all[t] == r[u]);
                let (i, j) = choose|i: int, j: int|
                    0 <= i < rest.len() && 0 <= j < entry_ids(rest[i]).len() && #[trigger] r[u]
                        == entry_ids(rest[i])[j];
                assert(rest[i] == rows[i + 1]);
                assert(entry_ids(rows[i + 1])[j] == all[t]);
            }
        }
    }
}

/// The messages of well-formed rows, read row by row, come in strictly
/// descending id order.
pub proof fn lemma_ids_descend(rows: Seq<EntryView>)
    requires
        well_formed(rows),
    ensures
        strictly_descending(all_ids(rows)),
{
    lemma_rows_facts(rows);
    assert forall|i: int| 0 <= i < rows.len() implies crate::entry::ids_descending(
        entry_ids(#[trigger] rows[i]),
    ) by {
        if !is_divider(rows[i]) {
            lemma_item_ids(rows[i]);
        }
    }
    lemma_all_ids_descend(rows);
}

/// No message id appears twice in well-formed rows.
pub proof fn lemma_ids_unique(rows: Seq<EntryView>)
    requires
        well_formed(rows),
    ensures
        all_ids(rows).no_duplicates(),
{
    lemma_ids_descend(rows);
}

/// Once the message `id` is removed, the rows hold it no more: removing it
/// a second time finds nothing and changes nothing.
pub proof fn lemma_removed_id_is_gone(rows: Seq<EntryView>, id: i64, k: int, j: int)
    requires
        well_formed(rows),
        locates(items_of(rows), k, j, id),
    ensures
        well_formed(render(without_message(items_of(rows), k, j))),
        !holds_id(render(without_message(items_of(rows), k, j)), id),
{
    lemma_removed_rows(items_of(rows), k, j, id);
}

} // verus!
