use vstd::prelude::*;

use crate::message::{Day, Message};

verus! {

/// One row of the history list.
#[derive(Clone, Debug)]
pub enum HistoryEntry {
    /// A message shown on its own.
    Message(Message),
    /// Two or more messages of one album, newest first.
    MediaGroup(Vec<Message>),
    /// A separator between messages of two different days; it carries the
    /// day of the newer neighbour.
    DayDivider(Day),
}

/// The mathematical view of a [`HistoryEntry`].
pub enum EntryView {
    Message(Message),
    MediaGroup(Seq<Message>),
    DayDivider(Day),
}

impl View for HistoryEntry {
    type V = EntryView;

    open spec fn view(&self) -> EntryView {
        match self {
            HistoryEntry::Message(m) => EntryView::Message(*m),
            HistoryEntry::MediaGroup(ms) => EntryView::MediaGroup(ms@),
            HistoryEntry::DayDivider(d) => EntryView::DayDivider(*d),
        }
    }
}

pub open spec fn is_divider(e: EntryView) -> bool {
    e is DayDivider
}

/// The day an entry belongs to; an album counts from its newest message.
pub open spec fn entry_day(e: EntryView) -> Day {
    match e {
        EntryView::Message(m) => m.day,
        EntryView::MediaGroup(ms) => ms[0].day,
        EntryView::DayDivider(d) => d,
    }
}

/// The ids of the messages an entry holds, in list order.
pub open spec fn entry_ids(e: EntryView) -> Seq<i64> {
    match e {
        EntryView::Message(m) => seq![m.id],
        EntryView::MediaGroup(ms) => ms.map_values(|m: Message| m.id),
        EntryView::DayDivider(_) => Seq::empty(),
    }
}

pub open spec fn ids_descending(ids: Seq<i64>) -> bool {
    forall|a: int, b: int| 0 <= a < b < ids.len() ==> ids[a] > ids[b]
}

/// An album group holds at least two messages of one non-zero album, in
/// descending id order.
pub open spec fn valid_group(ms: Seq<Message>) -> bool {
    &&& ms.len() >= 2
    &&& ms[0].album_id != 0
    &&& forall|i: int| 0 <= i < ms.len() ==> #[trigger] ms[i].album_id == ms[0].album_id
    &&& forall|a: int, b: int| 0 <= a < b < ms.len() ==> ms[a].id > ms[b].id
}

/// An entry that can stand among the ordered items of the list: a message,
/// or a valid album group.
pub open spec fn valid_item(e: EntryView) -> bool {
    match e {
        EntryView::Message(_) => true,
        EntryView::MediaGroup(ms) => valid_group(ms),
        EntryView::DayDivider(_) => false,
    }
}

/// The largest id of an item.
pub open spec fn first_id(e: EntryView) -> i64 {
    entry_ids(e)[0]
}

/// The smallest id of an item.
pub open spec fn last_id(e: EntryView) -> i64 {
    entry_ids(e).last()
}

/// What is left of an item once its message at `j` is gone: nothing for
/// a single message; for an album group the other messages, as a single
/// message when only one is left.
pub open spec fn shrink(e: EntryView, j: int) -> Seq<EntryView> {
    match e {
        EntryView::MediaGroup(ms) => {
            let rest = ms.remove(j);
            if rest.len() == 1 {
                seq![EntryView::Message(rest[0])]
            } else {
                seq![EntryView::MediaGroup(rest)]
            }
        },
        _ => Seq::empty(),
    }
}

impl PartialEq for HistoryEntry {
    fn eq(&self, other: &HistoryEntry) -> (r: bool) {
        match (self, other) {
            (HistoryEntry::Message(a), HistoryEntry::Message(b)) => a == b,
            (HistoryEntry::DayDivider(a), HistoryEntry::DayDivider(b)) => a == b,
            (HistoryEntry::MediaGroup(a), HistoryEntry::MediaGroup(b)) => {
                if a.len() != b.len() {
                    return false;
                }
                let mut i: usize = 0;
                while i < a.len()
                    invariant
                        0 <= i <= a@.len(),
                        a@.len() == b@.len(),
                        a@.take(i as int) == b@.take(i as int),
                        self@ == EntryView::MediaGroup(a@),
                        other@ == EntryView::MediaGroup(b@),
                    decreases a@.len() - i,
                {
                    if a[i] != b[i] {
                        assert(a@[i as int] != b@[i as int]);
                        assert(a@ != b@);
                        return false;
                    }
                    assert(a@.take(i + 1) =~= a@.take(i as int).push(a@[i as int]));
                    assert(b@.take(i + 1) =~= b@.take(i as int).push(b@[i as int]));
                    i = i + 1;
                }
                assert(a@ =~= a@.take(i as int));
                assert(b@ =~= b@.take(i as int));
                true
            },
            _ => false,
        }
    }
}

impl vstd::std_specs::cmp::PartialEqSpecImpl for HistoryEntry {
    open spec fn obeys_eq_spec() -> bool {
        true
    }

    open spec fn eq_spec(&self, other: &HistoryEntry) -> bool {
        self@ == other@
    }
}

impl HistoryEntry {
    /// Whether this row is a day divider.
    pub fn is_day_divider(&self) -> (r: bool)
        ensures
            r == is_divider(self@),
    {
        match self {
            HistoryEntry::DayDivider(_) => true,
            _ => false,
        }
    }

    /// The largest and the smallest id of an item.
    pub(crate) fn id_range(&self) -> (r: (i64, i64))
        requires
            valid_item(self@),
        ensures
            r.0 == first_id(self@),
            r.1 == last_id(self@),
    {
        match self {
            HistoryEntry::Message(m) => (m.id, m.id),
            HistoryEntry::MediaGroup(ms) => (ms[0].id, ms[ms.len() - 1].id),
            HistoryEntry::DayDivider(_) => (0, 0),
        }
    }

    /// Where this item holds the message `id`, if it does.
    pub(crate) fn member_index(&self, id: i64) -> (r: Option<usize>)
        requires
            valid_item(self@),
        ensures
            match r {
                Some(j) => j < entry_ids(self@).len() && entry_ids(self@)[j as int] == id,
                None => forall|j: int| 0 <= j < entry_ids(self@).len() ==> entry_ids(self@)[j] != id,
            },
    {
        match self {
            HistoryEntry::Message(m) => {
                if m.id == id {
                    Some(0)
                } else {
                    None
                }
            },
            HistoryEntry::MediaGroup(ms) => {
                let mut t: usize = 0;
                while t < ms.len()
                    invariant
                        0 <= t <= ms@.len(),
                        entry_ids(self@) == ms@.map_values(|m: Message| m.id),
                        forall|u: int| 0 <= u < t ==> ms@[u].id != id,
                    decreases ms@.len() - t,
                {
                    if ms[t].id == id {
                        return Some(t);
                    }
                    t = t + 1;
                }
                None
            },
            HistoryEntry::DayDivider(_) => None,
        }
    }

    /// This item without its message at `j`, or nothing when it held no
    /// other.
    pub(crate) fn without_member(&self, j: usize) -> (r: Option<HistoryEntry>)
        requires
            valid_item(self@),
            j < entry_ids(self@).len(),
        ensures
            match r {
                Some(x) => shrink(self@, j as int) == seq![x@],
                None => shrink(self@, j as int) == Seq::<EntryView>::empty(),
            },
    {
        match self {
            HistoryEntry::MediaGroup(ms) => {
                let ghost rest = ms@.remove(j as int);
                let mut kept: Vec<Message> = Vec::new();
                let mut t: usize = 0;
                while t < ms.len()
                    invariant
                        0 <= t <= ms@.len(),
                        j < ms@.len(),
                        rest == ms@.remove(j as int),
                        kept@ == (if t <= j {
                            ms@.take(t as int)
                        } else {
                            rest.take(t - 1)
                        }),
                    decreases ms@.len() - t,
                {
                    if t != j {
                        kept.push(ms[t]);
                    }
                    t = t + 1;
                    assert(kept@ =~= (if t <= j {
                        ms@.take(t as int)
                    } else {
                        rest.take(t - 1)
                    }));
                }
                assert(kept@ =~= rest);
                if kept.len() == 1 {
                    Some(HistoryEntry::Message(kept[0]))
                } else {
                    Some(HistoryEntry::MediaGroup(kept))
                }
            },
            _ => None,
        }
    }
}

} // verus!
