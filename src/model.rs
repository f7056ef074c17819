use std::collections::VecDeque;
use vstd::prelude::*;

use crate::change::{coalesce, describes, lemma_splice, tight, views, Change};
use crate::edits::{
    lemma_id_bounds, lemma_item_ids, lemma_ordered_prepend, lemma_ordered_push,
    lemma_remove_layout, lemma_removed_rows, lemma_rows_facts, window,
};
use crate::entry::{
    entry_day, entry_ids, first_id, is_divider, last_id, shrink, valid_item, EntryView,
    HistoryEntry,
};
use crate::grouping::{
    album_runs, album_runs_of, lemma_album_runs, page_entries, run_entries, runs_entries,
};
use crate::laws::{all_ids, lemma_ids_descend, strictly_descending};
use crate::layout::{
    dividers_separate_days, items_of, items_ordered, join, lemma_items_of_render,
    lemma_ordered_no_dividers, lemma_render_concat, lemma_render_shape, lemma_render_small,
    no_dividers, render, rows_ordered, well_formed,
};
use crate::message::{Day, Message};

verus! {

/// A failure that the message source reported.
#[derive(Clone, Debug, PartialEq, Eq)]
pub struct SourceError {
    pub code: i32,
    pub message: String,
}

/// Why a load of older history did not go through.
#[derive(Clone, Debug, PartialEq, Eq)]
pub enum ChatHistoryError {
    /// A load is already under way.
    AlreadyLoading,
    /// The message source failed.
    Source(SourceError),
}

/// What to ask the message source for: up to `limit` messages older than
/// `from_message_id`, or the newest ones when it is 0.
#[derive(Clone, Copy, Debug, PartialEq, Eq, Structural)]
pub struct HistoryRequest {
    pub from_message_id: i64,
    pub limit: i32,
}

/// How a load of older history ended.
#[derive(Clone, Copy, Debug, PartialEq, Eq, Structural)]
pub enum LoadOutcome {
    /// The source had no older messages.
    Exhausted,
    /// A page was added behind the rows, with this change.
    Loaded(Change),
}

/// The ordered, day-divided list of a chat's history, newest first, and
/// whether a load of older history is under way.
pub struct ChatHistoryModel {
    list: VecDeque<HistoryEntry>,
    is_loading: bool,
}

/// Some row of `rows` holds a message with this id.
pub open spec fn holds_id(rows: Seq<EntryView>, id: i64) -> bool {
    exists|i: int, j: int|
        0 <= i < rows.len() && 0 <= j < entry_ids(rows[i]).len() && #[trigger] entry_ids(
            rows[i],
        )[j] == id
}

/// Every message of `rows` has an id below `id`.
pub open spec fn newer_than_all(id: i64, rows: Seq<EntryView>) -> bool {
    forall|i: int, j: int|
        0 <= i < rows.len() && 0 <= j < entry_ids(rows[i]).len() ==> #[trigger] entry_ids(
            rows[i],
        )[j] < id
}

/// Every message of `rows` has an id above `id`.
pub open spec fn older_than_all(id: i64, rows: Seq<EntryView>) -> bool {
    forall|i: int, j: int|
        0 <= i < rows.len() && 0 <= j < entry_ids(rows[i]).len() ==> #[trigger] entry_ids(
            rows[i],
        )[j] > id
}

/// A page that can go behind `rows`: newest first, and older than all of them.
pub open spec fn page_fits(rows: Seq<EntryView>, page: Seq<Message>) -> bool {
    &&& forall|a: int, b: int| 0 <= a < b < page.len() ==> page[a].id > page[b].id
    &&& page.len() > 0 ==> older_than_all(page[0].id, rows)
}

/// The id of the oldest message of `rows`, or 0 when there is none.
pub open spec fn oldest_id(rows: Seq<EntryView>) -> i64 {
    if rows.len() == 0 {
        0
    } else {
        last_id(rows.last())
    }
}

/// The message `id` stands at `j` in the item at `k`.
pub open spec fn locates(items: Seq<EntryView>, k: int, j: int, id: i64) -> bool {
    &&& 0 <= k < items.len()
    &&& 0 <= j < entry_ids(items[k]).len()
    &&& entry_ids(items[k])[j] == id
}

/// The items once the message at `j` of the item at `k` is gone.
pub open spec fn without_message(items: Seq<EntryView>, k: int, j: int) -> Seq<EntryView> {
    items.take(k) + shrink(items[k], j) + items.skip(k + 1)
}

fn day_of(e: &HistoryEntry) -> (d: Day)
    requires
        valid_item(e@) || is_divider(e@),
    ensures
        d == entry_day(e@),
{
    match e {
        HistoryEntry::Message(m) => m.day,
        HistoryEntry::MediaGroup(ms) => ms[0].day,
        HistoryEntry::DayDivider(d) => *d,
    }
}

impl View for ChatHistoryModel {
    type V = Seq<EntryView>;

    closed spec fn view(&self) -> Seq<EntryView> {
        self.list@.map_values(|e: HistoryEntry| e@)
    }
}

impl ChatHistoryModel {
    /// A load of older history is under way.
    pub closed spec fn loading(&self) -> bool {
        self.is_loading
    }

    /// An empty history, with no load under way.
    pub fn new() -> (r: Self)
        ensures
            r@ == Seq::<EntryView>::empty(),
            !r.loading(),
            well_formed(r@),
    {
        let r = ChatHistoryModel { list: VecDeque::new(), is_loading: false };
        assert(r@ =~= Seq::<EntryView>::empty());
        assert(items_of(r@) =~= Seq::<EntryView>::empty());
        proof {
            lemma_render_small(items_of(r@));
        }
        r
    }

    /// The number of rows.
    pub fn n_items(&self) -> (n: usize)
        ensures
            n == self@.len(),
    {
        self.list.len()
    }

    /// The row at `position`, if there is one.
    pub fn item(&self, position: usize) -> (r: Option<&HistoryEntry>)
        ensures
            match r {
                Some(e) => position < self@.len() && e@ == self@[position as int],
                None => position >= self@.len(),
            },
    {
        if position < self.list.len() {
            Some(&self.list[position])
        } else {
            None
        }
    }

    /// Whether a load of older history is under way.
    pub fn is_loading(&self) -> (r: bool)
        ensures
            r == self.loading(),
    {
        self.is_loading
    }

    /// Puts a newly arrived message in front, as the newest row, with a
    /// divider behind it when it starts a new day.
    pub fn push_front(&mut self, message: Message) -> (c: Change)
        requires
            well_formed(old(self)@),
            newer_than_all(message.id, old(self)@),
        ensures
            final(self)@ == render(seq![EntryView::Message(message)] + items_of(old(self)@)),
            well_formed(final(self)@),
            final(self).loading() == old(self).loading(),
            c.position == 0,
            c.removed == 0,
            describes(c, old(self)@, final(self)@),
    {
        let ghost rows = self@;
        let ghost s = items_of(rows);
        let ghost e = EntryView::Message(message);
        let ghost s2 = seq![e] + s;
        proof {
            lemma_ordered_no_dividers(s);
            lemma_render_shape(s);
            if s.len() > 0 {
                assert(entry_ids(rows[0])[0] < message.id);
            }
            lemma_ordered_prepend(e, s);
            lemma_ordered_no_dividers(s2);
            lemma_items_of_render(s2);
            lemma_render_concat(seq![e], s);
            lemma_render_small(seq![e]);
        }
        let n = self.list.len();
        let mut added: usize = 1;
        if n > 0 {
            assert(valid_item(s[0]));
            let first_day = day_of(&self.list[0]);
            if first_day != message.day {
                self.list.push_front(HistoryEntry::DayDivider(message.day));
                added = 2;
            }
        }
        self.list.push_front(HistoryEntry::Message(message));
        assert(self@ =~= render(s2));
        let c = Change { position: 0, removed: 0, added };
        assert(rows.take(0) =~= self@.take(0));
        assert(rows.skip(0) =~= self@.skip(added as int));
        c
    }

    /// Adds a page of older messages, newest first, behind the rows: each run
    /// of two or more messages of one album becomes an album group, every
    /// other message a row of its own, with the dividers their days call for.
    /// An empty page changes nothing.
    pub fn append(&mut self, messages: Vec<Message>) -> (c: Option<Change>)
        requires
            well_formed(old(self)@),
            page_fits(old(self)@, messages@),
        ensures
            final(self)@ == render(items_of(old(self)@) + page_entries(messages@)),
            well_formed(final(self)@),
            strictly_descending(all_ids(final(self)@)),
            final(self).loading() == old(self).loading(),
            messages@.len() == 0 <==> c is None,
            c is None ==> final(self)@ == old(self)@,
            c matches Some(c) ==> {
                &&& c.position == old(self)@.len()
                &&& c.removed == 0
                &&& c.added == final(self)@.len() - old(self)@.len()
                &&& describes(c, old(self)@, final(self)@)
            },
    {
        let ghost page = messages@;
        let ghost rows = self@;
        let ghost s0 = items_of(rows);
        let ghost rs = album_runs(page);
        proof {
            lemma_album_runs(page);
            lemma_ordered_no_dividers(s0);
            lemma_render_shape(s0);
            if s0.len() > 0 && page.len() > 0 {
                assert(entry_ids(rows.last())[entry_ids(rows.last()).len() - 1] > page[0].id);
            }
        }
        let start = self.list.len();
        let page_len = messages.len();
        let runs = album_runs_of(messages);
        let mut j: usize = 0;
        let ghost mut pos: int = 0;
        proof {
            assert(rs.take(0) =~= Seq::<Seq<Message>>::empty());
            assert(page.take(0) =~= Seq::<Message>::empty());
            assert(s0 + runs_entries(rs.take(0)) =~= s0);
        }
        while j < runs.len()
            invariant
                0 <= j <= runs.len(),
                runs@.map_values(|r: Vec<Message>| r@) == rs,
                rs == album_runs(page),
                rs.flatten() == page,
                forall|k: int| 0 <= k < rs.len() ==> (#[trigger] rs[k]).len() > 0,
                forall|k: int, t: int|
                    0 <= k < rs.len() && 0 <= t < rs[k].len() ==> (#[trigger] rs[k][t]).album_id
                        == rs[k][0].album_id,
                forall|a: int, b: int| 0 <= a < b < page.len() ==> page[a].id > page[b].id,
                s0.len() > 0 && page.len() > 0 ==> last_id(s0.last()) > page[0].id,
                0 <= pos <= page.len(),
                rs.take(j as int).flatten() == page.take(pos),
                j > 0 ==> pos > 0,
                self@ == render(s0 + runs_entries(rs.take(j as int))),
                items_ordered(s0 + runs_entries(rs.take(j as int))),
                pos > 0 ==> runs_entries(rs.take(j as int)).len() > 0 && last_id(
                    runs_entries(rs.take(j as int)).last(),
                ) == page[pos - 1].id,
                self.is_loading == old(self).is_loading,
            decreases runs.len() - j,
        {
            let ghost cur = s0 + runs_entries(rs.take(j as int));
            let ghost run = rs[j as int];
            proof {
                assert(runs@.map_values(|r: Vec<Message>| r@)[j as int] == runs@[j as int]@);
                assert(rs =~= rs.take(j + 1) + rs.skip(j + 1));
                vstd::seq_lib::lemma_flatten_concat(rs.take(j + 1), rs.skip(j + 1));
                assert(rs.take(j + 1) =~= rs.take(j as int).push(run));
                Seq::lemma_flatten_push(rs.take(j as int), run);
                assert(rs.take(j + 1).flatten() == page.take(pos) + run);
                assert(page =~= page.take(pos) + run + rs.skip(j + 1).flatten());
                assert forall|t: int| 0 <= t < run.len() implies #[trigger] run[t] == page[pos + t] by {
                    assert(page[pos + t] == (page.take(pos) + run)[pos + t]);
                }
                assert(rs.take(j + 1).drop_last() =~= rs.take(j as int));
                assert(runs_entries(rs.take(j + 1)) == runs_entries(rs.take(j as int))
                    + run_entries(run));
                assert(cur.len() > 0 ==> last_id(cur.last()) > page[pos].id) by {
                    if pos > 0 {
                        assert(cur.last() == runs_entries(rs.take(j as int)).last());
                    } else {
                        assert(runs_entries(rs.take(j as int)).len() == 0) by {
                            if j > 0 {
                            }
                            assert(rs.take(j as int) =~= Seq::<Seq<Message>>::empty());
                        }
                        assert(cur =~= s0);
                    }
                }
                lemma_ordered_no_dividers(cur);
            }
            proof {
                assert(forall|a: int, b: int| 0 <= a < b < run.len() ==> run[a].id > run[b].id) by {
                    assert forall|a: int, b: int| 0 <= a < b < run.len() implies run[a].id
                        > run[b].id by {
                        assert(run[a] == page[pos + a]);
                        assert(run[b] == page[pos + b]);
                    }
                }
                assert(forall|i: int| 0 <= i < run.len() ==> #[trigger] run[i].album_id
                    == run[0].album_id) by {
                    assert forall|i: int| 0 <= i < run.len() implies #[trigger] run[i].album_id
                        == run[0].album_id by {
                        assert(rs[j as int][i].album_id == rs[j as int][0].album_id);
                    }
                }
                assert(run[0] == page[pos]);
            }
            self.append_run(&runs[j], Ghost(cur));
            proof {
                let n = run.len();
                assert(cur + run_entries(run) =~= s0 + runs_entries(rs.take(j + 1)));
                assert(run[n - 1] == page[pos + n - 1]);
                assert(rs.take(j + 1).flatten() =~= page.take(pos + n));
                pos = pos + n;
            }
            j = j + 1;
        }
        proof {
            assert(rs.take(j as int) =~= rs);
            let all = s0 + page_entries(page);
            lemma_ordered_no_dividers(all);
            lemma_items_of_render(all);
            lemma_render_concat(s0, page_entries(page));
            lemma_ids_descend(self@);
        }
        if page_len == 0 {
            proof {
                assert(rs =~= Seq::<Seq<Message>>::empty());
                assert(s0 + page_entries(page) =~= s0);
            }
            None
        } else {
            let added = self.list.len() - start;
            let c = Change { position: start, removed: 0, added };
            proof {
                assert(rows.take(start as int) =~= self@.take(start as int));
                assert(rows.skip(start as int) =~= self@.skip(start + added));
            }
            Some(c)
        }
    }

    /// Adds the entries of one run of messages of one album behind the rows
    /// of `cur`.
    fn append_run(&mut self, run: &Vec<Message>, Ghost(cur): Ghost<Seq<EntryView>>)
        requires
            old(self)@ == render(cur),
            items_ordered(cur),
            run@.len() > 0,
            forall|a: int, b: int| 0 <= a < b < run@.len() ==> run@[a].id > run@[b].id,
            forall|i: int| 0 <= i < run@.len() ==> #[trigger] run@[i].album_id == run@[0].album_id,
            cur.len() > 0 ==> last_id(cur.last()) > run@[0].id,
        ensures
            final(self)@ == render(cur + run_entries(run@)),
            items_ordered(cur + run_entries(run@)),
            run_entries(run@).len() > 0,
            last_id(run_entries(run@).last()) == run@.last().id,
            final(self).is_loading == old(self).is_loading,
    {
        let n = run.len();
        proof {
            lemma_ordered_no_dividers(cur);
        }
        if n >= 2 && run[0].album_id != 0 {
            let mut members: Vec<Message> = Vec::new();
            let mut t: usize = 0;
            while t < n
                invariant
                    0 <= t <= n,
                    n == run@.len(),
                    members@ == run@.take(t as int),
                decreases n - t,
            {
                members.push(run[t]);
                t = t + 1;
                assert(members@ =~= run@.take(t as int));
            }
            assert(members@ =~= run@);
            let ghost e = EntryView::MediaGroup(run@);
            proof {
                assert(valid_item(e));
                lemma_item_ids(e);
                assert(first_id(e) == run@[0].id);
                lemma_ordered_push(cur, e);
                assert(run_entries(run@) == seq![e]);
                assert(cur.push(e) =~= cur + run_entries(run@));
                assert(last_id(e) == run@[n - 1].id);
            }
            self.push_back_item(HistoryEntry::MediaGroup(members), Ghost(cur));
        } else {
            let ghost ents = run@.map_values(|m: Message| EntryView::Message(m));
            let mut t: usize = 0;
            proof {
                assert(run_entries(run@) == ents);
                assert(cur + ents.take(0) =~= cur);
            }
            while t < n
                invariant
                    0 <= t <= n,
                    n == run@.len(),
                    ents == run@.map_values(|m: Message| EntryView::Message(m)),
                    forall|a: int, b: int| 0 <= a < b < run@.len() ==> run@[a].id > run@[b].id,
                    cur.len() > 0 ==> last_id(cur.last()) > run@[0].id,
                    items_ordered(cur + ents.take(t as int)),
                    self@ == render(cur + ents.take(t as int)),
                    self.is_loading == old(self).is_loading,
                decreases n - t,
            {
                let ghost items = cur + ents.take(t as int);
                let ghost e = EntryView::Message(run@[t as int]);
                proof {
                    lemma_ordered_no_dividers(items);
                    assert(valid_item(e));
                    if t > 0 {
                        assert(items.last() == EntryView::Message(run@[t - 1]));
                    } else if items.len() > 0 {
                        assert(items =~= cur);
                    }
                    lemma_ordered_push(items, e);
                    assert(items.push(e) =~= cur + ents.take(t + 1));
                }
                self.push_back_item(HistoryEntry::Message(run[t]), Ghost(items));
                t = t + 1;
            }
            proof {
                assert(ents.take(n as int) =~= ents);
            }
        }
    }

    /// Removes the message `message_id`: a single message leaves the list,
    /// an album group loses that member and turns into a single message when
    /// one is left. Dividers follow: one that no longer stands between two
    /// days goes, one that now does comes. An id that the list does not hold
    /// changes nothing.
    pub fn remove(&mut self, message_id: i64) -> (c: Option<Change>)
        requires
            well_formed(old(self)@),
        ensures
            well_formed(final(self)@),
            final(self).loading() == old(self).loading(),
            !holds_id(final(self)@, message_id),
            c is None <==> !holds_id(old(self)@, message_id),
            c is None ==> final(self)@ == old(self)@,
            c is Some ==> exists|k: int, j: int|
                locates(items_of(old(self)@), k, j, message_id) && final(self)@ == render(
                    without_message(items_of(old(self)@), k, j),
                ),
            c matches Some(c) ==> describes(c, old(self)@, final(self)@) && tight(
                c,
                old(self)@,
                final(self)@,
            ),
    {
        let ghost rows = self@;
        let ghost s = items_of(rows);
        let (i, j) = match self.find(message_id) {
            None => {
                return None;
            },
            Some(found) => found,
        };
        let ghost k = lemma_remove_layout(rows, i as int);
        let ghost x = s[k];
        let ghost a = s.take(k);
        let ghost b = s.skip(k + 1);
        let n = self.list.len();
        let left = i > 0 && self.list[i - 1].is_day_divider();
        let right = i + 1 < n && self.list[i + 1].is_day_divider();
        let lo: usize = if left {
            i - 1
        } else {
            i
        };
        let hi: usize = if right {
            i + 2
        } else {
            i + 1
        };
        proof {
            assert(self.list@[i as int]@ == x);
            assert(locates(s, k, j as int, message_id));
        }
        let ghost sh = shrink(x, j as int);
        proof {
            lemma_removed_rows(s, k, j as int, message_id);
        }
        let replacement = self.list[i].without_member(j);
        proof {
            assert(match replacement {
                Some(e) => seq![e@],
                None => Seq::<EntryView>::empty(),
            } == sh);
        }
        let new_w = self.window_for(lo, hi, replacement, Ghost(a), Ghost(b));
        let ghost nw = views(new_w@);
        proof {
            assert(nw == window(a, sh, b));
            assert(rows.take(lo as int) =~= render(a));
        }
        let c = self.splice(lo, hi, new_w);
        proof {
            assert(self@ == render(a) + window(a, sh, b) + render(b));
        }
        Some(c)
    }

    /// The rows that stand between the items `a` and `b` around what is left
    /// of a removed item.
    fn window_for(
        &self,
        lo: usize,
        hi: usize,
        replacement: Option<HistoryEntry>,
        Ghost(a): Ghost<Seq<EntryView>>,
        Ghost(b): Ghost<Seq<EntryView>>,
    ) -> (w: VecDeque<HistoryEntry>)
        requires
            lo <= hi <= self@.len(),
            lo == render(a).len(),
            self@.skip(hi as int) == render(b),
            forall|i: int| 0 <= i < a.len() ==> valid_item(#[trigger] a[i]),
            forall|i: int| 0 <= i < b.len() ==> valid_item(#[trigger] b[i]),
            lo > 0 ==> a.len() > 0 && self@[lo - 1] == a.last(),
            hi < self@.len() ==> b.len() > 0 && self@[hi as int] == b[0],
            lo == 0 ==> a.len() == 0,
            hi == self@.len() ==> b.len() == 0,
            replacement matches Some(e) ==> valid_item(e@),
        ensures
            views(w@) == window(
                a,
                match replacement {
                    Some(e) => seq![e@],
                    None => Seq::empty(),
                },
                b,
            ),
    {
        let n = self.list.len();
        let mut w: VecDeque<HistoryEntry> = VecDeque::new();
        match replacement {
            Some(e) => {
                let ed = day_of(&e);
                if lo > 0 {
                    let pd = day_of(&self.list[lo - 1]);
                    if pd != ed {
                        w.push_back(HistoryEntry::DayDivider(pd));
                    }
                }
                let after = hi < n && ed != day_of(&self.list[hi]);
                let ghost xe = seq![e@];
                w.push_back(e);
                if after {
                    w.push_back(HistoryEntry::DayDivider(ed));
                }
                assert(views(w@) =~= join(a, xe) + xe + join(xe, b));
            },
            None => {
                if lo > 0 && hi < n {
                    let pd = day_of(&self.list[lo - 1]);
                    if pd != day_of(&self.list[hi]) {
                        w.push_back(HistoryEntry::DayDivider(pd));
                    }
                }
                assert(views(w@) =~= join(a, b));
            },
        }
        w
    }

    /// Replaces the rows from `lo` up to `hi` by `new_w`, and reports the
    /// change.
    fn splice(&mut self, lo: usize, hi: usize, new_w: VecDeque<HistoryEntry>) -> (c: Change)
        requires
            lo <= hi <= old(self)@.len(),
        ensures
            final(self)@ == old(self)@.take(lo as int) + views(new_w@) + old(self)@.skip(hi as int),
            describes(c, old(self)@, final(self)@),
            tight(c, old(self)@, final(self)@),
            final(self).is_loading == old(self).is_loading,
    {
        let ghost rows = self@;
        let ghost full = self.list@;
        let mut new_w = new_w;
        let mut tail = self.list.split_off(lo);
        let mut removed: VecDeque<HistoryEntry> = VecDeque::new();
        let mut t: usize = lo;
        while t < hi
            invariant
                lo <= t <= hi,
                hi <= full.len(),
                removed@ == full.subrange(lo as int, t as int),
                tail@ == full.subrange(t as int, full.len() as int),
            decreases hi - t,
        {
            match tail.pop_front() {
                Some(row) => {
                    removed.push_back(row);
                },
                None => {},
            }
            t = t + 1;
            assert(removed@ =~= full.subrange(lo as int, t as int));
            assert(tail@ =~= full.subrange(t as int, full.len() as int));
        }
        let c = coalesce(lo, &removed, &new_w);
        let ghost nw = views(new_w@);
        let ghost ow = views(removed@);
        self.list.append(&mut new_w);
        self.list.append(&mut tail);
        proof {
            assert(self@ =~= rows.take(lo as int) + nw + rows.skip(hi as int));
            assert(rows =~= rows.take(lo as int) + ow + rows.skip(hi as int));
            lemma_splice(c, rows.take(lo as int), ow, nw, rows.skip(hi as int));
        }
        c
    }

    /// Where the message `id` stands: its row and its place in that row.
    fn find(&self, id: i64) -> (r: Option<(usize, usize)>)
        requires
            well_formed(self@),
        ensures
            match r {
                Some((i, j)) => {
                    &&& i < self@.len()
                    &&& !is_divider(self@[i as int])
                    &&& j < entry_ids(self@[i as int]).len()
                    &&& entry_ids(self@[i as int])[j as int] == id
                },
                None => !holds_id(self@, id),
            },
    {
        let ghost rows = self@;
        proof {
            lemma_rows_facts(rows);
        }
        let n = self.list.len();
        let mut lo: usize = 0;
        let mut hi: usize = n;
        while lo < hi
            invariant
                0 <= lo <= hi <= n,
                n == rows.len(),
                rows == self@,
                rows_ordered(rows),
                dividers_separate_days(rows),
                forall|i: int| 0 <= i < rows.len() && !is_divider(#[trigger] rows[i]) ==> valid_item(
                    rows[i],
                ),
                forall|i: int, j: int|
                    0 <= i < rows.len() && !is_divider(rows[i]) && 0 <= j < entry_ids(rows[i]).len()
                        ==> last_id(rows[i]) <= #[trigger] entry_ids(rows[i])[j] <= first_id(rows[i]),
                forall|i: int, j: int|
                    (0 <= i < lo || hi <= i < n) && 0 <= j < entry_ids(rows[i]).len()
                        ==> #[trigger] entry_ids(rows[i])[j] != id,
            decreases hi - lo,
        {
            let mid = lo + (hi - lo) / 2;
            assert(self.list@[mid as int]@ == rows[mid as int]);
            let c: usize;
            if self.list[mid].is_day_divider() {
                if mid > lo {
                    c = mid - 1;
                } else if mid + 1 < hi {
                    c = mid + 1;
                } else {
                    assert(entry_ids(rows[mid as int]).len() == 0);
                    return None;
                }
            } else {
                c = mid;
            }
            assert(self.list@[c as int]@ == rows[c as int]);
            let (first, last) = self.list[c].id_range();
            if id > first {
                assert forall|i: int, j: int|
                    c <= i < hi && 0 <= j < entry_ids(rows[i]).len() implies #[trigger] entry_ids(
                        rows[i],
                    )[j] != id by {
                    if i > c && !is_divider(rows[i]) {
                        assert(last_id(rows[c as int]) > first_id(rows[i]));
                    }
                }
                hi = c;
            } else if id < last {
                assert forall|i: int, j: int|
                    lo <= i <= c && 0 <= j < entry_ids(rows[i]).len() implies #[trigger] entry_ids(
                        rows[i],
                    )[j] != id by {
                    if i < c && !is_divider(rows[i]) {
                        assert(last_id(rows[i]) > first_id(rows[c as int]));
                    }
                }
                lo = c + 1;
            } else {
                match self.list[c].member_index(id) {
                    Some(j) => {
                        return Some((c, j));
                    },
                    None => {
                        assert forall|i: int, j: int|
                            0 <= i < n && 0 <= j < entry_ids(rows[i]).len() implies #[trigger] entry_ids(
                                rows[i],
                            )[j] != id by {
                            if i < c && !is_divider(rows[i]) {
                                assert(last_id(rows[i]) > first_id(rows[c as int]));
                            } else if i > c && !is_divider(rows[i]) {
                                assert(last_id(rows[c as int]) > first_id(rows[i]));
                            }
                        }
                        return None;
                    },
                }
            }
        }
        None
    }

    /// The id of the oldest message in the list, or 0 when it holds none.
    pub fn oldest_message_id(&self) -> (r: i64)
        requires
            well_formed(self@),
        ensures
            r == oldest_id(self@),
    {
        proof {
            lemma_id_bounds(self@);
            lemma_rows_facts(self@);
        }
        let n = self.list.len();
        if n == 0 {
            return 0;
        }
        assert(self.list@[n - 1]@ == self@[n - 1]);
        let (_, last) = self.list[n - 1].id_range();
        last
    }

    /// Whether `message` may go in front: it is newer than every message
    /// of the list.
    pub fn can_push_front(&self, message: &Message) -> (r: bool)
        requires
            well_formed(self@),
        ensures
            r == newer_than_all(message.id, self@),
    {
        proof {
            lemma_id_bounds(self@);
            lemma_rows_facts(self@);
        }
        let n = self.list.len();
        if n == 0 {
            return true;
        }
        assert(self.list@[0]@ == self@[0]);
        let (first, _) = self.list[0].id_range();
        proof {
            lemma_item_ids(self@[0]);
            assert(entry_ids(self@[0])[0] == first);
        }
        message.id > first
    }

    /// Whether `page` may go behind the rows: its ids descend, and all of
    /// them are older than every message of the list.
    pub fn can_append(&self, page: &Vec<Message>) -> (r: bool)
        requires
            well_formed(self@),
        ensures
            r == page_fits(self@, page@),
    {
        let m = page.len();
        let mut t: usize = 1;
        while t < m
            invariant
                1 <= t,
                m == page@.len(),
                t <= m || m == 0,
                forall|a: int, b: int| 0 <= a < b < t && b < m ==> page@[a].id > page@[b].id,
            decreases m - t,
        {
            if page[t - 1].id <= page[t].id {
                return false;
            }
            t = t + 1;
        }
        if m == 0 {
            return true;
        }
        let rows_len = self.list.len();
        if rows_len == 0 {
            return true;
        }
        let oldest = self.oldest_message_id();
        proof {
            lemma_id_bounds(self@);
            lemma_rows_facts(self@);
            lemma_item_ids(self@.last());
            let l = self@.last();
            assert(entry_ids(self@[rows_len - 1])[entry_ids(l).len() - 1] == oldest);
        }
        page[0].id < oldest
    }

    /// Starts a load of older history: refused while another is under way,
    /// else asks for up to `limit` messages older than the oldest one in the
    /// list.
    pub fn begin_load_older(&mut self, limit: i32) -> (r: Result<HistoryRequest, ChatHistoryError>)
        requires
            well_formed(old(self)@),
        ensures
            final(self)@ == old(self)@,
            final(self).loading(),
            old(self).loading() ==> r == Err::<HistoryRequest, ChatHistoryError>(
                ChatHistoryError::AlreadyLoading,
            ),
            !old(self).loading() ==> r == Ok::<HistoryRequest, ChatHistoryError>(
                (HistoryRequest { from_message_id: oldest_id(old(self)@), limit }),
            ),
    {
        if self.is_loading {
            return Err(ChatHistoryError::AlreadyLoading);
        }
        let from_message_id = self.oldest_message_id();
        self.is_loading = true;
        Ok(HistoryRequest { from_message_id, limit })
    }

    /// Ends a load of older history with what the source answered: a
    /// failure is handed on and leaves the rows as they were, an empty page
    /// means the history is exhausted, and any other page goes behind the
    /// rows.
    pub fn finish_load_older(&mut self, result: Result<Vec<Message>, SourceError>) -> (r: Result<
        LoadOutcome,
        ChatHistoryError,
    >)
        requires
            well_formed(old(self)@),
            result matches Ok(page) ==> page_fits(old(self)@, page@),
        ensures
            !final(self).loading(),
            well_formed(final(self)@),
            result is Err ==> final(self)@ == old(self)@,
            result matches Err(e) ==> r == Err::<LoadOutcome, ChatHistoryError>(
                ChatHistoryError::Source(e),
            ),
            result matches Ok(page) ==> page@.len() == 0 ==> final(self)@ == old(self)@ && r == Ok::<
                LoadOutcome,
                ChatHistoryError,
            >(LoadOutcome::Exhausted),
            result matches Ok(page) ==> page@.len() > 0 ==> final(self)@ == render(
                items_of(old(self)@) + page_entries(page@),
            ) && r == Ok::<LoadOutcome, ChatHistoryError>(
                LoadOutcome::Loaded(
                    (Change {
                        position: old(self)@.len() as usize,
                        removed: 0,
                        added: (final(self)@.len() - old(self)@.len()) as usize,
                    }),
                ),
            ),
    {
        self.is_loading = false;
        match result {
            Err(e) => Err(ChatHistoryError::Source(e)),
            Ok(page) => match self.append(page) {
                None => Ok(LoadOutcome::Exhausted),
                Some(c) => Ok(LoadOutcome::Loaded(c)),
            },
        }
    }

    /// Adds `e` behind the rows of `items`, with the divider its day calls for.
    fn push_back_item(&mut self, e: HistoryEntry, Ghost(items): Ghost<Seq<EntryView>>)
        requires
            old(self)@ == render(items),
            no_dividers(items),
            forall|i: int| 0 <= i < items.len() ==> valid_item(#[trigger] items[i]),
            valid_item(e@),
        ensures
            final(self)@ == render(items.push(e@)),
            final(self).is_loading == old(self).is_loading,
    {
        proof {
            lemma_render_shape(items);
            lemma_render_concat(items, seq![e@]);
            assert(items + seq![e@] =~= items.push(e@));
            lemma_render_small(seq![e@]);
        }
        let n = self.list.len();
        if n > 0 {
            assert(valid_item(items.last()));
            let last_day = day_of(&self.list[n - 1]);
            let day = day_of(&e);
            if last_day != day {
                self.list.push_back(HistoryEntry::DayDivider(last_day));
            }
        }
        self.list.push_back(e);
        assert(self@ =~= render(items.push(e@)));
    }
}

} // verus!
