use itertools::Itertools;
use vstd::prelude::*;

use crate::entry::EntryView;
use crate::message::Message;

verus! {

/// The maximal runs of consecutive messages that share an album id, in
/// page order.
pub open spec fn album_runs(page: Seq<Message>) -> Seq<Seq<Message>>
    decreases page.len(),
{
    if page.len() == 0 {
        Seq::empty()
    } else {
        let rest = album_runs(page.drop_first());
        if rest.len() > 0 && rest[0][0].album_id == page[0].album_id {
            rest.update(0, seq![page[0]] + rest[0])
        } else {
            seq![seq![page[0]]] + rest
        }
    }
}

/// The entries a run of messages becomes: one album group when it holds two
/// or more messages of a real album, else one entry per message.
pub open spec fn run_entries(run: Seq<Message>) -> Seq<EntryView> {
    if run.len() >= 2 && run[0].album_id != 0 {
        seq![EntryView::MediaGroup(run)]
    } else {
        run.map_values(|m: Message| EntryView::Message(m))
    }
}

/// The entries a sequence of runs becomes, in order.
pub open spec fn runs_entries(runs: Seq<Seq<Message>>) -> Seq<EntryView>
    decreases runs.len(),
{
    if runs.len() == 0 {
        Seq::empty()
    } else {
        runs_entries(runs.drop_last()) + run_entries(runs.last())
    }
}

/// The entries that a page of messages, newest first, is laid out as.
pub open spec fn page_entries(page: Seq<Message>) -> Seq<EntryView> {
    runs_entries(album_runs(page))
}

/// The runs of a page cover the page in order; each is non-empty and holds
/// one album id.
pub proof fn lemma_album_runs(page: Seq<Message>)
    ensures
        album_runs(page).flatten() == page,
        forall|j: int| 0 <= j < album_runs(page).len() ==> (#[trigger] album_runs(page)[j]).len() > 0,
        forall|j: int, t: int|
            0 <= j < album_runs(page).len() && 0 <= t < album_runs(page)[j].len()
                ==> (#[trigger] album_runs(page)[j][t]).album_id == album_runs(page)[j][0].album_id,
    decreases page.len(),
{
    if page.len() > 0 {
        let rest = album_runs(page.drop_first());
        lemma_album_runs(page.drop_first());
        let rs = album_runs(page);
        if rest.len() > 0 && rest[0][0].album_id == page[0].album_id {
            assert(rs.drop_first() =~= rest.drop_first());
            assert(rest.flatten() == rest[0] + rest.drop_first().flatten());
            assert(rs.flatten() == rs[0] + rs.drop_first().flatten());
            assert(rs[0] == seq![page[0]] + rest[0]);
            assert(rs.flatten() =~= seq![page[0]] + rest.flatten());
            assert(rs.flatten() =~= page);
            assert forall|j: int, t: int|
                0 <= j < rs.len() && 0 <= t < rs[j].len() implies (#[trigger] rs[j][t]).album_id
                == rs[j][0].album_id by {
                if j == 0 && t > 0 {
                    assert(rs[0][t] == rest[0][t - 1]);
                }
            }
        } else {
            assert(rs.drop_first() =~= rest);
            assert(rs.flatten() == rs[0] + rs.drop_first().flatten());
            assert(rs.flatten() =~= page);
            assert forall|j: int, t: int|
                0 <= j < rs.len() && 0 <= t < rs[j].len() implies (#[trigger] rs[j][t]).album_id
                == rs[j][0].album_id by {
                if j > 0 {
                    assert(rs[j] == rest[j - 1]);
                }
            }
        }
    }
}

/// Relies on itertools' `Itertools::group_by`: consecutive messages that
/// map to the same album id are assigned to the same group, and the groups
/// come in order.
#[verifier::external_body]
pub(crate) fn album_runs_of(messages: Vec<Message>) -> (runs: Vec<Vec<Message>>)
    ensures
        runs@.map_values(|r: Vec<Message>| r@) == album_runs(messages@),
{
    let grouped = messages.into_iter().group_by(|m| m.album_id);
    let runs = grouped.into_iter().map(|(_, run)| run.collect()).collect();
    runs
}

} // verus!
