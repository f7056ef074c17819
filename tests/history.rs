use chat_history::{
    Change, ChatHistoryError, ChatHistoryModel, Day, HistoryEntry, HistoryRequest, LoadOutcome,
    Message, SourceError,
};

fn day(d: i32) -> Day {
    Day { year: 2023, month: 5, day: d }
}

fn msg(id: i64, d: i32) -> Message {
    Message::new(id, 0, day(d))
}

fn album(id: i64, album_id: i64, d: i32) -> Message {
    Message::new(id, album_id, day(d))
}

fn rows(model: &ChatHistoryModel) -> Vec<HistoryEntry> {
    let mut out = Vec::new();
    let mut i = 0;
    while let Some(e) = model.item(i) {
        out.push(e.clone());
        i += 1;
    }
    assert_eq!(out.len(), model.n_items());
    out
}

fn all_ids(model: &ChatHistoryModel) -> Vec<i64> {
    let mut ids = Vec::new();
    for e in rows(model) {
        match e {
            HistoryEntry::Message(m) => ids.push(m.id),
            HistoryEntry::MediaGroup(ms) => ids.extend(ms.iter().map(|m| m.id)),
            HistoryEntry::DayDivider(_) => {}
        }
    }
    ids
}

fn day_of(e: &HistoryEntry) -> Day {
    match e {
        HistoryEntry::Message(m) => m.day,
        HistoryEntry::MediaGroup(ms) => ms[0].day,
        HistoryEntry::DayDivider(d) => *d,
    }
}

/// Checks the divider layout: no two dividers in a row, none at either end,
/// each one right after an item of its day and before an item of another.
fn assert_layout(model: &ChatHistoryModel) {
    let r = rows(model);
    for i in 0..r.len() {
        if r[i].is_day_divider() {
            assert!(i > 0 && i + 1 < r.len());
            assert!(!r[i - 1].is_day_divider());
            assert!(!r[i + 1].is_day_divider());
            assert_eq!(day_of(&r[i]), day_of(&r[i - 1]));
            assert_ne!(day_of(&r[i - 1]), day_of(&r[i + 1]));
        } else if i + 1 < r.len() && !r[i + 1].is_day_divider() {
            assert_eq!(day_of(&r[i]), day_of(&r[i + 1]));
        }
    }
}

fn three_messages() -> (ChatHistoryModel, Message, Message, Message) {
    let m3 = msg(3, 2);
    let m2 = msg(2, 1);
    let m1 = msg(1, 1);
    let mut model = ChatHistoryModel::new();
    let c = model.append(vec![m3, m2, m1]);
    assert_eq!(c, Some(Change { position: 0, removed: 0, added: 4 }));
    (model, m1, m2, m3)
}

#[test]
fn page_gets_divider_at_day_boundary() {
    let (model, m1, m2, m3) = three_messages();
    assert_eq!(
        rows(&model),
        vec![
            HistoryEntry::Message(m3),
            HistoryEntry::DayDivider(day(2)),
            HistoryEntry::Message(m2),
            HistoryEntry::Message(m1),
        ]
    );
}

#[test]
fn push_front_on_same_day_adds_one_row() {
    let (mut model, m1, m2, m3) = three_messages();
    let m4 = msg(4, 2);
    assert!(model.can_push_front(&m4));
    let c = model.push_front(m4);
    assert_eq!(c, Change { position: 0, removed: 0, added: 1 });
    assert_eq!(
        rows(&model),
        vec![
            HistoryEntry::Message(m4),
            HistoryEntry::Message(m3),
            HistoryEntry::DayDivider(day(2)),
            HistoryEntry::Message(m2),
            HistoryEntry::Message(m1),
        ]
    );
}

#[test]
fn remove_keeps_divider_while_day_has_messages() {
    let (mut model, m1, m2, _m3) = three_messages();
    let m4 = msg(4, 2);
    model.push_front(m4);
    let c = model.remove(3);
    assert_eq!(c, Some(Change { position: 1, removed: 1, added: 0 }));
    assert_eq!(
        rows(&model),
        vec![
            HistoryEntry::Message(m4),
            HistoryEntry::DayDivider(day(2)),
            HistoryEntry::Message(m2),
            HistoryEntry::Message(m1),
        ]
    );
}

#[test]
fn album_shrinks_then_collapses() {
    let a1 = album(30, 7, 1);
    let a2 = album(29, 7, 1);
    let a3 = album(28, 7, 1);
    let mut model = ChatHistoryModel::new();
    model.append(vec![a1, a2, a3]);
    assert_eq!(rows(&model), vec![HistoryEntry::MediaGroup(vec![a1, a2, a3])]);
    let c = model.remove(29);
    assert_eq!(c, Some(Change { position: 0, removed: 1, added: 1 }));
    assert_eq!(rows(&model), vec![HistoryEntry::MediaGroup(vec![a1, a3])]);
    let c = model.remove(30);
    assert_eq!(c, Some(Change { position: 0, removed: 1, added: 1 }));
    assert_eq!(rows(&model), vec![HistoryEntry::Message(a3)]);
}

#[test]
fn second_load_while_loading_is_refused() {
    let (mut model, _m1, _m2, _m3) = three_messages();
    let first = model.begin_load_older(20);
    assert_eq!(first, Ok(HistoryRequest { from_message_id: 1, limit: 20 }));
    assert!(model.is_loading());
    let second = model.begin_load_older(20);
    assert_eq!(second, Err(ChatHistoryError::AlreadyLoading));
    assert!(model.is_loading());
    assert_eq!(model.n_items(), 4);
}

#[test]
fn load_appends_page_and_reports_more() {
    let (mut model, m1, _m2, _m3) = three_messages();
    model.begin_load_older(10).unwrap();
    let m0 = msg(0, 0);
    let page = vec![msg(-1, 1), msg(-2, 0)];
    assert!(model.can_append(&page));
    let r = model.finish_load_older(Ok(page));
    assert_eq!(r, Ok(LoadOutcome::Loaded(Change { position: 4, removed: 0, added: 3 })));
    assert!(!model.is_loading());
    let r = rows(&model);
    assert_eq!(r[3], HistoryEntry::Message(m1));
    assert_eq!(r[4], HistoryEntry::Message(msg(-1, 1)));
    assert_eq!(r[5], HistoryEntry::DayDivider(day(1)));
    assert_eq!(r[6], HistoryEntry::Message(msg(-2, 0)));
    assert_eq!(model.oldest_message_id(), -2);
    assert!(!model.can_append(&vec![m0]));
    assert_layout(&model);
}

#[test]
fn empty_page_means_exhausted() {
    let (mut model, _m1, _m2, _m3) = three_messages();
    model.begin_load_older(10).unwrap();
    let before = rows(&model);
    assert_eq!(model.finish_load_older(Ok(vec![])), Ok(LoadOutcome::Exhausted));
    assert!(!model.is_loading());
    assert_eq!(rows(&model), before);
}

#[test]
fn source_failure_leaves_rows_untouched() {
    let (mut model, _m1, _m2, _m3) = three_messages();
    model.begin_load_older(10).unwrap();
    let before = rows(&model);
    let err = SourceError { code: 500, message: "timeout".to_string() };
    let r = model.finish_load_older(Err(err.clone()));
    assert_eq!(r, Err(ChatHistoryError::Source(err)));
    assert!(!model.is_loading());
    assert_eq!(rows(&model), before);
    assert!(model.begin_load_older(10).is_ok());
}

#[test]
fn first_load_asks_without_cutoff() {
    let mut model = ChatHistoryModel::new();
    assert_eq!(model.oldest_message_id(), 0);
    assert_eq!(model.begin_load_older(50), Ok(HistoryRequest { from_message_id: 0, limit: 50 }));
}

#[test]
fn remove_twice_finds_nothing_the_second_time() {
    let (mut model, _m1, _m2, _m3) = three_messages();
    assert!(model.remove(2).is_some());
    let after = rows(&model);
    assert_eq!(model.remove(2), None);
    assert_eq!(rows(&model), after);
    assert!(!all_ids(&model).contains(&2));
}

#[test]
fn remove_unknown_id_changes_nothing() {
    let (mut model, _m1, _m2, _m3) = three_messages();
    let before = rows(&model);
    assert_eq!(model.remove(42), None);
    assert_eq!(model.remove(0), None);
    assert_eq!(rows(&model), before);
}

#[test]
fn removing_last_message_of_newest_day_drops_its_divider() {
    let (mut model, m1, m2, _m3) = three_messages();
    let c = model.remove(3);
    assert_eq!(c, Some(Change { position: 0, removed: 2, added: 0 }));
    assert_eq!(rows(&model), vec![HistoryEntry::Message(m2), HistoryEntry::Message(m1)]);
}

#[test]
fn removing_last_message_of_oldest_day_drops_its_divider() {
    let mut model = ChatHistoryModel::new();
    model.append(vec![msg(5, 3), msg(4, 3), msg(3, 2)]);
    let c = model.remove(3);
    assert_eq!(c, Some(Change { position: 2, removed: 2, added: 0 }));
    assert_eq!(
        rows(&model),
        vec![HistoryEntry::Message(msg(5, 3)), HistoryEntry::Message(msg(4, 3))]
    );
}

#[test]
fn removing_a_lone_day_between_two_others_keeps_one_divider() {
    let mut model = ChatHistoryModel::new();
    model.append(vec![msg(5, 3), msg(4, 2), msg(3, 1)]);
    assert_eq!(model.n_items(), 5);
    let c = model.remove(4);
    assert_eq!(c, Some(Change { position: 2, removed: 2, added: 0 }));
    assert_eq!(
        rows(&model),
        vec![
            HistoryEntry::Message(msg(5, 3)),
            HistoryEntry::DayDivider(day(3)),
            HistoryEntry::Message(msg(3, 1)),
        ]
    );
    assert_layout(&model);
}

#[test]
fn removing_the_only_message_empties_the_list() {
    let mut model = ChatHistoryModel::new();
    model.push_front(msg(9, 1));
    assert_eq!(model.remove(9), Some(Change { position: 0, removed: 1, added: 0 }));
    assert_eq!(model.n_items(), 0);
    assert_eq!(model.oldest_message_id(), 0);
}

#[test]
fn push_front_on_new_day_adds_divider() {
    let (mut model, _m1, _m2, m3) = three_messages();
    let c = model.push_front(msg(10, 3));
    assert_eq!(c, Change { position: 0, removed: 0, added: 2 });
    let r = rows(&model);
    assert_eq!(r[0], HistoryEntry::Message(msg(10, 3)));
    assert_eq!(r[1], HistoryEntry::DayDivider(day(3)));
    assert_eq!(r[2], HistoryEntry::Message(m3));
    assert_layout(&model);
}

#[test]
fn push_front_into_empty_list() {
    let mut model = ChatHistoryModel::new();
    let c = model.push_front(msg(1, 1));
    assert_eq!(c, Change { position: 0, removed: 0, added: 1 });
    assert_eq!(rows(&model), vec![HistoryEntry::Message(msg(1, 1))]);
}

#[test]
fn older_message_cannot_go_in_front() {
    let (model, _m1, _m2, _m3) = three_messages();
    assert!(!model.can_push_front(&msg(3, 2)));
    assert!(!model.can_push_front(&msg(0, 2)));
    assert!(model.can_push_front(&msg(4, 2)));
}

#[test]
fn unordered_or_overlapping_page_does_not_fit() {
    let (model, _m1, _m2, _m3) = three_messages();
    assert!(!model.can_append(&vec![msg(-3, 1), msg(-2, 1)]));
    assert!(!model.can_append(&vec![msg(1, 1)]));
    assert!(model.can_append(&vec![msg(-1, 1), msg(-5, 1)]));
    assert!(model.can_append(&vec![]));
}

#[test]
fn runs_of_albums_and_single_messages() {
    let mut model = ChatHistoryModel::new();
    let page = vec![
        msg(10, 1),
        album(9, 4, 1),
        album(8, 4, 1),
        album(7, 5, 1),
        msg(6, 1),
        msg(5, 1),
    ];
    let c = model.append(page);
    assert_eq!(c, Some(Change { position: 0, removed: 0, added: 5 }));
    assert_eq!(
        rows(&model),
        vec![
            HistoryEntry::Message(msg(10, 1)),
            HistoryEntry::MediaGroup(vec![album(9, 4, 1), album(8, 4, 1)]),
            HistoryEntry::Message(album(7, 5, 1)),
            HistoryEntry::Message(msg(6, 1)),
            HistoryEntry::Message(msg(5, 1)),
        ]
    );
}

#[test]
fn appending_empty_page_reports_nothing() {
    let (mut model, _m1, _m2, _m3) = three_messages();
    assert_eq!(model.append(vec![]), None);
    assert_eq!(model.n_items(), 4);
}

#[test]
fn album_losing_its_first_member_moves_to_next_day() {
    // An album sent across midnight counts from its newest message.
    let mut model = ChatHistoryModel::new();
    model.append(vec![msg(9, 2), album(8, 3, 2), album(7, 3, 1), msg(6, 1)]);
    assert_eq!(
        rows(&model),
        vec![
            HistoryEntry::Message(msg(9, 2)),
            HistoryEntry::MediaGroup(vec![album(8, 3, 2), album(7, 3, 1)]),
            HistoryEntry::DayDivider(day(2)),
            HistoryEntry::Message(msg(6, 1)),
        ]
    );
    let c = model.remove(8);
    assert_eq!(c, Some(Change { position: 1, removed: 2, added: 2 }));
    assert_eq!(
        rows(&model),
        vec![
            HistoryEntry::Message(msg(9, 2)),
            HistoryEntry::DayDivider(day(2)),
            HistoryEntry::Message(album(7, 3, 1)),
            HistoryEntry::Message(msg(6, 1)),
        ]
    );
    assert_layout(&model);
}

#[test]
fn layout_holds_through_a_sequence_of_edits() {
    let mut model = ChatHistoryModel::new();
    model.append(vec![msg(20, 5), album(19, 2, 5), album(18, 2, 5), msg(17, 4), msg(16, 3)]);
    assert_layout(&model);
    model.push_front(msg(21, 6));
    assert_layout(&model);
    model.append(vec![msg(15, 3), msg(14, 1)]);
    assert_layout(&model);
    model.remove(17);
    assert_layout(&model);
    model.remove(19);
    assert_layout(&model);
    model.remove(14);
    assert_layout(&model);
    model.remove(21);
    assert_layout(&model);
    let ids = all_ids(&model);
    assert_eq!(ids, vec![20, 18, 16, 15]);
}

#[test]
fn ids_stay_unique_and_descending() {
    let mut model = ChatHistoryModel::new();
    model.append(vec![msg(8, 2), album(7, 1, 2), album(6, 1, 2), album(5, 1, 1)]);
    model.append(vec![msg(3, 1), msg(2, 1)]);
    model.push_front(msg(9, 2));
    let ids = all_ids(&model);
    assert_eq!(ids, vec![9, 8, 7, 6, 5, 3, 2]);
    for w in ids.windows(2) {
        assert!(w[0] > w[1]);
    }
}

#[test]
fn item_out_of_range_is_none() {
    let (model, _m1, _m2, _m3) = three_messages();
    assert!(model.item(3).is_some());
    assert!(model.item(4).is_none());
}
