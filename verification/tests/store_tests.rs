use optriage::error::EngineError;
use optriage::operation::NewOperation;
use optriage::state::OpState;
use optriage::store::Store;

fn new_op(date: &str, details: &str, amount: i32, hash: &str) -> NewOperation {
    NewOperation {
        operation_date: date.to_string(),
        op_type: "card".to_string(),
        type_display: "Card payment".to_string(),
        details: details.to_string(),
        amount_in_cents: amount,
        hash: hash.to_string(),
        ignored_from_charts: false,
        bank_account_id: 1,
    }
}

#[test]
fn insert_assigns_consecutive_ids_and_settled_state() {
    let mut store = Store::new();
    let count = store
        .insert_batch(vec![
            new_op("2024-01-01", "first", -100, "a"),
            new_op("2024-01-02", "second", -200, "b"),
        ])
        .unwrap();
    assert_eq!(count, 2);
    let first = store.get_by_id(1).unwrap();
    assert_eq!(first.details, "first");
    assert_eq!(first.state, OpState::Settled);
    assert_eq!(first.tags_ids, Vec::<u32>::new());
    let second = store.get_by_id(2).unwrap();
    assert_eq!(second.id, 2);
    assert_eq!(second.amount_in_cents, -200);
}

#[test]
fn colliding_pair_both_enter_triage_and_edit_resolves_one() {
    let mut store = Store::new();
    store
        .insert_batch(vec![
            new_op("2024-02-01", "coffee", -350, "h1"),
            new_op("2024-02-01", "coffee again", -350, "h1"),
        ])
        .unwrap();
    let moved = store.refresh_statuses_with_hashes();
    assert_eq!(moved, 2);
    assert_eq!(store.get_by_id(1).unwrap().state, OpState::PendingTriage);
    assert_eq!(store.get_by_id(2).unwrap().state, OpState::PendingTriage);

    store.update_details(1, "coffee, checked".to_string()).unwrap();
    let edited = store.get_by_id(1).unwrap();
    assert_eq!(edited.state, OpState::Settled);
    assert_eq!(edited.details, "coffee, checked");
    assert_eq!(store.get_by_id(2).unwrap().state, OpState::PendingTriage);
}

#[test]
fn unique_hash_is_left_untouched() {
    let mut store = Store::new();
    store
        .insert_batch(vec![
            new_op("2024-03-01", "rent", -90000, "h2"),
            new_op("2024-03-02", "groceries", -4200, "other"),
        ])
        .unwrap();
    let moved = store.refresh_statuses_with_hashes();
    assert_eq!(moved, 0);
    assert_eq!(store.get_by_id(1).unwrap().state, OpState::Settled);
    assert_eq!(store.get_by_id(2).unwrap().state, OpState::Settled);
}

#[test]
fn second_detection_run_moves_nothing() {
    let mut store = Store::new();
    store
        .insert_batch(vec![
            new_op("2024-02-01", "one", -1, "dup"),
            new_op("2024-02-02", "two", -2, "dup"),
            new_op("2024-02-03", "three", -3, "solo"),
        ])
        .unwrap();
    assert_eq!(store.refresh_statuses_with_hashes(), 2);
    assert_eq!(store.refresh_statuses_with_hashes(), 0);
}

#[test]
fn resolution_is_unconditional_even_while_collision_persists() {
    let mut store = Store::new();
    store
        .insert_batch(vec![
            new_op("2024-02-01", "a", -1, "dup"),
            new_op("2024-02-02", "b", -2, "dup"),
        ])
        .unwrap();
    store.refresh_statuses_with_hashes();
    store.update_details(2, "b, confirmed distinct".to_string()).unwrap();
    assert_eq!(store.get_by_id(2).unwrap().state, OpState::Settled);
    // a fresh pass flags it again, since the collision still exists
    assert_eq!(store.refresh_statuses_with_hashes(), 1);
    assert_eq!(store.get_by_id(2).unwrap().state, OpState::PendingTriage);
}

#[test]
fn find_all_is_sorted_date_descending_ties_by_insertion() {
    let mut store = Store::new();
    store
        .insert_batch(vec![
            new_op("2024-01-15", "mid jan", -1, "a"),
            new_op("2024-07-09", "jul", -2, "b"),
            new_op("2024-03-01", "mar", -3, "c"),
            new_op("2024-07-09", "jul bis", -4, "d"),
        ])
        .unwrap();
    let all = store.find_all();
    let dates: Vec<String> = all.iter().map(|o| o.operation_date.clone()).collect();
    assert_eq!(dates, vec!["2024-07-09", "2024-07-09", "2024-03-01", "2024-01-15"]);
    // the two 2024-07-09 records keep insertion order: id 2 before id 4
    assert_eq!(all[0].id, 2);
    assert_eq!(all[1].id, 4);
}

#[test]
fn find_triage_holds_only_triage_sorted_details_descending() {
    let mut store = Store::new();
    store
        .insert_batch(vec![
            new_op("2024-01-01", "bravo", -1, "x"),
            new_op("2024-01-02", "alpha", -2, "x"),
            new_op("2024-01-03", "charlie", -3, "x"),
            new_op("2024-01-04", "settled one", -4, "unique"),
        ])
        .unwrap();
    store.refresh_statuses_with_hashes();
    let triage = store.find_triage();
    let details: Vec<String> = triage.iter().map(|o| o.details.clone()).collect();
    assert_eq!(details, vec!["charlie", "bravo", "alpha"]);
    for op in &triage {
        assert_eq!(op.state, OpState::PendingTriage);
    }
}

#[test]
fn find_all_excludes_deleted_records() {
    let mut store = Store::new();
    store
        .insert_batch(vec![
            new_op("2024-01-01", "keep", -1, "a"),
            new_op("2024-01-02", "drop", -2, "b"),
        ])
        .unwrap();
    store.delete(2).unwrap();
    let all = store.find_all();
    assert_eq!(all.len(), 1);
    assert_eq!(all[0].id, 1);
}

#[test]
fn deleting_one_member_leaves_survivor_in_triage() {
    let mut store = Store::new();
    store
        .insert_batch(vec![
            new_op("2024-01-01", "dup a", -1, "h"),
            new_op("2024-01-02", "dup b", -2, "h"),
        ])
        .unwrap();
    store.refresh_statuses_with_hashes();
    store.delete(1).unwrap();
    // detection is import-triggered; the survivor stays flagged until edited
    assert_eq!(store.get_by_id(2).unwrap().state, OpState::PendingTriage);
}

#[test]
fn missing_ids_give_not_found() {
    let mut store = Store::new();
    store.insert_batch(vec![new_op("2024-01-01", "only", -1, "a")]).unwrap();
    assert_eq!(store.get_by_id(7).unwrap_err(), EngineError::NotFound);
    assert_eq!(store.update_details(7, "x".to_string()).unwrap_err(), EngineError::NotFound);
    assert_eq!(store.delete(7).unwrap_err(), EngineError::NotFound);
    // deletion is not idempotent: a second delete of the same id errors
    store.delete(1).unwrap();
    assert_eq!(store.delete(1).unwrap_err(), EngineError::NotFound);
}

#[test]
fn attach_tags_unions_without_duplicates() {
    let mut store = Store::new();
    store.insert_batch(vec![new_op("2024-01-01", "tagged", -1, "a")]).unwrap();
    store.attach_tags(1, &vec![10, 20]).unwrap();
    store.attach_tags(1, &vec![20, 30, 30]).unwrap();
    assert_eq!(store.get_by_id(1).unwrap().tags_ids, vec![10, 20, 30]);
    assert_eq!(store.attach_tags(9, &vec![1]).unwrap_err(), EngineError::NotFound);
}

#[test]
fn state_text_codec_round_trips() {
    assert_eq!(OpState::Settled.encode(), "Ok");
    assert_eq!(OpState::PendingTriage.encode(), "PendingTriage");
    assert_eq!(OpState::decode("Ok"), Some(OpState::Settled));
    assert_eq!(OpState::decode("PendingTriage"), Some(OpState::PendingTriage));
    assert_eq!(OpState::decode("pending"), None);
    assert_eq!(OpState::decode(""), None);
}

fn persisted_op(id: u32, state: OpState, tags_ids: Vec<u32>) -> optriage::operation::Operation {
    optriage::operation::Operation {
        id,
        operation_date: "2024-01-01".to_string(),
        op_type: "card".to_string(),
        type_display: "Card payment".to_string(),
        details: format!("op {}", id),
        amount_in_cents: -100,
        hash: format!("h{}", id),
        state,
        ignored_from_charts: false,
        bank_account_id: 1,
        tags_ids,
    }
}

#[test]
fn restore_accepts_consistent_rows_and_keeps_states() {
    let rows = vec![
        persisted_op(1, OpState::Settled, vec![10, 20]),
        persisted_op(3, OpState::PendingTriage, vec![]),
    ];
    let store = Store::restore(rows, 4).unwrap();
    assert_eq!(store.get_by_id(1).unwrap().tags_ids, vec![10, 20]);
    assert_eq!(store.get_by_id(3).unwrap().state, OpState::PendingTriage);
    assert_eq!(store.get_by_id(2).unwrap_err(), EngineError::NotFound);
}

#[test]
fn restore_rejects_inconsistent_rows() {
    // ids out of order
    let rows = vec![
        persisted_op(2, OpState::Settled, vec![]),
        persisted_op(1, OpState::Settled, vec![]),
    ];
    assert_eq!(Store::restore(rows, 3).unwrap_err(), EngineError::StorageFailure);
    // an id at or above the next free id
    let rows = vec![persisted_op(5, OpState::Settled, vec![])];
    assert_eq!(Store::restore(rows, 5).unwrap_err(), EngineError::StorageFailure);
    // duplicate tags on one record
    let rows = vec![persisted_op(1, OpState::Settled, vec![7, 7])];
    assert_eq!(Store::restore(rows, 2).unwrap_err(), EngineError::StorageFailure);
}
