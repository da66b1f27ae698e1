use memory_state::data::{DataType, LookupResult, Record, Tag};
use memory_state::memory_state::MemoryState;

fn dt(i: i64) -> DataType {
    DataType::Int(i)
}

fn dts(s: &str) -> DataType {
    DataType::Text(s.to_string())
}

fn pos(row: Vec<DataType>) -> Record {
    Record::Positive(row)
}

fn neg(row: Vec<DataType>) -> Record {
    Record::Negative(row)
}

fn insert(state: &mut MemoryState, row: Vec<DataType>) {
    let mut batch = vec![pos(row)];
    state.process_records(&mut batch, 0, None);
}

fn found_rows(r: LookupResult) -> Vec<Vec<DataType>> {
    match r {
        LookupResult::Found(rows) => rows,
        LookupResult::Missing => unreachable!(),
    }
}

#[test]
fn memory_state_process_records() {
    let mut state = MemoryState::default();
    let records = vec![
        vec![dt(1), dts("A")],
        vec![dt(2), dts("B")],
        vec![dt(3), dts("C")],
        vec![dt(1), dts("A")],
    ];

    state.add_key(&vec![0], None);
    let mut batch = vec![
        pos(records[0].clone()),
        pos(records[1].clone()),
        pos(records[2].clone()),
    ];
    state.process_records(&mut batch, 0, None);
    let mut batch2 = vec![neg(records[3].clone())];
    state.process_records(&mut batch2, 0, None);

    // Make sure the first record has been deleted:
    let rows = found_rows(state.lookup(&vec![0], &vec![records[0][0].clone()]));
    assert_eq!(rows.len(), 0);

    // Then check that the rest exist:
    for record in &records[1..3] {
        let rows = found_rows(state.lookup(&vec![0], &vec![record[0].clone()]));
        assert_eq!(rows[0], *record);
    }
}

#[test]
fn memory_state_old_records_new_index() {
    let mut state = MemoryState::default();
    let row = vec![dt(10), dts("Cat")];
    state.add_key(&vec![0], None);
    insert(&mut state, row.clone());
    state.add_key(&vec![1], None);

    let rows = found_rows(state.lookup(&vec![1], &vec![row[1].clone()]));
    assert_eq!(rows[0], row);
}

#[test]
fn tagged_insert_visible_after_fill() {
    let mut state = MemoryState::default();
    state.add_key(&vec![0], Some(vec![Tag(7)]));
    assert!(state.is_partial());
    assert!(state.is_useful());

    // The key is a hole until it is marked filled.
    assert!(matches!(state.lookup(&vec![0], &vec![dt(5)]), LookupResult::Missing));

    state.mark_filled(vec![dt(5)], Tag(7));
    let hit = state.insert(vec![dt(5), dts("E")], Some(Tag(7)), 0);
    assert!(hit);
    let rows = found_rows(state.lookup(&vec![0], &vec![dt(5)]));
    assert_eq!(rows, vec![vec![dt(5), dts("E")]]);
}

#[test]
fn unknown_tag_insert_accepted() {
    let mut state = MemoryState::default();
    state.add_key(&vec![0], Some(vec![Tag(1)]));
    // A tag never registered: the insert is reported as accepted and nothing
    // is stored.
    let hit = state.insert(vec![dt(1), dts("A")], Some(Tag(99)), 0);
    assert!(hit);
    assert_eq!(state.rows(), 0);
    assert_eq!(state.deep_size_of(), 0);
}

#[test]
fn partial_record_dropped() {
    let mut state = MemoryState::default();
    state.add_key(&vec![0], Some(vec![Tag(3)]));

    // An untagged record for an unfilled key is dropped from the batch.
    let mut batch = vec![pos(vec![dt(4), dts("D")])];
    state.process_records(&mut batch, 0, None);
    assert_eq!(batch.len(), 0);
    assert!(matches!(state.lookup(&vec![0], &vec![dt(4)]), LookupResult::Missing));

    // After the key is filled, a tagged record for it is retained.
    state.mark_filled(vec![dt(4)], Tag(3));
    let mut batch2 = vec![pos(vec![dt(4), dts("D")])];
    state.process_records(&mut batch2, 0, Some(Tag(3)));
    assert_eq!(batch2.len(), 1);
    let rows = found_rows(state.lookup(&vec![0], &vec![dt(4)]));
    assert_eq!(rows, vec![vec![dt(4), dts("D")]]);
}

#[test]
fn remove_nonexistent_no_hit() {
    let mut state = MemoryState::default();
    state.add_key(&vec![0], None);
    let hit = state.remove(&vec![dt(8), dts("Z")], 0);
    assert!(!hit);
    let rows = found_rows(state.lookup(&vec![0], &vec![dt(8)]));
    assert_eq!(rows.len(), 0);
}

#[test]
fn mem_estimate_round_trip() {
    let mut state = MemoryState::default();
    state.add_key(&vec![0], Some(vec![Tag(2)]));
    assert_eq!(state.deep_size_of(), 0);

    state.mark_filled(vec![dt(10)], Tag(2));
    let hit = state.insert(vec![dt(10), dts("Cat")], Some(Tag(2)), 0);
    assert!(hit);
    // One scalar of 16 bytes, one text scalar of 16 + 3 bytes, and the fixed
    // 16-byte version header: 51 bytes charged in all.
    assert_eq!(state.deep_size_of(), 51);

    state.mark_hole(&vec![dt(10)], Tag(2));
    assert_eq!(state.deep_size_of(), 0);
    assert_eq!(state.rows(), 0);
}

#[test]
fn clear_resets() {
    let mut state = MemoryState::default();
    state.add_key(&vec![0], None);
    state.add_key(&vec![1], None);
    insert(&mut state, vec![dt(1), dts("A")]);
    insert(&mut state, vec![dt(2), dts("B")]);
    assert_eq!(state.rows(), 4);
    let keys_before = state.keys();

    state.clear();
    assert_eq!(state.rows(), 0);
    assert_eq!(state.deep_size_of(), 0);
    assert_eq!(state.keys(), keys_before);
    assert_eq!(keys_before, vec![vec![0], vec![1]]);
}

#[test]
fn cloned_records_dumps_first_index() {
    let mut state = MemoryState::default();
    state.add_key(&vec![0], None);
    insert(&mut state, vec![dt(1), dts("A")]);
    insert(&mut state, vec![dt(2), dts("B")]);
    let all = state.cloned_records();
    assert_eq!(all, vec![vec![dt(1), dts("A")], vec![dt(2), dts("B")]]);
}

#[test]
fn evict_random_keys_stays_in_bounds() {
    let mut state = MemoryState::default();
    state.add_key(&vec![0], None);
    insert(&mut state, vec![dt(1), dts("A")]);
    insert(&mut state, vec![dt(2), dts("B")]);
    insert(&mut state, vec![dt(3), dts("C")]);

    // The store has exactly one index, so the random draw must land on it.
    let (cols, keys, _freed) = state.evict_random_keys(2);
    assert_eq!(cols, vec![0]);
    assert_eq!(keys.len(), 2);
    assert_eq!(state.rows(), 1);

    // Evicting more than remains stops at empty and the estimate never
    // underflows.
    let (_, keys2, _) = state.evict_random_keys(10);
    assert_eq!(keys2.len(), 1);
    assert_eq!(state.rows(), 0);
    let _ = state.deep_size_of();
}

#[test]
fn unknown_tag_mark_noop() {
    let mut state = MemoryState::default();
    state.add_key(&vec![0], Some(vec![Tag(2)]));
    state.mark_filled(vec![dt(1)], Tag(2));
    let hit = state.insert(vec![dt(1), dts("A")], Some(Tag(2)), 0);
    assert!(hit);
    let mem_before = state.deep_size_of();
    let keys_before = state.keys();

    // Marking under a tag that was never registered is a silent no-op.
    state.mark_filled(vec![dt(9)], Tag(42));
    state.mark_hole(&vec![dt(1)], Tag(42));
    assert_eq!(state.deep_size_of(), mem_before);
    assert_eq!(state.keys(), keys_before);
    assert_eq!(state.rows(), 1);
    let rows = found_rows(state.lookup(&vec![0], &vec![dt(1)]));
    assert_eq!(rows, vec![vec![dt(1), dts("A")]]);
}

#[test]
fn evict_keys_unknown_tag_noop() {
    let mut state = MemoryState::default();
    state.add_key(&vec![0], Some(vec![Tag(1)]));
    let r = state.evict_keys(Tag(42), &vec![vec![dt(1)]]);
    assert!(r.is_none());

    state.mark_filled(vec![dt(1)], Tag(1));
    let hit = state.insert(vec![dt(1), dts("A")], Some(Tag(1)), 0);
    assert!(hit);
    let r2 = state.evict_keys(Tag(1), &vec![vec![dt(1)]]);
    let (cols, freed) = r2.unwrap();
    assert_eq!(cols, vec![0]);
    // One 16-byte scalar, a one-character text scalar of 17 bytes, and the
    // 16-byte version header.
    assert_eq!(freed, 49);
    assert_eq!(state.rows(), 0);
    assert_eq!(state.deep_size_of(), 0);
}

#[test]
fn lookup_at_respects_timestamps() {
    let mut state = MemoryState::default();
    state.add_key(&vec![0], None);
    let mut batch = vec![pos(vec![dt(1), dts("A")])];
    state.process_records(&mut batch, 5, None);
    let mut batch2 = vec![pos(vec![dt(1), dts("B")])];
    state.process_records(&mut batch2, 9, None);

    let early = found_rows(state.lookup_at(&vec![0], &vec![dt(1)], Some(7)));
    assert_eq!(early, vec![vec![dt(1), dts("A")]]);
    let late = found_rows(state.lookup_at(&vec![0], &vec![dt(1)], Some(9)));
    assert_eq!(late.len(), 2);
    let all = found_rows(state.lookup_at(&vec![0], &vec![dt(1)], None));
    assert_eq!(all.len(), 2);
}

#[test]
fn full_indices_agree_after_updates() {
    let mut state = MemoryState::default();
    state.add_key(&vec![0], None);
    insert(&mut state, vec![dt(1), dts("A")]);
    state.add_key(&vec![1], None);
    insert(&mut state, vec![dt(2), dts("B")]);

    // Both indices see both rows, each under its own key.
    for (k0, k1) in [(dt(1), dts("A")), (dt(2), dts("B"))] {
        let by0 = found_rows(state.lookup(&vec![0], &vec![k0.clone()]));
        let by1 = found_rows(state.lookup(&vec![1], &vec![k1.clone()]));
        assert_eq!(by0, by1);
        assert_eq!(by0.len(), 1);
    }
}
