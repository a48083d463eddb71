use leech2::delta::Delta;
use leech2::keyed_map::{RecordMap, UpdateMap};
use leech2::state::{State, Table, TableMap};

fn make_key(key: &[&str]) -> Vec<String> {
    key.iter().map(|s| s.to_string()).collect()
}

fn make_table(rows: &[(&[&str], &[&str])]) -> Table {
    let mut records = RecordMap::new();
    for (key, value) in rows {
        records.insert(
            key.iter().map(|s| s.to_string()).collect(),
            value.iter().map(|s| s.to_string()).collect(),
        );
    }
    Table {
        fields: vec![],
        records,
    }
}

fn find_delta<'a>(deltas: &'a [Delta], name: &str) -> Option<&'a Delta> {
    deltas.iter().find(|delta| delta.table_name == name)
}

#[test]
fn test_no_previous_state_all_inserts() {
    let mut tables = TableMap::new();
    tables.insert(
        "users".to_string(),
        make_table(&[(&["1"], &["alice"]), (&["2"], &["bob"])]),
    );
    let current = State { tables };

    let deltas = Delta::compute(None, &current);

    assert_eq!(deltas.len(), 1);
    let delta = find_delta(&deltas, "users").unwrap();
    assert_eq!(delta.inserts.len(), 2);
    assert_eq!(delta.deletes.len(), 0);
    assert_eq!(delta.updates.len(), 0);
}

#[test]
fn test_table_only_in_previous_all_deletes() {
    let mut prev_tables = TableMap::new();
    prev_tables.insert(
        "old_table".to_string(),
        make_table(&[(&["1"], &["data1"]), (&["2"], &["data2"])]),
    );
    let previous = State {
        tables: prev_tables,
    };
    let current = State {
        tables: TableMap::new(),
    };

    let deltas = Delta::compute(Some(previous), &current);

    assert_eq!(deltas.len(), 1);
    let delta = find_delta(&deltas, "old_table").unwrap();
    assert_eq!(delta.inserts.len(), 0);
    assert_eq!(delta.deletes.len(), 2);
    assert_eq!(delta.updates.len(), 0);
}

#[test]
fn test_table_in_both_states_mixed_changes() {
    let mut previous_tables = TableMap::new();
    previous_tables.insert(
        "users".to_string(),
        make_table(&[
            (&["1"], &["alice"]),   // will be updated
            (&["2"], &["bob"]),     // will be deleted
            (&["3"], &["charlie"]), // unchanged
        ]),
    );
    let previous_state = State {
        tables: previous_tables,
    };

    let mut current_tables = TableMap::new();
    current_tables.insert(
        "users".to_string(),
        make_table(&[
            (&["1"], &["alice_updated"]), // update
            (&["3"], &["charlie"]),       // unchanged
            (&["4"], &["dave"]),          // insert
        ]),
    );
    let current_state = State {
        tables: current_tables,
    };

    let deltas = Delta::compute(Some(previous_state), &current_state);

    assert_eq!(deltas.len(), 1);
    let delta = find_delta(&deltas, "users").unwrap();

    // Key "4" is new -> insert
    assert_eq!(delta.inserts.len(), 1);
    assert!(delta.inserts.contains_key(&make_key(&["4"])));

    // Key "2" removed -> delete
    assert_eq!(delta.deletes.len(), 1);
    assert!(delta.deletes.contains_key(&make_key(&["2"])));

    // Key "1" changed value -> update
    // Key "3" has same value -> skipped
    assert_eq!(delta.updates.len(), 1);
    assert!(delta.updates.contains_key(&make_key(&["1"])));
}

#[test]
fn delta_test_multiple_tables() {
    let mut previous_tables = TableMap::new();
    previous_tables.insert("table_a".to_string(), make_table(&[(&["1"], &["a"])]));
    previous_tables.insert("table_b".to_string(), make_table(&[(&["1"], &["b"])]));
    let previous_state = State {
        tables: previous_tables,
    };

    let mut current_tables = TableMap::new();
    current_tables.insert("table_b".to_string(), make_table(&[(&["2"], &["b2"])]));
    current_tables.insert("table_c".to_string(), make_table(&[(&["1"], &["c"])]));
    let current_state = State {
        tables: current_tables,
    };

    let deltas = Delta::compute(Some(previous_state), &current_state);

    assert_eq!(deltas.len(), 3);

    // table_a: only in previous -> all deletes
    let delta_a = find_delta(&deltas, "table_a").unwrap();
    assert_eq!(delta_a.deletes.len(), 1);
    assert_eq!(delta_a.inserts.len(), 0);

    // table_b: in both -> key "1" deleted, key "2" inserted
    let delta_b = find_delta(&deltas, "table_b").unwrap();
    assert_eq!(delta_b.deletes.len(), 1);
    assert!(delta_b.deletes.contains_key(&make_key(&["1"])));
    assert_eq!(delta_b.inserts.len(), 1);
    assert!(delta_b.inserts.contains_key(&make_key(&["2"])));

    // table_c: only in current -> all inserts
    let delta_c = find_delta(&deltas, "table_c").unwrap();
    assert_eq!(delta_c.inserts.len(), 1);
    assert_eq!(delta_c.deletes.len(), 0);
}

#[test]
fn test_empty_states() {
    let previous_state = State {
        tables: TableMap::new(),
    };
    let current_state = State {
        tables: TableMap::new(),
    };

    let deltas = Delta::compute(Some(previous_state), &current_state);
    assert_eq!(deltas.len(), 0);
}

#[test]
fn test_unchanged_table_skipped() {
    let mut previous_tables = TableMap::new();
    previous_tables.insert(
        "unchanged".to_string(),
        make_table(&[(&["1"], &["alice"]), (&["2"], &["bob"])]),
    );
    previous_tables.insert(
        "changed".to_string(),
        make_table(&[(&["1"], &["old_value"])]),
    );
    let previous_state = State {
        tables: previous_tables,
    };

    let mut current_tables = TableMap::new();
    current_tables.insert(
        "unchanged".to_string(),
        make_table(&[(&["1"], &["alice"]), (&["2"], &["bob"])]),
    );
    current_tables.insert(
        "changed".to_string(),
        make_table(&[(&["1"], &["new_value"])]),
    );
    let current_state = State {
        tables: current_tables,
    };

    let deltas = Delta::compute(Some(previous_state), &current_state);

    // Only the changed table should have a delta
    assert_eq!(deltas.len(), 1);
    assert!(find_delta(&deltas, "changed").is_some());
    assert!(find_delta(&deltas, "unchanged").is_none());
}

#[test]
fn test_composite_key() {
    let mut previous_tables = TableMap::new();
    previous_tables.insert(
        "orders".to_string(),
        make_table(&[
            (&["user1", "order1"], &["100"]),
            (&["user1", "order2"], &["200"]),
        ]),
    );
    let previous_state = State {
        tables: previous_tables,
    };

    let mut current_tables = TableMap::new();
    current_tables.insert(
        "orders".to_string(),
        make_table(&[
            (&["user1", "order1"], &["150"]), // update
            (&["user2", "order1"], &["300"]), // insert (different user)
        ]),
    );
    let current_state = State {
        tables: current_tables,
    };

    let deltas = Delta::compute(Some(previous_state), &current_state);

    let delta = find_delta(&deltas, "orders").unwrap();
    assert_eq!(delta.inserts.len(), 1);
    assert!(delta.inserts.contains_key(&make_key(&["user2", "order1"])));
    assert_eq!(delta.deletes.len(), 1);
    assert!(delta.deletes.contains_key(&make_key(&["user1", "order2"])));
    assert_eq!(delta.updates.len(), 1);
    assert!(delta.updates.contains_key(&make_key(&["user1", "order1"])));
}

// ---- Merge tests ----

fn make_value(value: &[&str]) -> Vec<String> {
    value.iter().map(|s| s.to_string()).collect()
}

fn empty_delta() -> Delta {
    Delta {
        table_name: "t".to_string(),
        column_names: vec![],
        inserts: RecordMap::new(),
        deletes: RecordMap::new(),
        updates: UpdateMap::new(),
    }
}

// child insert, no parent → insert passes through
#[test]
fn test_merge_rule1_current_insert_only() {
    let mut parent_delta = empty_delta();
    let mut child_delta = empty_delta();
    child_delta
        .inserts
        .insert(make_key(&["3"]), make_value(&["Charlie"]));

    Delta::merge(&mut parent_delta, child_delta).unwrap();

    assert_eq!(parent_delta.inserts.len(), 1);
    assert_eq!(
        *parent_delta.inserts.get(&make_key(&["3"])).unwrap(),
        make_value(&["Charlie"])
    );
    assert!(parent_delta.deletes.is_empty());
    assert!(parent_delta.updates.is_empty());
}

// child delete, no parent → delete passes through
#[test]
fn test_merge_rule2_current_delete_only() {
    let mut parent_delta = empty_delta();
    let mut child_delta = empty_delta();
    child_delta
        .deletes
        .insert(make_key(&["2"]), make_value(&["Bob"]));

    Delta::merge(&mut parent_delta, child_delta).unwrap();

    assert_eq!(parent_delta.deletes.len(), 1);
    assert_eq!(
        *parent_delta.deletes.get(&make_key(&["2"])).unwrap(),
        make_value(&["Bob"])
    );
    assert!(parent_delta.inserts.is_empty());
    assert!(parent_delta.updates.is_empty());
}

// child update, no parent → update passes through
#[test]
fn test_merge_rule3_current_update_only() {
    let mut parent_delta = empty_delta();
    let mut child_delta = empty_delta();
    child_delta.updates.insert(
        make_key(&["1"]),
        (make_value(&["Alice"]), make_value(&["Alicia"])),
    );

    Delta::merge(&mut parent_delta, child_delta).unwrap();

    assert_eq!(parent_delta.updates.len(), 1);
    let (old_value, new_value) = parent_delta.updates.get(&make_key(&["1"])).unwrap();
    assert_eq!(old_value, &make_value(&["Alice"]));
    assert_eq!(new_value, &make_value(&["Alicia"]));
    assert!(parent_delta.inserts.is_empty());
    assert!(parent_delta.deletes.is_empty());
}

// parent insert, no child → insert stays
#[test]
fn test_merge_rule4_parent_insert_only() {
    let mut parent_delta = empty_delta();
    parent_delta
        .inserts
        .insert(make_key(&["3"]), make_value(&["Charlie"]));
    let child_delta = empty_delta();

    Delta::merge(&mut parent_delta, child_delta).unwrap();

    assert_eq!(parent_delta.inserts.len(), 1);
    assert_eq!(
        *parent_delta.inserts.get(&make_key(&["3"])).unwrap(),
        make_value(&["Charlie"])
    );
}

// insert in both → error
#[test]
fn test_merge_rule5_double_insert_error() {
    let mut parent_delta = empty_delta();
    parent_delta
        .inserts
        .insert(make_key(&["3"]), make_value(&["Charlie"]));
    let mut child_delta = empty_delta();
    child_delta
        .inserts
        .insert(make_key(&["3"]), make_value(&["Charles"]));

    let merged_delta = Delta::merge(&mut parent_delta, child_delta);
    assert!(merged_delta.is_err());
}

// insert then delete → cancels out
#[test]
fn test_merge_rule6_insert_then_delete_cancels() {
    let mut parent_delta = empty_delta();
    parent_delta
        .inserts
        .insert(make_key(&["3"]), make_value(&["Charlie"]));
    let mut child_delta = empty_delta();
    child_delta
        .deletes
        .insert(make_key(&["3"]), make_value(&["Charles"]));

    Delta::merge(&mut parent_delta, child_delta).unwrap();

    assert!(parent_delta.inserts.is_empty());
    assert!(parent_delta.deletes.is_empty());
    assert!(parent_delta.updates.is_empty());
}

// insert then update → insert with new value
#[test]
fn test_merge_rule7_insert_then_update() {
    let mut parent_delta = empty_delta();
    parent_delta
        .inserts
        .insert(make_key(&["3"]), make_value(&["Charlie"]));
    let mut child_delta = empty_delta();
    child_delta.updates.insert(
        make_key(&["3"]),
        (make_value(&["Charlie"]), make_value(&["Charles"])),
    );

    Delta::merge(&mut parent_delta, child_delta).unwrap();

    assert_eq!(parent_delta.inserts.len(), 1);
    assert_eq!(
        *parent_delta.inserts.get(&make_key(&["3"])).unwrap(),
        make_value(&["Charles"])
    );
    assert!(parent_delta.deletes.is_empty());
    assert!(parent_delta.updates.is_empty());
}

// parent delete, no current → delete stays
#[test]
fn test_merge_rule8_parent_delete_only() {
    let mut parent_delta = empty_delta();
    parent_delta
        .deletes
        .insert(make_key(&["2"]), make_value(&["Bob"]));
    let child_delta = empty_delta();

    Delta::merge(&mut parent_delta, child_delta).unwrap();

    assert_eq!(parent_delta.deletes.len(), 1);
    assert_eq!(
        *parent_delta.deletes.get(&make_key(&["2"])).unwrap(),
        make_value(&["Bob"])
    );
}

// delete then insert with same value → cancels out
#[test]
fn test_merge_rule9a_delete_then_insert_same_cancels() {
    let mut parent_delta = empty_delta();
    parent_delta
        .deletes
        .insert(make_key(&["2"]), make_value(&["Bob"]));
    let mut child_delta = empty_delta();
    child_delta
        .inserts
        .insert(make_key(&["2"]), make_value(&["Bob"]));

    Delta::merge(&mut parent_delta, child_delta).unwrap();

    assert!(parent_delta.inserts.is_empty());
    assert!(parent_delta.deletes.is_empty());
    assert!(parent_delta.updates.is_empty());
}

// delete then insert with different value → update
#[test]
fn test_merge_rule9b_delete_then_insert_different_becomes_update() {
    let mut parent_delta = empty_delta();
    parent_delta
        .deletes
        .insert(make_key(&["2"]), make_value(&["Bob"]));
    let mut child_delta = empty_delta();
    child_delta
        .inserts
        .insert(make_key(&["2"]), make_value(&["Robert"]));

    Delta::merge(&mut parent_delta, child_delta).unwrap();

    assert!(parent_delta.inserts.is_empty());
    assert!(parent_delta.deletes.is_empty());
    assert_eq!(parent_delta.updates.len(), 1);
    let (old_value, new_value) = parent_delta.updates.get(&make_key(&["2"])).unwrap();
    assert_eq!(old_value, &make_value(&["Bob"]));
    assert_eq!(new_value, &make_value(&["Robert"]));
}

// double delete → error
#[test]
fn test_merge_rule10_double_delete_error() {
    let mut parent_delta = empty_delta();
    parent_delta
        .deletes
        .insert(make_key(&["2"]), make_value(&["Bob"]));
    let mut current_child = empty_delta();
    current_child
        .deletes
        .insert(make_key(&["2"]), make_value(&["Bob"]));

    let merged_delta = Delta::merge(&mut parent_delta, current_child);
    assert!(merged_delta.is_err());
}

// delete then update → error
#[test]
fn test_merge_rule11_delete_then_update_error() {
    let mut parent_delta = empty_delta();
    parent_delta
        .deletes
        .insert(make_key(&["2"]), make_value(&["Bob"]));
    let mut child_delta = empty_delta();
    child_delta.updates.insert(
        make_key(&["2"]),
        (make_value(&["Bob"]), make_value(&["Robert"])),
    );

    let merged_delta = Delta::merge(&mut parent_delta, child_delta);
    assert!(merged_delta.is_err());
}

// parent update, no current → update stays
#[test]
fn test_merge_rule12_parent_update_only() {
    let mut parent_delta = empty_delta();
    parent_delta.updates.insert(
        make_key(&["1"]),
        (make_value(&["Alice"]), make_value(&["Alicia"])),
    );
    let child_delta = empty_delta();

    Delta::merge(&mut parent_delta, child_delta).unwrap();

    assert_eq!(parent_delta.updates.len(), 1);
    let (old_value, new_value) = parent_delta.updates.get(&make_key(&["1"])).unwrap();
    assert_eq!(old_value, &make_value(&["Alice"]));
    assert_eq!(new_value, &make_value(&["Alicia"]));
}

// update then insert → error
#[test]
fn test_merge_rule13_update_then_insert_error() {
    let mut parent_delta = empty_delta();
    parent_delta.updates.insert(
        make_key(&["1"]),
        (make_value(&["Alice"]), make_value(&["Alicia"])),
    );
    let mut child_delta = empty_delta();
    child_delta
        .inserts
        .insert(make_key(&["1"]), make_value(&["Alice"]));

    let merged_delta = Delta::merge(&mut parent_delta, child_delta);
    assert!(merged_delta.is_err());
}

// update then delete with matching value → delete(old)
#[test]
fn test_merge_rule14a_update_then_delete_matching() {
    let mut parent_delta = empty_delta();
    parent_delta.updates.insert(
        make_key(&["1"]),
        (make_value(&["Alice"]), make_value(&["Alicia"])),
    );
    let mut child_delta = empty_delta();
    child_delta
        .deletes
        .insert(make_key(&["1"]), make_value(&["Alicia"]));

    Delta::merge(&mut parent_delta, child_delta).unwrap();

    assert!(parent_delta.inserts.is_empty());
    assert!(parent_delta.updates.is_empty());
    assert_eq!(parent_delta.deletes.len(), 1);
    assert_eq!(
        *parent_delta.deletes.get(&make_key(&["1"])).unwrap(),
        make_value(&["Alice"])
    );
}

// update then delete with mismatched value → error
#[test]
fn test_merge_rule14b_update_then_delete_mismatch_error() {
    let mut parent_delta = empty_delta();
    parent_delta.updates.insert(
        make_key(&["1"]),
        (make_value(&["Alice"]), make_value(&["Alicia"])),
    );
    let mut child_delta = empty_delta();
    child_delta
        .deletes
        .insert(make_key(&["1"]), make_value(&["Alice"]));

    let merged_delta = Delta::merge(&mut parent_delta, child_delta);
    assert!(merged_delta.is_err());
}

// update then update → update(old1 → new2)
#[test]
fn test_merge_rule15_update_then_update() {
    let mut parent_delta = empty_delta();
    parent_delta.updates.insert(
        make_key(&["1"]),
        (make_value(&["Alice"]), make_value(&["Alicia"])),
    );
    let mut child_delta = empty_delta();
    child_delta.updates.insert(
        make_key(&["1"]),
        (make_value(&["Alicia"]), make_value(&["Ali"])),
    );

    Delta::merge(&mut parent_delta, child_delta).unwrap();

    assert_eq!(parent_delta.updates.len(), 1);
    let (old_value, new_value) = parent_delta.updates.get(&make_key(&["1"])).unwrap();
    assert_eq!(old_value, &make_value(&["Alice"]));
    assert_eq!(new_value, &make_value(&["Ali"]));
    assert!(parent_delta.inserts.is_empty());
    assert!(parent_delta.deletes.is_empty());
}

// Test merging with multiple keys exercising different rules simultaneously
#[test]
fn test_merge_multiple_keys_mixed_rules() {
    let mut parent_delta = empty_delta();
    parent_delta
        .inserts
        .insert(make_key(&["3"]), make_value(&["Charlie"])); // will be updated
    parent_delta
        .deletes
        .insert(make_key(&["2"]), make_value(&["Bob"])); // will be re-inserted different
    parent_delta.updates.insert(
        make_key(&["1"]),
        (make_value(&["Alice"]), make_value(&["Alicia"])),
    ); // will be updated again

    let mut current_delta = empty_delta();
    current_delta.updates.insert(
        make_key(&["3"]),
        (make_value(&["Charlie"]), make_value(&["Charles"])),
    ); 
    current_delta
        .inserts
        .insert(make_key(&["2"]), make_value(&["Robert"])); 
    current_delta.updates.insert(
        make_key(&["1"]),
        (make_value(&["Alicia"]), make_value(&["Ali"])),
    ); 
    current_delta
        .inserts
        .insert(make_key(&["4"]), make_value(&["Dave"])); 

    Delta::merge(&mut parent_delta, current_delta).unwrap();

    // insert(3, Charlie) + update(3, Charlie→Charles) = insert(3, Charles)
    assert_eq!(parent_delta.inserts.len(), 2);
    assert_eq!(
        *parent_delta.inserts.get(&make_key(&["3"])).unwrap(),
        make_value(&["Charles"])
    );
    // insert(4, Dave) passes through
    assert_eq!(
        *parent_delta.inserts.get(&make_key(&["4"])).unwrap(),
        make_value(&["Dave"])
    );

    // delete(2, Bob) + insert(2, Robert) = update(2, Bob→Robert)
    // update(1, Alice→Alicia) + update(1, Alicia→Ali) = update(1, Alice→Ali)
    assert_eq!(parent_delta.updates.len(), 2);
    let (old_value, new_value) = parent_delta.updates.get(&make_key(&["2"])).unwrap();
    assert_eq!(old_value, &make_value(&["Bob"]));
    assert_eq!(new_value, &make_value(&["Robert"]));
    let (old_value, new_value) = parent_delta.updates.get(&make_key(&["1"])).unwrap();
    assert_eq!(old_value, &make_value(&["Alice"]));
    assert_eq!(new_value, &make_value(&["Ali"]));

    assert!(parent_delta.deletes.is_empty());
}

// Merge with mismatched field names → error
#[test]
fn test_merge_field_mismatch_error() {
    let mut parent_delta = Delta {
        table_name: "t".to_string(),
        column_names: vec!["id".to_string(), "name".to_string()],
        inserts: RecordMap::new(),
        deletes: RecordMap::new(),
        updates: UpdateMap::new(),
    };
    let child_delta = Delta {
        table_name: "t".to_string(),
        column_names: vec!["id".to_string(), "email".to_string()],
        inserts: RecordMap::new(),
        deletes: RecordMap::new(),
        updates: UpdateMap::new(),
    };

    let merged_delta = Delta::merge(&mut parent_delta, child_delta);
    assert!(merged_delta.is_err());
    assert!(
        merged_delta
            .unwrap_err()
            .message()
            .contains("field mismatch"),
        "error should mention field mismatch"
    );
}

// Test merging with composite keys
#[test]
fn test_merge_composite_keys() {
    let mut parent_delta = empty_delta();
    parent_delta
        .inserts
        .insert(make_key(&["u1", "o1"]), make_value(&["100"]));
    let mut child_delta = empty_delta();
    child_delta.updates.insert(
        make_key(&["u1", "o1"]),
        (make_value(&["100"]), make_value(&["150"])),
    );

    Delta::merge(&mut parent_delta, child_delta).unwrap();

    assert_eq!(parent_delta.inserts.len(), 1);
    assert_eq!(
        *parent_delta.inserts.get(&make_key(&["u1", "o1"])).unwrap(),
        make_value(&["150"])
    );
    assert!(parent_delta.updates.is_empty());
}
