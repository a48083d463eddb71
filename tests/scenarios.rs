use leech2::block::{Block, Timestamp};
use leech2::config::{Config, FieldConfig, TableConfig};
use leech2::delta::Delta;
use leech2::digest::{block_bytes_match, compute_hash};
use leech2::error::{Error, MergeRule};
use leech2::keyed_map::{RecordMap, UpdateMap};
use leech2::patch::{
    absorb, choose_payload, expand_sparse, fallback, genesis_hash, resolve_hash_prefix, sparse_update, to_patch_delta,
    walk_step, Patch, Payload, WalkStep, WireUpdate,
};
use leech2::sql::patch_to_sql;
use leech2::state::{State, Table, TableMap};
use leech2::truncate::{orphans, removal_plan, stale_locks, ChainEntry};
use leech2::utils::{format_row, indent};
use leech2::wire::{frame_patch, unframe_patch};

fn strs(v: &[&str]) -> Vec<String> {
    v.iter().map(|s| s.to_string()).collect()
}

fn table(fields: &[&str], rows: &[(&[&str], &[&str])]) -> Table {
    let mut records = RecordMap::new();
    for (k, v) in rows {
        records.insert(strs(k), strs(v));
    }
    Table { fields: strs(fields), records }
}

fn state(tables: Vec<(&str, Table)>) -> State {
    let mut m = TableMap::new();
    for (name, t) in tables {
        m.insert(name.to_string(), t);
    }
    State { tables: m }
}

fn field(name: &str, ty: &str, pk: bool) -> FieldConfig {
    FieldConfig { name: name.to_string(), field_type: ty.to_string(), primary_key: pk, format: None }
}

fn config(tables: Vec<(&str, Vec<FieldConfig>)>) -> Config {
    Config {
        work_dir: "/tmp/w".to_string(),
        compression: true,
        compression_level: 0,
        tables: tables
            .into_iter()
            .map(|(n, fields)| {
                (n.to_string(), TableConfig { source: format!("{}.csv", n), header: false, fields })
            })
            .collect(),
        truncate: None,
    }
}

fn delta(name: &str, columns: &[&str]) -> Delta {
    Delta {
        table_name: name.to_string(),
        column_names: strs(columns),
        inserts: RecordMap::new(),
        deletes: RecordMap::new(),
        updates: UpdateMap::new(),
    }
}

fn deltas_patch(deltas: Vec<Delta>) -> Patch {
    Patch {
        head_hash: "h".to_string(),
        head_created: None,
        num_blocks: 1,
        payload: Some(Payload::Deltas(deltas.into_iter().map(to_patch_delta).collect())),
    }
}

#[test]
fn genesis_block_two_rows_renders_inserts() {
    let s = state(vec![("users", table(&["id", "name"], &[(&["1"], &["Alice"]), (&["2"], &["Bob"])]))]);
    let deltas = Delta::compute(None, &s);
    assert_eq!(deltas.len(), 1);
    let cfg = config(vec![("users", vec![field("id", "INTEGER", true), field("name", "TEXT", false)])]);
    let sql = patch_to_sql(&deltas_patch(deltas), &cfg).unwrap().unwrap();
    assert!(sql.starts_with("BEGIN;\n"));
    assert!(sql.ends_with("COMMIT;\n"));
    assert!(sql.contains("INSERT INTO \"users\" (\"id\", \"name\") VALUES (1, 'Alice');\n"));
    assert!(sql.contains("INSERT INTO \"users\" (\"id\", \"name\") VALUES (2, 'Bob');\n"));
    assert_eq!(sql.matches("INSERT INTO").count(), 2);
}

#[test]
fn composite_key_delete_update_insert() {
    let cols = ["student_id", "course_id", "grade"];
    let b1 = state(vec![(
        "enrollments",
        table(&cols, &[(&["1", "101"], &["A"]), (&["1", "102"], &["B"]), (&["2", "101"], &["C"])]),
    )]);
    let b2 = state(vec![(
        "enrollments",
        table(&cols, &[(&["1", "101"], &["A+"]), (&["2", "101"], &["C"]), (&["2", "103"], &["B"])]),
    )]);
    let deltas = Delta::compute(Some(b1), &b2);
    let cfg = config(vec![(
        "enrollments",
        vec![field("student_id", "INTEGER", true), field("course_id", "INTEGER", true), field("grade", "TEXT", false)],
    )]);
    let sql = patch_to_sql(&deltas_patch(deltas), &cfg).unwrap().unwrap();
    assert!(sql.contains("DELETE FROM \"enrollments\" WHERE \"student_id\" = 1 AND \"course_id\" = 102;"));
    assert!(sql.contains("INSERT INTO \"enrollments\" (\"student_id\", \"course_id\", \"grade\") VALUES (2, 103, 'B');"));
    assert!(sql.contains("UPDATE \"enrollments\" SET \"grade\" = 'A+' WHERE \"student_id\" = 1 AND \"course_id\" = 101;"));
    assert_eq!(sql.lines().count(), 5);
}

#[test]
fn full_state_renders_truncate_and_inserts() {
    let s = state(vec![("items", table(&["id", "name"], &[(&["1"], &["x"])]))]);
    let cfg = config(vec![("items", vec![field("id", "INTEGER", true), field("name", "TEXT", false)])]);
    let p = Patch { head_hash: "h".to_string(), head_created: None, num_blocks: 0, payload: Some(Payload::State(s)) };
    let sql = patch_to_sql(&p, &cfg).unwrap().unwrap();
    assert_eq!(sql, "BEGIN;\nTRUNCATE \"items\";\nINSERT INTO \"items\" (\"id\", \"name\") VALUES (1, 'x');\nCOMMIT;\n");
    let empty = Patch { head_hash: "h".to_string(), head_created: None, num_blocks: 0, payload: None };
    assert!(patch_to_sql(&empty, &cfg).unwrap().is_none());
    let unknown = config(vec![]);
    assert!(patch_to_sql(&p, &unknown).is_err());
}

#[test]
fn invalid_literal_is_an_error() {
    let s = state(vec![("items", table(&["id", "name"], &[(&["one"], &["x"])]))]);
    let cfg = config(vec![("items", vec![field("id", "INTEGER", true), field("name", "TEXT", false)])]);
    assert!(patch_to_sql(&deltas_patch(Delta::compute(None, &s)), &cfg).is_err());
}

#[test]
fn delete_then_insert_other_value_becomes_update() {
    let mut parent = delta("t", &[]);
    parent.deletes.insert(strs(&["k"]), strs(&["Bob"]));
    let mut child = delta("t", &[]);
    child.inserts.insert(strs(&["k"]), strs(&["Robert"]));
    Delta::merge(&mut parent, child).unwrap();
    assert!(parent.inserts.is_empty());
    assert!(parent.deletes.is_empty());
    let (o, n) = parent.updates.get(&strs(&["k"])).unwrap();
    assert_eq!(o, &strs(&["Bob"]));
    assert_eq!(n, &strs(&["Robert"]));
}

#[test]
fn conflicts_name_their_rule() {
    let cases: Vec<(fn(&mut Delta), fn(&mut Delta), MergeRule)> = vec![
        (|d| { d.inserts.insert(strs(&["1"]), strs(&["a"])); }, |d| { d.inserts.insert(strs(&["1"]), strs(&["b"])); }, MergeRule::DoubleInsert),
        (|d| { d.deletes.insert(strs(&["1"]), strs(&["a"])); }, |d| { d.deletes.insert(strs(&["1"]), strs(&["a"])); }, MergeRule::DoubleDelete),
        (|d| { d.deletes.insert(strs(&["1"]), strs(&["a"])); }, |d| { d.updates.insert(strs(&["1"]), (strs(&["a"]), strs(&["b"]))); }, MergeRule::UpdateAfterDelete),
        (|d| { d.updates.insert(strs(&["1"]), (strs(&["a"]), strs(&["b"]))); }, |d| { d.inserts.insert(strs(&["1"]), strs(&["a"])); }, MergeRule::InsertAfterUpdate),
        (|d| { d.updates.insert(strs(&["1"]), (strs(&["a"]), strs(&["b"]))); }, |d| { d.deletes.insert(strs(&["1"]), strs(&["a"])); }, MergeRule::DeleteMismatch),
    ];
    for (fill_parent, fill_child, expected) in cases {
        let mut parent = delta("t", &[]);
        fill_parent(&mut parent);
        let mut child = delta("t", &[]);
        fill_child(&mut child);
        match Delta::merge(&mut parent, child) {
            Err(Error::MergeConflict { table, key, rule }) => {
                assert_eq!(table, "t");
                assert_eq!(key, strs(&["1"]));
                assert_eq!(rule, expected);
            }
            other => panic!("unexpected {:?}", other),
        }
    }
}

#[test]
fn update_then_update_keeps_first_old_per_column() {
    let mut parent = delta("t", &["id", "a", "b"]);
    parent.updates.insert(strs(&["1"]), (strs(&["x", "p"]), strs(&["y", "p"])));
    let mut child = delta("t", &["id", "a", "b"]);
    child.updates.insert(strs(&["1"]), (strs(&["", "p"]), strs(&["", "q"])));
    Delta::merge(&mut parent, child).unwrap();
    let (o, n) = parent.updates.get(&strs(&["1"])).unwrap();
    assert_eq!(o, &strs(&["x", "p"]));
    assert_eq!(n, &strs(&["y", "q"]));
}

#[test]
fn merge_with_empty_is_identity() {
    let mut d = delta("t", &["id", "v"]);
    d.inserts.insert(strs(&["1"]), strs(&["a"]));
    d.deletes.insert(strs(&["2"]), strs(&["b"]));
    d.updates.insert(strs(&["3"]), (strs(&["c"]), strs(&["d"])));
    let mut left = delta("t", &["id", "v"]);
    left.inserts.insert(strs(&["1"]), strs(&["a"]));
    left.deletes.insert(strs(&["2"]), strs(&["b"]));
    left.updates.insert(strs(&["3"]), (strs(&["c"]), strs(&["d"])));
    Delta::merge(&mut left, delta("t", &["id", "v"])).unwrap();
    let mut right = delta("t", &["id", "v"]);
    Delta::merge(&mut right, d).unwrap();
    for m in [&left, &right] {
        assert_eq!(m.inserts.get(&strs(&["1"])), Some(&strs(&["a"])));
        assert_eq!(m.deletes.get(&strs(&["2"])), Some(&strs(&["b"])));
        assert_eq!(m.updates.get(&strs(&["3"])), Some(&(strs(&["c"]), strs(&["d"]))));
        assert_eq!(m.inserts.len() + m.deletes.len() + m.updates.len(), 3);
    }
}

#[test]
fn merged_deltas_apply_like_the_chain() {
    let s0 = state(vec![("t", table(&["id", "v"], &[(&["1"], &["a"]), (&["2"], &["b"])]))]);
    let s1 = state(vec![("t", table(&["id", "v"], &[(&["1"], &["a2"]), (&["3"], &["c"])]))]);
    let s2 = state(vec![("t", table(&["id", "v"], &[(&["2"], &["b"]), (&["3"], &["c2"])]))]);
    let s0_copy = state(vec![("t", table(&["id", "v"], &[(&["1"], &["a"]), (&["2"], &["b"])]))]);
    let s1_copy = state(vec![("t", table(&["id", "v"], &[(&["1"], &["a2"]), (&["3"], &["c"])]))]);
    let mut d1 = Delta::compute(Some(s0_copy), &s1).pop().unwrap();
    let d2 = Delta::compute(Some(s1_copy), &s2).pop().unwrap();
    Delta::merge(&mut d1, d2).unwrap();
    let direct = Delta::compute(Some(s0), &s2).pop().unwrap();
    for k in [&["1"], &["2"], &["3"]] {
        let k = strs(k);
        assert_eq!(d1.inserts.get(&k), direct.inserts.get(&k));
        assert_eq!(d1.deletes.get(&k), direct.deletes.get(&k));
        assert_eq!(d1.updates.get(&k), direct.updates.get(&k));
    }
}

#[test]
fn same_state_gives_no_delta() {
    let a = state(vec![("t", table(&["id", "v"], &[(&["1"], &["a"])])), ("u", table(&["id"], &[]))]);
    let b = state(vec![("t", table(&["id", "v"], &[(&["1"], &["a"])])), ("u", table(&["id"], &[]))]);
    assert!(Delta::compute(Some(a), &b).is_empty());
}

#[test]
fn sparse_update_round_trip() {
    let old = strs(&["Alice", "a@ex.com"]);
    let new = strs(&["Alice", "a@new.com"]);
    let (indices, values) = sparse_update(&old, &new);
    assert_eq!(indices, vec![1]);
    assert_eq!(values, strs(&["a@new.com"]));
    assert_eq!(expand_sparse(&indices, &values, 2), strs(&["", "a@new.com"]));
    assert_eq!(expand_sparse(&vec![], &strs(&["p", "q"]), 2), strs(&["p", "q"]));
}

#[test]
fn patch_delta_drops_delete_values_and_sparsifies() {
    let mut d = delta("users", &["id", "name", "email"]);
    d.deletes.insert(strs(&["2"]), strs(&["Bob", "b@ex.com"]));
    d.updates.insert(strs(&["1"]), (strs(&["Alice", "a@ex.com"]), strs(&["Alice", "a@new.com"])));
    let p = to_patch_delta(d);
    assert_eq!(p.deletes, vec![strs(&["2"])]);
    assert_eq!(p.updates.len(), 1);
    assert_eq!(p.updates[0].changed_indices, vec![1]);
    assert_eq!(p.updates[0].new_value, strs(&["a@new.com"]));
    let cfg = config(vec![(
        "users",
        vec![field("id", "INTEGER", true), field("name", "TEXT", false), field("email", "TEXT", false)],
    )]);
    let patch = Patch { head_hash: "h".to_string(), head_created: None, num_blocks: 1, payload: Some(Payload::Deltas(vec![p])) };
    let sql = patch_to_sql(&patch, &cfg).unwrap().unwrap();
    assert_eq!(
        sql,
        "BEGIN;\nDELETE FROM \"users\" WHERE \"id\" = 2;\nUPDATE \"users\" SET \"email\" = 'a@new.com' WHERE \"id\" = 1;\nCOMMIT;\n"
    );
}

#[test]
fn framing_round_trip_with_compression() {
    let raw: Vec<u8> = (0..200u32).map(|i| (i % 7) as u8).collect();
    let framed = frame_patch(raw.clone(), true, 3).unwrap();
    assert_eq!(&framed[..4], &[0x28, 0xB5, 0x2F, 0xFD]);
    assert_ne!(framed, raw);
    assert_eq!(unframe_patch(framed).unwrap(), raw);
    let plain = frame_patch(raw.clone(), false, 3).unwrap();
    assert_eq!(plain, raw);
    assert_eq!(unframe_patch(plain).unwrap(), raw);
}

#[test]
fn test_decode_invalid_zstd() {
    let mut data = vec![0x28, 0xB5, 0x2F, 0xFD];
    data.extend_from_slice(b"not valid zstd content");
    assert!(unframe_patch(data).is_err());
}

#[test]
fn digest_is_lowercase_sha1_hex() {
    assert_eq!(compute_hash(b"abc"), "a9993e364706816aba3e25717850c26c9cd0d89d");
    assert_eq!(compute_hash(b""), "da39a3ee5e6b4b0d3255bfef95601890afd80709");
    assert!(block_bytes_match(&"a9993e364706816aba3e25717850c26c9cd0d89d".to_string(), &b"abc".to_vec()));
    assert!(!block_bytes_match(&"a9993e364706816aba3e25717850c26c9cd0d89d".to_string(), &b"abd".to_vec()));
}

#[test]
fn hash_prefix_resolution() {
    let names = vec![
        "a9993e364706816aba3e25717850c26c9cd0d89d".to_string(),
        "a9f3e364706816aba3e25717850c26c9cd0d89d0".to_string(),
        "HEAD".to_string(),
        "STATE".to_string(),
    ];
    assert_eq!(
        resolve_hash_prefix(&"a99".to_string(), &names).unwrap(),
        "a9993e364706816aba3e25717850c26c9cd0d89d"
    );
    assert!(matches!(resolve_hash_prefix(&"a9".to_string(), &names), Err(Error::AmbiguousRef { .. })));
    assert!(matches!(resolve_hash_prefix(&"deadbeefdeadbeef".to_string(), &names), Err(Error::UnknownRef(_))));
    assert_eq!(resolve_hash_prefix(&"0000".to_string(), &names).unwrap(), genesis_hash());
}

#[test]
fn truncation_plan() {
    let chain: Vec<ChainEntry> = (0..4)
        .map(|i| ChainEntry { hash: format!("h{}", i), created: Some(100 - i as i64 * 10) })
        .collect();
    assert_eq!(removal_plan(&chain, None, Some(2), None), vec![2, 3]);
    assert_eq!(removal_plan(&chain, Some(&"h1".to_string()), None, None), vec![2, 3]);
    assert_eq!(removal_plan(&chain, None, None, Some(85)), vec![2, 3]);
    assert_eq!(removal_plan(&chain, None, Some(1), None), vec![1, 2, 3]);
    assert_eq!(removal_plan(&chain, None, None, None), Vec::<usize>::new());
}

#[test]
fn walk_and_absorb() {
    let g = genesis_hash();
    assert!(matches!(walk_step(&"abc123".to_string(), &"abc".to_string()), WalkStep::Done));
    assert!(matches!(walk_step(&g, &"ff".to_string()), WalkStep::NotInChain));
    assert!(matches!(walk_step(&g, &g), WalkStep::Done));
    match walk_step(&"abc123".to_string(), &"ff".to_string()) {
        WalkStep::Load(h) => assert_eq!(h, "abc123"),
        _ => panic!("expected a load"),
    }
    let s0 = state(vec![("t", table(&["id", "v"], &[(&["1"], &["a"])]))]);
    let s1 = state(vec![("t", table(&["id", "v"], &[(&["1"], &["b"])]))]);
    let s1b = state(vec![("t", table(&["id", "v"], &[(&["1"], &["b"])]))]);
    let s2 = state(vec![("t", table(&["id", "v"], &[(&["1"], &["c"])])), ("u", table(&["id"], &[(&["9"], &[])]))]);
    let ts = Timestamp { seconds: 1700000000, nanos: 0 };
    let older = Block::create(Some(s0), &s1, g.clone(), ts);
    let newer = Block::create(Some(s1b), &s2, "p".to_string(), ts);
    let (merged, next) = absorb(older, newer).unwrap();
    assert_eq!(next, g);
    assert_eq!(merged.parent, g);
    assert_eq!(merged.payload.len(), 2);
    let t = &merged.payload[0];
    assert_eq!(t.updates.get(&strs(&["1"])), Some(&(strs(&["a"]), strs(&["c"]))));
    assert_eq!(merged.payload[1].table_name, "u");
}

#[test]
fn payload_choice_prefers_smaller_state() {
    let s = state(vec![]);
    assert!(matches!(choose_payload(vec![], 10, Some(s), 5), Payload::State(_)));
    let s = state(vec![]);
    assert!(matches!(choose_payload(vec![], 5, Some(s), 5), Payload::Deltas(_)));
    assert!(matches!(choose_payload(vec![], 5, None, 0), Payload::Deltas(_)));
}

#[test]
fn schema_mismatch_message() {
    let mut a = delta("t", &["id", "name"]);
    let b = delta("t", &["id", "email"]);
    let e = Delta::merge(&mut a, b).unwrap_err();
    assert_eq!(e.message(), "cannot merge deltas for table 't': field mismatch");
}

#[test]
fn row_display_helpers() {
    assert_eq!(format_row(&strs(&["a", "b"])), "[a, b]");
    assert_eq!(format_row(&vec![]), "[]");
    assert_eq!(indent("x\ny\nz", "  "), "x\n  y\n  z");
}

#[test]
fn rows_become_a_table_with_key_columns_first() {
    let tc = TableConfig {
        source: "t.csv".to_string(),
        header: false,
        fields: vec![field("name", "TEXT", false), field("id", "INTEGER", true)],
    };
    let rows = vec![strs(&["Alice", "1"]), strs(&["Bob", "2"]), strs(&["Alicia", "1"])];
    let t = Table::from_rows(&"t".to_string(), &tc, rows).unwrap();
    assert_eq!(t.fields, strs(&["id", "name"]));
    assert_eq!(t.records.len(), 2);
    assert_eq!(t.records.get(&strs(&["1"])), Some(&strs(&["Alicia"])));
    match Table::from_rows(&"t".to_string(), &tc, vec![strs(&["a", "1"]), strs(&["b"])]) {
        Err(Error::RowArityMismatch { table, row, got, expected }) => {
            assert_eq!((table.as_str(), row, got, expected), ("t", 2, 1, 2));
        }
        _ => panic!("expected an arity error"),
    }
}

#[test]
fn config_validation() {
    let mut cfg = config(vec![("users", vec![field("id", "INTEGER", true), field("name", "TEXT", false)])]);
    assert!(cfg.validate().is_ok());
    cfg.truncate = Some(leech2::config::TruncateConfig { max_blocks: Some(0), max_age: None });
    assert!(cfg.validate().unwrap_err().contains("max-blocks"));
    cfg.truncate = Some(leech2::config::TruncateConfig { max_blocks: Some(2), max_age: Some("3x".to_string()) });
    assert!(cfg.validate().unwrap_err().contains("max-age"));
    let no_pk = config(vec![("users", vec![field("id", "INTEGER", false)])]);
    assert!(no_pk.validate().unwrap_err().contains("primary-key"));
    let dup = config(vec![("users", vec![field("id", "INTEGER", true), field("id", "TEXT", false)])]);
    assert!(dup.validate().unwrap_err().contains("duplicate field name"));
}

#[test]
fn merge_groupings_apply_alike() {
    let states = || {
        vec![
            state(vec![("t", table(&["id", "v"], &[(&["1"], &["a"]), (&["2"], &["b"])]))]),
            state(vec![("t", table(&["id", "v"], &[(&["2"], &["c"])]))]),
            state(vec![("t", table(&["id", "v"], &[(&["1"], &["d"]), (&["2"], &["c"])]))]),
            state(vec![("t", table(&["id", "v"], &[(&["1"], &["a"]), (&["3"], &["e"])]))]),
        ]
    };
    let deltas = || {
        let s = states();
        let mut s2 = states();
        (0..3)
            .map(|i| Delta::compute(Some(s2.remove(0)), &s[i + 1]).pop().unwrap())
            .collect::<Vec<_>>()
    };
    let mut left = deltas();
    let c = left.pop().unwrap();
    let b = left.pop().unwrap();
    let mut ab = left.pop().unwrap();
    Delta::merge(&mut ab, b).unwrap();
    Delta::merge(&mut ab, c).unwrap();
    let mut right = deltas();
    let c = right.pop().unwrap();
    let mut bc = right.pop().unwrap();
    let mut a = right.pop().unwrap();
    Delta::merge(&mut bc, c).unwrap();
    Delta::merge(&mut a, bc).unwrap();
    let start = states().remove(0);
    let base = &start.tables.get(&"t".to_string()).unwrap().records;
    for k in [&["1"], &["2"], &["3"]] {
        let k = strs(k);
        let applied = |d: &Delta| -> Option<Vec<String>> {
            if d.deletes.contains_key(&k) {
                return None;
            }
            if let Some(v) = d.inserts.get(&k) {
                return Some(v.clone());
            }
            if let Some((_, n)) = d.updates.get(&k) {
                return Some(n.clone());
            }
            base.get(&k).cloned()
        };
        assert_eq!(applied(&ab), applied(&a));
    }
    assert!(ab.updates.get(&strs(&["1"])).is_none());
    assert!(a.updates.get(&strs(&["1"])).is_none());
}

#[test]
fn stored_deltas_read_back() {
    let cols = strs(&["id", "name", "email"]);
    let d = Delta::from_wire(
        "users".to_string(),
        cols.clone(),
        vec![(strs(&["3"]), strs(&["Carol", "c@ex.com"]))],
        vec![(strs(&["2"]), vec![])],
        vec![WireUpdate {
            key: strs(&["1"]),
            changed_indices: vec![1],
            old_value: vec![],
            new_value: strs(&["a@new.com"]),
        }],
    )
    .unwrap();
    assert_eq!(d.updates.get(&strs(&["1"])), Some(&(strs(&["", ""]), strs(&["", "a@new.com"]))));
    assert_eq!(d.deletes.get(&strs(&["2"])), Some(&vec![]));
    let repeated = Delta::from_wire(
        "users".to_string(),
        cols.clone(),
        vec![(strs(&["3"]), strs(&["a", "b"])), (strs(&["3"]), strs(&["c", "d"]))],
        vec![],
        vec![],
    );
    assert!(matches!(repeated, Err(Error::Corrupt { .. })));
    let twice = Delta::from_wire(
        "users".to_string(),
        cols.clone(),
        vec![(strs(&["3"]), strs(&["a", "b"]))],
        vec![(strs(&["3"]), strs(&["a", "b"]))],
        vec![],
    );
    assert!(matches!(twice, Err(Error::Corrupt { .. })));
    let out_of_range = Delta::from_wire(
        "users".to_string(),
        cols,
        vec![],
        vec![],
        vec![WireUpdate { key: strs(&["1"]), changed_indices: vec![2], old_value: vec![], new_value: strs(&["x"]) }],
    );
    assert!(matches!(out_of_range, Err(Error::Corrupt { .. })));
}

#[test]
fn orphans_and_stale_locks() {
    let a = "aa00000000000000000000000000000000000000".to_string();
    let b = "bb00000000000000000000000000000000000000".to_string();
    let names = vec![
        a.clone(),
        b.clone(),
        "HEAD".to_string(),
        format!(".{}.lock", a),
        ".cc00000000000000000000000000000000000000.lock".to_string(),
        ".HEAD.lock".to_string(),
    ];
    assert_eq!(orphans(&names, &vec![b.clone()]), vec![a.clone()]);
    assert_eq!(stale_locks(&names), vec![".cc00000000000000000000000000000000000000.lock".to_string()]);
}

#[test]
fn missing_block_falls_back_to_full_state() {
    let s = state(vec![("t", table(&["id"], &[(&["1"], &[])]))]);
    match fallback(Error::NotFound("b2".to_string()), Some(s)) {
        Ok(Payload::State(st)) => assert_eq!(st.tables.len(), 1),
        _ => panic!("expected the full state"),
    }
    let s = state(vec![]);
    assert!(matches!(fallback(Error::UnknownRef("x".to_string()), Some(s)), Err(Error::UnknownRef(_))));
    assert!(matches!(fallback(Error::NotFound("b2".to_string()), None), Err(Error::NotFound(_))));
}

#[test]
fn update_undone_by_child_leaves_no_change() {
    let mut parent = delta("t", &["id", "v"]);
    parent.updates.insert(strs(&["1"]), (strs(&["a"]), strs(&["b"])));
    let mut child = delta("t", &["id", "v"]);
    child.updates.insert(strs(&["1"]), (strs(&["b"]), strs(&["a"])));
    Delta::merge(&mut parent, child).unwrap();
    assert!(parent.updates.is_empty());
    assert!(parent.inserts.is_empty());
    assert!(parent.deletes.is_empty());
}

#[test]
fn merge_refuses_another_table() {
    let mut parent = delta("t", &["id"]);
    parent.inserts.insert(strs(&["1"]), vec![]);
    let child = delta("u", &["id"]);
    match Delta::merge(&mut parent, child) {
        Err(Error::SchemaMismatch(t)) => assert_eq!(t, "t"),
        other => panic!("unexpected {:?}", other),
    }
    assert_eq!(parent.inserts.len(), 1);
}

#[test]
fn empty_table_only_in_previous_state_is_deleted() {
    let prev = state(vec![("gone", table(&["id"], &[])), ("t", table(&["id"], &[]))]);
    let cur = state(vec![("t", table(&["id"], &[]))]);
    let deltas = Delta::compute(Some(prev), &cur);
    assert_eq!(deltas.len(), 1);
    assert_eq!(deltas[0].table_name, "gone");
    assert!(deltas[0].deletes.is_empty());
}

#[test]
fn chosen_payload_carries_what_was_given() {
    let s = state(vec![("t", table(&["id"], &[(&["1"], &[])]))]);
    match choose_payload(vec![], 10, Some(s), 5) {
        Payload::State(st) => assert_eq!(st.tables.len(), 1),
        _ => panic!("expected the state"),
    }
    let d = to_patch_delta(delta("t", &["id"]));
    match choose_payload(vec![d], 1, None, 0) {
        Payload::Deltas(ds) => assert_eq!(ds[0].table_name, "t"),
        _ => panic!("expected the deltas"),
    }
}

#[test]
fn delta_parts_round_trip() {
    let mut d = delta("users", &["id", "name"]);
    d.inserts.insert(strs(&["1"]), strs(&["a"]));
    d.deletes.insert(strs(&["2"]), strs(&["b"]));
    d.updates.insert(strs(&["3"]), (strs(&["c"]), strs(&["d"])));
    let (ins, dels, ups) = d.to_wire();
    let back = Delta::from_wire(d.table_name.clone(), d.column_names.clone(), ins, dels, ups).unwrap();
    assert_eq!(back.inserts.get(&strs(&["1"])), Some(&strs(&["a"])));
    assert_eq!(back.deletes.get(&strs(&["2"])), Some(&strs(&["b"])));
    assert_eq!(back.updates.get(&strs(&["3"])), Some(&(strs(&["c"]), strs(&["d"]))));
    assert_eq!(back.inserts.len() + back.deletes.len() + back.updates.len(), 3);
}
