use tinystore::error::ErrorKind;
use tinystore::planner::ColumnBound;
use tinystore::range::Bound;
use tinystore::schema::{Column, ValueType};
use tinystore::table::{IndexSchema, TableIndex, TableSchema};
use tinystore::txn::TransactionId;
use tinystore::value::Value;

fn txid(ts: u128) -> TransactionId {
    TransactionId::with_nonce(ts, 0)
}

fn people() -> TableIndex {
    TableIndex::create(&TableSchema {
        key: vec![Column::new("id", ValueType::U64, None)],
        values: vec![Column::new("name", ValueType::Str, Some(16))],
        indices: vec![IndexSchema { name: "by_name".to_string(), columns: vec!["name".to_string()] }],
    })
    .unwrap()
}

fn row(id: u64, name: &str) -> Vec<Value> {
    vec![Value::from_u64(id), Value::from_text(name)]
}

fn name_is(name: &str) -> Vec<(String, ColumnBound)> {
    vec![("name".to_string(), ColumnBound::Is(Value::from_text(name)))]
}

#[test]
fn auxiliary_index_scenario() {
    let t = txid(1);
    let mut table = people();
    table.insert(&t, &vec![Value::from_u64(1)], &vec![Value::from_text("amy")]).unwrap();
    table.insert(&t, &vec![Value::from_u64(2)], &vec![Value::from_text("bob")]).unwrap();
    table.insert(&t, &vec![Value::from_u64(3)], &vec![Value::from_text("amy")]).unwrap();

    let amy = table.slice(&name_is("amy")).unwrap();
    // the plan serves the bound from the auxiliary index
    assert_eq!(amy.plan.len(), 1);
    assert_eq!(amy.plan[0].index, 1);
    assert_eq!(table.stream_slice(&t, &amy), vec![row(1, "amy"), row(3, "amy")]);

    let zed = table.slice(&name_is("zed")).unwrap();
    assert!(table.stream_slice(&t, &zed).is_empty());

    table.upsert(&t, &vec![Value::from_u64(2)], &vec![Value::from_text("amy")]).unwrap();
    let amy = table.slice(&name_is("amy")).unwrap();
    assert_eq!(
        table.stream_slice(&t, &amy),
        vec![row(1, "amy"), row(2, "amy"), row(3, "amy")]
    );
    assert_eq!(table.count(&t), 3);
}

#[test]
fn upsert_twice_keeps_the_second_row() {
    let t = txid(1);
    let mut table = people();
    let key = vec![Value::from_u64(9)];
    table.upsert(&t, &key, &vec![Value::from_text("v1")]).unwrap();
    table.upsert(&t, &key, &vec![Value::from_text("v2")]).unwrap();
    assert_eq!(table.get(&t, &key).unwrap(), Some(row(9, "v2")));
    assert_eq!(table.count(&t), 1);
    // the auxiliary index no longer holds the first row
    let v1 = table.slice(&name_is("v1")).unwrap();
    assert!(table.stream_slice(&t, &v1).is_empty());
}

#[test]
fn duplicate_insert_is_a_bad_request() {
    let t = txid(1);
    let mut table = people();
    table.insert(&t, &vec![Value::from_u64(1)], &vec![Value::from_text("amy")]).unwrap();
    let e = table.insert(&t, &vec![Value::from_u64(1)], &vec![Value::from_text("bob")]).unwrap_err();
    assert_eq!(e.kind, ErrorKind::BadRequest);
    assert_eq!(table.get(&t, &vec![Value::from_u64(1)]).unwrap(), Some(row(1, "amy")));
}

#[test]
fn invalid_rows_are_bad_requests() {
    let t = txid(1);
    let mut table = people();
    let e = table.insert(&t, &vec![Value::from_text("x")], &vec![Value::from_text("amy")]).unwrap_err();
    assert_eq!(e.kind, ErrorKind::BadRequest);
    let long = "a name longer than sixteen bytes";
    let e = table.upsert(&t, &vec![Value::from_u64(1)], &vec![Value::from_text(long)]).unwrap_err();
    assert_eq!(e.kind, ErrorKind::BadRequest);
}

#[test]
fn delete_row_and_truncate() {
    let t = txid(1);
    let mut table = people();
    table.insert(&t, &vec![Value::from_u64(1)], &vec![Value::from_text("amy")]).unwrap();
    table.insert(&t, &vec![Value::from_u64(2)], &vec![Value::from_text("bob")]).unwrap();
    table.delete_row(&t, &row(1, "amy")).unwrap();
    assert_eq!(table.stream(&t), vec![row(2, "bob")]);
    let amy = table.slice(&name_is("amy")).unwrap();
    assert!(table.stream_slice(&t, &amy).is_empty());
    table.delete(&t).unwrap();
    assert!(table.is_empty(&t));
}

#[test]
fn table_commit_and_conflict() {
    let t1 = txid(1);
    let t2 = txid(2);
    let mut table = people();
    table.insert(&t1, &vec![Value::from_u64(1)], &vec![Value::from_text("amy")]).unwrap();
    let e = table.insert(&t2, &vec![Value::from_u64(2)], &vec![Value::from_text("bob")]).unwrap_err();
    assert_eq!(e.kind, ErrorKind::Conflict);
    assert!(table.is_empty(&t2));
    table.commit(&t1);
    assert_eq!(table.count(&t2), 1);
}

#[test]
fn schema_validation() {
    let reserved = TableIndex::create(&TableSchema {
        key: vec![Column::new("id", ValueType::U64, None)],
        values: vec![],
        indices: vec![IndexSchema { name: "primary".to_string(), columns: vec!["id".to_string()] }],
    });
    assert_eq!(reserved.err().unwrap().kind, ErrorKind::BadRequest);
    let missing = TableIndex::create(&TableSchema {
        key: vec![Column::new("id", ValueType::U64, None)],
        values: vec![],
        indices: vec![IndexSchema { name: "x".to_string(), columns: vec!["nope".to_string()] }],
    });
    assert_eq!(missing.err().unwrap().kind, ErrorKind::NotFound);
    let repeated = TableIndex::create(&TableSchema {
        key: vec![Column::new("id", ValueType::U64, None)],
        values: vec![],
        indices: vec![IndexSchema {
            name: "x".to_string(),
            columns: vec!["id".to_string(), "id".to_string()],
        }],
    });
    assert_eq!(repeated.err().unwrap().kind, ErrorKind::BadRequest);
}

fn events() -> TableIndex {
    TableIndex::create(&TableSchema {
        key: vec![Column::new("user_id", ValueType::U64, None)],
        values: vec![
            Column::new("created_at", ValueType::U64, None),
            Column::new("note", ValueType::Str, Some(8)),
        ],
        indices: vec![IndexSchema {
            name: "by_created".to_string(),
            columns: vec!["created_at".to_string()],
        }],
    })
    .unwrap()
}

fn event(user: u64, at: u64, note: &str) -> Vec<Value> {
    vec![Value::from_u64(user), Value::from_u64(at), Value::from_text(note)]
}

#[test]
fn query_planner_composition() {
    let t = txid(1);
    let mut table = events();
    for (u, at) in [(42, 25), (7, 10), (43, 15), (41, 12), (40, 5)] {
        table.insert(&t, &vec![Value::from_u64(u)], &vec![Value::from_u64(at), Value::from_text("n")]).unwrap();
    }
    let bounds = vec![
        ("user_id".to_string(), ColumnBound::Is(Value::from_u64(42))),
        (
            "created_at".to_string(),
            ColumnBound::In(Bound::In(Value::from_u64(10)), Bound::In(Value::from_u64(30))),
        ),
    ];
    let slice = table.slice(&bounds).unwrap();
    let ordered = table.order_by(slice, &vec!["created_at".to_string()], false).unwrap();
    assert_eq!(ordered.order, 1);
    assert_eq!(table.stream_slice(&t, &ordered), vec![event(42, 25, "n")]);

    // ordered by creation time over the whole table, then reversed
    let all = table.slice(&vec![]).unwrap();
    let by_time = table.order_by(all, &vec!["created_at".to_string()], true).unwrap();
    let rows = table.stream_slice(&t, &by_time);
    let times: Vec<Value> = rows.iter().map(|r| r[1].copy()).collect();
    assert_eq!(
        times,
        vec![25u64, 15, 12, 10, 5].into_iter().map(Value::from_u64).collect::<Vec<_>>()
    );
}

#[test]
fn range_on_a_non_leading_column_is_served_by_an_auxiliary_index() {
    let t = txid(1);
    let mut table = events();
    for (u, at) in [(1, 50), (2, 10), (3, 30)] {
        table.insert(&t, &vec![Value::from_u64(u)], &vec![Value::from_u64(at), Value::from_text("n")]).unwrap();
    }
    let bounds = vec![(
        "created_at".to_string(),
        ColumnBound::In(Bound::Ex(Value::from_u64(10)), Bound::Unbounded),
    )];
    let slice = table.slice(&bounds).unwrap();
    assert_eq!(slice.plan[0].index, 1);
    assert_eq!(table.stream_slice(&t, &slice), vec![event(3, 30, "n"), event(1, 50, "n")]);
}

#[test]
fn unsupported_bounds_are_bad_requests() {
    let table = events();
    // a bound on the note column: no index begins with it
    let bounds = vec![("note".to_string(), ColumnBound::Is(Value::from_text("n")))];
    assert_eq!(table.slice(&bounds).err().unwrap().kind, ErrorKind::BadRequest);
    let unknown = vec![("nope".to_string(), ColumnBound::Is(Value::from_u64(1)))];
    assert_eq!(table.slice(&unknown).err().unwrap().kind, ErrorKind::BadRequest);
    let all = table.slice(&vec![]).unwrap();
    let e = table.order_by(all, &vec!["note".to_string()], false).err().unwrap();
    assert_eq!(e.kind, ErrorKind::BadRequest);
}

#[test]
fn update_replaces_values_and_keeps_keys() {
    let t = txid(1);
    let mut table = people();
    table.insert(&t, &vec![Value::from_u64(1)], &vec![Value::from_text("amy")]).unwrap();
    table.insert(&t, &vec![Value::from_u64(2)], &vec![Value::from_text("bob")]).unwrap();
    table.update(&t, &vec![("name".to_string(), Value::from_text("cat"))]).unwrap();
    assert_eq!(table.stream(&t), vec![row(1, "cat"), row(2, "cat")]);
    let cat = table.slice(&name_is("cat")).unwrap();
    assert_eq!(table.stream_slice(&t, &cat), vec![row(1, "cat"), row(2, "cat")]);
    let amy = table.slice(&name_is("amy")).unwrap();
    assert!(table.stream_slice(&t, &amy).is_empty());
    let e = table.update(&t, &vec![("id".to_string(), Value::from_u64(5))]).unwrap_err();
    assert_eq!(e.kind, ErrorKind::BadRequest);
    let e = table.update(&t, &vec![("nope".to_string(), Value::from_u64(5))]).unwrap_err();
    assert_eq!(e.kind, ErrorKind::BadRequest);
}

#[test]
fn limit_and_select_columns() {
    let t = txid(1);
    let mut table = people();
    for (id, name) in [(1, "amy"), (2, "bob"), (3, "cat")] {
        table.insert(&t, &vec![Value::from_u64(id)], &vec![Value::from_text(name)]).unwrap();
    }
    let rows = tinystore::planner::limit(table.stream(&t), 2);
    assert_eq!(rows, vec![row(1, "amy"), row(2, "bob")]);
    assert_eq!(tinystore::planner::limit(table.stream(&t), 10).len(), 3);
    let names = table.select_columns(&rows, &vec!["name".to_string()]).unwrap();
    assert_eq!(names, vec![vec![Value::from_text("amy")], vec![Value::from_text("bob")]]);
    let e = table.select_columns(&rows, &vec!["nope".to_string()]).unwrap_err();
    assert_eq!(e.kind, ErrorKind::BadRequest);
}

#[test]
fn primary_index_takes_bounds_on_key_columns_only() {
    let t = txid(1);
    let mut table = events();
    for (u, at) in [(42, 25), (7, 10)] {
        table.insert(&t, &vec![Value::from_u64(u)], &vec![Value::from_u64(at), Value::from_text("n")]).unwrap();
    }
    let bounds = vec![
        ("user_id".to_string(), ColumnBound::Is(Value::from_u64(42))),
        (
            "created_at".to_string(),
            ColumnBound::In(Bound::In(Value::from_u64(10)), Bound::In(Value::from_u64(30))),
        ),
    ];
    let slice = table.slice(&bounds).unwrap();
    // the key bound goes to the primary index, the range to by_created
    assert_eq!(slice.plan.len(), 2);
    assert_eq!((slice.plan[0].index, slice.plan[0].count), (0, 1));
    assert_eq!((slice.plan[1].index, slice.plan[1].count), (1, 1));
    assert_eq!(table.stream_slice(&t, &slice), vec![event(42, 25, "n")]);
}

#[test]
fn table_write_conflict_is_a_conflict() {
    let t1 = txid(1);
    let t2 = txid(2);
    let mut table = people();
    table.insert(&t1, &vec![Value::from_u64(1)], &vec![Value::from_text("amy")]).unwrap();
    let e = table.upsert(&t2, &vec![Value::from_u64(2)], &vec![Value::from_text("b")]).unwrap_err();
    assert_eq!(e.kind, ErrorKind::Conflict);
    let e = table.update(&t2, &vec![("name".to_string(), Value::from_text("c"))]).unwrap_err();
    assert_eq!(e.kind, ErrorKind::Conflict);
}
