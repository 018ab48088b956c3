use tc_table::delta::Delta;
use tc_table::error::Code;
use tc_table::schema::{Column, Range, TableSchema};
use tc_table::table::TableFile;
use tc_table::txn::{NetworkTime, TxnId};
use tc_table::value::{NumberType, Value, ValueType};
use tc_table::version::Version;

fn schema() -> TableSchema {
    TableSchema::new(
        vec![Column {
            name: "id".to_string(),
            dtype: ValueType::Number(NumberType::Int64),
        }],
        vec![Column {
            name: "name".to_string(),
            dtype: ValueType::TCString,
        }],
    )
}

fn txn(n: u128) -> TxnId {
    TxnId::with_nonce(NetworkTime::from_nanos(n), 0)
}

fn key(i: i64) -> Vec<Value> {
    vec![Value::Int(i)]
}

fn name(s: &str) -> Vec<Value> {
    vec![Value::String(s.to_string())]
}

fn row(i: i64, s: &str) -> Vec<Value> {
    vec![Value::Int(i), Value::String(s.to_string())]
}

fn code_of<T>(r: Result<T, tc_table::error::TCError>) -> Code {
    match r {
        Ok(_) => panic!("expected an error"),
        Err(e) => *e.reason(),
    }
}

#[test]
fn later_commit_invisible_to_earlier_reader() {
    let mut table = TableFile::create(schema());
    let (t1, t2, t3) = (txn(1), txn(2), txn(3));
    table.upsert(t1, key(1), name("a")).unwrap();
    table.commit(&t1);
    table.upsert(t3, key(1), name("c")).unwrap();
    table.commit(&t3);
    assert_eq!(table.read(t2, key(1)).unwrap(), Some(row(1, "a")));
    assert_eq!(table.read(txn(4), key(1)).unwrap(), Some(row(1, "c")));
}

#[test]
fn newest_layer_wins() {
    let mut table = TableFile::create(schema());
    let (t1, t2, t3, t4) = (txn(1), txn(2), txn(3), txn(4));
    table.upsert(t1, key(1), name("a")).unwrap();
    table.upsert(t1, key(2), name("b")).unwrap();
    table.commit(&t1);
    table.delete(t2, key(1)).unwrap();
    table.upsert(t2, key(2), name("bb")).unwrap();
    table.commit(&t2);
    table.upsert(t3, key(1), name("aaa")).unwrap();
    table.commit(&t3);
    assert_eq!(table.read(t4, key(1)).unwrap(), Some(row(1, "aaa")));
    assert_eq!(table.read(t4, key(2)).unwrap(), Some(row(2, "bb")));
    assert_eq!(table.read(txn(5), key(3)).unwrap(), None);
    assert_eq!(table.rows(txn(6)).unwrap(), vec![row(1, "aaa"), row(2, "bb")]);
}

#[test]
fn finalize_keeps_later_reads_and_is_idempotent() {
    let mut table = TableFile::create(schema());
    let (t1, t2, t3) = (txn(1), txn(2), txn(3));
    table.upsert(t1, key(1), name("a")).unwrap();
    table.upsert(t1, key(2), name("b")).unwrap();
    table.commit(&t1);
    table.delete(t2, key(2)).unwrap();
    table.commit(&t2);
    let before = table.rows(t3).unwrap();
    table.finalize(&t2);
    assert_eq!(table.committed_count(), 0);
    let after = table.rows(txn(4)).unwrap();
    assert_eq!(before, after);
    assert_eq!(after, vec![row(1, "a")]);
    table.finalize(&t1);
    table.finalize(&t2);
    assert_eq!(table.rows(txn(5)).unwrap(), vec![row(1, "a")]);
}

#[test]
fn finalize_keeps_deltas_after_it() {
    let mut table = TableFile::create(schema());
    let (t1, t2, t3) = (txn(1), txn(2), txn(3));
    table.upsert(t1, key(1), name("a")).unwrap();
    table.commit(&t1);
    table.upsert(t2, key(1), name("b")).unwrap();
    table.commit(&t2);
    table.finalize(&t1);
    assert_eq!(table.committed_count(), 1);
    assert_eq!(table.read(t3, key(1)).unwrap(), Some(row(1, "b")));
}

#[test]
fn delete_then_reinsert_in_one_transaction() {
    let mut table = TableFile::create(schema());
    let t = txn(1);
    table.upsert(t, key(1), name("v1")).unwrap();
    table.delete(t, key(1)).unwrap();
    assert_eq!(table.read(t, key(1)).unwrap(), None);
    table.upsert(t, key(1), name("v2")).unwrap();
    assert_eq!(table.read(t, key(1)).unwrap(), Some(row(1, "v2")));
}

#[test]
fn overlapping_writers_conflict_once() {
    let mut table = TableFile::create(schema());
    let (t1, t2) = (txn(1), txn(2));
    assert!(table.upsert(t2, key(1), name("b")).is_ok());
    assert_eq!(code_of(table.upsert(t1, key(1), name("a"))), Code::Conflict);
    assert!(table.upsert(t1, key(2), name("a")).is_ok());
}

#[test]
fn round_trip_through_commit() {
    let mut table = TableFile::create(schema());
    let (t, t2) = (txn(10), txn(11));
    table.upsert(t, key(7), name("seven")).unwrap();
    table.commit(&t);
    assert_eq!(table.read(t2, key(7)).unwrap(), Some(row(7, "seven")));
}

#[test]
fn bad_key_and_values_are_rejected() {
    let mut table = TableFile::create(schema());
    let t = txn(1);
    assert_eq!(code_of(table.read(t, vec![])), Code::BadRequest);
    assert_eq!(code_of(table.read(t, name("x"))), Code::BadRequest);
    assert_eq!(code_of(table.upsert(t, key(1), vec![Value::Int(3)])), Code::BadRequest);
    assert_eq!(code_of(table.upsert(t, key(1), vec![])), Code::BadRequest);
    assert_eq!(code_of(table.delete(t, row(1, "a"))), Code::BadRequest);
    let wrong = vec![("id".to_string(), Value::Int(2))];
    assert_eq!(code_of(table.update(t, Range::all(), &wrong)), Code::BadRequest);
    let mistyped = vec![("name".to_string(), Value::Int(2))];
    assert_eq!(code_of(table.update(t, Range::all(), &mistyped)), Code::BadRequest);
}

#[test]
fn write_after_commit_conflicts() {
    let mut table = TableFile::create(schema());
    let t = txn(1);
    table.upsert(t, key(1), name("a")).unwrap();
    table.commit(&t);
    assert_eq!(code_of(table.upsert(t, key(2), name("b"))), Code::Conflict);
    table.commit(&t);
    assert_eq!(table.read(txn(2), key(1)).unwrap(), Some(row(1, "a")));
}

#[test]
fn write_at_finalized_transaction_conflicts() {
    let mut table = TableFile::create(schema());
    table.finalize(&txn(5));
    assert_eq!(code_of(table.upsert(txn(3), key(1), name("a"))), Code::Conflict);
    assert!(table.upsert(txn(6), key(1), name("a")).is_ok());
}

#[test]
fn read_conflicts_with_later_writer() {
    let mut table = TableFile::create(schema());
    table.upsert(txn(5), key(1), name("a")).unwrap();
    assert_eq!(code_of(table.read(txn(3), key(1))), Code::Conflict);
    assert_eq!(table.read(txn(3), key(2)).unwrap(), None);
    assert_eq!(table.read(txn(5), key(1)).unwrap(), Some(row(1, "a")));
}

#[test]
fn delete_of_missing_row_is_a_no_op() {
    let mut table = TableFile::create(schema());
    let t = txn(1);
    table.delete(t, key(9)).unwrap();
    table.commit(&t);
    assert_eq!(table.count(txn(2)).unwrap(), 0);
}

#[test]
fn rollback_discards_pending_writes() {
    let mut table = TableFile::create(schema());
    let (t1, t2) = (txn(1), txn(2));
    table.upsert(t1, key(1), name("a")).unwrap();
    table.rollback(&t1);
    assert_eq!(table.read(t2, key(1)).unwrap(), None);
    assert!(table.upsert(txn(3), key(1), name("b")).is_ok());
}

#[test]
fn truncate_and_update_within_a_range() {
    let schema = TableSchema::new(
        vec![
            Column { name: "a".to_string(), dtype: ValueType::Number(NumberType::Int64) },
            Column { name: "b".to_string(), dtype: ValueType::Number(NumberType::Int64) },
        ],
        vec![Column { name: "v".to_string(), dtype: ValueType::TCString }],
    );
    let mut table = TableFile::create(schema);
    let t1 = txn(1);
    for (a, b) in [(1, 1), (1, 2), (2, 1)] {
        table
            .upsert(t1, vec![Value::Int(a), Value::Int(b)], name("x"))
            .unwrap();
    }
    table.commit(&t1);
    let t2 = txn(2);
    let assignments = vec![("v".to_string(), Value::String("y".to_string()))];
    table
        .update(t2, Range::with_prefix(vec![Value::Int(1)]), &assignments)
        .unwrap();
    table.commit(&t2);
    let rows = table.rows(txn(3)).unwrap();
    assert_eq!(
        rows,
        vec![
            vec![Value::Int(1), Value::Int(1), Value::String("y".to_string())],
            vec![Value::Int(1), Value::Int(2), Value::String("y".to_string())],
            vec![Value::Int(2), Value::Int(1), Value::String("x".to_string())],
        ]
    );
    let t4 = txn(4);
    table
        .truncate(t4, Range::with_prefix(vec![Value::Int(2)]))
        .unwrap();
    table.commit(&t4);
    assert_eq!(table.count(txn(5)).unwrap(), 2);
    let slice = table
        .into_stream(txn(6), Range::with_prefix(vec![Value::Int(1), Value::Int(2)]))
        .unwrap();
    assert_eq!(
        slice,
        vec![vec![Value::Int(1), Value::Int(2), Value::String("y".to_string())]]
    );
}

#[test]
fn rows_come_in_key_order() {
    let mut table = TableFile::create(schema());
    let t = txn(1);
    for i in [5, 3, 9, 1] {
        table.upsert(t, key(i), name("r")).unwrap();
    }
    let keys: Vec<Value> = table
        .rows(t)
        .unwrap()
        .into_iter()
        .map(|r| r[0].clone())
        .collect();
    assert_eq!(keys, vec![Value::Int(1), Value::Int(3), Value::Int(5), Value::Int(9)]);
}

#[test]
fn copy_from_fills_a_pending_delta() {
    let t = txn(1);
    let rows = vec![row(2, "b"), row(1, "a")];
    let mut table = TableFile::copy_from(t, schema(), rows).unwrap();
    assert_eq!(table.rows(t).unwrap(), vec![row(1, "a"), row(2, "b")]);
    assert_eq!(code_of(table.upsert(txn(2), key(3), name("c"))), Code::Conflict);
    table.commit(&t);
    assert_eq!(table.count(txn(2)).unwrap(), 2);
    let bad = TableFile::copy_from(t, schema(), vec![vec![Value::Int(1)]]);
    assert_eq!(code_of(bad), Code::BadRequest);
}

#[test]
fn new_loads_committed_deltas_by_name() {
    let mut delta = Delta::create(1);
    delta.upsert(key(1), name("a"));
    let mut hidden = Delta::create(1);
    hidden.upsert(key(2), name("b"));
    let entries = vec![("5-0".to_string(), delta), (".tmp".to_string(), hidden)];
    let mut table = TableFile::new(schema(), Version::create(1), entries).unwrap();
    assert_eq!(table.committed_count(), 1);
    assert_eq!(table.read(txn(6), key(1)).unwrap(), Some(row(1, "a")));
    assert_eq!(table.read(txn(4), key(1)).unwrap(), None);
    assert_eq!(table.read(txn(6), key(2)).unwrap(), None);
    let bad = vec![("not-an-id".to_string(), Delta::create(1))];
    assert_eq!(code_of(TableFile::new(schema(), Version::create(1), bad)), Code::BadRequest);
}

#[test]
fn restore_makes_a_transaction_see_the_backup() {
    let mut table = TableFile::create(schema());
    let mut backup = TableFile::create(schema());
    let t1 = txn(1);
    table.upsert(t1, key(1), name("a")).unwrap();
    table.upsert(t1, key(2), name("b")).unwrap();
    table.commit(&t1);
    backup.upsert(t1, key(2), name("bb")).unwrap();
    backup.upsert(t1, key(3), name("c")).unwrap();
    backup.commit(&t1);
    let t2 = txn(2);
    table.restore(t2, &mut backup).unwrap();
    assert_eq!(table.rows(t2).unwrap(), vec![row(2, "bb"), row(3, "c")]);
    table.commit(&t2);
    assert_eq!(table.rows(txn(3)).unwrap(), vec![row(2, "bb"), row(3, "c")]);
    let other = TableSchema::new(
        vec![Column { name: "id".to_string(), dtype: ValueType::TCString }],
        vec![],
    );
    let mut mismatched = TableFile::create(other);
    assert_eq!(code_of(table.restore(txn(4), &mut mismatched)), Code::BadRequest);
}

#[test]
fn error_text_names_the_code() {
    let e = tc_table::error::not_found("x");
    assert_eq!(
        e.to_string(),
        "Not found: The requested resource could not be found: x"
    );
    assert_eq!(Code::Internal.as_str(), "Internal server error");
}
