use tc_table::error::Code;
use tc_table::schema::{Column, Range, TableSchema};
use tc_table::table::TableFile;
use tc_table::txn::{NetworkTime, TxnId};
use tc_table::value::{NumberType, Value, ValueType};

fn schema() -> TableSchema {
    TableSchema::new(
        vec![Column {
            name: "id".to_string(),
            dtype: ValueType::Number(NumberType::Int64),
        }],
        vec![Column {
            name: "name".to_string(),
            dtype: ValueType::TCString,
        }],
    )
}

fn txn(n: u128) -> TxnId {
    TxnId::with_nonce(NetworkTime::from_nanos(n), 0)
}

fn key(i: i64) -> Vec<Value> {
    vec![Value::Int(i)]
}

fn name(s: &str) -> Vec<Value> {
    vec![Value::String(s.to_string())]
}

fn row(i: i64, s: &str) -> Vec<Value> {
    vec![Value::Int(i), Value::String(s.to_string())]
}

#[test]
fn scenario_update_after_commit() {
    let mut table = TableFile::create(schema());
    let (t1, t2, t3) = (txn(1), txn(2), txn(3));
    table.upsert(t1, key(1), name("a")).unwrap();
    table.commit(&t1);
    assert_eq!(table.read(t2, key(1)).unwrap(), Some(row(1, "a")));
    let assignments = vec![("name".to_string(), Value::String("b".to_string()))];
    table.update(t2, Range::all(), &assignments).unwrap();
    table.commit(&t2);
    assert_eq!(table.read(t3, key(1)).unwrap(), Some(row(1, "b")));
}

#[test]
fn scenario_truncate_then_count() {
    let mut table = TableFile::create(schema());
    let (t1, t2, t3) = (txn(1), txn(2), txn(3));
    table.upsert(t1, key(1), name("a")).unwrap();
    table.upsert(t1, key(2), name("b")).unwrap();
    table.commit(&t1);
    table.truncate(t2, Range::all()).unwrap();
    table.commit(&t2);
    assert_eq!(table.count(t3).unwrap(), 0);
}

#[test]
fn scenario_concurrent_writers_conflict() {
    let mut table = TableFile::create(schema());
    let t1 = txn(1);
    let t1b = TxnId::with_nonce(NetworkTime::from_nanos(1), 7);
    let first = table.upsert(t1, key(1), name("a"));
    let second = table.upsert(t1b, key(1), name("x"));
    assert!(first.is_ok());
    let err = second.unwrap_err();
    assert!(matches!(err.reason(), Code::Conflict));
}

#[test]
fn scenario_finalize_folds_into_canon() {
    let mut table = TableFile::create(schema());
    let (t1, t2) = (txn(1), txn(2));
    table.upsert(t1, key(1), name("a")).unwrap();
    table.commit(&t1);
    table.finalize(&t1);
    assert_eq!(table.read(t2, key(1)).unwrap(), Some(row(1, "a")));
    assert_eq!(table.committed_count(), 0);
}
