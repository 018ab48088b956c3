use tc_table::error::{
    bad_request, conflict, forbidden, internal, method_not_allowed, not_found, not_implemented,
    request_too_large, unauthorized, unsupported, Code, TCError,
};
use tc_table::general::Tuple;
use tc_table::null::{Null, NullType, Transact};
use tc_table::schema::Range;
use tc_table::semaphore::Semaphore;
use tc_table::text::to_decimal;
use tc_table::txn::{NetworkTime, TxnId};
use tc_table::value::{cmp_strings, cmp_values, NumberType, Value, ValueType};

fn txn(n: u128) -> TxnId {
    TxnId::with_nonce(NetworkTime::from_nanos(n), 0)
}

#[test]
fn error_constructors_set_code_and_message() {
    let e = bad_request("bad", "thing");
    assert_eq!(*e.reason(), Code::BadRequest);
    assert_eq!(e.message(), "bad: thing");
    assert_eq!(*conflict().reason(), Code::Conflict);
    assert_eq!(
        conflict().message(),
        "Transaction failed due to a concurrent access conflict"
    );
    assert_eq!(forbidden("no", "way").message(), "no: way");
    assert_eq!(*forbidden("no", "way").reason(), Code::Forbidden);
    assert_eq!(*internal("oops").reason(), Code::Internal);
    assert_eq!(
        method_not_allowed("PUT").message(),
        "This resource does not support this request method: PUT"
    );
    assert_eq!(*not_found("x").reason(), Code::NotFound);
    assert_eq!(
        not_found("x").message(),
        "The requested resource could not be found: x"
    );
    assert_eq!(*not_implemented("f").reason(), Code::NotImplemented);
    assert_eq!(*unsupported("h").reason(), Code::BadRequest);
    assert_eq!(*unauthorized("who").reason(), Code::Unauthorized);
    let big = request_too_large(1024);
    assert_eq!(*big.reason(), Code::RequestTooLarge);
    assert_eq!(
        big.message(),
        "This request exceeds the maximum allowed size of 1024 bytes"
    );
    let custom = TCError::of(Code::NotFound, "gone".to_string());
    assert_eq!(custom.message(), "gone");
}

#[test]
fn decimal_notation() {
    assert_eq!(to_decimal(0), "0");
    assert_eq!(to_decimal(7), "7");
    assert_eq!(to_decimal(1234567890), "1234567890");
    assert_eq!(to_decimal(u128::MAX), u128::MAX.to_string());
}

#[test]
fn txn_id_text_round_trip() {
    let id = TxnId::with_nonce(NetworkTime::from_nanos(1_700_000_000_123), 42);
    assert_eq!(id.to_string(), "1700000000123-42");
    assert_eq!(TxnId::parse("1700000000123-42").unwrap(), id);
    assert_eq!(TxnId::parse(&TxnId::zero().to_string()).unwrap(), TxnId::zero());
    for bad in ["", "12", "-1", "1-", "a-1", "1-b", "1-65536", "1--2"] {
        assert!(TxnId::parse(bad).is_err(), "{bad}");
    }
    let max = format!("{}-{}", u128::MAX, u16::MAX);
    assert_eq!(TxnId::parse(&max).unwrap().key(), (u128::MAX, u16::MAX));
    let over = format!("{}0-1", u128::MAX);
    assert!(TxnId::parse(&over).is_err());
}

#[test]
fn txn_ids_order_by_time_then_nonce() {
    let a = TxnId::with_nonce(NetworkTime::from_nanos(5), 9);
    let b = TxnId::with_nonce(NetworkTime::from_nanos(6), 0);
    let c = TxnId::with_nonce(NetworkTime::from_nanos(6), 1);
    assert!(a.precedes(&b));
    assert!(b.precedes(&c));
    assert!(!c.precedes(&a));
    assert!(!a.precedes(&a));
    assert!(TxnId::zero().precedes(&a));
    assert_eq!(TxnId::from_key(c.key()), c);
    assert_eq!(c.time().as_nanos(), 6);
    let fresh = TxnId::new(NetworkTime::from_nanos(77));
    assert_eq!(fresh.key().0, 77);
}

#[test]
fn network_time_units() {
    let t = NetworkTime::from_nanos(3_456_789_012);
    assert_eq!(t.as_nanos(), 3_456_789_012);
    assert_eq!(t.as_millis(), 3456);
    let now = NetworkTime::now().unwrap();
    assert!(now.as_nanos() > 0);
}

#[test]
fn collation_of_values() {
    assert_eq!(cmp_values(&Value::Int(1), &Value::Int(2)), -1);
    assert_eq!(cmp_values(&Value::Int(2), &Value::Int(2)), 0);
    assert_eq!(cmp_values(&Value::UInt(3), &Value::UInt(1)), 1);
    assert_eq!(cmp_values(&Value::Null, &Value::Bool(false)), -1);
    assert_eq!(cmp_values(&Value::Bool(false), &Value::Bool(true)), -1);
    assert_eq!(cmp_values(&Value::String("b".into()), &Value::Int(5)), 1);
    assert_eq!(cmp_strings(&"abc".to_string(), &"abd".to_string()), -1);
    assert_eq!(cmp_strings(&"ab".to_string(), &"abc".to_string()), -1);
    assert_eq!(cmp_strings(&"é".to_string(), &"e".to_string()), 1);
    assert_eq!(cmp_strings(&"".to_string(), &"".to_string()), 0);
}

#[test]
fn value_types() {
    assert_eq!(ValueType::uint64(), ValueType::Number(NumberType::UInt64));
    assert!(ValueType::uint64().admits(&Value::UInt(1)));
    assert!(!ValueType::uint64().admits(&Value::Int(1)));
    assert!(ValueType::Value.admits(&Value::Null));
    assert!(ValueType::TCString.admits(&Value::String("s".into())));
}

#[test]
fn semaphore_conflicts() {
    let mut s = Semaphore::new();
    let all = || Range::all();
    let one = || Range::with_prefix(vec![Value::Int(1)]);
    let two = || Range::with_prefix(vec![Value::Int(2)]);
    assert!(s.write(txn(2), one()).is_ok());
    assert_eq!(*s.write(txn(3), all()).unwrap_err().reason(), Code::Conflict);
    assert!(s.write(txn(3), two()).is_ok());
    assert!(s.read(txn(1), two()).is_err());
    assert!(s.read(txn(4), two()).is_ok());
    assert!(s.write(txn(3), two()).is_err());
    s.finalize(&txn(4), false);
    assert!(s.write(txn(3), two()).is_ok());
    s.finalize(&txn(3), true);
    assert!(s.write(txn(9), all()).is_ok());
    let mut reserved = Semaphore::with_reservation(txn(1), all());
    assert!(reserved.read(txn(0), one()).is_err());
    assert!(reserved.read(txn(2), one()).is_ok());
}

#[test]
fn tuple_and_null() {
    let t = Tuple::from_vec(vec![1, 2, 3]);
    assert_eq!(t.len(), 3);
    assert_eq!(t.into_inner(), vec![1, 2, 3]);
    let mut null = Null::create();
    assert_eq!(null.class(), NullType);
    assert!(null.is_empty());
    assert_eq!(*null.get().unwrap_err().reason(), Code::BadRequest);
    assert_eq!(*null.put().unwrap_err().reason(), Code::BadRequest);
    null.commit(&txn(1));
    null.rollback(&txn(1));
}
