use value::errors::ValueError;
use value::value::{FloatBits, Timestamp, Value, ValueMap};

fn vflt(x: f64) -> Value {
    Value::Float(FloatBits { bits: x.to_bits() })
}

#[test]
fn float_shared_truncation_is_equal() {
    assert_eq!(vflt(1.2), vflt(1.4));
    assert_eq!(vflt(123.0), vflt(123.9));
}

#[test]
fn float_signed_zero_differs() {
    assert_ne!(vflt(-0.0), vflt(0.0));
}

#[test]
fn float_infinities_differ() {
    assert_ne!(vflt(f64::NEG_INFINITY), vflt(f64::INFINITY));
    assert_eq!(vflt(f64::INFINITY), vflt(f64::INFINITY));
}

#[test]
fn float_nans_are_equal() {
    assert_eq!(vflt(f64::NAN), vflt(f64::NAN));
}

#[test]
fn float_sign_must_match() {
    assert_ne!(vflt(1.2), vflt(-1.2));
}

#[test]
fn float_distinct_integers_differ() {
    assert_ne!(vflt(1.2), vflt(2.2));
    assert_eq!(vflt(9007199254740993.0), vflt(9007199254740993.0));
    assert_ne!(vflt(9007199254740992.0), vflt(18014398509481984.0));
}

#[test]
fn compare_correctly() {
    assert!(Value::Integer(0) == Value::Integer(0));
    assert!(Value::Integer(0) != Value::Integer(1));
    assert!(Value::Boolean(true) != Value::Integer(2));
    assert!(
        Value::Array(vec![Value::Integer(0), Value::Boolean(true)])
            == Value::Array(vec![Value::Integer(0), Value::Boolean(true)])
    );
    assert!(
        Value::Array(vec![Value::Integer(0), Value::Boolean(true)])
            != Value::Array(vec![Value::Integer(1), Value::Boolean(true)])
    );
}

#[test]
fn bytes_compare_structurally() {
    assert_eq!(Value::Bytes(b"abc".to_vec()), Value::Bytes(b"abc".to_vec()));
    assert_ne!(Value::Bytes(b"abc".to_vec()), Value::Bytes(b"abd".to_vec()));
    assert_ne!(Value::Bytes(Vec::new()), Value::Null);
}

#[test]
fn timestamps_compare_by_instant() {
    let a = Value::Timestamp(Timestamp { secs: 100, nanos: 5 });
    let b = Value::Timestamp(Timestamp { secs: 100, nanos: 5 });
    let c = Value::Timestamp(Timestamp { secs: 100, nanos: 6 });
    assert_eq!(a, b);
    assert_ne!(a, c);
}

#[test]
fn maps_compare_by_entries() {
    let mut a = Value::Object(ValueMap::new());
    let mut b = Value::Object(ValueMap::new());
    a.as_map_mut().upsert("x".to_string(), Value::Integer(1));
    a.as_map_mut().upsert("y".to_string(), Value::Integer(2));
    // built in the other order: the map stays ordered by key, so they match
    b.as_map_mut().upsert("y".to_string(), Value::Integer(2));
    b.as_map_mut().upsert("x".to_string(), Value::Integer(1));
    assert_eq!(a, b);
    b.as_map_mut().upsert("x".to_string(), Value::Integer(3));
    assert_ne!(a, b);
}

#[test]
fn is_empty_rules() {
    assert!(Value::Null.is_empty());
    assert!(Value::Object(ValueMap::new()).is_empty());
    assert!(Value::Array(Vec::new()).is_empty());
    assert!(!Value::Integer(0).is_empty());
    assert!(!Value::Boolean(false).is_empty());
    assert!(!Value::Bytes(Vec::new()).is_empty());
    assert!(!vflt(0.0).is_empty());
    assert!(!Value::Array(vec![Value::Null]).is_empty());
}

#[test]
fn kind_names() {
    assert_eq!(Value::Bytes(Vec::new()).kind_str(), "string");
    assert_eq!(Value::Timestamp(Timestamp { secs: 0, nanos: 0 }).kind_str(), "timestamp");
    assert_eq!(Value::Integer(1).kind_str(), "integer");
    assert_eq!(vflt(1.0).kind_str(), "float");
    assert_eq!(Value::Boolean(true).kind_str(), "boolean");
    assert_eq!(Value::Object(ValueMap::new()).kind_str(), "map");
    assert_eq!(Value::Array(Vec::new()).kind_str(), "array");
    assert_eq!(Value::Null.kind_str(), "null");
}

#[test]
fn accessors() {
    let mut m = Value::Object(ValueMap::new());
    assert!(m.as_map().is_some());
    assert!(m.as_array().is_none());
    assert!(!m.is_array());
    assert!(m.is_map());
    m.as_map_mut().upsert("k".to_string(), Value::Integer(1));
    assert_eq!(m.as_map().unwrap().len(), 1);
}

#[test]
fn into_map_moves_the_map() {
    let mut v = Value::Object(ValueMap::new());
    v.as_map_mut().upsert("k".to_string(), Value::Integer(1));
    let m = v.into_map().unwrap();
    assert_eq!(m.len(), 1);
    assert!(Value::Integer(3).into_map().is_none());
}

#[test]
fn as_timestamp_borrows() {
    let v = Value::Timestamp(Timestamp { secs: 9, nanos: 10 });
    let t = v.as_timestamp().unwrap();
    assert_eq!(t.secs, 9);
    assert_eq!(t.nanos, 10);
    assert!(Value::Null.as_timestamp().is_none());
}

#[test]
fn as_array_mut_edits_in_place() {
    let mut v = Value::Array(vec![Value::Integer(1)]);
    v.as_array_mut().unwrap().push(Value::Integer(2));
    assert_eq!(v.as_array().unwrap().len(), 2);
    assert!(Value::Null.as_array_mut().is_none());
}

#[test]
fn value_map_keeps_keys_sorted_and_unique() {
    let mut m = ValueMap::new();
    assert_eq!(m.upsert("b".to_string(), Value::Integer(2)), None);
    assert_eq!(m.upsert("a".to_string(), Value::Integer(1)), None);
    assert_eq!(m.upsert("c".to_string(), Value::Integer(3)), None);
    assert_eq!(m.entries[0].0, "a");
    assert_eq!(m.entries[1].0, "b");
    assert_eq!(m.entries[2].0, "c");
    assert_eq!(m.upsert("b".to_string(), Value::Integer(9)), Some(Value::Integer(2)));
    assert_eq!(m.len(), 3);
    assert_eq!(m.get("b"), Some(&Value::Integer(9)));
    assert_eq!(m.get("d"), None);
    assert_eq!(m.remove_entry("a"), Some(Value::Integer(1)));
    assert_eq!(m.remove_entry("a"), None);
    assert_eq!(m.len(), 2);
}

#[test]
fn error_descriptions() {
    assert_eq!(ValueError::RemovingSelf.describe(), "cannot remove self");
    assert_eq!(
        ValueError::EmptyCoalesceSubSegment.describe(),
        "empty coalesce subsegment found"
    );
    assert_eq!(
        ValueError::LookupError { message: "bad path".to_string() }.describe(),
        "lookup error"
    );
}
