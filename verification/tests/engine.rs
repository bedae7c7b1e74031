use value::errors::ValueError;
use value::path::{Field, Segment};
use value::value::{Value, ValueMap};

fn fld(name: &str) -> Segment {
    Segment::Field(Field { name: name.to_string(), requires_quoting: false })
}

fn idx(i: i64) -> Segment {
    Segment::Index(i)
}

fn vmap() -> Value {
    Value::Object(ValueMap::new())
}

fn varr() -> Value {
    Value::Array(Vec::new())
}

#[test]
fn single_field() {
    let mut value = vmap();
    let path = [fld("root")];
    assert!(value.insert(&path, Value::Boolean(true)).unwrap().is_none());
    assert_eq!(value.get(&path).unwrap(), Some(&Value::Boolean(true)));
    assert!(value.contains(&path));
    assert_eq!(value.remove(&path, false).unwrap(), Some(Value::Boolean(true)));
    assert!(!value.contains(&path));
}

#[test]
fn nested_field() {
    let mut value = vmap();
    let path = [fld("root"), fld("doot")];
    assert!(value.insert(&path, Value::Integer(7)).unwrap().is_none());
    assert_eq!(value.get(&path).unwrap(), Some(&Value::Integer(7)));
    assert_eq!(value.remove(&path, false).unwrap(), Some(Value::Integer(7)));
    // without pruning the scaffolding map stays behind
    assert!(value.contains(&[fld("root")]));
}

#[test]
fn double_nested_field() {
    let mut value = vmap();
    let path = [fld("root"), fld("doot"), fld("toot")];
    assert!(value.insert(&path, Value::Boolean(true)).unwrap().is_none());
    assert_eq!(value.get(&path).unwrap(), Some(&Value::Boolean(true)));
    assert_eq!(value.remove(&path, false).unwrap(), Some(Value::Boolean(true)));
}

#[test]
fn single_index() {
    let mut value = varr();
    let path = [idx(0)];
    assert!(value.insert(&path, Value::Boolean(true)).unwrap().is_none());
    assert_eq!(value.get(&path).unwrap(), Some(&Value::Boolean(true)));
    assert_eq!(value.remove(&path, false).unwrap(), Some(Value::Boolean(true)));
    assert!(value.is_empty());
}

#[test]
fn negative_index_displaces_mid_array() {
    let mut value = Value::Array(vec![Value::Integer(1), Value::Integer(2), Value::Integer(3)]);
    let path = [idx(-2)];
    let displaced = value.insert(&path, Value::Boolean(true)).unwrap();
    assert_eq!(displaced, Some(Value::Integer(2)));
    let arr = value.as_array().unwrap();
    assert_eq!(arr.len(), 3);
    assert_eq!(arr[0], Value::Integer(1));
    assert_eq!(arr[1], Value::Boolean(true));
    assert_eq!(arr[2], Value::Integer(3));
    assert_eq!(value.get(&path).unwrap(), Some(&Value::Boolean(true)));
    assert_eq!(value.remove(&path, true).unwrap(), Some(Value::Boolean(true)));
    let arr = value.as_array().unwrap();
    assert_eq!(arr.len(), 2);
    assert_eq!(arr[0], Value::Integer(1));
    assert_eq!(arr[1], Value::Integer(3));
}

#[test]
fn negative_index_grows_left() {
    let mut value = varr();
    let path = [idx(-3)];
    assert!(value.insert(&path, Value::Boolean(true)).unwrap().is_none());
    let arr = value.as_array().unwrap();
    assert_eq!(arr.len(), 3);
    assert_eq!(arr[0], Value::Boolean(true));
    assert_eq!(arr[1], Value::Null);
    assert_eq!(arr[2], Value::Null);
    assert_eq!(value.get(&path).unwrap(), Some(&Value::Boolean(true)));
}

#[test]
fn negative_index_grows_left_of_occupied() {
    let mut value = Value::Array(vec![Value::Integer(0), Value::Integer(1)]);
    assert!(value.insert(&[idx(-4)], Value::Boolean(true)).unwrap().is_none());
    let arr = value.as_array().unwrap();
    assert_eq!(arr.len(), 4);
    assert_eq!(arr[0], Value::Boolean(true));
    assert_eq!(arr[1], Value::Null);
    assert_eq!(arr[2], Value::Integer(0));
    assert_eq!(arr[3], Value::Integer(1));
}

#[test]
fn nested_index() {
    let mut value = varr();
    let path = [idx(0), idx(0)];
    assert!(value.insert(&path, Value::Boolean(true)).unwrap().is_none());
    assert_eq!(value.get(&path).unwrap(), Some(&Value::Boolean(true)));
    assert_eq!(value.remove(&path, false).unwrap(), Some(Value::Boolean(true)));
}

#[test]
fn field_index() {
    let mut value = vmap();
    let path = [fld("root"), idx(0)];
    assert!(value.insert(&path, Value::Boolean(true)).unwrap().is_none());
    assert_eq!(value.get(&path).unwrap(), Some(&Value::Boolean(true)));
    assert_eq!(value.remove(&path, false).unwrap(), Some(Value::Boolean(true)));
}

#[test]
fn field_negative_index_prunes_to_nothing() {
    let mut value = vmap();
    let path = [fld("root"), idx(-1)];
    assert!(value.insert(&path, Value::Boolean(true)).unwrap().is_none());
    assert_eq!(value.get(&path).unwrap(), Some(&Value::Boolean(true)));
    assert_eq!(value.remove(&path, true).unwrap(), Some(Value::Boolean(true)));
    assert_eq!(value, vmap());
}

#[test]
fn index_field() {
    let mut value = varr();
    let path = [idx(0), fld("boot")];
    assert!(value.insert(&path, Value::Boolean(true)).unwrap().is_none());
    assert_eq!(value.get(&path).unwrap(), Some(&Value::Boolean(true)));
    assert_eq!(value.remove(&path, false).unwrap(), Some(Value::Boolean(true)));
}

#[test]
fn populated_field() {
    let mut value = vmap();
    assert!(value.insert(&[fld("a"), idx(2)], Value::Boolean(true)).unwrap().is_none());
    let displaced = value.insert(&[fld("a"), idx(0)], Value::Boolean(true)).unwrap();
    assert_eq!(displaced, Some(Value::Null));
    let m = value.as_map().unwrap();
    let a = m.get("a").unwrap().as_array().unwrap();
    assert_eq!(a.len(), 3);
    assert_eq!(a[0], Value::Boolean(true));
    assert_eq!(a[1], Value::Null);
    assert_eq!(a[2], Value::Boolean(true));
    let displaced = value.insert(&[fld("a"), idx(0)], Value::Boolean(false)).unwrap();
    assert_eq!(displaced, Some(Value::Boolean(true)));
}

#[test]
fn insert_empty_path_swaps_root() {
    let mut value = Value::Integer(3);
    let prev = value.insert(&[], Value::Integer(4)).unwrap();
    assert_eq!(prev, Some(Value::Integer(3)));
    assert_eq!(value, Value::Integer(4));
}

#[test]
fn get_empty_path_is_root() {
    let value = Value::Integer(3);
    assert_eq!(value.get(&[]).unwrap(), Some(&Value::Integer(3)));
}

#[test]
fn remove_empty_path_is_removing_self() {
    // a node cannot remove itself; only its parent can
    let mut value = Value::Integer(3);
    let err = value.remove(&[], true).unwrap_err();
    assert!(matches!(err, ValueError::RemovingSelf));
    assert_eq!(value, Value::Integer(3));

    let mut root = vmap();
    let err = root.remove(&[], false).unwrap_err();
    assert!(matches!(err, ValueError::RemovingSelf));
}

#[test]
fn index_against_map_is_no_op() {
    let mut value = vmap();
    assert_eq!(value.insert(&[idx(0)], Value::Boolean(true)).unwrap(), None);
    assert!(value.is_empty());
    assert_eq!(value.get(&[idx(0)]).unwrap(), None);
    assert_eq!(value.remove(&[idx(0)], false).unwrap(), None);
}

#[test]
fn field_against_array_is_no_op() {
    let mut value = varr();
    assert_eq!(value.insert(&[fld("a")], Value::Boolean(true)).unwrap(), None);
    assert!(value.is_empty());
    assert_eq!(value.get(&[fld("a")]).unwrap(), None);
    assert_eq!(value.remove(&[fld("a")], false).unwrap(), None);
}

#[test]
fn out_of_bounds_reads_are_none() {
    let value = Value::Array(vec![Value::Integer(1), Value::Integer(2)]);
    assert_eq!(value.get(&[idx(2)]).unwrap(), None);
    assert_eq!(value.get(&[idx(-3)]).unwrap(), None);
    assert_eq!(value.get(&[idx(-2)]).unwrap(), Some(&Value::Integer(1)));
    assert_eq!(value.get(&[idx(-1)]).unwrap(), Some(&Value::Integer(2)));
}

#[test]
fn nested_index_field() {
    let mut value = varr();
    let path = [idx(0), idx(0), fld("boot")];
    assert!(value.insert(&path, Value::Boolean(true)).unwrap().is_none());
    assert_eq!(value.get(&path).unwrap(), Some(&Value::Boolean(true)));
    assert_eq!(value.remove(&path, false).unwrap(), Some(Value::Boolean(true)));
}

#[test]
fn nested_index_negative() {
    let mut value = vmap();
    let path = [fld("field"), idx(0), idx(-1)];
    assert!(value.insert(&path, Value::Boolean(true)).unwrap().is_none());
    assert_eq!(value.get(&path).unwrap(), Some(&Value::Boolean(true)));
    assert_eq!(value.remove(&path, false).unwrap(), Some(Value::Boolean(true)));
}

#[test]
fn field_with_nested_index_field() {
    let mut value = vmap();
    let path = [fld("root"), idx(0), idx(0), fld("boot")];
    assert!(value.insert(&path, Value::Boolean(true)).unwrap().is_none());
    assert_eq!(value.get(&path).unwrap(), Some(&Value::Boolean(true)));
    assert_eq!(value.remove(&path, false).unwrap(), Some(Value::Boolean(true)));
}

#[test]
fn contains_is_get_presence() {
    let mut value = vmap();
    let path = [fld("a"), idx(1), fld("b")];
    assert!(!value.contains(&path));
    assert_eq!(value.get(&path).unwrap().is_some(), value.contains(&path));
    assert!(value.insert(&path, Value::Integer(1)).unwrap().is_none());
    assert!(value.contains(&path));
    assert_eq!(value.get(&path).unwrap().is_some(), value.contains(&path));
}
