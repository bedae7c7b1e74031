use value::errors::ValueError;
use value::path::{Field, Segment};
use value::value::{Value, ValueMap};

fn fld(name: &str) -> Segment {
    Segment::Field(Field { name: name.to_string(), requires_quoting: false })
}

fn idx(i: i64) -> Segment {
    Segment::Index(i)
}

fn coal(names: &[&str]) -> Segment {
    Segment::Coalesce(
        names
            .iter()
            .map(|n| Field { name: n.to_string(), requires_quoting: false })
            .collect(),
    )
}

fn vmap() -> Value {
    Value::Object(ValueMap::new())
}

#[test]
fn remove_prune_map_with_map() {
    let mut value = vmap();
    let path = [fld("foo"), fld("bar")];
    assert!(value.insert(&path, Value::Boolean(true)).unwrap().is_none());
    // the emptied `foo` map is pruned away with it
    assert_eq!(value.remove(&path, true).unwrap(), Some(Value::Boolean(true)));
    assert!(!value.contains(&[fld("foo")]));
    assert!(value.is_empty());
}

#[test]
fn remove_without_prune_keeps_empty_parent() {
    let mut value = vmap();
    let path = [fld("foo"), fld("bar")];
    assert!(value.insert(&path, Value::Boolean(true)).unwrap().is_none());
    assert_eq!(value.remove(&path, false).unwrap(), Some(Value::Boolean(true)));
    assert!(value.contains(&[fld("foo")]));
    let foo = value.get(&[fld("foo")]).unwrap().unwrap();
    assert!(foo.is_empty());
    assert!(foo.is_map());
}

#[test]
fn remove_prune_map_with_array() {
    let mut value = vmap();
    let path = [fld("foo"), idx(0)];
    assert!(value.insert(&path, Value::Boolean(true)).unwrap().is_none());
    assert_eq!(value.remove(&path, true).unwrap(), Some(Value::Boolean(true)));
    assert!(!value.contains(&[fld("foo")]));
}

#[test]
fn remove_prune_array_with_map() {
    let mut value = Value::Array(Vec::new());
    let path = [idx(0), fld("bar")];
    assert!(value.insert(&path, Value::Boolean(true)).unwrap().is_none());
    assert_eq!(value.remove(&path, true).unwrap(), Some(Value::Boolean(true)));
    assert!(!value.contains(&[idx(0)]));
}

#[test]
fn remove_prune_array_with_array() {
    let mut value = Value::Array(Vec::new());
    let path = [idx(0), idx(0)];
    assert!(value.insert(&path, Value::Boolean(true)).unwrap().is_none());
    assert_eq!(value.remove(&path, true).unwrap(), Some(Value::Boolean(true)));
    assert!(!value.contains(&[idx(0)]));
}

#[test]
fn prune_cascades_through_nested_maps() {
    let mut value = vmap();
    let path = [fld("a"), fld("b"), fld("c")];
    assert!(value.insert(&path, Value::Integer(1)).unwrap().is_none());
    assert!(value.insert(&[fld("keep")], Value::Integer(2)).unwrap().is_none());
    assert_eq!(value.remove(&path, true).unwrap(), Some(Value::Integer(1)));
    // the emptied chain is gone, the sibling stays
    assert!(!value.contains(&[fld("a")]));
    assert_eq!(value.get(&[fld("keep")]).unwrap(), Some(&Value::Integer(2)));
}

#[test]
fn coalesce_get_resolves_first_present() {
    let mut value = vmap();
    assert!(value.insert(&[fld("b")], Value::Integer(2)).unwrap().is_none());
    // only `b` present: the read resolves to it
    assert_eq!(value.get(&[coal(&["a", "b"])]).unwrap(), Some(&Value::Integer(2)));
    // with both present the first wins
    assert!(value.insert(&[fld("a")], Value::Integer(1)).unwrap().is_none());
    assert_eq!(value.get(&[coal(&["a", "b"])]).unwrap(), Some(&Value::Integer(1)));
}

#[test]
fn coalesce_get_none_when_absent() {
    let value = vmap();
    assert_eq!(value.get(&[coal(&["a", "b"])]).unwrap(), None);
}

#[test]
fn coalesce_remove_resolves_first_present() {
    let mut value = vmap();
    assert!(value.insert(&[fld("b")], Value::Integer(2)).unwrap().is_none());
    assert_eq!(
        value.remove(&[coal(&["a", "b"])], false).unwrap(),
        Some(Value::Integer(2))
    );
    assert!(!value.contains(&[fld("b")]));
}

#[test]
fn coalesce_remove_none_when_absent() {
    let mut value = vmap();
    assert_eq!(value.remove(&[coal(&["a", "b"])], false).unwrap(), None);
}

#[test]
fn coalesce_insert_writes_first_absent() {
    let mut value = vmap();
    // neither present: the write goes to the first alternative
    assert!(value.insert(&[coal(&["a", "b"])], Value::Integer(9)).unwrap().is_none());
    assert_eq!(value.get(&[fld("a")]).unwrap(), Some(&Value::Integer(9)));
    assert_eq!(value.get(&[fld("b")]).unwrap(), None);
}

#[test]
fn coalesce_insert_skips_present_alternative() {
    let mut value = vmap();
    assert!(value.insert(&[fld("a")], Value::Integer(1)).unwrap().is_none());
    assert!(value.insert(&[coal(&["a", "b"])], Value::Integer(9)).unwrap().is_none());
    assert_eq!(value.get(&[fld("a")]).unwrap(), Some(&Value::Integer(1)));
    assert_eq!(value.get(&[fld("b")]).unwrap(), Some(&Value::Integer(9)));
}

#[test]
fn coalesce_insert_no_op_when_all_present() {
    let mut value = vmap();
    assert!(value.insert(&[fld("a")], Value::Integer(1)).unwrap().is_none());
    assert!(value.insert(&[fld("b")], Value::Integer(2)).unwrap().is_none());
    assert_eq!(value.insert(&[coal(&["a", "b"])], Value::Integer(9)).unwrap(), None);
    assert_eq!(value.get(&[fld("a")]).unwrap(), Some(&Value::Integer(1)));
    assert_eq!(value.get(&[fld("b")]).unwrap(), Some(&Value::Integer(2)));
}

#[test]
fn coalesce_without_alternatives_reads_nothing() {
    let mut value = vmap();
    assert_eq!(value.get(&[coal(&[])]).unwrap(), None);
    assert_eq!(value.insert(&[coal(&[])], Value::Integer(9)).unwrap(), None);
    assert_eq!(value.remove(&[coal(&[])], false).unwrap(), None);
}

#[test]
fn primitive_descent_on_insert() {
    let mut value = vmap();
    assert!(value.insert(&[fld("x")], Value::Integer(5)).unwrap().is_none());
    let err = value.insert(&[fld("x"), fld("y")], Value::Integer(9)).unwrap_err();
    match err {
        ValueError::PrimitiveDescent { primitive_at, original_target, original_value } => {
            assert_eq!(original_target.len(), 2);
            match &original_target[0] {
                Segment::Field(f) => assert_eq!(f.name, "x"),
                _ => panic!("expected field segment"),
            }
            match &original_target[1] {
                Segment::Field(f) => assert_eq!(f.name, "y"),
                _ => panic!("expected field segment"),
            }
            assert_eq!(primitive_at.len(), 1);
            match &primitive_at[0] {
                Segment::Field(f) => assert_eq!(f.name, "x"),
                _ => panic!("expected field segment"),
            }
            assert_eq!(original_value, Some(Value::Integer(9)));
        },
        _ => panic!("expected a primitive-descent failure"),
    }
    // the conflicting scalar is untouched
    assert_eq!(value.get(&[fld("x")]).unwrap(), Some(&Value::Integer(5)));
}

#[test]
fn primitive_descent_on_remove() {
    let mut value = vmap();
    assert!(value.insert(&[fld("x")], Value::Integer(5)).unwrap().is_none());
    let err = value.remove(&[fld("x"), fld("y"), fld("z")], false).unwrap_err();
    match err {
        ValueError::PrimitiveDescent { original_target, original_value, .. } => {
            // removal reports the path relative to the scalar it hit
            assert_eq!(original_target.len(), 2);
            match &original_target[0] {
                Segment::Field(f) => assert_eq!(f.name, "y"),
                _ => panic!("expected field segment"),
            }
            assert_eq!(original_value, None);
        },
        _ => panic!("expected a primitive-descent failure"),
    }
}

#[test]
fn removing_self_on_scalar() {
    let mut value = Value::Integer(5);
    let err = value.remove(&[fld("a")], false).unwrap_err();
    assert!(matches!(err, ValueError::RemovingSelf));
}

#[test]
fn removing_self_one_level_down() {
    let mut value = vmap();
    assert!(value.insert(&[fld("x")], Value::Integer(5)).unwrap().is_none());
    let err = value.remove(&[fld("x"), fld("y")], false).unwrap_err();
    assert!(matches!(err, ValueError::RemovingSelf));
}

#[test]
fn empty_coalesce_mid_insert_fails_after_growth() {
    let mut value = Value::Array(Vec::new());
    let err = value.insert(&[idx(5), coal(&[])], Value::Integer(1)).unwrap_err();
    assert!(matches!(err, ValueError::EmptyCoalesceSubSegment));
    // the padding laid down before the failure stays
    let arr = value.as_array().unwrap();
    assert_eq!(arr.len(), 5);
    for e in arr.iter() {
        assert_eq!(*e, Value::Null);
    }
}

#[test]
fn coercion_replaces_wrong_container() {
    let mut value = vmap();
    assert!(value.insert(&[fld("a"), idx(0)], Value::Integer(1)).unwrap().is_none());
    assert!(value.get(&[fld("a")]).unwrap().unwrap().is_array());
    // writing a field below `a` coerces the array into a map, discarding it
    assert!(value.insert(&[fld("a"), fld("b")], Value::Integer(2)).unwrap().is_none());
    assert!(value.get(&[fld("a")]).unwrap().unwrap().is_map());
    assert_eq!(value.get(&[fld("a"), fld("b")]).unwrap(), Some(&Value::Integer(2)));
    assert_eq!(value.get(&[fld("a"), idx(0)]).unwrap(), None);
}
