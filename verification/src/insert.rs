//! Writing: `insert`, with container coercion on the way down and array
//! growth — to the right for indexes beyond the end, to the left for indexes
//! before the start.

use crate::errors::{prefix_error, res_view, ValueError};
use crate::model::{
    coerce, contains_spec, fresh_container, insert_array_spec, insert_coalesce, insert_map_spec,
    insert_spec, is_scalar, nulls,
};
use crate::path::{
    cc, field_dup, fields_dup, lemma_cc_push_front, make_candidate, path_fits, path_to_vec,
    path_view, seg_fits, Field, SegView, Segment,
};
use crate::value::{
    elems_view, elems_wf, entries_wf, keys_sorted, lemma_elems_view, lemma_elems_view_concat,
    lemma_elems_view_insert, lemma_elems_view_push, lemma_elems_view_update, lemma_elems_wf,
    lemma_find_wf, lemma_upsert_wf, map_find, Value, ValueMap,
    ValueView, vv_wf,
};
use vstd::prelude::*;
use vstd::slice::slice_subrange;

verus! {

impl Value {
    /// Whether this value is a scalar; `Null` counts as one.
    pub(crate) fn is_primitive(&self) -> (r: bool)
        ensures
            r == is_scalar(self@),
    {
        match self {
            Value::Object(_) => false,
            Value::Array(_) => false,
            _ => true,
        }
    }

    /// Coerces an existing container entry toward the kind the next segment
    /// needs, discarding its content on a mismatch; scalars are left alone.
    fn correct_type(value: &mut Value, segment: &Segment)
        ensures
            final(value)@ == coerce(old(value)@, segment@),
            vv_wf(old(value)@) ==> vv_wf(final(value)@),
    {
        let container = !value.is_primitive();
        if container {
            match segment {
                Segment::Index(_) => {
                    if !value.is_array() {
                        *value = Value::Array(Vec::new());
                    }
                },
                _ => {
                    if !value.is_map() {
                        *value = Value::Object(ValueMap::new());
                    }
                },
            }
        }
    }

    /// Inserts `value` at the path, returning the value it displaced, if
    /// any.
    ///
    /// An exhausted path swaps the node itself. A coalesce writes into its
    /// first alternative that is not already present, and is a no-op when
    /// all are. A wrong container shape at the root of the descent is a
    /// no-op; a scalar in the way fails with a primitive-descent error that
    /// carries the full root-relative paths.
    pub fn insert(&mut self, path: &[Segment], value: Value) -> (r: Result<
        Option<Value>,
        ValueError,
    >)
        requires
            vv_wf(old(self)@),
            vv_wf(value@),
            path_fits(path_view(path@)),
        ensures
            ({
                let (t2, res) = insert_spec(old(self)@, path_view(path@), value@);
                &&& final(self)@ == t2
                &&& res_view(r) == res
                &&& vv_wf(final(self)@)
                &&& (r matches Ok(Some(p)) ==> vv_wf(p@))
            }),
        decreases cc(path_view(path@)), path@.len(), 4int,
    {
        let ghost pv = path_view(path@);
        let ghost x = value@;
        if path.len() == 0 {
            let mut v = value;
            core::mem::swap(self, &mut v);
            return Ok(Some(v));
        }
        let rest = slice_subrange(path, 1, path.len());
        let ghost rv = path_view(rest@);
        proof {
            assert(pv.drop_first() =~= rv);
            assert(pv[0] == path@[0]@);
            assert forall|kk: int| 0 <= kk < rv.len() implies seg_fits(#[trigger] rv[kk]) by {
                assert(rv[kk] == pv[kk + 1]);
            }
        }
        if self.is_primitive() {
            let target = path_to_vec(path);
            let prim: Vec<Segment> = Vec::new();
            proof {
                assert(path_view(prim@) =~= Seq::<SegView>::empty());
            }
            return Err(
                ValueError::PrimitiveDescent {
                    primitive_at: prim,
                    original_target: target,
                    original_value: Some(value),
                },
            );
        }
        if let Segment::Coalesce(alts) = &path[0] {
            let ghost av = alts@.map_values(|f: Field| f@);
            proof {
                assert(pv[0] == SegView::Coalesce(av));
                assert(cc(pv) == 1 + cc(rv));
            }
            let n = alts.len();
            let mut j: usize = 0;
            let mut found = false;
            while j < n && !found
                invariant
                    0 <= j <= n,
                    n == alts@.len(),
                    av == alts@.map_values(|f: Field| f@),
                    rv == path_view(rest@),
                    x == value@,
                    *self == *old(self),
                    vv_wf(self@),
                    cc(pv) == 1 + cc(rv),
                    pv.len() == rv.len() + 1,
                    pv[0] == SegView::Coalesce(av),
                    pv.drop_first() == rv,
                    pv == path_view(path@),
                    path_fits(rv),
                    !found ==> insert_coalesce(self@, av, 0, rv, x) == insert_coalesce(
                        self@,
                        av,
                        j as int,
                        rv,
                        x,
                    ),
                    found ==> j < n && !contains_spec(
                        self@,
                        seq![SegView::Field(av[j as int])] + rv,
                    ) && insert_coalesce(self@, av, 0, rv, x) == insert_spec(
                        self@,
                        seq![SegView::Field(av[j as int])] + rv,
                        x,
                    ),
                decreases n - j, (if found {
                    0int
                } else {
                    1int
                }),
            {
                let cand = make_candidate(&alts[j], rest);
                proof {
                    assert(av[j as int] == alts@[j as int]@);
                    lemma_cc_push_front(SegView::Field(av[j as int]), rv);
                }
                if !self.contains(cand.as_slice()) {
                    found = true;
                } else {
                    j = j + 1;
                }
            }
            if found {
                let cand = make_candidate(&alts[j], rest);
                proof {
                    assert(av[j as int] == alts@[j as int]@);
                    lemma_cc_push_front(SegView::Field(av[j as int]), rv);
                    let cv = seq![SegView::Field(av[j as int])] + rv;
                    assert(path_view(cand@) == cv);
                    assert forall|kk: int| 0 <= kk < cv.len() implies seg_fits(
                        #[trigger] cv[kk],
                    ) by {
                        if kk > 0 {
                            assert(cv[kk] == rv[kk - 1]);
                        }
                    }
                    assert(insert_spec(self@, pv, x) == insert_coalesce(self@, av, 0, rv, x));
                }
                return self.insert(cand.as_slice(), value);
            } else {
                proof {
                    assert(insert_coalesce(self@, av, j as int, rv, x) == (
                        self@,
                        Ok::<Option<ValueView>, crate::errors::ErrView>(None),
                    ));
                    assert(insert_spec(self@, pv, x) == insert_coalesce(self@, av, 0, rv, x));
                }
                return Ok(None);
            }
        }
        match (&path[0], &mut *self) {
            (Segment::Field(f), Value::Object(m)) => Value::insert_map(f, rest, m, value),
            (Segment::Index(_), Value::Object(_)) => Ok(None),
            (Segment::Index(i), Value::Array(a)) => Value::insert_array(*i, rest, a, value),
            (Segment::Field(_), Value::Array(_)) => Ok(None),
            (_, _) => {
                proof {
                    assert(false);
                }
                Ok(None)
            },
        }
    }

    /// Insertion through a map entry: the last segment writes the entry;
    /// otherwise the entry is fetched — coerced to the container kind the
    /// next segment needs — or created fresh, and the insert recurses into
    /// it.
    fn insert_map(f: &Field, rest: &[Segment], map: &mut ValueMap, value: Value) -> (r: Result<
        Option<Value>,
        ValueError,
    >)
        requires
            keys_sorted(old(map)@),
            entries_wf(old(map)@),
            vv_wf(value@),
            path_fits(path_view(rest@)),
        ensures
            ({
                let (t2, res) = insert_map_spec(old(map)@, f@, path_view(rest@), value@);
                &&& ValueView::Object(final(map)@) == t2
                &&& res_view(r) == res
                &&& keys_sorted(final(map)@)
                &&& entries_wf(final(map)@)
                &&& (r matches Ok(Some(p)) ==> vv_wf(p@))
            }),
        decreases cc(path_view(rest@)), rest@.len(), 5int,
    {
        let ghost rv = path_view(rest@);
        let ghost m0 = map@;
        let ghost k = f@.name;
        let ghost x = value@;
        if rest.len() == 0 {
            proof {
                lemma_upsert_wf(m0, k, x);
                if map_find(m0, k) is Some {
                    lemma_find_wf(m0, k);
                }
            }
            let prev = map.upsert(f.name.clone(), value);
            return Ok(prev);
        }
        let has = match map.get(f.name.as_str()) {
            Some(_) => true,
            None => false,
        };
        if has {
            proof {
                lemma_find_wf(m0, k);
            }
            let child = map.get_mut(f.name.as_str());
            Value::correct_type(child, &rest[0]);
            proof {
                assert(rv[0] == rest@[0]@);
            }
            let res = child.insert(rest, value);
            proof {
                let c0 = coerce(map_find(m0, k)->Some_0, rv[0]);
                let (c2, _r0) = insert_spec(c0, rv, x);
                lemma_upsert_wf(m0, k, c2);
            }
            match res {
                Err(e) => {
                    let seg = Segment::Field(field_dup(f));
                    Err(prefix_error(e, &seg))
                },
                Ok(o) => Ok(o),
            }
        } else {
            let mut node = match &rest[0] {
                Segment::Index(_) => Value::Array(Vec::new()),
                _ => Value::Object(ValueMap::new()),
            };
            proof {
                assert(rv[0] == rest@[0]@);
                assert(node@ == fresh_container(rv[0]));
                assert(vv_wf(node@));
            }
            let res = node.insert(rest, value);
            proof {
                let (c2, _r0) = insert_spec(fresh_container(rv[0]), rv, x);
                assert(node@ == c2);
                lemma_upsert_wf(m0, k, c2);
            }
            map.upsert(f.name.clone(), node);
            match res {
                Err(e) => {
                    let seg = Segment::Field(field_dup(f));
                    Err(prefix_error(e, &seg))
                },
                Ok(o) => Ok(o),
            }
        }
    }

    /// Insertion through an array position: an in-bounds position is written
    /// or descended into; one beyond the bounds grows the array with `Null`
    /// padding and builds a fresh leaf from the rest of the path.
    fn insert_array(i: i64, rest: &[Segment], array: &mut Vec<Value>, value: Value) -> (r: Result<
        Option<Value>,
        ValueError,
    >)
        requires
            seg_fits(SegView::Index(i as int)),
            path_fits(path_view(rest@)),
            elems_wf(elems_view(old(array)@)),
            vv_wf(value@),
        ensures
            ({
                let (t2, res) = insert_array_spec(
                    elems_view(old(array)@),
                    i as int,
                    path_view(rest@),
                    value@,
                );
                &&& ValueView::Array(elems_view(final(array)@)) == t2
                &&& res_view(r) == res
                &&& elems_wf(elems_view(final(array)@))
                &&& (r matches Ok(Some(p)) ==> vv_wf(p@))
            }),
        decreases cc(path_view(rest@)), rest@.len(), 5int,
    {
        let ghost rv = path_view(rest@);
        let ghost a0 = elems_view(array@);
        let ghost x = value@;
        proof {
            lemma_elems_view(array@);
            lemma_elems_wf(a0);
        }
        let len = array.len();
        let pos: i128 = if i < 0 {
            len as i128 + i as i128
        } else {
            i as i128
        };
        if 0 <= pos && pos < len as i128 {
            let idx = pos as usize;
            if rest.len() == 0 {
                let mut v = value;
                let elem = &mut array[idx];
                core::mem::swap(elem, &mut v);
                proof {
                    lemma_elems_view_update(old(array)@, idx as int, final(array)@[idx as int]);
                    lemma_elems_wf(elems_view(final(array)@));
                    lemma_elems_view(final(array)@);
                }
                Ok(Some(v))
            } else {
                let elem = &mut array[idx];
                Value::correct_type(elem, &rest[0]);
                proof {
                    assert(rv[0] == rest@[0]@);
                }
                let res = elem.insert(rest, value);
                proof {
                    lemma_elems_view_update(old(array)@, idx as int, final(array)@[idx as int]);
                    lemma_elems_view(final(array)@);
                    lemma_elems_wf(elems_view(final(array)@));
                }
                match res {
                    Err(e) => {
                        let seg = Segment::Index(i);
                        Err(prefix_error(e, &seg))
                    },
                    Ok(o) => Ok(o),
                }
            }
        } else {
            // the position is beyond the bounds: grow, then build the leaf
            let mut grown: Vec<Value>;
            if i < 0 {
                let mag128: i128 = -(i as i128);
                let mag = mag128 as usize;
                let abs = mag - 1;
                let pads = abs - len;
                grown = Vec::new();
                let mut p: usize = 0;
                while p < pads
                    invariant
                        0 <= p <= pads,
                        grown@.len() == p,
                        elems_view(grown@) == nulls(p as int),
                    decreases pads - p,
                {
                    let ghost gpre = grown@;
                    grown.push(Value::Null);
                    proof {
                        lemma_elems_view_push(gpre, Value::Null);
                        assert(nulls(p as int).push(ValueView::Null) =~= nulls(p as int + 1));
                    }
                    p = p + 1;
                }
                let ghost pre = grown@;
                let ghost olda = array@;
                grown.append(array);
                proof {
                    assert(grown@ == pre + olda);
                    lemma_elems_view_concat(pre, olda);
                    assert(elems_view(grown@) == nulls(pads as int) + a0);
                    assert(nulls(pads as int) == nulls(-(i as int) - 1 - a0.len()));
                }
            } else {
                let tgt = i as usize;
                let ghost olda = array@;
                while array.len() < tgt
                    invariant
                        olda == old(array)@,
                        a0 == elems_view(old(array)@),
                        olda.len() <= tgt,
                        olda.len() <= array@.len() <= tgt,
                        elems_view(array@) == a0 + nulls(array@.len() - olda.len()),
                    decreases tgt - array@.len(),
                {
                    let ghost before = array@;
                    array.push(Value::Null);
                    proof {
                        lemma_elems_view_push(before, Value::Null);
                        assert((a0 + nulls(before.len() - olda.len())).push(ValueView::Null) =~= a0
                            + nulls(array@.len() - olda.len()));
                    }
                }
                grown = Vec::new();
                core::mem::swap(&mut grown, array);
            }
            let ghost gv = elems_view(grown@);
            proof {
                if i < 0 {
                    assert(gv == nulls(-(i as int) - 1 - a0.len()) + a0);
                } else {
                    assert(grown@.len() == i as int);
                    assert(gv == a0 + nulls(i as int - a0.len()));
                }
                assert(gv == if i < 0 {
                    nulls(-(i as int) - 1 - a0.len()) + a0
                } else {
                    a0 + nulls(i as int - a0.len())
                });
                assert forall|l: int| 0 <= l < gv.len() implies vv_wf(#[trigger] gv[l]) by {
                    if i < 0 {
                        let padn = -(i as int) - 1 - a0.len();
                        if l >= padn {
                            assert(gv[l] == a0[l - padn]);
                        } else {
                            assert(gv[l] == ValueView::Null);
                        }
                    } else {
                        if l < a0.len() {
                            assert(gv[l] == a0[l]);
                        } else {
                            assert(gv[l] == ValueView::Null);
                        }
                    }
                }
                lemma_elems_wf(gv);
            }
            if rest.len() == 0 {
                let ghost gpre = grown@;
                if i < 0 {
                    grown.insert(0, value);
                    proof {
                        lemma_elems_view_insert(gpre, 0, value);
                        assert(elems_view(gpre).insert(0, x) =~= seq![x] + gv);
                    }
                } else {
                    grown.push(value);
                    proof {
                        lemma_elems_view_push(gpre, value);
                        assert(elems_view(gpre).push(x) =~= gv + seq![x]);
                    }
                }
                let ghost fin = grown@;
                *array = grown;
                proof {
                    lemma_elems_view(fin);
                    lemma_elems_wf(elems_view(fin));
                }
                return Ok(None);
            }
            proof {
                assert(rv[0] == rest@[0]@);
            }
            let mut inner: Value;
            let is_empty_coalesce = match &rest[0] {
                Segment::Coalesce(set) => set.len() == 0,
                _ => false,
            };
            if is_empty_coalesce {
                *array = grown;
                return Err(ValueError::EmptyCoalesceSubSegment);
            }
            inner = match &rest[0] {
                Segment::Index(_) => Value::Array(Vec::new()),
                _ => Value::Object(ValueMap::new()),
            };
            proof {
                assert(inner@ == fresh_container(rv[0]));
            }
            let res = inner.insert(rest, value);
            let ghost innerv = inner@;
            let ghost gpre = grown@;
            if i < 0 {
                grown.insert(0, inner);
                proof {
                    lemma_elems_view_insert(gpre, 0, grown@[0]);
                    assert(elems_view(gpre).insert(0, innerv) =~= seq![innerv] + gv);
                }
            } else {
                grown.push(inner);
                proof {
                    lemma_elems_view_push(gpre, grown@.last());
                    assert(elems_view(gpre).push(innerv) =~= gv + seq![innerv]);
                }
            }
            let ghost fin = grown@;
            *array = grown;
            proof {
                lemma_elems_view(fin);
                lemma_elems_wf(elems_view(fin));
            }
            let out = match res {
                Err(e) => {
                    match &rest[0] {
                        Segment::Index(_) => {
                            let seg = Segment::Index(i);
                            Err(prefix_error(e, &seg))
                        },
                        Segment::Field(f2) => {
                            let seg = Segment::Field(field_dup(f2));
                            Err(prefix_error(e, &seg))
                        },
                        Segment::Coalesce(set) => {
                            let d = fields_dup(set);
                            proof {
                                assert(d@.map_values(|ff: Field| ff@) =~= set@.map_values(
                                    |ff: Field| ff@,
                                ));
                            }
                            let seg = Segment::Coalesce(d);
                            Err(prefix_error(e, &seg))
                        },
                    }
                },
                Ok(o) => Ok(o),
            };
            out
        }
    }
}

} // verus!
