//! Deleting: `remove`, with optional cascade pruning of emptied containers.

use crate::errors::{res_view, ValueError};
use crate::model::{contains_spec, remove_coalesce, remove_spec};
use crate::path::{
    cc, lemma_cc_push_front, make_candidate, path_to_vec, path_view, Field, SegView, Segment,
};
use crate::value::{
    elems_view, lemma_elems_view, lemma_elems_view_remove, lemma_elems_view_update, lemma_elems_wf,
    lemma_find_wf, lemma_remove_after_upsert, lemma_remove_key_wf, lemma_upsert_wf, map_find,
    value_view, Value, vv_wf,
};
use vstd::prelude::*;
use vstd::slice::slice_subrange;

verus! {

impl Value {
    /// Removes the value the path addresses, returning it.
    ///
    /// Removal always happens one level up, in the parent container: a path
    /// with no segments asks the node to remove itself and fails with
    /// `RemovingSelf` — only a parent can do that — and a path that ends on
    /// a scalar node fails the same way when one segment is left, or with a
    /// primitive-descent error when more remain. With `prune`, a child
    /// container left empty by the removal is removed from its parent too,
    /// and the check at every frame cascades the pruning upward. An array
    /// element is removed outright, shifting those after it down.
    #[verifier::rlimit(60)]
    pub fn remove(&mut self, path: &[Segment], prune: bool) -> (r: Result<
        Option<Value>,
        ValueError,
    >)
        requires
            vv_wf(old(self)@),
        ensures
            ({
                let (t2, res) = remove_spec(old(self)@, path_view(path@), prune);
                &&& final(self)@ == t2
                &&& res_view(r) == res
                &&& vv_wf(final(self)@)
                &&& (r matches Ok(Some(p)) ==> vv_wf(p@))
            }),
        decreases cc(path_view(path@)), path@.len(), 4int,
    {
        let ghost pv = path_view(path@);
        if path.len() == 0 {
            return Err(ValueError::RemovingSelf);
        }
        let rest = slice_subrange(path, 1, path.len());
        let ghost rv = path_view(rest@);
        proof {
            assert(pv.drop_first() =~= rv);
            assert(pv[0] == path@[0]@);
        }
        if self.is_primitive() {
            if rest.len() == 0 {
                return Err(ValueError::RemovingSelf);
            }
            let target = path_to_vec(path);
            let prim: Vec<Segment> = Vec::new();
            proof {
                assert(path_view(prim@) =~= Seq::<SegView>::empty());
            }
            return Err(
                ValueError::PrimitiveDescent {
                    primitive_at: prim,
                    original_target: target,
                    original_value: None,
                },
            );
        }
        if let Segment::Coalesce(alts) = &path[0] {
            let ghost av = alts@.map_values(|f: Field| f@);
            proof {
                assert(pv[0] == SegView::Coalesce(av));
                assert(cc(pv) == 1 + cc(rv));
            }
            let n = alts.len();
            let mut j: usize = 0;
            let mut found = false;
            while j < n && !found
                invariant
                    0 <= j <= n,
                    n == alts@.len(),
                    av == alts@.map_values(|f: Field| f@),
                    rv == path_view(rest@),
                    *self == *old(self),
                    vv_wf(self@),
                    cc(pv) == 1 + cc(rv),
                    pv.len() == rv.len() + 1,
                    pv[0] == SegView::Coalesce(av),
                    pv.drop_first() == rv,
                    pv == path_view(path@),
                    !found ==> remove_coalesce(self@, av, 0, rv, prune) == remove_coalesce(
                        self@,
                        av,
                        j as int,
                        rv,
                        prune,
                    ),
                    found ==> j < n && contains_spec(
                        self@,
                        seq![SegView::Field(av[j as int])] + rv,
                    ) && remove_coalesce(self@, av, 0, rv, prune) == remove_spec(
                        self@,
                        seq![SegView::Field(av[j as int])] + rv,
                        prune,
                    ),
                decreases n - j, (if found {
                    0int
                } else {
                    1int
                }),
            {
                let cand = make_candidate(&alts[j], rest);
                proof {
                    assert(av[j as int] == alts@[j as int]@);
                    lemma_cc_push_front(SegView::Field(av[j as int]), rv);
                }
                if self.contains(cand.as_slice()) {
                    found = true;
                } else {
                    j = j + 1;
                }
            }
            if found {
                let cand = make_candidate(&alts[j], rest);
                proof {
                    assert(av[j as int] == alts@[j as int]@);
                    lemma_cc_push_front(SegView::Field(av[j as int]), rv);
                    assert(path_view(cand@) == seq![SegView::Field(av[j as int])] + rv);
                    assert(remove_spec(self@, pv, prune) == remove_coalesce(
                        self@,
                        av,
                        0,
                        rv,
                        prune,
                    ));
                }
                return self.remove(cand.as_slice(), prune);
            } else {
                proof {
                    assert(remove_spec(self@, pv, prune) == remove_coalesce(
                        self@,
                        av,
                        0,
                        rv,
                        prune,
                    ));
                }
                return Ok(None);
            }
        }
        match (&path[0], &mut *self) {
            (Segment::Field(f), Value::Object(m)) => {
                let ghost m0 = m@;
                let ghost k = f@.name;
                if rest.len() == 0 {
                    proof {
                        lemma_remove_key_wf(m0, k);
                        if map_find(m0, k) is Some {
                            lemma_find_wf(m0, k);
                        }
                    }
                    let prev = m.remove_entry(f.name.as_str());
                    Ok(prev)
                } else {
                    let present = match m.get(f.name.as_str()) {
                        Some(_) => true,
                        None => false,
                    };
                    if !present {
                        Ok(None)
                    } else {
                        proof {
                            lemma_find_wf(m0, k);
                        }
                        let child = m.get_mut(f.name.as_str());
                        let ret = child.remove(rest, prune);
                        let child_empty = child.is_empty();
                        proof {
                            let c = map_find(m0, k)->Some_0;
                            let (c2, _r0) = remove_spec(c, rv, prune);
                            lemma_upsert_wf(m0, k, c2);
                        }
                        if child_empty && prune {
                            proof {
                                let c = map_find(m0, k)->Some_0;
                                let (c2, _r0) = remove_spec(c, rv, prune);
                                lemma_remove_after_upsert(m0, k, c2);
                                lemma_remove_key_wf(m0, k);
                            }
                            m.remove_entry(f.name.as_str());
                        }
                        ret
                    }
                }
            },
            (Segment::Index(_), Value::Object(_)) => Ok(None),
            (Segment::Index(i), Value::Array(a)) => {
                proof {
                    lemma_elems_view(a@);
                    lemma_elems_wf(elems_view(a@));
                }
                let ghost a0 = elems_view(a@);
                let len = a.len();
                let pos: i128 = if *i < 0 {
                    len as i128 + (*i as i128)
                } else {
                    *i as i128
                };
                if *i < 0 && pos < 0 {
                    return Ok(None);
                }
                if rest.len() == 0 {
                    if pos < len as i128 {
                        let idx = pos as usize;
                        let ghost apre = a@;
                        let prev = a.remove(idx);
                        proof {
                            lemma_elems_view_remove(apre, idx as int);
                            assert forall|l: int| 0 <= l < a0.remove(idx as int).len() implies
                                vv_wf(#[trigger] a0.remove(idx as int)[l]) by {
                                if l < idx as int {
                                    assert(a0.remove(idx as int)[l] == a0[l]);
                                } else {
                                    assert(a0.remove(idx as int)[l] == a0[l + 1]);
                                }
                            }
                            lemma_elems_wf(a0.remove(idx as int));
                        }
                        Ok(Some(prev))
                    } else {
                        Ok(None)
                    }
                } else {
                    if pos < len as i128 {
                        let idx = pos as usize;
                        let ghost apre = a@;
                        let child = &mut a[idx];
                        let ret = child.remove(rest, prune);
                        let child_empty = child.is_empty();
                        proof {
                            let c2 = remove_spec(value_view(apre[idx as int]), rv, prune).0;
                            assert(value_view(a@[idx as int]) == c2);
                            lemma_elems_view_update(apre, idx as int, a@[idx as int]);
                            assert(elems_view(a@) == a0.update(idx as int, c2));
                            assert forall|l: int| 0 <= l < a0.update(idx as int, c2).len() implies
                                vv_wf(#[trigger] a0.update(idx as int, c2)[l]) by {
                                if l != idx as int {
                                    assert(a0.update(idx as int, c2)[l] == a0[l]);
                                }
                            }
                            lemma_elems_wf(a0.update(idx as int, c2));
                        }
                        if child_empty && prune {
                            let ghost amid = a@;
                            let ghost c2 = remove_spec(value_view(apre[idx as int]), rv, prune).0;
                            a.remove(idx);
                            proof {
                                lemma_elems_view_remove(amid, idx as int);
                                assert(a0.update(idx as int, c2).remove(idx as int) =~= a0.remove(
                                    idx as int,
                                ));
                                assert forall|l: int| 0 <= l < a0.remove(idx as int).len() implies
                                    vv_wf(#[trigger] a0.remove(idx as int)[l]) by {
                                    if l < idx as int {
                                        assert(a0.remove(idx as int)[l] == a0[l]);
                                    } else {
                                        assert(a0.remove(idx as int)[l] == a0[l + 1]);
                                    }
                                }
                                lemma_elems_wf(a0.remove(idx as int));
                            }
                        }
                        ret
                    } else {
                        Ok(None)
                    }
                }
            },
            (Segment::Field(_), Value::Array(_)) => Ok(None),
            (_, _) => {
                proof {
                    assert(false);
                }
                Ok(None)
            },
        }
    }
}

} // verus!
