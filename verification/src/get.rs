//! Reading: `get` and `contains`.

use crate::errors::ValueError;
use crate::model::{contains_spec, get_coalesce, get_spec};
use crate::path::{cc, lemma_cc_push_front, path_view, make_candidate, SegView, Segment};
use crate::value::{lemma_elems_view, Value};
use vstd::prelude::*;
use vstd::slice::slice_subrange;

verus! {

impl Value {
    /// Reads the value the path addresses, borrowing it.
    ///
    /// A read never fails: a wrong container shape, an absent key, an index
    /// out of bounds and any descent into a scalar are all ordinary
    /// "not found" outcomes.
    pub fn get(&self, path: &[Segment]) -> (r: Result<Option<&Value>, ValueError>)
        ensures
            match r {
                Ok(Some(x)) => get_spec(self@, path_view(path@)) == Some(x@),
                Ok(None) => get_spec(self@, path_view(path@)) is None,
                Err(_) => false,
            },
        decreases cc(path_view(path@)), path@.len(), 2int,
    {
        let ghost pv = path_view(path@);
        if path.len() == 0 {
            return Ok(Some(self));
        }
        let rest = slice_subrange(path, 1, path.len());
        proof {
            assert(pv.drop_first() =~= path_view(rest@));
            assert(pv[0] == path@[0]@);
        }
        match (&path[0], self) {
            (Segment::Coalesce(alts), _) => {
                let ghost av = alts@.map_values(|f: crate::path::Field| f@);
                let ghost rv = path_view(rest@);
                proof {
                    assert(pv[0] == SegView::Coalesce(av));
                    assert(pv.drop_first() == rv);
                    assert(cc(pv) == 1 + cc(rv));
                }
                let n = alts.len();
                let mut j: usize = 0;
                while j < n
                    invariant
                        0 <= j <= n,
                        n == alts@.len(),
                        av == alts@.map_values(|f: crate::path::Field| f@),
                        rv == path_view(rest@),
                        pv == path_view(path@),
                        cc(pv) == 1 + cc(rv),
                        pv.len() == rv.len() + 1,
                        pv[0] == SegView::Coalesce(av),
                        pv.drop_first() == rv,
                        get_coalesce(self@, av, 0, rv) == get_coalesce(self@, av, j as int, rv),
                    decreases n - j,
                {
                    let cand = make_candidate(&alts[j], rest);
                    proof {
                        assert(av[j as int] == alts@[j as int]@);
                        lemma_cc_push_front(SegView::Field(av[j as int]), rv);
                    }
                    if self.contains(cand.as_slice()) {
                        proof {
                            assert(path_view(cand@) == seq![SegView::Field(av[j as int])] + rv);
                            assert(contains_spec(self@, path_view(cand@)));
                            assert(get_coalesce(self@, av, j as int, rv) == get_spec(
                                self@,
                                path_view(cand@),
                            ));
                            assert(get_spec(self@, pv) == get_coalesce(self@, av, 0, rv));
                        }
                        return self.get(cand.as_slice());
                    }
                    j = j + 1;
                }
                Ok(None)
            },
            (Segment::Field(f), Value::Object(m)) => {
                match m.get(f.name.as_str()) {
                    Some(c) => c.get(rest),
                    None => Ok(None),
                }
            },
            (Segment::Index(_), Value::Object(_)) => Ok(None),
            (Segment::Index(i), Value::Array(a)) => {
                proof {
                    lemma_elems_view(a@);
                }
                let len = a.len();
                let pos: i128 = if *i < 0 {
                    len as i128 + (*i as i128)
                } else {
                    *i as i128
                };
                if 0 <= pos && pos < len as i128 {
                    let idx = pos as usize;
                    let c = &a[idx];
                    c.get(rest)
                } else {
                    Ok(None)
                }
            },
            (Segment::Field(_), Value::Array(_)) => Ok(None),
            (_, _) => Ok(None),
        }
    }

    /// Whether the path addresses a present value.
    pub fn contains(&self, path: &[Segment]) -> (r: bool)
        ensures
            r == contains_spec(self@, path_view(path@)),
        decreases cc(path_view(path@)), path@.len(), 3int,
    {
        match self.get(path) {
            Ok(Some(_)) => true,
            _ => false,
        }
    }
}

} // verus!
