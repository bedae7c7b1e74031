//! Laws of the engine, proved of its mathematical model.

use crate::errors::ErrView;
use crate::model::{
    coerce, contains_spec, fresh_container, get_coalesce, get_spec, insert_coalesce, insert_spec,
    is_scalar, remove_coalesce, remove_spec, resolve_index,
};
use crate::path::{FieldView, SegView};
use crate::value::{
    lemma_find_remove_other, lemma_find_upsert, lemma_find_upsert_other, map_find, map_upsert,
    ValueView,
};
use vstd::prelude::*;

verus! {

/// A path without coalesce segments.
pub open spec fn coalesce_free(p: Seq<SegView>) -> bool {
    forall|k: int| 0 <= k < p.len() ==> !(#[trigger] p[k] is Coalesce)
}

/// The path's first step does not fit the node: an index against a map or a
/// field against an array. Such a write is a no-op, so nothing round-trips.
pub open spec fn shape_mismatch(v: ValueView, p: Seq<SegView>) -> bool {
    p.len() > 0 && ((v is Object && p[0] is Index) || (v is Array && p[0] is Field))
}

/// Reading negative indexes: against an array of length `n`, reading `[-k]`
/// is reading `[n - k]` for `1 <= k <= n`, and "not found" past the front.
pub proof fn lemma_negative_index_equivalence(a: Seq<ValueView>, k: int)
    requires
        1 <= k,
    ensures
        k <= a.len() ==> get_spec(ValueView::Array(a), seq![SegView::Index(-k)]) == get_spec(
            ValueView::Array(a),
            seq![SegView::Index(a.len() - k)],
        ),
        k > a.len() ==> get_spec(ValueView::Array(a), seq![SegView::Index(-k)]) is None,
{
    let p1 = seq![SegView::Index(-k)];
    let p2 = seq![SegView::Index(a.len() - k)];
    assert(p1.drop_first() =~= Seq::<SegView>::empty());
    assert(p2.drop_first() =~= Seq::<SegView>::empty());
    if k <= a.len() {
        let idx = a.len() - k;
        assert(resolve_index(-k, a.len() as int) == idx);
        assert(resolve_index(idx, a.len() as int) == idx);
        assert(get_spec(ValueView::Array(a), p1) == get_spec(a[idx], p1.drop_first()));
        assert(get_spec(ValueView::Array(a), p2) == get_spec(a[idx], p2.drop_first()));
    }
}

/// Round trip, the write-then-read half: a successful insert along a
/// coalesce-free path whose first step fits the root is read back exactly.
pub proof fn lemma_insert_then_get(v: ValueView, p: Seq<SegView>, x: ValueView)
    requires
        coalesce_free(p),
        !shape_mismatch(v, p),
        insert_spec(v, p, x).1 is Ok,
    ensures
        get_spec(insert_spec(v, p, x).0, p) == Some(x),
    decreases p.len(),
{
    let (t2, res) = insert_spec(v, p, x);
    if p.len() == 0 {
        assert(get_spec(t2, p) == Some(x));
    } else {
        let rest = p.drop_first();
        assert forall|kk: int| 0 <= kk < rest.len() implies !(#[trigger] rest[kk] is Coalesce) by {
            assert(rest[kk] == p[kk + 1]);
        }
        assert(!is_scalar(v));
        match p[0] {
            SegView::Field(f) => {
                let m = v->Object_0;
                let k = f.name;
                if rest.len() == 0 {
                    lemma_find_upsert(m, k, x);
                    assert(t2 == ValueView::Object(map_upsert(m, k, x)));
                    assert(get_spec(t2, p) == get_spec(x, rest));
                } else {
                    let c0 = match map_find(m, k) {
                        Some(c) => coerce(c, rest[0]),
                        None => fresh_container(rest[0]),
                    };
                    let (c2, r0) = insert_spec(c0, rest, x);
                    assert(r0 is Ok);
                    assert(!is_scalar(c0));
                    assert(!shape_mismatch(c0, rest));
                    lemma_insert_then_get(c0, rest, x);
                    lemma_find_upsert(m, k, c2);
                    assert(t2 == ValueView::Object(map_upsert(m, k, c2)));
                    assert(get_spec(t2, p) == get_spec(c2, rest));
                }
            },
            SegView::Index(i) => {
                let a = v->Array_0;
                let len = a.len() as int;
                let idx = resolve_index(i, len);
                if 0 <= idx < len {
                    if rest.len() == 0 {
                        let a2 = a.update(idx, x);
                        assert(t2 == ValueView::Array(a2));
                        assert(resolve_index(i, a2.len() as int) == idx);
                        assert(get_spec(t2, p) == get_spec(a2[idx], rest));
                    } else {
                        let c0 = coerce(a[idx], rest[0]);
                        let (c2, r0) = insert_spec(c0, rest, x);
                        assert(r0 is Ok);
                        assert(!is_scalar(c0));
                        assert(!shape_mismatch(c0, rest));
                        lemma_insert_then_get(c0, rest, x);
                        let a2 = a.update(idx, c2);
                        assert(t2 == ValueView::Array(a2));
                        assert(resolve_index(i, a2.len() as int) == idx);
                        assert(get_spec(t2, p) == get_spec(a2[idx], rest));
                    }
                } else {
                    let grown = if i < 0 {
                        crate::model::nulls(-i - 1 - len) + a
                    } else {
                        a + crate::model::nulls(i - len)
                    };
                    if rest.len() == 0 {
                        if i < 0 {
                            let a2 = seq![x] + grown;
                            assert(t2 == ValueView::Array(a2));
                            assert(a2.len() == -i);
                            assert(resolve_index(i, a2.len() as int) == 0);
                            assert(a2[0] == x);
                            assert(get_spec(t2, p) == get_spec(a2[0], rest));
                        } else {
                            let a2 = grown + seq![x];
                            assert(t2 == ValueView::Array(a2));
                            assert(a2.len() == i + 1);
                            assert(resolve_index(i, a2.len() as int) == i);
                            assert(a2[i] == x);
                            assert(get_spec(t2, p) == get_spec(a2[i], rest));
                        }
                    } else {
                        assert(!(rest[0] is Coalesce));
                        let leaf0 = fresh_container(rest[0]);
                        let (c2, r0) = insert_spec(leaf0, rest, x);
                        assert(r0 is Ok);
                        assert(!is_scalar(leaf0));
                        assert(!shape_mismatch(leaf0, rest));
                        lemma_insert_then_get(leaf0, rest, x);
                        if i < 0 {
                            let a2 = seq![c2] + grown;
                            assert(t2 == ValueView::Array(a2));
                            assert(a2.len() == -i);
                            assert(resolve_index(i, a2.len() as int) == 0);
                            assert(a2[0] == c2);
                            assert(get_spec(t2, p) == get_spec(a2[0], rest));
                        } else {
                            let a2 = grown + seq![c2];
                            assert(t2 == ValueView::Array(a2));
                            assert(a2.len() == i + 1);
                            assert(resolve_index(i, a2.len() as int) == i);
                            assert(a2[i] == c2);
                            assert(get_spec(t2, p) == get_spec(a2[i], rest));
                        }
                    }
                }
            },
            SegView::Coalesce(_) => {
                assert(false);
            },
        }
    }
}

/// Round trip, the read-then-remove half: a value a coalesce-free path
/// addresses is what a removal along that path returns.
pub proof fn lemma_get_then_remove(v: ValueView, p: Seq<SegView>, x: ValueView, prune: bool)
    requires
        coalesce_free(p),
        p.len() > 0,
        get_spec(v, p) == Some(x),
    ensures
        remove_spec(v, p, prune).1 == Ok::<Option<ValueView>, ErrView>(Some(x)),
    decreases p.len(),
{
    let rest = p.drop_first();
    assert forall|kk: int| 0 <= kk < rest.len() implies !(#[trigger] rest[kk] is Coalesce) by {
        assert(rest[kk] == p[kk + 1]);
    }
    match p[0] {
        SegView::Field(f) => {
            assert(v is Object);
            let m = v->Object_0;
            let k = f.name;
            assert(map_find(m, k) is Some);
            let c = map_find(m, k)->Some_0;
            if rest.len() == 0 {
                assert(get_spec(v, p) == Some(c));
            } else {
                assert(get_spec(c, rest) == Some(x));
                lemma_get_then_remove(c, rest, x, prune);
            }
        },
        SegView::Index(i) => {
            assert(v is Array);
            let a = v->Array_0;
            let len = a.len() as int;
            let idx = resolve_index(i, len);
            assert(0 <= idx < len);
            if rest.len() == 0 {
                assert(get_spec(v, p) == Some(a[idx]));
            } else {
                assert(get_spec(a[idx], rest) == Some(x));
                lemma_get_then_remove(a[idx], rest, x, prune);
            }
        },
        SegView::Coalesce(_) => {
            assert(false);
        },
    }
}

/// Round trip: inserting a value along a coalesce-free path whose first
/// step fits the root, then reading that path, yields the value back; a
/// removal along the same path returns it once more.
pub proof fn lemma_round_trip(v: ValueView, p: Seq<SegView>, x: ValueView)
    requires
        coalesce_free(p),
        !shape_mismatch(v, p),
        p.len() > 0,
        insert_spec(v, p, x).1 is Ok,
    ensures
        get_spec(insert_spec(v, p, x).0, p) == Some(x),
        remove_spec(insert_spec(v, p, x).0, p, false).1 == Ok::<Option<ValueView>, ErrView>(
            Some(x),
        ),
{
    lemma_insert_then_get(v, p, x);
    lemma_get_then_remove(insert_spec(v, p, x).0, p, x, false);
}

/// Removing a field path without pruning leaves every sibling key of the
/// root untouched.
pub proof fn lemma_remove_keeps_siblings(
    m: Seq<(Seq<u8>, ValueView)>,
    f: FieldView,
    rest: Seq<SegView>,
    k2: Seq<u8>,
)
    requires
        k2 != f.name,
    ensures
        ({
            let (t2, _res) = remove_spec(ValueView::Object(m), seq![SegView::Field(f)] + rest, false);
            t2 is Object && map_find(t2->Object_0, k2) == map_find(m, k2)
        }),
{
    let p = seq![SegView::Field(f)] + rest;
    assert(p[0] == SegView::Field(f));
    assert(p.drop_first() =~= rest);
    let (t2, _res) = remove_spec(ValueView::Object(m), p, false);
    if rest.len() == 0 {
        lemma_find_remove_other(m, f.name, k2);
    } else {
        match map_find(m, f.name) {
            None => {
            },
            Some(c) => {
                let (c2, _r0) = remove_spec(c, rest, false);
                lemma_find_upsert_other(m, f.name, c2, k2);
            },
        }
    }
}

/// Coalesce resolution order for reads: the first present alternative wins;
/// with no alternative present the read is "not found".
pub proof fn lemma_coalesce_get(
    v: ValueView,
    a: FieldView,
    b: FieldView,
    rest: Seq<SegView>,
)
    ensures
        contains_spec(v, seq![SegView::Field(a)] + rest) ==> get_spec(
            v,
            seq![SegView::Coalesce(seq![a, b])] + rest,
        ) == get_spec(v, seq![SegView::Field(a)] + rest),
        !contains_spec(v, seq![SegView::Field(a)] + rest) && contains_spec(
            v,
            seq![SegView::Field(b)] + rest,
        ) ==> get_spec(v, seq![SegView::Coalesce(seq![a, b])] + rest) == get_spec(
            v,
            seq![SegView::Field(b)] + rest,
        ),
        !contains_spec(v, seq![SegView::Field(a)] + rest) && !contains_spec(
            v,
            seq![SegView::Field(b)] + rest,
        ) ==> get_spec(v, seq![SegView::Coalesce(seq![a, b])] + rest) is None,
{
    let alts = seq![a, b];
    let p = seq![SegView::Coalesce(alts)] + rest;
    assert(p[0] == SegView::Coalesce(alts));
    assert(p.drop_first() =~= rest);
    assert(get_spec(v, p) == get_coalesce(v, alts, 0, rest));
    assert(alts[0] == a);
    assert(alts[1] == b);
    let ca = seq![SegView::Field(a)] + rest;
    let cb = seq![SegView::Field(b)] + rest;
    assert(get_coalesce(v, alts, 0, rest) == if get_spec(v, ca) is Some {
        get_spec(v, ca)
    } else {
        get_coalesce(v, alts, 1, rest)
    });
    assert(get_coalesce(v, alts, 1, rest) == if get_spec(v, cb) is Some {
        get_spec(v, cb)
    } else {
        get_coalesce(v, alts, 2, rest)
    });
    assert(get_coalesce(v, alts, 2, rest) is None);
}

/// Coalesce resolution order for removals: the first present alternative is
/// the one removed; with none present the removal is a no-op.
pub proof fn lemma_coalesce_remove(
    v: ValueView,
    a: FieldView,
    b: FieldView,
    rest: Seq<SegView>,
    prune: bool,
)
    requires
        !is_scalar(v),
    ensures
        contains_spec(v, seq![SegView::Field(a)] + rest) ==> remove_spec(
            v,
            seq![SegView::Coalesce(seq![a, b])] + rest,
            prune,
        ) == remove_spec(v, seq![SegView::Field(a)] + rest, prune),
        !contains_spec(v, seq![SegView::Field(a)] + rest) && contains_spec(
            v,
            seq![SegView::Field(b)] + rest,
        ) ==> remove_spec(v, seq![SegView::Coalesce(seq![a, b])] + rest, prune) == remove_spec(
            v,
            seq![SegView::Field(b)] + rest,
            prune,
        ),
        !contains_spec(v, seq![SegView::Field(a)] + rest) && !contains_spec(
            v,
            seq![SegView::Field(b)] + rest,
        ) ==> remove_spec(v, seq![SegView::Coalesce(seq![a, b])] + rest, prune) == (
            v,
            Ok::<Option<ValueView>, ErrView>(None),
        ),
{
    let alts = seq![a, b];
    let p = seq![SegView::Coalesce(alts)] + rest;
    assert(p[0] == SegView::Coalesce(alts));
    assert(p.drop_first() =~= rest);
    assert(p.len() == rest.len() + 1);
    assert(remove_spec(v, p, prune) == remove_coalesce(v, alts, 0, rest, prune));
    assert(alts[0] == a);
    assert(alts[1] == b);
    let ca = seq![SegView::Field(a)] + rest;
    let cb = seq![SegView::Field(b)] + rest;
    assert(remove_coalesce(v, alts, 0, rest, prune) == if contains_spec(v, ca) {
        remove_spec(v, ca, prune)
    } else {
        remove_coalesce(v, alts, 1, rest, prune)
    });
    assert(remove_coalesce(v, alts, 1, rest, prune) == if contains_spec(v, cb) {
        remove_spec(v, cb, prune)
    } else {
        remove_coalesce(v, alts, 2, rest, prune)
    });
    assert(remove_coalesce(v, alts, 2, rest, prune) == (
        v,
        Ok::<Option<ValueView>, ErrView>(None),
    ));
}

/// Coalesce insertion order: the write goes to the first alternative that is
/// not already present — the first one when none is — and is a no-op when
/// every alternative is present. This holds of container roots; against a
/// scalar root the insert fails instead.
pub proof fn lemma_coalesce_insert(
    v: ValueView,
    a: FieldView,
    b: FieldView,
    rest: Seq<SegView>,
    x: ValueView,
)
    requires
        !is_scalar(v),
    ensures
        !contains_spec(v, seq![SegView::Field(a)] + rest) ==> insert_spec(
            v,
            seq![SegView::Coalesce(seq![a, b])] + rest,
            x,
        ) == insert_spec(v, seq![SegView::Field(a)] + rest, x),
        contains_spec(v, seq![SegView::Field(a)] + rest) && !contains_spec(
            v,
            seq![SegView::Field(b)] + rest,
        ) ==> insert_spec(v, seq![SegView::Coalesce(seq![a, b])] + rest, x) == insert_spec(
            v,
            seq![SegView::Field(b)] + rest,
            x,
        ),
        contains_spec(v, seq![SegView::Field(a)] + rest) && contains_spec(
            v,
            seq![SegView::Field(b)] + rest,
        ) ==> insert_spec(v, seq![SegView::Coalesce(seq![a, b])] + rest, x) == (
            v,
            Ok::<Option<ValueView>, ErrView>(None),
        ),
{
    let alts = seq![a, b];
    let p = seq![SegView::Coalesce(alts)] + rest;
    assert(p[0] == SegView::Coalesce(alts));
    assert(p.drop_first() =~= rest);
    assert(p.len() == rest.len() + 1);
    assert(insert_spec(v, p, x) == insert_coalesce(v, alts, 0, rest, x));
    assert(alts[0] == a);
    assert(alts[1] == b);
    let ca = seq![SegView::Field(a)] + rest;
    let cb = seq![SegView::Field(b)] + rest;
    assert(insert_coalesce(v, alts, 0, rest, x) == if !contains_spec(v, ca) {
        insert_spec(v, ca, x)
    } else {
        insert_coalesce(v, alts, 1, rest, x)
    });
    assert(insert_coalesce(v, alts, 1, rest, x) == if !contains_spec(v, cb) {
        insert_spec(v, cb, x)
    } else {
        insert_coalesce(v, alts, 2, rest, x)
    });
    assert(insert_coalesce(v, alts, 2, rest, x) == (
        v,
        Ok::<Option<ValueView>, ErrView>(None),
    ));
}

} // verus!

verus! {

/// Whether a value is an empty container: a map or array with no entries.
pub open spec fn is_empty_container(v: ValueView) -> bool {
    (v is Object && v->Object_0.len() == 0) || (v is Array && v->Array_0.len() == 0)
}

/// Writing into empty containers cannot fail: every entry on the way down
/// is created fresh, so no scalar can stand in the way.
pub proof fn lemma_insert_into_empty_succeeds(v: ValueView, p: Seq<SegView>, x: ValueView)
    requires
        coalesce_free(p),
        !shape_mismatch(v, p),
        is_empty_container(v),
    ensures
        insert_spec(v, p, x).1 is Ok,
    decreases p.len(),
{
    if p.len() > 0 {
        let rest = p.drop_first();
        assert forall|kk: int| 0 <= kk < rest.len() implies !(#[trigger] rest[kk] is Coalesce) by {
            assert(rest[kk] == p[kk + 1]);
        }
        match p[0] {
            SegView::Field(f) => {
                let m = v->Object_0;
                if rest.len() > 0 {
                    assert(map_find(m, f.name) is None);
                    let c0 = fresh_container(rest[0]);
                    assert(!shape_mismatch(c0, rest));
                    lemma_insert_into_empty_succeeds(c0, rest, x);
                }
            },
            SegView::Index(i) => {
                let a = v->Array_0;
                assert(a.len() == 0);
                if rest.len() > 0 {
                    assert(!(rest[0] is Coalesce));
                    let leaf0 = fresh_container(rest[0]);
                    assert(!shape_mismatch(leaf0, rest));
                    lemma_insert_into_empty_succeeds(leaf0, rest, x);
                }
            },
            SegView::Coalesce(_) => {
                assert(false);
            },
        }
    }
}

/// Round trip from a fresh map root: inserting a value along any
/// coalesce-free path that starts with a field succeeds, reading the path
/// back yields the value, and removing it returns the value once more.
pub proof fn lemma_round_trip_fresh_root(p: Seq<SegView>, x: ValueView)
    requires
        coalesce_free(p),
        p.len() > 0,
        p[0] is Field,
    ensures
        ({
            let root = ValueView::Object(Seq::empty());
            let (t2, res) = insert_spec(root, p, x);
            &&& res is Ok
            &&& get_spec(t2, p) == Some(x)
            &&& remove_spec(t2, p, false).1 == Ok::<Option<ValueView>, ErrView>(Some(x))
        }),
{
    let root = ValueView::Object(Seq::empty());
    lemma_insert_into_empty_succeeds(root, p, x);
    lemma_round_trip(root, p, x);
}

} // verus!

verus! {

/// A fresh map root contains nothing: any field-led path reads as absent.
proof fn lemma_fresh_root_contains_nothing(f: FieldView, rest: Seq<SegView>)
    ensures
        !contains_spec(ValueView::Object(Seq::empty()), seq![SegView::Field(f)] + rest),
{
    let p = seq![SegView::Field(f)] + rest;
    assert(p[0] == SegView::Field(f));
    assert(map_find(Seq::<(Seq<u8>, ValueView)>::empty(), f.name) is None);
}

/// Round trip from a fresh map root through a top-level coalesce: the write
/// goes to the first alternative, and both the read and the removal resolve
/// to it, yielding the value back.
pub proof fn lemma_round_trip_fresh_root_coalesce(
    a: FieldView,
    b: FieldView,
    rest: Seq<SegView>,
    x: ValueView,
)
    requires
        coalesce_free(rest),
    ensures
        ({
            let root = ValueView::Object(Seq::empty());
            let p = seq![SegView::Coalesce(seq![a, b])] + rest;
            let cand = seq![SegView::Field(a)] + rest;
            let (t2, res) = insert_spec(root, p, x);
            &&& (t2, res) == insert_spec(root, cand, x)
            &&& res is Ok
            &&& get_spec(t2, p) == Some(x)
            &&& remove_spec(t2, p, false).1 == Ok::<Option<ValueView>, ErrView>(Some(x))
        }),
{
    let root = ValueView::Object(Seq::empty());
    let p = seq![SegView::Coalesce(seq![a, b])] + rest;
    let cand = seq![SegView::Field(a)] + rest;
    let cand_b = seq![SegView::Field(b)] + rest;
    lemma_fresh_root_contains_nothing(a, rest);
    lemma_coalesce_insert(root, a, b, rest, x);
    assert(insert_spec(root, p, x) == insert_spec(root, cand, x));
    assert forall|kk: int| 0 <= kk < cand.len() implies !(#[trigger] cand[kk] is Coalesce) by {
        if kk > 0 {
            assert(cand[kk] == rest[kk - 1]);
        }
    }
    lemma_insert_into_empty_succeeds(root, cand, x);
    lemma_insert_then_get(root, cand, x);
    let (t2, _res) = insert_spec(root, cand, x);
    lemma_coalesce_get(t2, a, b, rest);
    lemma_get_then_remove(t2, cand, x, false);
    assert(!is_scalar(t2));
    lemma_coalesce_remove(t2, a, b, rest, false);
}

} // verus!
