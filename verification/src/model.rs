//! The mathematical model of the path engine.
//!
//! These specification functions define exactly what `get`, `contains`,
//! `insert` and `remove` return and how they change the tree; the executable
//! engine is verified against them, and the library's laws are proved of
//! them.

use crate::errors::{prefix_res, ErrView};
use crate::path::{cc, lemma_cc_push_front, FieldView, SegView};
use crate::value::{
    map_find, map_remove_key, map_upsert, vv_is_empty, ValueView,
};
use vstd::prelude::*;

verus! {

/// A scalar is anything but a map or an array; `Null` counts as a scalar.
pub open spec fn is_scalar(v: ValueView) -> bool {
    !(v is Object) && !(v is Array)
}

/// Resolves an index against an array length: a negative index counts from
/// the end, `-1` being the last element.
pub open spec fn resolve_index(i: int, len: int) -> int {
    if i < 0 {
        len + i
    } else {
        i
    }
}

/// What reading path `p` against value `v` yields.
///
/// An exhausted path yields the node itself; a coalesce resolves to its first
/// present alternative; a field descends into a map, an index into an array,
/// and every mismatch — wrong container kind, absent key, index out of
/// bounds, any segment against a scalar — is an ordinary "not found".
pub open spec fn get_spec(v: ValueView, p: Seq<SegView>) -> Option<ValueView>
    decreases cc(p), p.len(), 0int,
{
    if p.len() == 0 {
        Some(v)
    } else {
        match p[0] {
            SegView::Coalesce(alts) => get_coalesce(v, alts, 0, p.drop_first()),
            SegView::Field(f) => match v {
                ValueView::Object(m) => match map_find(m, f.name) {
                    Some(c) => get_spec(c, p.drop_first()),
                    None => None,
                },
                _ => None,
            },
            SegView::Index(i) => match v {
                ValueView::Array(a) => {
                    let idx = resolve_index(i, a.len() as int);
                    if 0 <= idx < a.len() {
                        get_spec(a[idx], p.drop_first())
                    } else {
                        None
                    }
                },
                _ => None,
            },
        }
    }
}

/// Resolution of a coalesce read: the first alternative whose candidate path
/// (the alternative followed by the rest of the path) is present wins.
pub open spec fn get_coalesce(
    v: ValueView,
    alts: Seq<FieldView>,
    j: int,
    rest: Seq<SegView>,
) -> Option<ValueView>
    decreases cc(rest), rest.len() + 1, alts.len() - j + 1,
    when j >= 0
    via get_coalesce_decreases
{
    if j >= alts.len() {
        None
    } else {
        let cand = seq![SegView::Field(alts[j])] + rest;
        if get_spec(v, cand) is Some {
            get_spec(v, cand)
        } else {
            get_coalesce(v, alts, j + 1, rest)
        }
    }
}

#[via_fn]
proof fn get_coalesce_decreases(v: ValueView, alts: Seq<FieldView>, j: int, rest: Seq<SegView>) {
    if 0 <= j < alts.len() {
        lemma_cc_push_front(SegView::Field(alts[j]), rest);
    }
}

/// Whether the path addresses a present value.
pub open spec fn contains_spec(v: ValueView, p: Seq<SegView>) -> bool
    decreases cc(p), p.len(), 1int,
{
    get_spec(v, p) is Some
}

/// The empty container a fresh entry is created as: an array below an index
/// segment, a map below a field or coalesce segment.
pub open spec fn fresh_container(s: SegView) -> ValueView {
    match s {
        SegView::Index(_) => ValueView::Array(Seq::empty()),
        _ => ValueView::Object(Seq::empty()),
    }
}

/// Destructive coercion on write: an existing container entry that does not
/// match the kind the next segment needs is replaced by an empty container of
/// that kind, discarding its content. A scalar entry is left alone; the
/// descent into it then fails with a primitive-descent error.
pub open spec fn coerce(c: ValueView, next: SegView) -> ValueView {
    if c is Object || c is Array {
        match next {
            SegView::Index(_) => if c is Array {
                c
            } else {
                ValueView::Array(Seq::empty())
            },
            _ => if c is Object {
                c
            } else {
                ValueView::Object(Seq::empty())
            },
        }
    } else {
        c
    }
}

/// A run of `Null` padding.
pub open spec fn nulls(n: int) -> Seq<ValueView> {
    Seq::new(
        if n >= 0 {
            n as nat
        } else {
            0
        },
        |_i: int| ValueView::Null,
    )
}

/// What inserting `x` at path `p` into value `v` yields: the new tree and the
/// result — the displaced previous value on success, or a typed failure.
pub open spec fn insert_spec(v: ValueView, p: Seq<SegView>, x: ValueView) -> (
    ValueView,
    Result<Option<ValueView>, ErrView>,
)
    decreases cc(p), p.len(), 2int,
{
    if p.len() == 0 {
        (x, Ok(Some(v)))
    } else if is_scalar(v) {
        (
            v,
            Err(
                ErrView::PrimitiveDescent {
                    primitive_at: Seq::empty(),
                    original_target: p,
                    original_value: Some(x),
                },
            ),
        )
    } else {
        match p[0] {
            SegView::Coalesce(alts) => insert_coalesce(v, alts, 0, p.drop_first(), x),
            SegView::Field(f) => match v {
                ValueView::Object(m) => insert_map_spec(m, f, p.drop_first(), x),
                _ => (v, Ok(None)),
            },
            SegView::Index(i) => match v {
                ValueView::Array(a) => insert_array_spec(a, i, p.drop_first(), x),
                _ => (v, Ok(None)),
            },
        }
    }
}

/// Insertion through a map: the last segment writes the entry; otherwise the
/// entry is fetched (coerced to the needed container kind) or created fresh,
/// and the insert recurses into it. A failure below is prefixed with this
/// frame's field segment.
pub open spec fn insert_map_spec(
    m: Seq<(Seq<u8>, ValueView)>,
    f: FieldView,
    rest: Seq<SegView>,
    x: ValueView,
) -> (ValueView, Result<Option<ValueView>, ErrView>)
    decreases cc(rest), rest.len(), 3int,
{
    if rest.len() == 0 {
        (ValueView::Object(map_upsert(m, f.name, x)), Ok(map_find(m, f.name)))
    } else {
        let c0 = match map_find(m, f.name) {
            Some(c) => coerce(c, rest[0]),
            None => fresh_container(rest[0]),
        };
        let (c2, r0) = insert_spec(c0, rest, x);
        (ValueView::Object(map_upsert(m, f.name, c2)), prefix_res(r0, SegView::Field(f)))
    }
}

/// Insertion through an array. A resolved in-bounds position is written or
/// descended into; a position beyond the bounds grows the array with `Null`
/// padding — to the right for a non-negative index, to the left when the
/// index is more negative than the length — and a fresh leaf is built from
/// the rest of the path. A coalesce group without alternatives directly below
/// the grown position fails, leaving the padding in place.
pub open spec fn insert_array_spec(a: Seq<ValueView>, i: int, rest: Seq<SegView>, x: ValueView) -> (
    ValueView,
    Result<Option<ValueView>, ErrView>,
)
    decreases cc(rest), rest.len(), 3int,
{
    let len = a.len() as int;
    let idx = resolve_index(i, len);
    if 0 <= idx < len {
        if rest.len() == 0 {
            (ValueView::Array(a.update(idx, x)), Ok(Some(a[idx])))
        } else {
            let c0 = coerce(a[idx], rest[0]);
            let (c2, r0) = insert_spec(c0, rest, x);
            (ValueView::Array(a.update(idx, c2)), prefix_res(r0, SegView::Index(i)))
        }
    } else {
        let grown = if i < 0 {
            nulls(-i - 1 - len) + a
        } else {
            a + nulls(i - len)
        };
        if rest.len() == 0 {
            (
                ValueView::Array(
                    if i < 0 {
                        seq![x] + grown
                    } else {
                        grown + seq![x]
                    },
                ),
                Ok(None),
            )
        } else {
            if rest[0] matches SegView::Coalesce(alts) && alts.len() == 0 {
                (ValueView::Array(grown), Err(ErrView::EmptyCoalesceSubSegment))
            } else {
                let (leaf, r0) = insert_spec(fresh_container(rest[0]), rest, x);
                let prefix_seg = match rest[0] {
                    SegView::Index(_) => SegView::Index(i),
                    other => other,
                };
                (
                    ValueView::Array(
                        if i < 0 {
                            seq![leaf] + grown
                        } else {
                            grown + seq![leaf]
                        },
                    ),
                    prefix_res(r0, prefix_seg),
                )
            }
        }
    }
}

/// Coalesce insertion: the first alternative whose candidate path is not
/// already present receives the insert; with every alternative present the
/// insert is a no-op.
pub open spec fn insert_coalesce(
    v: ValueView,
    alts: Seq<FieldView>,
    j: int,
    rest: Seq<SegView>,
    x: ValueView,
) -> (ValueView, Result<Option<ValueView>, ErrView>)
    decreases cc(rest), rest.len() + 1, alts.len() - j + 3,
    when j >= 0
    via insert_coalesce_decreases
{
    if j >= alts.len() {
        (v, Ok(None))
    } else {
        let cand = seq![SegView::Field(alts[j])] + rest;
        if !contains_spec(v, cand) {
            insert_spec(v, cand, x)
        } else {
            insert_coalesce(v, alts, j + 1, rest, x)
        }
    }
}

#[via_fn]
proof fn insert_coalesce_decreases(
    v: ValueView,
    alts: Seq<FieldView>,
    j: int,
    rest: Seq<SegView>,
    x: ValueView,
) {
    if 0 <= j < alts.len() {
        lemma_cc_push_front(SegView::Field(alts[j]), rest);
    }
}

/// What removing path `p` from value `v` yields: the new tree and the result
/// — the removed value, if any, or a typed failure.
///
/// Removal happens one level up, so a path with no segments at all is an
/// attempt to remove the node itself and fails with `RemovingSelf`, the tree
/// unchanged. A path ending at a scalar below the root fails too: with
/// exactly one segment left it is again an attempt at self-removal, with
/// more it is a primitive descent. With `prune`, a child container that is
/// empty after the removal is removed from its parent as well, and the check
/// at every frame cascades the pruning upward.
pub open spec fn remove_spec(v: ValueView, p: Seq<SegView>, prune: bool) -> (
    ValueView,
    Result<Option<ValueView>, ErrView>,
)
    decreases cc(p), p.len(), 2int,
{
    if p.len() == 0 {
        (v, Err(ErrView::RemovingSelf))
    } else if is_scalar(v) {
        if p.len() == 1 {
            (v, Err(ErrView::RemovingSelf))
        } else {
            (
                v,
                Err(
                    ErrView::PrimitiveDescent {
                        primitive_at: Seq::empty(),
                        original_target: p,
                        original_value: None,
                    },
                ),
            )
        }
    } else {
        match p[0] {
            SegView::Coalesce(alts) => remove_coalesce(v, alts, 0, p.drop_first(), prune),
            SegView::Field(f) => match v {
                ValueView::Object(m) => {
                    let rest = p.drop_first();
                    if rest.len() == 0 {
                        (ValueView::Object(map_remove_key(m, f.name)), Ok(map_find(m, f.name)))
                    } else {
                        match map_find(m, f.name) {
                            None => (v, Ok(None)),
                            Some(c) => {
                                let (c2, r0) = remove_spec(c, rest, prune);
                                let m2 = if prune && vv_is_empty(c2) {
                                    map_remove_key(m, f.name)
                                } else {
                                    map_upsert(m, f.name, c2)
                                };
                                (ValueView::Object(m2), r0)
                            },
                        }
                    }
                },
                _ => (v, Ok(None)),
            },
            SegView::Index(i) => match v {
                ValueView::Array(a) => {
                    let len = a.len() as int;
                    if i < 0 && -i > len {
                        (v, Ok(None))
                    } else {
                        let idx = resolve_index(i, len);
                        let rest = p.drop_first();
                        if rest.len() == 0 {
                            if idx < len {
                                (ValueView::Array(a.remove(idx)), Ok(Some(a[idx])))
                            } else {
                                (v, Ok(None))
                            }
                        } else {
                            if idx < len {
                                let (c2, r0) = remove_spec(a[idx], rest, prune);
                                let a2 = if prune && vv_is_empty(c2) {
                                    a.remove(idx)
                                } else {
                                    a.update(idx, c2)
                                };
                                (ValueView::Array(a2), r0)
                            } else {
                                (v, Ok(None))
                            }
                        }
                    }
                },
                _ => (v, Ok(None)),
            },
        }
    }
}

/// Coalesce removal: the first present alternative is removed, as in a read.
pub open spec fn remove_coalesce(
    v: ValueView,
    alts: Seq<FieldView>,
    j: int,
    rest: Seq<SegView>,
    prune: bool,
) -> (ValueView, Result<Option<ValueView>, ErrView>)
    decreases cc(rest), rest.len() + 1, alts.len() - j + 3,
    when j >= 0
    via remove_coalesce_decreases
{
    if j >= alts.len() {
        (v, Ok(None))
    } else {
        let cand = seq![SegView::Field(alts[j])] + rest;
        if contains_spec(v, cand) {
            remove_spec(v, cand, prune)
        } else {
            remove_coalesce(v, alts, j + 1, rest, prune)
        }
    }
}

#[via_fn]
proof fn remove_coalesce_decreases(
    v: ValueView,
    alts: Seq<FieldView>,
    j: int,
    rest: Seq<SegView>,
    prune: bool,
) {
    if 0 <= j < alts.len() {
        lemma_cc_push_front(SegView::Field(alts[j]), rest);
    }
}

} // verus!
