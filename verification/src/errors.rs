//! Typed failures of the engine operations.

use crate::path::{path_view, seg_dup, SegView, Segment};
use vstd::prelude::*;
use crate::value::{value_view, Value, ValueView};

verus! {

/// A typed failure of an engine operation.
#[derive(Debug)]
pub enum ValueError {
    /// A write or removal tried to traverse through a scalar that already
    /// occupies the path. Carries the path from the root down to the scalar,
    /// the original full target path, and, for a write, the value that could
    /// not be placed.
    PrimitiveDescent {
        primitive_at: Vec<Segment>,
        original_target: Vec<Segment>,
        original_value: Option<Value>,
    },
    /// A malformed path surfaced from path construction.
    LookupError { message: String },
    /// A coalesce group with no alternatives met in the middle of an insert.
    EmptyCoalesceSubSegment,
    /// An attempt to remove the node itself through an already-exhausted path.
    RemovingSelf,
}

/// The mathematical form of an engine failure.
pub enum ErrView {
    PrimitiveDescent {
        primitive_at: Seq<SegView>,
        original_target: Seq<SegView>,
        original_value: Option<ValueView>,
    },
    LookupError { message: Seq<char> },
    EmptyCoalesceSubSegment,
    RemovingSelf,
}

impl View for ValueError {
    type V = ErrView;

    open spec fn view(&self) -> ErrView {
        match self {
            ValueError::PrimitiveDescent { primitive_at, original_target, original_value } => {
                ErrView::PrimitiveDescent {
                    primitive_at: path_view(primitive_at@),
                    original_target: path_view(original_target@),
                    original_value: match original_value {
                        Some(v) => Some(value_view(*v)),
                        None => None,
                    },
                }
            },
            ValueError::LookupError { message } => ErrView::LookupError { message: message@ },
            ValueError::EmptyCoalesceSubSegment => ErrView::EmptyCoalesceSubSegment,
            ValueError::RemovingSelf => ErrView::RemovingSelf,
        }
    }
}

impl ValueError {
    /// A short description of the failure, for reporting.
    pub fn describe(&self) -> (r: &'static str)
        ensures
            r@ == match self@ {
                ErrView::PrimitiveDescent { .. } => "cannot insert value nested inside primitive"@,
                ErrView::LookupError { .. } => "lookup error"@,
                ErrView::EmptyCoalesceSubSegment => "empty coalesce subsegment found"@,
                ErrView::RemovingSelf => "cannot remove self"@,
            },
    {
        match self {
            ValueError::PrimitiveDescent { .. } => "cannot insert value nested inside primitive",
            ValueError::LookupError { .. } => "lookup error",
            ValueError::EmptyCoalesceSubSegment => "empty coalesce subsegment found",
            ValueError::RemovingSelf => "cannot remove self",
        }
    }
}

/// Prepends the current frame's segment onto a bubbling primitive-descent
/// error, so the final error carries complete root-relative paths; other
/// errors pass through unchanged.
pub open spec fn prefix_err(e: ErrView, s: SegView) -> ErrView {
    match e {
        ErrView::PrimitiveDescent { primitive_at, original_target, original_value } => {
            ErrView::PrimitiveDescent {
                primitive_at: seq![s] + primitive_at,
                original_target: seq![s] + original_target,
                original_value,
            }
        },
        _ => e,
    }
}

pub open spec fn prefix_res(
    r: Result<Option<ValueView>, ErrView>,
    s: SegView,
) -> Result<Option<ValueView>, ErrView> {
    match r {
        Err(e) => Err(prefix_err(e, s)),
        Ok(o) => Ok(o),
    }
}

/// The mathematical form of an engine result.
pub open spec fn res_view(r: Result<Option<Value>, ValueError>) -> Result<
    Option<ValueView>,
    ErrView,
> {
    match r {
        Ok(None) => Ok(None),
        Ok(Some(v)) => Ok(Some(value_view(v))),
        Err(e) => Err(e@),
    }
}

/// Prepends a segment onto an error's recorded paths.
pub(crate) fn prefix_error(e: ValueError, seg: &Segment) -> (r: ValueError)
    ensures
        r@ == prefix_err(e@, seg@),
{
    match e {
        ValueError::PrimitiveDescent { primitive_at, original_target, original_value } => {
            let mut primitive_at = primitive_at;
            let mut original_target = original_target;
            let ghost pa0 = primitive_at@;
            let ghost ot0 = original_target@;
            primitive_at.insert(0, seg_dup(seg));
            original_target.insert(0, seg_dup(seg));
            proof {
                assert(path_view(primitive_at@) =~= seq![seg@] + path_view(pa0));
                assert(path_view(original_target@) =~= seq![seg@] + path_view(ot0));
            }
            ValueError::PrimitiveDescent { primitive_at, original_target, original_value }
        },
        other => other,
    }
}

} // verus!
