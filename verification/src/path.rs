//! Structured lookup paths: ordered sequences of segments.
//!
//! A segment addresses one step of a traversal: a map key, an array index
//! (negative values count from the end), or an ordered group of alternative
//! keys resolved by taking the first one that is present (coalesce).

use vstd::prelude::*;
use vstd::utf8::encode_utf8;

verus! {

/// A map-key step of a path.
#[derive(Debug)]
pub struct Field {
    pub name: String,
    pub requires_quoting: bool,
}

/// The mathematical form of a field: its name as UTF-8 bytes.
pub struct FieldView {
    pub name: Seq<u8>,
    pub requires_quoting: bool,
}

impl View for Field {
    type V = FieldView;

    open spec fn view(&self) -> FieldView {
        FieldView { name: encode_utf8(self.name@), requires_quoting: self.requires_quoting }
    }
}

/// One step of a lookup path.
#[derive(Debug)]
pub enum Segment {
    Field(Field),
    Index(i64),
    Coalesce(Vec<Field>),
}

/// The mathematical form of a segment.
pub enum SegView {
    Field(FieldView),
    Index(int),
    Coalesce(Seq<FieldView>),
}

impl View for Segment {
    type V = SegView;

    open spec fn view(&self) -> SegView {
        match self {
            Segment::Field(f) => SegView::Field(f@),
            Segment::Index(i) => SegView::Index(*i as int),
            Segment::Coalesce(alts) => SegView::Coalesce(alts@.map_values(|f: Field| f@)),
        }
    }
}

/// The mathematical form of a whole path.
pub open spec fn path_view(p: Seq<Segment>) -> Seq<SegView> {
    p.map_values(|s: Segment| s@)
}

/// How many coalesce segments a path holds; the first component of the
/// traversal measure, since resolving a coalesce rewrites it into a field
/// segment of the same path length.
pub open spec fn cc(p: Seq<SegView>) -> nat
    decreases p.len(),
{
    if p.len() == 0 {
        0
    } else {
        (if p[0] is Coalesce {
            1nat
        } else {
            0nat
        }) + cc(p.drop_first())
    }
}

pub proof fn lemma_cc_push_front(s: SegView, p: Seq<SegView>)
    ensures
        cc(seq![s] + p) == (if s is Coalesce {
            1nat
        } else {
            0nat
        }) + cc(p),
{
    assert((seq![s] + p).drop_first() =~= p);
    assert((seq![s] + p)[0] == s);
}

/// Whether every index in the path fits the machine's word when an array is
/// grown to reach it.
pub open spec fn seg_fits(s: SegView) -> bool {
    match s {
        SegView::Index(i) => (i >= 0 ==> i + 1 <= usize::MAX) && (i < 0 ==> -i <= usize::MAX),
        _ => true,
    }
}

pub open spec fn path_fits(p: Seq<SegView>) -> bool {
    forall|k: int| 0 <= k < p.len() ==> seg_fits(#[trigger] p[k])
}

/// Makes an owned copy of a field.
pub(crate) fn field_dup(f: &Field) -> (r: Field)
    ensures
        r@ == f@,
{
    Field { name: f.name.clone(), requires_quoting: f.requires_quoting }
}

/// Makes an owned copy of a list of fields.
pub(crate) fn fields_dup(v: &Vec<Field>) -> (r: Vec<Field>)
    ensures
        r@.len() == v@.len(),
        forall|j: int| 0 <= j < v@.len() ==> r@[j]@ == v@[j]@,
{
    let mut out: Vec<Field> = Vec::new();
    let mut i: usize = 0;
    while i < v.len()
        invariant
            i <= v@.len(),
            out@.len() == i,
            forall|j: int| 0 <= j < i ==> out@[j]@ == v@[j]@,
        decreases v@.len() - i,
    {
        out.push(field_dup(&v[i]));
        i = i + 1;
    }
    out
}

/// Makes an owned copy of a segment.
pub(crate) fn seg_dup(s: &Segment) -> (r: Segment)
    ensures
        r@ == s@,
{
    match s {
        Segment::Field(f) => Segment::Field(field_dup(f)),
        Segment::Index(i) => Segment::Index(*i),
        Segment::Coalesce(v) => {
            let d = fields_dup(v);
            proof {
                assert(d@.map_values(|f: Field| f@) =~= v@.map_values(|f: Field| f@));
            }
            Segment::Coalesce(d)
        },
    }
}

/// Makes an owned copy of a path.
pub(crate) fn path_to_vec(p: &[Segment]) -> (r: Vec<Segment>)
    ensures
        path_view(r@) == path_view(p@),
{
    let mut out: Vec<Segment> = Vec::new();
    let mut i: usize = 0;
    while i < p.len()
        invariant
            i <= p@.len(),
            out@.len() == i,
            forall|j: int| 0 <= j < i ==> out@[j]@ == p@[j]@,
        decreases p@.len() - i,
    {
        out.push(seg_dup(&p[i]));
        i = i + 1;
    }
    proof {
        assert(path_view(out@) =~= path_view(p@));
    }
    out
}

/// Builds the candidate path of a coalesce alternative: the alternative as a
/// field segment, followed by the rest of the path.
pub(crate) fn make_candidate(alt: &Field, rest: &[Segment]) -> (r: Vec<Segment>)
    ensures
        path_view(r@) == seq![SegView::Field(alt@)] + path_view(rest@),
{
    let mut out: Vec<Segment> = Vec::new();
    out.push(Segment::Field(field_dup(alt)));
    let mut i: usize = 0;
    while i < rest.len()
        invariant
            i <= rest@.len(),
            out@.len() == i + 1,
            out@[0]@ == SegView::Field(alt@),
            forall|j: int| 0 <= j < i ==> out@[j + 1]@ == rest@[j]@,
        decreases rest@.len() - i,
    {
        out.push(seg_dup(&rest[i]));
        i = i + 1;
    }
    proof {
        assert(path_view(out@) =~= seq![SegView::Field(alt@)] + path_view(rest@));
    }
    out
}

} // verus!
