//! Equality of values.
//!
//! Structural per variant, with one deliberate deviation on floats: values
//! that are not a number compare equal to each other, signs must match
//! (so positive and negative zero differ, as do the two infinities), and
//! finite values are compared after truncation toward zero — sub-integer
//! differences are not significant.

use crate::order::bytes_eq;
use crate::value::{
    elems_view, lemma_elems_view, lemma_entries_view, value_view, Value, ValueView,
};
use vstd::prelude::*;

verus! {

/// The sign bit of an IEEE 754 double.
pub open spec fn f_sign(b: u64) -> bool {
    b >> 63 == 1
}

/// The biased exponent of an IEEE 754 double.
pub open spec fn f_exp(b: u64) -> u64 {
    (b >> 52) & 0x7ff
}

/// The mantissa of an IEEE 754 double.
pub open spec fn f_mant(b: u64) -> u64 {
    b & 0xf_ffff_ffff_ffff
}

/// Whether an IEEE 754 double is finite: its exponent is not all ones.
pub open spec fn f_finite(b: u64) -> bool {
    f_exp(b) != 0x7ff
}

/// Whether two finite doubles of the same sign have equal integer parts.
///
/// Magnitudes below one truncate to zero; above that the integer parts can
/// only match when the exponents match, and then the mantissa bits that
/// survive the truncation decide. From 2^52 on, every value is an integer.
pub open spec fn f_trunc_eq(a: u64, b: u64) -> bool {
    let ea = f_exp(a);
    let eb = f_exp(b);
    if ea < 1023 && eb < 1023 {
        true
    } else if ea < 1023 || eb < 1023 {
        false
    } else if ea != eb {
        false
    } else if ea >= 1075 {
        f_mant(a) == f_mant(b)
    } else {
        f_mant(a) >> (1075 - ea) == f_mant(b) >> (1075 - eb)
    }
}

/// The float equality the tree uses, over raw bit patterns.
pub open spec fn float_eq(a: u64, b: u64) -> bool {
    if f_sign(a) == f_sign(b) {
        if f_finite(a) && f_finite(b) {
            f_trunc_eq(a, b)
        } else {
            f_finite(a) == f_finite(b)
        }
    } else {
        false
    }
}

/// Structural equality of values, with the float deviation.
pub open spec fn value_eq(a: ValueView, b: ValueView) -> bool
    decreases a, 0int,
{
    match (a, b) {
        (ValueView::Bytes(x), ValueView::Bytes(y)) => x == y,
        (ValueView::Integer(x), ValueView::Integer(y)) => x == y,
        (ValueView::Float(x), ValueView::Float(y)) => float_eq(x, y),
        (ValueView::Boolean(x), ValueView::Boolean(y)) => x == y,
        (ValueView::Timestamp(s1, n1), ValueView::Timestamp(s2, n2)) => s1 == s2 && n1 == n2,
        (ValueView::Object(m1), ValueView::Object(m2)) => entries_eq(m1, m2),
        (ValueView::Array(a1), ValueView::Array(a2)) => elems_eq(a1, a2),
        (ValueView::Null, ValueView::Null) => true,
        _ => false,
    }
}

pub open spec fn elems_eq(a: Seq<ValueView>, b: Seq<ValueView>) -> bool
    decreases a, 1int,
{
    if a.len() != b.len() {
        false
    } else if a.len() == 0 {
        true
    } else {
        value_eq(a[0], b[0]) && elems_eq(a.drop_first(), b.drop_first())
    }
}

pub open spec fn entries_eq(m1: Seq<(Seq<u8>, ValueView)>, m2: Seq<(Seq<u8>, ValueView)>) -> bool
    decreases m1, 1int,
{
    if m1.len() != m2.len() {
        false
    } else if m1.len() == 0 {
        true
    } else {
        m1[0].0 == m2[0].0 && value_eq(m1[0].1, m2[0].1) && entries_eq(
            m1.drop_first(),
            m2.drop_first(),
        )
    }
}

pub proof fn lemma_elems_eq(a: Seq<ValueView>, b: Seq<ValueView>)
    ensures
        elems_eq(a, b) <==> (a.len() == b.len() && forall|i: int|
            0 <= i < a.len() ==> value_eq(#[trigger] a[i], b[i])),
    decreases a.len(),
{
    if a.len() == b.len() && a.len() > 0 {
        lemma_elems_eq(a.drop_first(), b.drop_first());
        if elems_eq(a, b) {
            assert forall|i: int| 0 <= i < a.len() implies value_eq(#[trigger] a[i], b[i]) by {
                if i > 0 {
                    assert(a[i] == a.drop_first()[i - 1]);
                    assert(b[i] == b.drop_first()[i - 1]);
                }
            }
        }
        if a.len() == b.len() && forall|i: int| 0 <= i < a.len() ==> value_eq(
            #[trigger] a[i],
            b[i],
        ) {
            assert forall|i: int| 0 <= i < a.drop_first().len() implies value_eq(
                #[trigger] a.drop_first()[i],
                b.drop_first()[i],
            ) by {
                assert(a.drop_first()[i] == a[i + 1]);
                assert(b.drop_first()[i] == b[i + 1]);
            }
        }
    }
}

pub proof fn lemma_entries_eq(m1: Seq<(Seq<u8>, ValueView)>, m2: Seq<(Seq<u8>, ValueView)>)
    ensures
        entries_eq(m1, m2) <==> (m1.len() == m2.len() && forall|i: int|
            #![trigger m1[i], m2[i]]
            0 <= i < m1.len() ==> (m1[i].0 == m2[i].0 && value_eq(m1[i].1, m2[i].1))),
    decreases m1.len(),
{
    if m1.len() == m2.len() && m1.len() > 0 {
        lemma_entries_eq(m1.drop_first(), m2.drop_first());
        if entries_eq(m1, m2) {
            assert forall|i: int| #![trigger m1[i], m2[i]] 0 <= i < m1.len() implies (m1[i].0 == m2[i].0
                && value_eq(m1[i].1, m2[i].1)) by {
                if i > 0 {
                    assert(m1[i] == m1.drop_first()[i - 1]);
                    assert(m2[i] == m2.drop_first()[i - 1]);
                }
            }
        }
        if m1.len() == m2.len() && forall|i: int| #![trigger m1[i], m2[i]] 0 <= i < m1.len() ==> (m1[i].0
            == m2[i].0 && value_eq(m1[i].1, m2[i].1)) {
            assert forall|i: int|
                #![trigger m1.drop_first()[i], m2.drop_first()[i]]
                0 <= i < m1.drop_first().len() implies (
            m1.drop_first()[i].0 == m2.drop_first()[i].0 && value_eq(
                m1.drop_first()[i].1,
                m2.drop_first()[i].1,
            )) by {
                assert(m1.drop_first()[i] == m1[i + 1]);
                assert(m2.drop_first()[i] == m2[i + 1]);
            }
        }
    }
}

/// Compares two float bit patterns with the tree's float equality.
pub(crate) fn float_bits_eq(a: u64, b: u64) -> (r: bool)
    ensures
        r == float_eq(a, b),
{
    let sa = (a >> 63) == 1;
    let sb = (b >> 63) == 1;
    if sa != sb {
        return false;
    }
    let ea = (a >> 52) & 0x7ff;
    let eb = (b >> 52) & 0x7ff;
    let fa = ea != 0x7ff;
    let fb = eb != 0x7ff;
    if !(fa && fb) {
        return fa == fb;
    }
    if ea < 1023 && eb < 1023 {
        true
    } else if ea < 1023 || eb < 1023 {
        false
    } else if ea != eb {
        false
    } else if ea >= 1075 {
        (a & 0xf_ffff_ffff_ffff) == (b & 0xf_ffff_ffff_ffff)
    } else {
        ((a & 0xf_ffff_ffff_ffff) >> (1075 - ea)) == ((b & 0xf_ffff_ffff_ffff) >> (1075 - eb))
    }
}

fn eq_arrays(a: &Vec<Value>, b: &Vec<Value>) -> (r: bool)
    ensures
        r == elems_eq(elems_view(a@), elems_view(b@)),
    decreases a@, 1int,
{
    proof {
        lemma_elems_view(a@);
        lemma_elems_view(b@);
        lemma_elems_eq(elems_view(a@), elems_view(b@));
    }
    if a.len() != b.len() {
        return false;
    }
    let n = a.len();
    let mut i: usize = 0;
    while i < n
        invariant
            0 <= i <= n,
            n == a@.len(),
            n == b@.len(),
            elems_view(a@).len() == n,
            elems_view(b@).len() == n,
            forall|l: int|
                0 <= l < n ==> #[trigger] elems_view(a@)[l] == value_view(a@[l]) && elems_view(
                    b@,
                )[l] == value_view(b@[l]),
            elems_eq(elems_view(a@), elems_view(b@)) <==> (forall|l: int|
                0 <= l < n ==> value_eq(#[trigger] elems_view(a@)[l], elems_view(b@)[l])),
            forall|l: int|
                0 <= l < i ==> value_eq(#[trigger] elems_view(a@)[l], elems_view(b@)[l]),
        decreases n - i,
    {
        let ex = &a[i];
        let ey = &b[i];
        if !ex.eq(ey) {
            proof {
                assert(elems_view(a@)[i as int] == value_view(a@[i as int]));
                assert(elems_view(b@)[i as int] == value_view(b@[i as int]));
                assert(!value_eq(elems_view(a@)[i as int], elems_view(b@)[i as int]));
            }
            return false;
        }
        i = i + 1;
    }
    true
}

fn eq_maps(a: &crate::value::ValueMap, b: &crate::value::ValueMap) -> (r: bool)
    ensures
        r == entries_eq(a@, b@),
    decreases a.entries@, 1int,
{
    proof {
        lemma_entries_view(a.entries@);
        lemma_entries_view(b.entries@);
        lemma_entries_eq(a@, b@);
    }
    if a.entries.len() != b.entries.len() {
        return false;
    }
    let n = a.entries.len();
    let mut i: usize = 0;
    while i < n
        invariant
            0 <= i <= n,
            n == a.entries@.len(),
            n == b.entries@.len(),
            a@.len() == n,
            b@.len() == n,
            forall|l: int|
                0 <= l < n ==> #[trigger] a@[l] == (
                    vstd::utf8::encode_utf8(a.entries@[l].0@),
                    value_view(a.entries@[l].1),
                ) && b@[l] == (
                    vstd::utf8::encode_utf8(b.entries@[l].0@),
                    value_view(b.entries@[l].1),
                ),
            entries_eq(a@, b@) <==> (forall|l: int|
                #![trigger a@[l], b@[l]]
                0 <= l < n ==> (a@[l].0 == b@[l].0 && value_eq(a@[l].1, b@[l].1))),
            forall|l: int|
                #![trigger a@[l], b@[l]]
                0 <= l < i ==> (a@[l].0 == b@[l].0 && value_eq(a@[l].1, b@[l].1)),
        decreases n - i,
    {
        let ea = &a.entries[i];
        let eb = &b.entries[i];
        if !bytes_eq(ea.0.as_str().as_bytes(), eb.0.as_str().as_bytes()) {
            proof {
                assert(a@[i as int].0 != b@[i as int].0);
            }
            return false;
        }
        if !ea.1.eq(&eb.1) {
            proof {
                assert(a@[i as int].1 == value_view(a.entries@[i as int].1));
                assert(b@[i as int].1 == value_view(b.entries@[i as int].1));
                assert(!value_eq(a@[i as int].1, b@[i as int].1));
            }
            return false;
        }
        i = i + 1;
    }
    true
}

impl PartialEq for Value {
    fn eq(&self, other: &Value) -> (r: bool)
        decreases *self, 0int,
    {
        match (self, other) {
            (Value::Bytes(x), Value::Bytes(y)) => bytes_eq(x.as_slice(), y.as_slice()),
            (Value::Integer(x), Value::Integer(y)) => x == y,
            (Value::Float(x), Value::Float(y)) => float_bits_eq(x.bits, y.bits),
            (Value::Boolean(x), Value::Boolean(y)) => x == y,
            (Value::Timestamp(x), Value::Timestamp(y)) => x.secs == y.secs && x.nanos == y.nanos,
            (Value::Object(m1), Value::Object(m2)) => eq_maps(m1, m2),
            (Value::Array(a1), Value::Array(a2)) => eq_arrays(a1, a2),
            (Value::Null, Value::Null) => true,
            _ => false,
        }
    }
}

impl vstd::std_specs::cmp::PartialEqSpecImpl for Value {
    open spec fn obeys_eq_spec() -> bool {
        true
    }

    open spec fn eq_spec(&self, other: &Value) -> bool {
        value_eq(self@, other@)
    }
}

} // verus!
