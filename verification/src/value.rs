//! The value tree: a tagged union of scalar kinds, an ordered-by-key map and
//! an index-ordered array.
//!
//! Floats are carried as their IEEE 754 bit pattern and timestamps as a UTC
//! instant of seconds and nanoseconds, so that every kind is plain data and
//! the engine's behaviour can be stated exactly.

use crate::order::{
    bytes_eq, bytes_lt, key_lt, lemma_key_lt_asym, lemma_key_lt_irrefl, lemma_key_lt_total,
    lemma_key_lt_trans,
};
use vstd::prelude::*;
use vstd::utf8::encode_utf8;

verus! {

/// An IEEE 754 double, held as its raw bit pattern.
#[derive(Clone, Copy, Debug)]
pub struct FloatBits {
    pub bits: u64,
}

/// A UTC instant: whole seconds since the epoch and a sub-second nanosecond
/// part, which is below one billion in a well-formed value.
#[derive(Clone, Copy, Debug)]
pub struct Timestamp {
    pub secs: i64,
    pub nanos: u32,
}

/// An ordered-by-key mapping from strings to values, with unique keys.
#[derive(Debug)]
pub struct ValueMap {
    pub entries: Vec<(String, Value)>,
}

/// A value in the tree.
#[derive(Debug)]
pub enum Value {
    Bytes(Vec<u8>),
    Integer(i64),
    Float(FloatBits),
    Boolean(bool),
    Timestamp(Timestamp),
    Object(ValueMap),
    Array(Vec<Value>),
    Null,
}

/// The mathematical form of a value.
pub enum ValueView {
    Bytes(Seq<u8>),
    Integer(i64),
    Float(u64),
    Boolean(bool),
    Timestamp(i64, u32),
    Object(Seq<(Seq<u8>, ValueView)>),
    Array(Seq<ValueView>),
    Null,
}

pub open spec fn value_view(v: Value) -> ValueView
    decreases v,
{
    match v {
        Value::Bytes(b) => ValueView::Bytes(b@),
        Value::Integer(i) => ValueView::Integer(i),
        Value::Float(f) => ValueView::Float(f.bits),
        Value::Boolean(b) => ValueView::Boolean(b),
        Value::Timestamp(t) => ValueView::Timestamp(t.secs, t.nanos),
        Value::Object(m) => ValueView::Object(entries_view(m.entries@)),
        Value::Array(a) => ValueView::Array(elems_view(a@)),
        Value::Null => ValueView::Null,
    }
}

pub open spec fn elems_view(s: Seq<Value>) -> Seq<ValueView>
    decreases s,
{
    if s.len() == 0 {
        Seq::empty()
    } else {
        seq![value_view(s[0])] + elems_view(s.drop_first())
    }
}

pub open spec fn entries_view(s: Seq<(String, Value)>) -> Seq<(Seq<u8>, ValueView)>
    decreases s,
{
    if s.len() == 0 {
        Seq::empty()
    } else {
        seq![(encode_utf8(s[0].0@), value_view(s[0].1))] + entries_view(s.drop_first())
    }
}

impl View for Value {
    type V = ValueView;

    open spec fn view(&self) -> ValueView {
        value_view(*self)
    }
}

impl View for ValueMap {
    type V = Seq<(Seq<u8>, ValueView)>;

    open spec fn view(&self) -> Seq<(Seq<u8>, ValueView)> {
        entries_view(self.entries@)
    }
}

pub proof fn lemma_elems_view(s: Seq<Value>)
    ensures
        elems_view(s).len() == s.len(),
        forall|i: int| 0 <= i < s.len() ==> elems_view(s)[i] == value_view(s[i]),
    decreases s.len(),
{
    if s.len() > 0 {
        lemma_elems_view(s.drop_first());
        assert forall|i: int| 0 <= i < s.len() implies elems_view(s)[i] == value_view(s[i]) by {
            if i > 0 {
                assert(elems_view(s)[i] == elems_view(s.drop_first())[i - 1]);
                assert(s.drop_first()[i - 1] == s[i]);
            }
        }
    }
}

pub proof fn lemma_entries_view(s: Seq<(String, Value)>)
    ensures
        entries_view(s).len() == s.len(),
        forall|i: int|
            0 <= i < s.len() ==> entries_view(s)[i] == (
            encode_utf8(s[i].0@),
            value_view(s[i].1),
            ),
    decreases s.len(),
{
    if s.len() > 0 {
        lemma_entries_view(s.drop_first());
        assert forall|i: int|
            0 <= i < s.len() implies entries_view(s)[i] == (
            encode_utf8(s[i].0@),
            value_view(s[i].1),
        ) by {
            if i > 0 {
                assert(entries_view(s)[i] == entries_view(s.drop_first())[i - 1]);
                assert(s.drop_first()[i - 1] == s[i]);
            }
        }
    }
}

/// Map keys stand in strictly increasing order, which also makes them unique.
pub open spec fn keys_sorted(m: Seq<(Seq<u8>, ValueView)>) -> bool {
    forall|i: int, j: int| 0 <= i < j < m.len() ==> key_lt(m[i].0, m[j].0)
}

/// Well-formedness of a value: every map is sorted with unique keys and every
/// timestamp's nanosecond part is below one billion, recursively.
pub open spec fn vv_wf(v: ValueView) -> bool
    decreases v,
{
    match v {
        ValueView::Object(m) => keys_sorted(m) && entries_wf(m),
        ValueView::Array(a) => elems_wf(a),
        ValueView::Timestamp(_s, n) => n < 1_000_000_000,
        _ => true,
    }
}

pub open spec fn elems_wf(a: Seq<ValueView>) -> bool
    decreases a,
{
    a.len() == 0 || (vv_wf(a[0]) && elems_wf(a.drop_first()))
}

pub open spec fn entries_wf(m: Seq<(Seq<u8>, ValueView)>) -> bool
    decreases m,
{
    m.len() == 0 || (vv_wf(m[0].1) && entries_wf(m.drop_first()))
}

pub proof fn lemma_elems_wf(a: Seq<ValueView>)
    ensures
        elems_wf(a) <==> (forall|i: int| 0 <= i < a.len() ==> vv_wf(#[trigger] a[i])),
    decreases a.len(),
{
    if a.len() > 0 {
        lemma_elems_wf(a.drop_first());
        if elems_wf(a) {
            assert forall|i: int| 0 <= i < a.len() implies vv_wf(#[trigger] a[i]) by {
                if i > 0 {
                    assert(a[i] == a.drop_first()[i - 1]);
                }
            }
        }
        if forall|i: int| 0 <= i < a.len() ==> vv_wf(#[trigger] a[i]) {
            assert forall|i: int| 0 <= i < a.drop_first().len() implies vv_wf(
                #[trigger] a.drop_first()[i],
            ) by {
                assert(a.drop_first()[i] == a[i + 1]);
            }
        }
    }
}

pub proof fn lemma_entries_wf(m: Seq<(Seq<u8>, ValueView)>)
    ensures
        entries_wf(m) <==> (forall|i: int| 0 <= i < m.len() ==> vv_wf(#[trigger] m[i].1)),
    decreases m.len(),
{
    if m.len() > 0 {
        lemma_entries_wf(m.drop_first());
        if entries_wf(m) {
            assert forall|i: int| 0 <= i < m.len() implies vv_wf(#[trigger] m[i].1) by {
                if i > 0 {
                    assert(m[i] == m.drop_first()[i - 1]);
                }
            }
        }
        if forall|i: int| 0 <= i < m.len() ==> vv_wf(#[trigger] m[i].1) {
            assert forall|i: int| 0 <= i < m.drop_first().len() implies vv_wf(
                #[trigger] m.drop_first()[i].1,
            ) by {
                assert(m.drop_first()[i] == m[i + 1]);
            }
        }
    }
}

/// A node is empty when it is `Null` or a container without entries; every
/// scalar, an empty byte string included, is non-empty.
pub open spec fn vv_is_empty(v: ValueView) -> bool {
    match v {
        ValueView::Null => true,
        ValueView::Object(m) => m.len() == 0,
        ValueView::Array(a) => a.len() == 0,
        _ => false,
    }
}

/// Looks a key up in a map model: the value of the first entry whose key
/// matches, if any.
pub open spec fn map_find(m: Seq<(Seq<u8>, ValueView)>, k: Seq<u8>) -> Option<ValueView>
    decreases m,
{
    if m.len() == 0 {
        None
    } else if m[0].0 == k {
        Some(m[0].1)
    } else {
        map_find(m.drop_first(), k)
    }
}

/// Inserts or replaces a key in a map model, keeping the order of keys.
pub open spec fn map_upsert(
    m: Seq<(Seq<u8>, ValueView)>,
    k: Seq<u8>,
    v: ValueView,
) -> Seq<(Seq<u8>, ValueView)>
    decreases m,
{
    if m.len() == 0 {
        seq![(k, v)]
    } else if m[0].0 == k {
        seq![(k, v)] + m.drop_first()
    } else if key_lt(k, m[0].0) {
        seq![(k, v)] + m
    } else {
        seq![m[0]] + map_upsert(m.drop_first(), k, v)
    }
}

/// Removes a key from a map model; without the key the map is unchanged.
pub open spec fn map_remove_key(
    m: Seq<(Seq<u8>, ValueView)>,
    k: Seq<u8>,
) -> Seq<(Seq<u8>, ValueView)>
    decreases m,
{
    if m.len() == 0 {
        m
    } else if m[0].0 == k {
        m.drop_first()
    } else {
        seq![m[0]] + map_remove_key(m.drop_first(), k)
    }
}

proof fn lemma_find_first(m: Seq<(Seq<u8>, ValueView)>, k: Seq<u8>, j: int)
    requires
        0 <= j < m.len(),
        m[j].0 == k,
        forall|l: int| 0 <= l < j ==> m[l].0 != k,
    ensures
        map_find(m, k) == Some(m[j].1),
    decreases j,
{
    if j > 0 {
        assert forall|l: int| 0 <= l < j - 1 implies m.drop_first()[l].0 != k by {
            assert(m.drop_first()[l] == m[l + 1]);
        }
        assert(m.drop_first()[j - 1] == m[j]);
        lemma_find_first(m.drop_first(), k, j - 1);
    }
}

proof fn lemma_find_absent(m: Seq<(Seq<u8>, ValueView)>, k: Seq<u8>)
    requires
        forall|l: int| 0 <= l < m.len() ==> m[l].0 != k,
    ensures
        map_find(m, k) is None,
    decreases m.len(),
{
    if m.len() > 0 {
        assert forall|l: int| 0 <= l < m.drop_first().len() implies m.drop_first()[l].0 != k by {
            assert(m.drop_first()[l] == m[l + 1]);
        }
        lemma_find_absent(m.drop_first(), k);
    }
}

proof fn lemma_sorted_drop(m: Seq<(Seq<u8>, ValueView)>)
    requires
        keys_sorted(m),
        m.len() > 0,
    ensures
        keys_sorted(m.drop_first()),
{
    assert forall|i: int, j: int| 0 <= i < j < m.drop_first().len() implies key_lt(
        m.drop_first()[i].0,
        m.drop_first()[j].0,
    ) by {
        assert(m.drop_first()[i] == m[i + 1]);
        assert(m.drop_first()[j] == m[j + 1]);
    }
}

proof fn lemma_upsert_at(m: Seq<(Seq<u8>, ValueView)>, k: Seq<u8>, v: ValueView, j: int)
    requires
        keys_sorted(m),
        0 <= j < m.len(),
        m[j].0 == k,
        forall|l: int| 0 <= l < j ==> m[l].0 != k,
    ensures
        map_upsert(m, k, v) == m.update(j, (k, v)),
    decreases j,
{
    if j == 0 {
        assert(seq![(k, v)] + m.drop_first() =~= m.update(0, (k, v)));
    } else {
        assert(key_lt(m[0].0, m[j].0));
        lemma_key_lt_asym(m[0].0, k);
        lemma_sorted_drop(m);
        assert forall|l: int| 0 <= l < j - 1 implies m.drop_first()[l].0 != k by {
            assert(m.drop_first()[l] == m[l + 1]);
        }
        assert(m.drop_first()[j - 1] == m[j]);
        lemma_upsert_at(m.drop_first(), k, v, j - 1);
        assert(seq![m[0]] + m.drop_first().update(j - 1, (k, v)) =~= m.update(j, (k, v)));
    }
}

proof fn lemma_upsert_insert(m: Seq<(Seq<u8>, ValueView)>, k: Seq<u8>, v: ValueView, j: int)
    requires
        keys_sorted(m),
        0 <= j <= m.len(),
        forall|l: int| 0 <= l < j ==> key_lt(#[trigger] m[l].0, k),
        j < m.len() ==> !key_lt(m[j].0, k) && m[j].0 != k,
    ensures
        map_upsert(m, k, v) == m.insert(j, (k, v)),
    decreases m.len(),
{
    if m.len() == 0 {
        assert(map_upsert(m, k, v) =~= m.insert(0, (k, v)));
    } else if j == 0 {
        lemma_key_lt_total(k, m[0].0);
        assert(key_lt(k, m[0].0));
        assert(seq![(k, v)] + m =~= m.insert(0, (k, v)));
    } else {
        assert(key_lt(m[0].0, k));
        lemma_key_lt_irrefl(m[0].0);
        assert(m[0].0 != k);
        lemma_key_lt_asym(m[0].0, k);
        lemma_sorted_drop(m);
        assert forall|l: int| 0 <= l < j - 1 implies key_lt(#[trigger] m.drop_first()[l].0, k) by {
            assert(m.drop_first()[l] == m[l + 1]);
        }
        if j - 1 < m.drop_first().len() {
            assert(m.drop_first()[j - 1] == m[j]);
        }
        lemma_upsert_insert(m.drop_first(), k, v, j - 1);
        assert(seq![m[0]] + m.drop_first().insert(j - 1, (k, v)) =~= m.insert(j, (k, v)));
    }
}

proof fn lemma_scan_absent(m: Seq<(Seq<u8>, ValueView)>, k: Seq<u8>, j: int)
    requires
        keys_sorted(m),
        0 <= j <= m.len(),
        forall|l: int| 0 <= l < j ==> key_lt(#[trigger] m[l].0, k),
        j < m.len() ==> !key_lt(m[j].0, k) && m[j].0 != k,
    ensures
        forall|l: int| 0 <= l < m.len() ==> m[l].0 != k,
    decreases m.len(),
{
    assert forall|l: int| 0 <= l < m.len() implies m[l].0 != k by {
        if l < j {
            lemma_key_lt_irrefl(k);
        } else if l == j {
        } else {
            lemma_key_lt_total(k, m[j].0);
            assert(key_lt(k, m[j].0));
            assert(key_lt(m[j].0, m[l].0));
            lemma_key_lt_trans(k, m[j].0, m[l].0);
            lemma_key_lt_irrefl(k);
        }
    }
}

proof fn lemma_remove_at(m: Seq<(Seq<u8>, ValueView)>, k: Seq<u8>, j: int)
    requires
        0 <= j < m.len(),
        m[j].0 == k,
        forall|l: int| 0 <= l < j ==> m[l].0 != k,
    ensures
        map_remove_key(m, k) == m.remove(j),
    decreases j,
{
    if j == 0 {
        assert(m.drop_first() =~= m.remove(0));
    } else {
        assert forall|l: int| 0 <= l < j - 1 implies m.drop_first()[l].0 != k by {
            assert(m.drop_first()[l] == m[l + 1]);
        }
        assert(m.drop_first()[j - 1] == m[j]);
        lemma_remove_at(m.drop_first(), k, j - 1);
        assert(seq![m[0]] + m.drop_first().remove(j - 1) =~= m.remove(j));
    }
}

proof fn lemma_remove_absent(m: Seq<(Seq<u8>, ValueView)>, k: Seq<u8>)
    requires
        forall|l: int| 0 <= l < m.len() ==> m[l].0 != k,
    ensures
        map_remove_key(m, k) == m,
    decreases m.len(),
{
    if m.len() > 0 {
        assert forall|l: int| 0 <= l < m.drop_first().len() implies m.drop_first()[l].0 != k by {
            assert(m.drop_first()[l] == m[l + 1]);
        }
        lemma_remove_absent(m.drop_first(), k);
        assert(seq![m[0]] + m.drop_first() =~= m);
    }
}

proof fn lemma_entries_view_update(s: Seq<(String, Value)>, i: int, e: (String, Value))
    requires
        0 <= i < s.len(),
    ensures
        entries_view(s.update(i, e)) == entries_view(s).update(
            i,
            (encode_utf8(e.0@), value_view(e.1)),
        ),
{
    lemma_entries_view(s);
    lemma_entries_view(s.update(i, e));
    assert(entries_view(s.update(i, e)) =~= entries_view(s).update(
        i,
        (encode_utf8(e.0@), value_view(e.1)),
    ));
}

proof fn lemma_entries_view_insert(s: Seq<(String, Value)>, i: int, e: (String, Value))
    requires
        0 <= i <= s.len(),
    ensures
        entries_view(s.insert(i, e)) == entries_view(s).insert(
            i,
            (encode_utf8(e.0@), value_view(e.1)),
        ),
{
    lemma_entries_view(s);
    lemma_entries_view(s.insert(i, e));
    assert(entries_view(s.insert(i, e)) =~= entries_view(s).insert(
        i,
        (encode_utf8(e.0@), value_view(e.1)),
    ));
}

proof fn lemma_entries_view_remove(s: Seq<(String, Value)>, i: int)
    requires
        0 <= i < s.len(),
    ensures
        entries_view(s.remove(i)) == entries_view(s).remove(i),
{
    lemma_entries_view(s);
    lemma_entries_view(s.remove(i));
    assert(entries_view(s.remove(i)) =~= entries_view(s).remove(i));
}

impl ValueMap {
    /// Makes an empty map.
    pub fn new() -> (r: ValueMap)
        ensures
            r@ == Seq::<(Seq<u8>, ValueView)>::empty(),
    {
        ValueMap { entries: Vec::new() }
    }

    /// How many entries the map holds.
    pub fn len(&self) -> (r: usize)
        ensures
            r == self@.len(),
    {
        proof {
            lemma_entries_view(self.entries@);
        }
        self.entries.len()
    }

    /// Looks a key up, borrowing its value.
    pub fn get(&self, name: &str) -> (r: Option<&Value>)
        ensures
            match r {
                Some(v) => map_find(self@, encode_utf8(name@)) == Some(v@),
                None => map_find(self@, encode_utf8(name@)) is None,
            },
    {
        let n = self.entries.len();
        let mut j: usize = 0;
        proof {
            lemma_entries_view(self.entries@);
        }
        while j < n
            invariant
                0 <= j <= n,
                n == self.entries@.len(),
                entries_view(self.entries@).len() == n,
                forall|l: int|
                    0 <= l < j ==> #[trigger] entries_view(self.entries@)[l].0 != encode_utf8(
                        name@,
                    ),
                forall|l: int|
                    0 <= l < n ==> #[trigger] entries_view(self.entries@)[l] == (
                    encode_utf8(self.entries@[l].0@),
                    value_view(self.entries@[l].1),
                    ),
            decreases n - j,
        {
            let e = &self.entries[j];
            if bytes_eq(e.0.as_str().as_bytes(), name.as_bytes()) {
                proof {
                    lemma_find_first(self@, encode_utf8(name@), j as int);
                }
                return Some(&e.1);
            }
            j = j + 1;
        }
        proof {
            lemma_find_absent(self@, encode_utf8(name@));
        }
        None
    }

    /// Looks a key up, borrowing its value mutably; the key must be present
    /// and the map sorted.
    pub fn get_mut(&mut self, name: &str) -> (r: &mut Value)
        requires
            keys_sorted(old(self)@),
            map_find(old(self)@, encode_utf8(name@)) is Some,
        ensures
            Some((*r)@) == map_find(old(self)@, encode_utf8(name@)),
            final(self)@ == map_upsert(old(self)@, encode_utf8(name@), (*final(r))@),
    {
        let ghost k = encode_utf8(name@);
        let n = self.entries.len();
        let mut j: usize = 0;
        proof {
            lemma_entries_view(self.entries@);
        }
        while j < n
            invariant
                0 <= j <= n,
                self.entries@ == old(self).entries@,
                keys_sorted(entries_view(self.entries@)),
                n == self.entries@.len(),
                entries_view(self.entries@).len() == n,
                map_find(entries_view(self.entries@), k) is Some,
                k == encode_utf8(name@),
                forall|l: int| 0 <= l < j ==> #[trigger] entries_view(self.entries@)[l].0 != k,
                forall|l: int|
                    0 <= l < n ==> #[trigger] entries_view(self.entries@)[l] == (
                    encode_utf8(self.entries@[l].0@),
                    value_view(self.entries@[l].1),
                    ),
            decreases n - j,
        {
            let found = bytes_eq(self.entries[j].0.as_str().as_bytes(), name.as_bytes());
            if found {
                proof {
                    lemma_find_first(self@, k, j as int);
                    assert forall|w: ValueView| #[trigger] map_upsert(
                        entries_view(self.entries@),
                        k,
                        w,
                    ) == entries_view(self.entries@).update(j as int, (k, w)) by {
                        lemma_upsert_at(self@, k, w, j as int);
                    }
                    assert forall|e: (String, Value)| #[trigger] entries_view(
                        self.entries@.update(j as int, e),
                    ) == entries_view(self.entries@).update(
                        j as int,
                        (encode_utf8(e.0@), value_view(e.1)),
                    ) by {
                        lemma_entries_view_update(self.entries@, j as int, e);
                    }
                }
                let e = &mut self.entries[j];
                let r = &mut e.1;
                return r;
            }
            j = j + 1;
        }
        proof {
            lemma_find_absent(self@, k);
            assert(false);
        }
        unreached()
    }

    /// Inserts or replaces a key, returning the value it displaced, if any.
    pub fn upsert(&mut self, name: String, value: Value) -> (prev: Option<Value>)
        requires
            keys_sorted(old(self)@),
        ensures
            final(self)@ == map_upsert(old(self)@, encode_utf8(name@), value@),
            match prev {
                Some(p) => map_find(old(self)@, encode_utf8(name@)) == Some(p@),
                None => map_find(old(self)@, encode_utf8(name@)) is None,
            },
    {
        let ghost k = encode_utf8(name@);
        let n = self.entries.len();
        let mut j: usize = 0;
        proof {
            lemma_entries_view(self.entries@);
        }
        while j < n
            invariant
                0 <= j <= n,
                self.entries@ == old(self).entries@,
                n == self.entries@.len(),
                entries_view(self.entries@).len() == n,
                k == encode_utf8(name@),
                forall|l: int|
                    0 <= l < j ==> key_lt(#[trigger] entries_view(self.entries@)[l].0, k),
                forall|l: int|
                    0 <= l < n ==> #[trigger] entries_view(self.entries@)[l] == (
                    encode_utf8(self.entries@[l].0@),
                    value_view(self.entries@[l].1),
                    ),
            ensures
                0 <= j <= n,
                j < n ==> !key_lt(entries_view(self.entries@)[j as int].0, k),
            decreases n - j,
        {
            let go = bytes_lt(self.entries[j].0.as_str().as_bytes(), name.as_str().as_bytes());
            if !go {
                break ;
            }
            j = j + 1;
        }
        if j < n {
            let same = bytes_eq(self.entries[j].0.as_str().as_bytes(), name.as_str().as_bytes());
            if same {
                proof {
                    assert forall|l: int| 0 <= l < j implies #[trigger] self@[l].0 != k by {
                        lemma_key_lt_irrefl(k);
                    }
                    lemma_find_first(self@, k, j as int);
                    assert forall|w: ValueView| #[trigger] map_upsert(
                        entries_view(self.entries@),
                        k,
                        w,
                    ) == entries_view(self.entries@).update(j as int, (k, w)) by {
                        lemma_upsert_at(self@, k, w, j as int);
                    }
                    assert forall|e: (String, Value)| #[trigger] entries_view(
                        self.entries@.update(j as int, e),
                    ) == entries_view(self.entries@).update(
                        j as int,
                        (encode_utf8(e.0@), value_view(e.1)),
                    ) by {
                        lemma_entries_view_update(self.entries@, j as int, e);
                    }
                }
                let mut value = value;
                let e = &mut self.entries[j];
                core::mem::swap(&mut e.1, &mut value);
                return Some(value);
            }
        }
        proof {
            lemma_scan_absent(self@, k, j as int);
            lemma_find_absent(self@, k);
            lemma_upsert_insert(self@, k, value@, j as int);
        }
        let ghost oldentries = self.entries@;
        self.entries.insert(j, (name, value));
        proof {
            lemma_entries_view_insert(oldentries, j as int, self.entries@[j as int]);
        }
        None
    }

    /// Removes a key, returning the value it held, if any.
    pub fn remove_entry(&mut self, name: &str) -> (r: Option<Value>)
        ensures
            final(self)@ == map_remove_key(old(self)@, encode_utf8(name@)),
            match r {
                Some(p) => map_find(old(self)@, encode_utf8(name@)) == Some(p@),
                None => map_find(old(self)@, encode_utf8(name@)) is None,
            },
    {
        let ghost k = encode_utf8(name@);
        let n = self.entries.len();
        let mut j: usize = 0;
        proof {
            lemma_entries_view(self.entries@);
        }
        while j < n
            invariant
                0 <= j <= n,
                self.entries@ == old(self).entries@,
                n == self.entries@.len(),
                entries_view(self.entries@).len() == n,
                k == encode_utf8(name@),
                forall|l: int| 0 <= l < j ==> #[trigger] entries_view(self.entries@)[l].0 != k,
                forall|l: int|
                    0 <= l < n ==> #[trigger] entries_view(self.entries@)[l] == (
                    encode_utf8(self.entries@[l].0@),
                    value_view(self.entries@[l].1),
                    ),
            decreases n - j,
        {
            let found = bytes_eq(self.entries[j].0.as_str().as_bytes(), name.as_bytes());
            if found {
                proof {
                    lemma_find_first(self@, k, j as int);
                    lemma_remove_at(self@, k, j as int);
                    lemma_entries_view_remove(self.entries@, j as int);
                }
                let e = self.entries.remove(j);
                return Some(e.1);
            }
            j = j + 1;
        }
        proof {
            lemma_find_absent(self@, k);
            lemma_remove_absent(self@, k);
        }
        None
    }
}

} // verus!

verus! {

/// The kind name a value reports for diagnostics.
pub open spec fn kind_str_spec(v: ValueView) -> Seq<char> {
    match v {
        ValueView::Bytes(_) => "string"@,
        ValueView::Timestamp(_, _) => "timestamp"@,
        ValueView::Integer(_) => "integer"@,
        ValueView::Float(_) => "float"@,
        ValueView::Boolean(_) => "boolean"@,
        ValueView::Object(_) => "map"@,
        ValueView::Array(_) => "array"@,
        ValueView::Null => "null"@,
    }
}

impl Value {
    /// True only for `Null` and for a map or array with no entries; every
    /// scalar, an empty byte string included, is non-empty.
    pub fn is_empty(&self) -> (r: bool)
        ensures
            r == vv_is_empty(self@),
    {
        match self {
            Value::Boolean(_) => false,
            Value::Bytes(_) => false,
            Value::Timestamp(_) => false,
            Value::Float(_) => false,
            Value::Integer(_) => false,
            Value::Null => true,
            Value::Object(m) => {
                proof {
                    lemma_entries_view(m.entries@);
                }
                m.entries.len() == 0
            },
            Value::Array(a) => {
                proof {
                    lemma_elems_view(a@);
                }
                a.len() == 0
            },
        }
    }

    /// The name of this value's kind.
    pub fn kind_str(&self) -> (r: &'static str)
        ensures
            r@ == kind_str_spec(self@),
    {
        match self {
            Value::Bytes(_) => "string",
            Value::Timestamp(_) => "timestamp",
            Value::Integer(_) => "integer",
            Value::Float(_) => "float",
            Value::Boolean(_) => "boolean",
            Value::Object(_) => "map",
            Value::Array(_) => "array",
            Value::Null => "null",
        }
    }

    /// Borrows the map inside, if this value is a map.
    pub fn as_map(&self) -> (r: Option<&ValueMap>)
        ensures
            match r {
                Some(m) => self@ == ValueView::Object(m@),
                None => !(self@ is Object),
            },
    {
        match self {
            Value::Object(m) => Some(m),
            _ => None,
        }
    }

    /// Takes the map out, if this value is a map.
    pub fn into_map(self) -> (r: Option<ValueMap>)
        ensures
            match r {
                Some(m) => self@ == ValueView::Object(m@),
                None => !(self@ is Object),
            },
    {
        match self {
            Value::Object(m) => Some(m),
            _ => None,
        }
    }

    /// Borrows the map inside mutably; the value must be a map.
    pub fn as_map_mut(&mut self) -> (r: &mut ValueMap)
        requires
            old(self)@ is Object,
        ensures
            ValueView::Object((*r)@) == old(self)@,
            final(self)@ == ValueView::Object((*final(r))@),
    {
        match self {
            Value::Object(m) => m,
            _ => {
                proof {
                    assert(false);
                }
                unreached()
            },
        }
    }

    /// Borrows the timestamp inside, if this value is a timestamp.
    pub fn as_timestamp(&self) -> (r: Option<&Timestamp>)
        ensures
            match r {
                Some(t) => self@ == ValueView::Timestamp(t.secs, t.nanos),
                None => !(self@ is Timestamp),
            },
    {
        match self {
            Value::Timestamp(t) => Some(t),
            _ => None,
        }
    }

    /// Whether this value is an array.
    pub fn is_array(&self) -> (r: bool)
        ensures
            r == (self@ is Array),
    {
        match self {
            Value::Array(_) => true,
            _ => false,
        }
    }

    /// Whether this value is a map.
    pub fn is_map(&self) -> (r: bool)
        ensures
            r == (self@ is Object),
    {
        match self {
            Value::Object(_) => true,
            _ => false,
        }
    }

    /// Borrows the elements, if this value is an array.
    pub fn as_array(&self) -> (r: Option<&[Value]>)
        ensures
            match r {
                Some(s) => self@ == ValueView::Array(elems_view(s@)),
                None => !(self@ is Array),
            },
    {
        match self {
            Value::Array(v) => Some(v.as_slice()),
            _ => None,
        }
    }

    /// Borrows the elements mutably, if this value is an array.
    pub fn as_array_mut(&mut self) -> (r: Option<&mut Vec<Value>>)
        ensures
            (old(self)@ is Array) == (r is Some),
            match r {
                Some(a) => ValueView::Array(elems_view((*a)@)) == old(self)@ && final(self)@
                    == ValueView::Array(elems_view((*final(a))@)),
                None => final(self)@ == old(self)@,
            },
    {
        match self {
            Value::Array(v) => Some(v),
            _ => None,
        }
    }
}

} // verus!

verus! {

pub proof fn lemma_elems_view_update(s: Seq<Value>, i: int, v: Value)
    requires
        0 <= i < s.len(),
    ensures
        elems_view(s.update(i, v)) == elems_view(s).update(i, value_view(v)),
{
    lemma_elems_view(s);
    lemma_elems_view(s.update(i, v));
    assert(elems_view(s.update(i, v)) =~= elems_view(s).update(i, value_view(v)));
}

pub proof fn lemma_elems_view_insert(s: Seq<Value>, i: int, v: Value)
    requires
        0 <= i <= s.len(),
    ensures
        elems_view(s.insert(i, v)) == elems_view(s).insert(i, value_view(v)),
{
    lemma_elems_view(s);
    lemma_elems_view(s.insert(i, v));
    assert(elems_view(s.insert(i, v)) =~= elems_view(s).insert(i, value_view(v)));
}

pub proof fn lemma_elems_view_remove(s: Seq<Value>, i: int)
    requires
        0 <= i < s.len(),
    ensures
        elems_view(s.remove(i)) == elems_view(s).remove(i),
{
    lemma_elems_view(s);
    lemma_elems_view(s.remove(i));
    assert(elems_view(s.remove(i)) =~= elems_view(s).remove(i));
}

pub proof fn lemma_elems_view_push(s: Seq<Value>, v: Value)
    ensures
        elems_view(s.push(v)) == elems_view(s).push(value_view(v)),
{
    lemma_elems_view(s);
    lemma_elems_view(s.push(v));
    assert(elems_view(s.push(v)) =~= elems_view(s).push(value_view(v)));
}

pub proof fn lemma_elems_view_concat(s1: Seq<Value>, s2: Seq<Value>)
    ensures
        elems_view(s1 + s2) == elems_view(s1) + elems_view(s2),
{
    lemma_elems_view(s1);
    lemma_elems_view(s2);
    lemma_elems_view(s1 + s2);
    assert(elems_view(s1 + s2) =~= elems_view(s1) + elems_view(s2));
}

/// The value a lookup finds in a well-formed map is itself well-formed.
pub proof fn lemma_find_wf(m: Seq<(Seq<u8>, ValueView)>, k: Seq<u8>)
    requires
        entries_wf(m),
        map_find(m, k) is Some,
    ensures
        vv_wf(map_find(m, k)->Some_0),
    decreases m.len(),
{
    if m.len() > 0 && m[0].0 != k {
        lemma_find_wf(m.drop_first(), k);
    }
}

/// Inserting or replacing a key in a well-formed map keeps it well-formed.
pub proof fn lemma_upsert_wf(m: Seq<(Seq<u8>, ValueView)>, k: Seq<u8>, v: ValueView)
    requires
        keys_sorted(m),
        entries_wf(m),
        vv_wf(v),
    ensures
        keys_sorted(map_upsert(m, k, v)),
        entries_wf(map_upsert(m, k, v)),
        map_upsert(m, k, v).len() >= 1,
    decreases m.len(),
{
    lemma_entries_wf(m);
    let r = map_upsert(m, k, v);
    if m.len() == 0 {
        lemma_entries_wf(r);
    } else if m[0].0 == k {
        let r0 = seq![(k, v)] + m.drop_first();
        lemma_sorted_drop(m);
        assert forall|i: int, j: int| 0 <= i < j < r0.len() implies key_lt(r0[i].0, r0[j].0) by {
            if i > 0 {
                assert(r0[i] == m[i]);
                assert(r0[j] == m[j]);
            } else {
                assert(r0[j] == m[j]);
            }
        }
        lemma_entries_wf(r0);
        assert forall|i: int| 0 <= i < r0.len() implies vv_wf(#[trigger] r0[i].1) by {
            if i > 0 {
                assert(r0[i] == m[i]);
            }
        }
    } else if key_lt(k, m[0].0) {
        let r0 = seq![(k, v)] + m;
        assert forall|i: int, j: int| 0 <= i < j < r0.len() implies key_lt(r0[i].0, r0[j].0) by {
            if i > 0 {
                assert(r0[i] == m[i - 1]);
                assert(r0[j] == m[j - 1]);
            } else {
                assert(r0[j] == m[j - 1]);
                if j - 1 > 0 {
                    lemma_key_lt_trans(k, m[0].0, m[j - 1].0);
                }
            }
        }
        lemma_entries_wf(r0);
        assert forall|i: int| 0 <= i < r0.len() implies vv_wf(#[trigger] r0[i].1) by {
            if i > 0 {
                assert(r0[i] == m[i - 1]);
            }
        }
    } else {
        lemma_sorted_drop(m);
        lemma_key_lt_total(k, m[0].0);
        assert(key_lt(m[0].0, k));
        lemma_upsert_wf(m.drop_first(), k, v);
        let rr = map_upsert(m.drop_first(), k, v);
        let r0 = seq![m[0]] + rr;
        assert(r == r0);
        // every key of rr is either k or a key of the tail, so the head stays below all
        lemma_upsert_keys(m.drop_first(), k, v);
        assert forall|i: int, j: int| 0 <= i < j < r0.len() implies key_lt(r0[i].0, r0[j].0) by {
            if i > 0 {
                assert(r0[i] == rr[i - 1]);
                assert(r0[j] == rr[j - 1]);
            } else {
                assert(r0[j] == rr[j - 1]);
                if rr[j - 1].0 == k {
                } else {
                    let w = rr[j - 1].0;
                    assert(exists|l: int| 0 <= l < m.drop_first().len() && m.drop_first()[l].0 == w);
                    let l = choose|l: int| 0 <= l < m.drop_first().len() && m.drop_first()[l].0 == w;
                    assert(m.drop_first()[l] == m[l + 1]);
                }
            }
        }
        lemma_entries_wf(r0);
        lemma_entries_wf(rr);
        assert forall|i: int| 0 <= i < r0.len() implies vv_wf(#[trigger] r0[i].1) by {
            if i > 0 {
                assert(r0[i] == rr[i - 1]);
            }
        }
    }
}

/// Every key of an upsert result is the inserted key or a key of the input.
proof fn lemma_upsert_keys(m: Seq<(Seq<u8>, ValueView)>, k: Seq<u8>, v: ValueView)
    ensures
        forall|j: int|
            0 <= j < map_upsert(m, k, v).len() ==> (#[trigger] map_upsert(m, k, v)[j].0 == k
                || exists|l: int| 0 <= l < m.len() && m[l].0 == map_upsert(m, k, v)[j].0),
    decreases m.len(),
{
    let r = map_upsert(m, k, v);
    if m.len() == 0 {
    } else if m[0].0 == k {
        assert forall|j: int| 0 <= j < r.len() implies (#[trigger] r[j].0 == k || exists|l: int|
            0 <= l < m.len() && m[l].0 == r[j].0) by {
            if j > 0 {
                assert(r[j] == m.drop_first()[j - 1]);
                assert(m[j] == r[j]);
            }
        }
    } else if key_lt(k, m[0].0) {
        assert forall|j: int| 0 <= j < r.len() implies (#[trigger] r[j].0 == k || exists|l: int|
            0 <= l < m.len() && m[l].0 == r[j].0) by {
            if j > 0 {
                assert(r[j] == m[j - 1]);
            }
        }
    } else {
        lemma_upsert_keys(m.drop_first(), k, v);
        let rr = map_upsert(m.drop_first(), k, v);
        assert forall|j: int| 0 <= j < r.len() implies (#[trigger] r[j].0 == k || exists|l: int|
            0 <= l < m.len() && m[l].0 == r[j].0) by {
            if j == 0 {
                assert(r[0] == m[0]);
            } else {
                assert(r[j] == rr[j - 1]);
                if rr[j - 1].0 != k {
                    let l = choose|l: int|
                        0 <= l < m.drop_first().len() && m.drop_first()[l].0 == rr[j - 1].0;
                    assert(m.drop_first()[l] == m[l + 1]);
                }
            }
        }
    }
}

/// Removing a key from a well-formed map keeps it well-formed.
pub proof fn lemma_remove_key_wf(m: Seq<(Seq<u8>, ValueView)>, k: Seq<u8>)
    requires
        keys_sorted(m),
        entries_wf(m),
    ensures
        keys_sorted(map_remove_key(m, k)),
        entries_wf(map_remove_key(m, k)),
    decreases m.len(),
{
    lemma_entries_wf(m);
    let r = map_remove_key(m, k);
    if m.len() == 0 {
    } else if m[0].0 == k {
        lemma_sorted_drop(m);
        lemma_entries_wf(m.drop_first());
        assert forall|i: int| 0 <= i < m.drop_first().len() implies vv_wf(
            #[trigger] m.drop_first()[i].1,
        ) by {
            assert(m.drop_first()[i] == m[i + 1]);
        }
    } else {
        lemma_sorted_drop(m);
        lemma_remove_key_wf(m.drop_first(), k);
        lemma_remove_key_keys(m.drop_first(), k);
        let rr = map_remove_key(m.drop_first(), k);
        let r0 = seq![m[0]] + rr;
        assert(r == r0);
        assert forall|i: int, j: int| 0 <= i < j < r0.len() implies key_lt(r0[i].0, r0[j].0) by {
            if i > 0 {
                assert(r0[i] == rr[i - 1]);
                assert(r0[j] == rr[j - 1]);
            } else {
                assert(r0[j] == rr[j - 1]);
                let w = rr[j - 1].0;
                let l = choose|l: int|
                    0 <= l < m.drop_first().len() && m.drop_first()[l].0 == w;
                assert(m.drop_first()[l] == m[l + 1]);
            }
        }
        lemma_entries_wf(r0);
        lemma_entries_wf(rr);
        assert forall|i: int| 0 <= i < r0.len() implies vv_wf(#[trigger] r0[i].1) by {
            if i > 0 {
                assert(r0[i] == rr[i - 1]);
            }
        }
    }
}

/// Every key of a removal result is a key of the input.
proof fn lemma_remove_key_keys(m: Seq<(Seq<u8>, ValueView)>, k: Seq<u8>)
    ensures
        forall|j: int|
            0 <= j < map_remove_key(m, k).len() ==> exists|l: int|
                0 <= l < m.len() && m[l].0 == #[trigger] map_remove_key(m, k)[j].0,
    decreases m.len(),
{
    let r = map_remove_key(m, k);
    if m.len() == 0 {
    } else if m[0].0 == k {
        assert forall|j: int| 0 <= j < r.len() implies exists|l: int|
            0 <= l < m.len() && m[l].0 == #[trigger] r[j].0 by {
            assert(r[j] == m[j + 1]);
        }
    } else {
        lemma_remove_key_keys(m.drop_first(), k);
        let rr = map_remove_key(m.drop_first(), k);
        assert forall|j: int| 0 <= j < r.len() implies exists|l: int|
            0 <= l < m.len() && m[l].0 == #[trigger] r[j].0 by {
            if j == 0 {
                assert(r[0] == m[0]);
            } else {
                assert(r[j] == rr[j - 1]);
                let l = choose|l: int|
                    0 <= l < m.drop_first().len() && m.drop_first()[l].0 == rr[j - 1].0;
                assert(m.drop_first()[l] == m[l + 1]);
            }
        }
    }
}

} // verus!

verus! {

/// A successful lookup means the key occurs in the map.
pub proof fn lemma_find_some_exists(m: Seq<(Seq<u8>, ValueView)>, k: Seq<u8>)
    requires
        map_find(m, k) is Some,
    ensures
        exists|i: int| 0 <= i < m.len() && #[trigger] m[i].0 == k,
    decreases m.len(),
{
    if m.len() > 0 && m[0].0 != k {
        lemma_find_some_exists(m.drop_first(), k);
        let i = choose|i: int| 0 <= i < m.drop_first().len() && #[trigger] m.drop_first()[i].0 == k;
        assert(m[i + 1] == m.drop_first()[i]);
    }
}

/// Replacing a present key and then removing it comes to the same as
/// removing it directly.
pub proof fn lemma_remove_after_upsert(m: Seq<(Seq<u8>, ValueView)>, k: Seq<u8>, v: ValueView)
    requires
        keys_sorted(m),
        map_find(m, k) is Some,
    ensures
        map_remove_key(map_upsert(m, k, v), k) == map_remove_key(m, k),
    decreases m.len(),
{
    lemma_find_some_exists(m, k);
    if m.len() > 0 {
        if m[0].0 == k {
            assert(map_upsert(m, k, v) == seq![(k, v)] + m.drop_first());
            assert((seq![(k, v)] + m.drop_first())[0].0 == k);
            assert((seq![(k, v)] + m.drop_first()).drop_first() =~= m.drop_first());
        } else if key_lt(k, m[0].0) {
            let i = choose|i: int| 0 <= i < m.len() && #[trigger] m[i].0 == k;
            if i > 0 {
                assert(key_lt(m[0].0, m[i].0));
                lemma_key_lt_asym(k, m[0].0);
            }
            lemma_key_lt_irrefl(k);
            assert(false);
        } else {
            lemma_sorted_drop(m);
            assert(map_find(m.drop_first(), k) == map_find(m, k));
            lemma_remove_after_upsert(m.drop_first(), k, v);
            let r = seq![m[0]] + map_upsert(m.drop_first(), k, v);
            assert(map_upsert(m, k, v) == r);
            assert(r[0] == m[0]);
            assert(r.drop_first() =~= map_upsert(m.drop_first(), k, v));
            assert(map_remove_key(r, k) == seq![m[0]] + map_remove_key(
                map_upsert(m.drop_first(), k, v),
                k,
            ));
        }
    }
}

} // verus!

verus! {

/// After an upsert, looking the key up finds the inserted value.
pub proof fn lemma_find_upsert(m: Seq<(Seq<u8>, ValueView)>, k: Seq<u8>, v: ValueView)
    ensures
        map_find(map_upsert(m, k, v), k) == Some(v),
    decreases m.len(),
{
    if m.len() == 0 {
        assert(map_upsert(m, k, v)[0] == (k, v));
    } else if m[0].0 == k {
        assert(map_upsert(m, k, v)[0] == (k, v));
    } else if key_lt(k, m[0].0) {
        assert(map_upsert(m, k, v)[0] == (k, v));
    } else {
        lemma_find_upsert(m.drop_first(), k, v);
        let r = seq![m[0]] + map_upsert(m.drop_first(), k, v);
        assert(r[0] == m[0]);
        assert(r.drop_first() =~= map_upsert(m.drop_first(), k, v));
    }
}

/// An upsert leaves every other key's entry as it was.
pub proof fn lemma_find_upsert_other(m: Seq<(Seq<u8>, ValueView)>, k: Seq<u8>, v: ValueView, k2: Seq<u8>)
    requires
        k2 != k,
    ensures
        map_find(map_upsert(m, k, v), k2) == map_find(m, k2),
    decreases m.len(),
{
    reveal_with_fuel(map_find, 2);
    if m.len() == 0 {
        assert(map_upsert(m, k, v)[0] == (k, v));
        assert(map_upsert(m, k, v).drop_first() =~= Seq::<(Seq<u8>, ValueView)>::empty());
    } else if m[0].0 == k {
        let r = seq![(k, v)] + m.drop_first();
        assert(r[0] == (k, v));
        assert(r.drop_first() =~= m.drop_first());
    } else if key_lt(k, m[0].0) {
        let r = seq![(k, v)] + m;
        assert(r[0] == (k, v));
        assert(r.drop_first() =~= m);
    } else {
        lemma_find_upsert_other(m.drop_first(), k, v, k2);
        let r = seq![m[0]] + map_upsert(m.drop_first(), k, v);
        assert(r[0] == m[0]);
        assert(r.drop_first() =~= map_upsert(m.drop_first(), k, v));
    }
}

/// Removing a key leaves every other key's entry as it was.
pub proof fn lemma_find_remove_other(m: Seq<(Seq<u8>, ValueView)>, k: Seq<u8>, k2: Seq<u8>)
    requires
        k2 != k,
    ensures
        map_find(map_remove_key(m, k), k2) == map_find(m, k2),
    decreases m.len(),
{
    if m.len() == 0 {
    } else if m[0].0 == k {
        assert(map_find(m, k2) == map_find(m.drop_first(), k2));
    } else {
        lemma_find_remove_other(m.drop_first(), k, k2);
        let r = seq![m[0]] + map_remove_key(m.drop_first(), k);
        assert(r[0] == m[0]);
        assert(r.drop_first() =~= map_remove_key(m.drop_first(), k));
    }
}

} // verus!
