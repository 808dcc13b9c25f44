//! The JSON-like document values that the store, the mapping checks and the
//! query engine work on, together with their mathematical model.
//!
//! A number is kept as the signed or unsigned integer it was read as; a
//! non-integral number is carried opaquely as its decimal text, since this
//! crate holds no floating point.

use vstd::prelude::*;

verus! {

/// The mathematical model of a document value. Integral numbers of either
/// sign collapse into one mathematical integer, so `5u64` and `5i64` model
/// equal values.
pub enum Jv {
    Null,
    Bool(bool),
    Num(int),
    Flt(Seq<char>),
    Str(Seq<char>),
    Arr(Seq<Jv>),
    Obj(Seq<(Seq<char>, Jv)>),
}

/// A JSON-like value: the unit of storage and querying.
#[derive(Debug, PartialEq)]
pub enum JsonValue {
    Null,
    Bool(bool),
    Int(i64),
    UInt(u64),
    /// A non-integral number, carried as its decimal text.
    Float(String),
    Str(String),
    Arr(Vec<JsonValue>),
    Obj(Vec<(String, JsonValue)>),
}

pub open spec fn view_of(v: JsonValue) -> Jv
    decreases v,
{
    match v {
        JsonValue::Null => Jv::Null,
        JsonValue::Bool(b) => Jv::Bool(b),
        JsonValue::Int(i) => Jv::Num(i as int),
        JsonValue::UInt(u) => Jv::Num(u as int),
        JsonValue::Float(s) => Jv::Flt(s@),
        JsonValue::Str(s) => Jv::Str(s@),
        JsonValue::Arr(items) => Jv::Arr(view_of_seq(items@)),
        JsonValue::Obj(fields) => Jv::Obj(view_of_fields(fields@)),
    }
}

pub open spec fn view_of_seq(s: Seq<JsonValue>) -> Seq<Jv>
    decreases s,
{
    if s.len() == 0 {
        Seq::empty()
    } else {
        seq![view_of(s[0])] + view_of_seq(s.drop_first())
    }
}

pub open spec fn view_of_fields(s: Seq<(String, JsonValue)>) -> Seq<(Seq<char>, Jv)>
    decreases s,
{
    if s.len() == 0 {
        Seq::empty()
    } else {
        seq![(s[0].0@, view_of(s[0].1))] + view_of_fields(s.drop_first())
    }
}

impl View for JsonValue {
    type V = Jv;

    open spec fn view(&self) -> Jv {
        view_of(*self)
    }
}

/// The value under `key` among an object's fields: the first pair whose key
/// matches, if any.
pub open spec fn fields_get(fields: Seq<(Seq<char>, Jv)>, key: Seq<char>) -> Option<Jv>
    decreases fields,
{
    if fields.len() == 0 {
        None
    } else if fields[0].0 == key {
        Some(fields[0].1)
    } else {
        fields_get(fields.drop_first(), key)
    }
}

/// The value a document holds at `key`: `None` when the document is not an
/// object or lacks the field.
pub open spec fn jv_get(v: Jv, key: Seq<char>) -> Option<Jv> {
    match v {
        Jv::Obj(fields) => fields_get(fields, key),
        _ => None,
    }
}

impl JsonValue {
    /// The field of an object under `key`, as the model's `jv_get` sees it.
    /// A found value is a structural part of the document, so recursions
    /// that descend through it terminate.
    #[verifier::loop_isolation(false)]
    pub fn get<'a>(&'a self, key: &String) -> (r: Option<&'a JsonValue>)
        ensures
            match r {
                Some(x) => jv_get(self@, key@) == Some(x@) && decreases_to!(*self => *x),
                None => jv_get(self@, key@) is None,
            },
    {
        match self {
            JsonValue::Obj(fields) => {
                let ghost vf = view_of_fields(fields@);
                let n = fields.len();
                let mut i: usize = 0;
                proof {
                    lemma_view_of_fields_all(fields@);
                    assert(vf.subrange(0, n as int) =~= vf);
                    assert(jv_get(self@, key@) == fields_get(vf, key@));
                }
                while i < n
                    invariant
                        i <= n,
                        n == fields.len(),
                        vf == view_of_fields(fields@),
                        vf.len() == n,
                        forall|j: int|
                            0 <= j < n ==> vf[j] == (fields@[j].0@, view_of(fields@[j].1)),
                        jv_get(self@, key@) == fields_get(
                            vf.subrange(i as int, n as int),
                            key@,
                        ),
                    decreases n - i,
                {
                    proof {
                        assert(vf.subrange(i as int, n as int)[0] == vf[i as int]);
                        assert(vf.subrange(i as int, n as int).drop_first() =~= vf.subrange(
                            i + 1,
                            n as int,
                        ));
                    }
                    if fields[i].0 == *key {
                        proof {
                            assert(vf[i as int].0 == key@);
                            assert(fields_get(vf.subrange(i as int, n as int), key@) == Some(
                                vf[i as int].1,
                            ));
                            assert(decreases_to!(*self => (*self)->Obj_0));
                            assert((*self)->Obj_0 == *fields);
                            assert(decreases_to!(*fields => fields@));
                            assert(decreases_to!(fields@ => fields@[i as int]));
                            assert(decreases_to!(fields@[i as int] => fields@[i as int].1));
                        }
                        return Some(&fields[i].1);
                    }
                    i = i + 1;
                }
                proof {
                    assert(vf.subrange(n as int, n as int) =~= Seq::<(Seq<char>, Jv)>::empty());
                }
                None
            },
            _ => None,
        }
    }
}

/// The non-negative integer a value holds, if it holds one. A signed
/// integer below zero and every non-integral value give nothing.
pub open spec fn jv_as_u64(v: Jv) -> Option<int> {
    if v is Num && v->Num_0 >= 0 {
        Some(v->Num_0)
    } else {
        None
    }
}

impl JsonValue {
    /// The non-negative integer this value holds, as `jv_as_u64` sees it.
    pub fn as_u64(&self) -> (r: Option<u64>)
        ensures
            match r {
                Some(n) => jv_as_u64(self@) == Some(n as int),
                None => jv_as_u64(self@) is None,
            },
    {
        match self {
            JsonValue::Int(i) => if *i >= 0 {
                Some(*i as u64)
            } else {
                None
            },
            JsonValue::UInt(u) => Some(*u),
            _ => None,
        }
    }

    /// The string this value holds, if it is a string.
    pub fn as_str_value<'a>(&'a self) -> (r: Option<&'a String>)
        ensures
            match r {
                Some(s) => self@ == Jv::Str(s@),
                None => !(self@ is Str),
            },
    {
        match self {
            JsonValue::Str(s) => Some(s),
            _ => None,
        }
    }
}

/// Structural equality of two values, decided as their models see it. Two
/// integral numbers of different representations but one magnitude are equal.
#[verifier::loop_isolation(false)]
pub fn value_eq(a: &JsonValue, b: &JsonValue) -> (r: bool)
    ensures
        r == (a@ == b@),
    decreases *a,
{
    match (a, b) {
        (JsonValue::Null, JsonValue::Null) => true,
        (JsonValue::Bool(x), JsonValue::Bool(y)) => x == y,
        (JsonValue::Int(x), JsonValue::Int(y)) => x == y,
        (JsonValue::UInt(x), JsonValue::UInt(y)) => x == y,
        (JsonValue::Int(x), JsonValue::UInt(y)) => {
            proof {
                assert(*x >= 0 ==> (*x as u64) as int == *x as int);
            }
            *x >= 0 && (*x as u64) == *y
        },
        (JsonValue::UInt(x), JsonValue::Int(y)) => {
            proof {
                assert(*y >= 0 ==> (*y as u64) as int == *y as int);
            }
            *y >= 0 && (*y as u64) == *x
        },
        (JsonValue::Float(x), JsonValue::Float(y)) => *x == *y,
        (JsonValue::Str(x), JsonValue::Str(y)) => *x == *y,
        (JsonValue::Arr(xs), JsonValue::Arr(ys)) => {
            proof {
                lemma_view_of_seq_len(xs@);
                lemma_view_of_seq_len(ys@);
            }
            if xs.len() != ys.len() {
                return false;
            }
            let n = xs.len();
            let mut i: usize = 0;
            while i < n
                invariant
                    i <= n,
                    n == xs.len() == ys.len(),
                    a@ == Jv::Arr(view_of_seq(xs@)),
                    b@ == Jv::Arr(view_of_seq(ys@)),
                    forall|j: int| 0 <= j < i ==> view_of(xs@[j]) == view_of(ys@[j]),
                decreases n - i,
            {
                proof {
                    assert(decreases_to!(*a => (*a)->Arr_0));
                    assert((*a)->Arr_0 == *xs);
                    assert(decreases_to!(*xs => xs@));
                    assert(decreases_to!(xs@ => xs@[i as int]));
                }
                if !value_eq(&xs[i], &ys[i]) {
                    proof {
                        lemma_view_of_seq_index(xs@, i as int);
                        lemma_view_of_seq_index(ys@, i as int);
                    }
                    return false;
                }
                i = i + 1;
            }
            proof {
                assert forall|j: int| 0 <= j < n implies view_of_seq(xs@)[j] == view_of_seq(
                    ys@,
                )[j] by {
                    lemma_view_of_seq_index(xs@, j);
                    lemma_view_of_seq_index(ys@, j);
                }
                assert(view_of_seq(xs@) =~= view_of_seq(ys@));
            }
            true
        },
        (JsonValue::Obj(xs), JsonValue::Obj(ys)) => {
            proof {
                lemma_view_of_fields_all(xs@);
                lemma_view_of_fields_all(ys@);
            }
            if xs.len() != ys.len() {
                return false;
            }
            let n = xs.len();
            let mut i: usize = 0;
            while i < n
                invariant
                    i <= n,
                    n == xs.len() == ys.len(),
                    a@ == Jv::Obj(view_of_fields(xs@)),
                    b@ == Jv::Obj(view_of_fields(ys@)),
                    forall|j: int|
                        0 <= j < n ==> view_of_fields(xs@)[j] == (
                            xs@[j].0@,
                            view_of(xs@[j].1),
                        ),
                    forall|j: int|
                        0 <= j < n ==> view_of_fields(ys@)[j] == (
                            ys@[j].0@,
                            view_of(ys@[j].1),
                        ),
                    forall|j: int|
                        0 <= j < i ==> view_of_fields(xs@)[j] == view_of_fields(ys@)[j],
                decreases n - i,
            {
                if !(xs[i].0 == ys[i].0) {
                    proof {
                        let va = view_of_fields(xs@);
                        let vb = view_of_fields(ys@);
                        assert(va[i as int].0 != vb[i as int].0);
                        assert(a@ == b@ ==> va == vb && va[i as int] == vb[i as int]);
                    }
                    return false;
                }
                proof {
                    assert(decreases_to!(*a => (*a)->Obj_0));
                    assert((*a)->Obj_0 == *xs);
                    assert(decreases_to!(*xs => xs@));
                    assert(decreases_to!(xs@ => xs@[i as int]));
                    assert(decreases_to!(xs@[i as int] => xs@[i as int].1));
                }
                if !value_eq(&xs[i].1, &ys[i].1) {
                    proof {
                        let va = view_of_fields(xs@);
                        let vb = view_of_fields(ys@);
                        assert(va[i as int].1 != vb[i as int].1);
                        assert(a@ == b@ ==> va == vb && va[i as int] == vb[i as int]);
                    }
                    return false;
                }
                i = i + 1;
            }
            proof {
                assert(view_of_fields(xs@) =~= view_of_fields(ys@));
            }
            true
        },
        _ => {
            proof {
                lemma_cross_variants_differ(a, b);
            }
            false
        },
    }
}

/// Values of different shapes (and a number against a non-integral number)
/// never model equal values.
proof fn lemma_cross_variants_differ(a: &JsonValue, b: &JsonValue)
    requires
        !(a@ is Null && b@ is Null),
        !(a@ is Bool && b@ is Bool),
        !(a@ is Num && b@ is Num),
        !(a@ is Flt && b@ is Flt),
        !(a@ is Str && b@ is Str),
        !(a@ is Arr && b@ is Arr),
        !(a@ is Obj && b@ is Obj),
    ensures
        a@ != b@,
{
}

impl JsonValue {
    /// A structurally equal copy: the model of the copy is the model of the
    /// original.
    #[verifier::loop_isolation(false)]
    pub fn deep_copy(&self) -> (r: JsonValue)
        ensures
            r@ == self@,
        decreases *self,
    {
        match self {
            JsonValue::Null => JsonValue::Null,
            JsonValue::Bool(b) => JsonValue::Bool(*b),
            JsonValue::Int(i) => JsonValue::Int(*i),
            JsonValue::UInt(u) => JsonValue::UInt(*u),
            JsonValue::Float(s) => JsonValue::Float(s.clone()),
            JsonValue::Str(s) => JsonValue::Str(s.clone()),
            JsonValue::Arr(items) => {
                let n = items.len();
                let mut out: Vec<JsonValue> = Vec::new();
                let mut i: usize = 0;
                while i < n
                    invariant
                        i <= n,
                        n == items.len(),
                        out@.len() == i,
                        forall|j: int| 0 <= j < i ==> view_of(out@[j]) == view_of(items@[j]),
                    decreases n - i,
                {
                    proof {
                        assert(decreases_to!(*self => (*self)->Arr_0));
                        assert((*self)->Arr_0 == *items);
                        assert(decreases_to!(*items => items@));
                        assert(decreases_to!(items@ => items@[i as int]));
                    }
                    let c = items[i].deep_copy();
                    out.push(c);
                    i = i + 1;
                }
                proof {
                    assert forall|j: int| 0 <= j < n implies view_of_seq(out@)[j] == view_of_seq(
                        items@,
                    )[j] by {
                        lemma_view_of_seq_index(out@, j);
                        lemma_view_of_seq_index(items@, j);
                    }
                    lemma_view_of_seq_len(out@);
                    lemma_view_of_seq_len(items@);
                    assert(view_of_seq(out@) =~= view_of_seq(items@));
                }
                JsonValue::Arr(out)
            },
            JsonValue::Obj(fields) => {
                let n = fields.len();
                let mut out: Vec<(String, JsonValue)> = Vec::new();
                let mut i: usize = 0;
                while i < n
                    invariant
                        i <= n,
                        n == fields.len(),
                        out@.len() == i,
                        forall|j: int|
                            0 <= j < i ==> out@[j].0@ == fields@[j].0@ && view_of(out@[j].1)
                                == view_of(fields@[j].1),
                    decreases n - i,
                {
                    proof {
                        assert(decreases_to!(*self => (*self)->Obj_0));
                        assert((*self)->Obj_0 == *fields);
                        assert(decreases_to!(*fields => fields@));
                        assert(decreases_to!(fields@ => fields@[i as int]));
                        assert(decreases_to!(fields@[i as int] => fields@[i as int].1));
                    }
                    let k = fields[i].0.clone();
                    let v = fields[i].1.deep_copy();
                    out.push((k, v));
                    i = i + 1;
                }
                proof {
                    assert forall|j: int| 0 <= j < n implies view_of_fields(out@)[j]
                        == view_of_fields(fields@)[j] by {
                        lemma_view_of_fields_index(out@, j);
                        lemma_view_of_fields_index(fields@, j);
                    }
                    lemma_view_of_fields_len(out@);
                    lemma_view_of_fields_len(fields@);
                    assert(view_of_fields(out@) =~= view_of_fields(fields@));
                }
                JsonValue::Obj(out)
            },
        }
    }
}

/// Each position of a sequence of fields is modelled pointwise.
pub proof fn lemma_view_of_fields_index(s: Seq<(String, JsonValue)>, i: int)
    requires
        0 <= i < s.len(),
    ensures
        view_of_fields(s).len() == s.len(),
        view_of_fields(s)[i] == (s[i].0@, view_of(s[i].1)),
    decreases s.len(),
{
    lemma_view_of_fields_len(s);
    if i > 0 {
        lemma_view_of_fields_index(s.drop_first(), i - 1);
    }
}

/// The whole model of a sequence of fields, position by position.
pub proof fn lemma_view_of_fields_all(s: Seq<(String, JsonValue)>)
    ensures
        view_of_fields(s).len() == s.len(),
        forall|i: int|
            0 <= i < s.len() ==> view_of_fields(s)[i] == (s[i].0@, view_of(s[i].1)),
{
    lemma_view_of_fields_len(s);
    assert forall|i: int| 0 <= i < s.len() implies view_of_fields(s)[i] == (
        s[i].0@,
        view_of(s[i].1),
    ) by {
        lemma_view_of_fields_index(s, i);
    }
}

pub proof fn lemma_view_of_fields_len(s: Seq<(String, JsonValue)>)
    ensures
        view_of_fields(s).len() == s.len(),
    decreases s.len(),
{
    if s.len() > 0 {
        lemma_view_of_fields_len(s.drop_first());
    }
}

pub proof fn lemma_view_of_seq_len(s: Seq<JsonValue>)
    ensures
        view_of_seq(s).len() == s.len(),
    decreases s.len(),
{
    if s.len() > 0 {
        lemma_view_of_seq_len(s.drop_first());
    }
}

/// An object's fields after writing `v` under `key`: the first field of
/// that name is replaced in place, or the field is appended when new.
pub open spec fn upsert_field(fields: Seq<(Seq<char>, Jv)>, key: Seq<char>, v: Jv) -> Seq<
    (Seq<char>, Jv),
>
    decreases fields,
{
    if fields.len() == 0 {
        seq![(key, v)]
    } else if fields[0].0 == key {
        seq![(key, v)] + fields.drop_first()
    } else {
        seq![fields[0]] + upsert_field(fields.drop_first(), key, v)
    }
}

/// A document after writing `v` under `key`: a non-object stays as it is.
pub open spec fn set_field(doc: Jv, key: Seq<char>, v: Jv) -> Jv {
    match doc {
        Jv::Obj(fields) => Jv::Obj(upsert_field(fields, key, v)),
        _ => doc,
    }
}

/// Writing a key first found at `i` replaces position `i`.
proof fn lemma_upsert_field_found(fields: Seq<(Seq<char>, Jv)>, key: Seq<char>, v: Jv, i: int)
    requires
        0 <= i < fields.len(),
        fields[i].0 == key,
        forall|j: int| 0 <= j < i ==> fields[j].0 != key,
    ensures
        upsert_field(fields, key, v) =~= fields.update(i, (key, v)),
    decreases fields.len(),
{
    if i > 0 {
        lemma_upsert_field_found(fields.drop_first(), key, v, i - 1);
    }
}

/// Writing a key no field holds appends it.
proof fn lemma_upsert_field_absent(fields: Seq<(Seq<char>, Jv)>, key: Seq<char>, v: Jv)
    requires
        forall|j: int| 0 <= j < fields.len() ==> fields[j].0 != key,
    ensures
        upsert_field(fields, key, v) =~= fields.push((key, v)),
    decreases fields.len(),
{
    if fields.len() > 0 {
        lemma_upsert_field_absent(fields.drop_first(), key, v);
    }
}


/// Writing a field makes it the one `get` finds.
pub proof fn lemma_upsert_field_get(fields: Seq<(Seq<char>, Jv)>, key: Seq<char>, v: Jv)
    ensures
        fields_get(upsert_field(fields, key, v), key) == Some(v),
    decreases fields,
{
    if fields.len() == 0 {
        assert(upsert_field(fields, key, v)[0] == (key, v));
    } else if fields[0].0 == key {
        assert(upsert_field(fields, key, v)[0] == (key, v));
    } else {
        assert(upsert_field(fields, key, v)[0] == fields[0]);
        assert(upsert_field(fields, key, v).drop_first() =~= upsert_field(
            fields.drop_first(),
            key,
            v,
        ));
        lemma_upsert_field_get(fields.drop_first(), key, v);
    }
}

/// A document after each field of `patch`, in order, is written over it: a
/// shallow merge. A non-object patch changes nothing.
pub open spec fn merge_fields_rec(doc: Jv, pf: Seq<(Seq<char>, Jv)>) -> Jv
    decreases pf,
{
    if pf.len() == 0 {
        doc
    } else {
        merge_fields_rec(set_field(doc, pf[0].0, pf[0].1), pf.drop_first())
    }
}

/// The shallow merge of a patch over a document: the patch's top-level
/// fields overwrite or extend the document's, and everything else stays.
pub open spec fn merge_obj(doc: Jv, patch: Jv) -> Jv {
    match patch {
        Jv::Obj(pf) => merge_fields_rec(doc, pf),
        _ => doc,
    }
}

/// Merging one more patch field on the right is one more write.
proof fn lemma_merge_fields_snoc(doc: Jv, pf: Seq<(Seq<char>, Jv)>, x: (Seq<char>, Jv))
    ensures
        merge_fields_rec(doc, pf.push(x)) == set_field(merge_fields_rec(doc, pf), x.0, x.1),
    decreases pf.len(),
{
    if pf.len() == 0 {
        assert(pf.push(x)[0] == x);
        assert(pf.push(x).drop_first() =~= Seq::<(Seq<char>, Jv)>::empty());
        assert(merge_fields_rec(doc, pf.push(x)) == merge_fields_rec(
            set_field(doc, x.0, x.1),
            pf.push(x).drop_first(),
        ));
    } else {
        assert(pf.push(x)[0] == pf[0]);
        assert(pf.push(x).drop_first() =~= pf.drop_first().push(x));
        assert(merge_fields_rec(doc, pf.push(x)) == merge_fields_rec(
            set_field(doc, pf[0].0, pf[0].1),
            pf.drop_first().push(x),
        ));
        lemma_merge_fields_snoc(set_field(doc, pf[0].0, pf[0].1), pf.drop_first(), x);
    }
}

impl JsonValue {
    /// This document with `value` written under `key`: the first field of
    /// that name is replaced, or the field is appended; a non-object stays
    /// as it is.
    #[verifier::loop_isolation(false)]
    pub fn with_field(self, key: String, value: JsonValue) -> (r: JsonValue)
        ensures
            r@ == set_field(self@, key@, value@),
    {
        let ghost v0 = self@;
        match self {
            JsonValue::Obj(fields) => {
                let mut fields = fields;
                let ghost vf = view_of_fields(fields@);
                proof {
                    lemma_view_of_fields_all(fields@);
                }
                let n = fields.len();
                let mut i: usize = 0;
                while i < n
                    invariant
                        i <= n,
                        fields@.len() == n,
                        vf == view_of_fields(fields@),
                        vf.len() == n,
                        forall|j: int|
                            0 <= j < n ==> vf[j] == (fields@[j].0@, view_of(fields@[j].1)),
                        forall|j: int| 0 <= j < i ==> vf[j].0 != key@,
                    decreases n - i,
                {
                    if fields[i].0 == key {
                        proof {
                            assert(vf[i as int].0 == key@);
                        }
                        fields.set(i, (key, value));
                        proof {
                            lemma_upsert_field_found(vf, vf[i as int].0, value@, i as int);
                            lemma_view_of_fields_all(fields@);
                            assert(view_of_fields(fields@) =~= vf.update(
                                i as int,
                                (vf[i as int].0, value@),
                            ));
                        }
                        return JsonValue::Obj(fields);
                    }
                    i = i + 1;
                }
                fields.push((key, value));
                proof {
                    lemma_upsert_field_absent(vf, key@, value@);
                    lemma_view_of_fields_all(fields@);
                    assert(view_of_fields(fields@) =~= vf.push((key@, value@)));
                }
                JsonValue::Obj(fields)
            },
            other => other,
        }
    }

    /// This document with each top-level field of `patch` written over it:
    /// unnamed fields stay, named ones are overwritten or added.
    #[verifier::loop_isolation(false)]
    pub fn merge_patch(self, patch: &JsonValue) -> (r: JsonValue)
        ensures
            r@ == merge_obj(self@, patch@),
    {
        let ghost d0 = self@;
        match patch {
            JsonValue::Obj(pf) => {
                let ghost pv = view_of_fields(pf@);
                proof {
                    lemma_view_of_fields_all(pf@);
                    assert(pv.subrange(0, 0) =~= Seq::<(Seq<char>, Jv)>::empty());
                }
                let n = pf.len();
                let mut doc = self;
                let mut i: usize = 0;
                while i < n
                    invariant
                        i <= n,
                        doc@ == merge_fields_rec(d0, pv.subrange(0, i as int)),
                    decreases n - i,
                {
                    let k = pf[i].0.clone();
                    let v = pf[i].1.deep_copy();
                    doc = doc.with_field(k, v);
                    proof {
                        assert(pv.subrange(0, i + 1) =~= pv.subrange(0, i as int).push(
                            pv[i as int],
                        ));
                        lemma_merge_fields_snoc(d0, pv.subrange(0, i as int), pv[i as int]);
                    }
                    i = i + 1;
                }
                proof {
                    assert(pv.subrange(0, n as int) =~= pv);
                }
                doc
            },
            _ => self,
        }
    }
}

/// The model of a non-empty sequence is the model of its prefix with the
/// model of its last element appended.
pub proof fn lemma_view_of_seq_snoc(s: Seq<JsonValue>)
    requires
        s.len() > 0,
    ensures
        view_of_seq(s) == view_of_seq(s.drop_last()).push(view_of(s.last())),
{
    lemma_view_of_seq_len(s);
    lemma_view_of_seq_len(s.drop_last());
    assert forall|j: int| 0 <= j < s.len() implies view_of_seq(s)[j] == view_of_seq(
        s.drop_last(),
    ).push(view_of(s.last()))[j] by {
        lemma_view_of_seq_index(s, j);
        if j < s.len() - 1 {
            lemma_view_of_seq_index(s.drop_last(), j);
            assert(s.drop_last()[j] == s[j]);
        }
    }
    assert(view_of_seq(s) =~= view_of_seq(s.drop_last()).push(view_of(s.last())));
}

/// Each position of a sequence of values is modelled pointwise.
pub proof fn lemma_view_of_seq_index(s: Seq<JsonValue>, i: int)
    requires
        0 <= i < s.len(),
    ensures
        view_of_seq(s).len() == s.len(),
        view_of_seq(s)[i] == view_of(s[i]),
    decreases s.len(),
{
    lemma_view_of_seq_len(s);
    if i > 0 {
        lemma_view_of_seq_index(s.drop_first(), i - 1);
    }
}

} // verus!
