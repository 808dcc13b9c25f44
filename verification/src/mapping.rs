//! Index schemas: which fields an index declares, what type each must hold,
//! and whether undeclared fields are tolerated.

use vstd::prelude::*;

use crate::value::{jv_get, view_of_fields, JsonValue, Jv};

verus! {

/// The type a declared field must hold.
#[derive(Debug, Clone, Copy, PartialEq, Eq, Structural)]
pub enum FieldType {
    Text,
    Keyword,
    Integer,
    Long,
    Double,
    Boolean,
    Date,
}

/// One declared field of a mapping.
#[derive(Debug, Clone, Copy, PartialEq, Eq, Structural)]
pub struct Property {
    pub field_type: FieldType,
}

/// An index schema: declared fields plus the `dynamic` flag. With
/// `dynamic` false, fields beyond the declared ones (and `_id`) are
/// rejected. Field names are unique.
#[derive(Debug)]
pub struct Mapping {
    pub dynamic: bool,
    pub properties: Vec<(String, Property)>,
}

/// The model of a mapping: the flag and the declared fields in order.
pub struct MappingV {
    pub dynamic: bool,
    pub props: Seq<(Seq<char>, FieldType)>,
}

pub open spec fn props_view(s: Seq<(String, Property)>) -> Seq<(Seq<char>, FieldType)> {
    s.map_values(|p: (String, Property)| (p.0@, p.1.field_type))
}

impl View for Mapping {
    type V = MappingV;

    open spec fn view(&self) -> MappingV {
        MappingV { dynamic: self.dynamic, props: props_view(self.properties@) }
    }
}

/// Declared field names never repeat.
pub open spec fn props_wf(props: Seq<(Seq<char>, FieldType)>) -> bool {
    forall|i: int, j: int| 0 <= i < j < props.len() ==> props[i].0 != props[j].0
}

impl MappingV {
    /// Declared field names never repeat.
    pub open spec fn wf(self) -> bool {
        props_wf(self.props)
    }
}

/// How a stored document can fail its index's schema.
#[derive(Debug, PartialEq)]
pub enum ValidationError {
    /// A declared field is absent.
    MissingField(String),
    /// A field is present with a value of the wrong type.
    InvalidType { field: String, expected: FieldType },
    /// With `dynamic` false: a field that the schema does not declare.
    UnknownField(String),
}

/// The model of a validation failure.
pub enum ValidationErrorV {
    MissingField(Seq<char>),
    InvalidType(Seq<char>, FieldType),
    UnknownField(Seq<char>),
}

impl View for ValidationError {
    type V = ValidationErrorV;

    open spec fn view(&self) -> ValidationErrorV {
        match self {
            ValidationError::MissingField(f) => ValidationErrorV::MissingField(f@),
            ValidationError::InvalidType { field, expected } => ValidationErrorV::InvalidType(
                field@,
                *expected,
            ),
            ValidationError::UnknownField(f) => ValidationErrorV::UnknownField(f@),
        }
    }
}

/// Whether a value satisfies a field type: text, keyword and date fields
/// hold strings, integer and long fields hold integral numbers, double
/// fields hold any number, boolean fields hold booleans.
pub open spec fn type_ok(ft: FieldType, v: Jv) -> bool {
    match ft {
        FieldType::Text => v is Str,
        FieldType::Keyword => v is Str,
        FieldType::Date => v is Str,
        FieldType::Integer => v is Num,
        FieldType::Long => v is Num,
        FieldType::Double => v is Num || v is Flt,
        FieldType::Boolean => v is Bool,
    }
}

/// The first declared field the document violates, scanning the declared
/// fields in order: absent means `MissingField`, ill-typed means
/// `InvalidType`.
pub open spec fn first_prop_violation(props: Seq<(Seq<char>, FieldType)>, doc: Jv) -> Option<
    ValidationErrorV,
>
    decreases props,
{
    if props.len() == 0 {
        None
    } else {
        match jv_get(doc, props[0].0) {
            Option::None => Some(ValidationErrorV::MissingField(props[0].0)),
            Option::Some(v) => if !type_ok(props[0].1, v) {
                Some(ValidationErrorV::InvalidType(props[0].0, props[0].1))
            } else {
                first_prop_violation(props.drop_first(), doc)
            },
        }
    }
}

/// Whether a field name is declared.
pub open spec fn prop_declared(props: Seq<(Seq<char>, FieldType)>, key: Seq<char>) -> bool {
    exists|i: int| 0 <= i < props.len() && props[i].0 == key
}

/// The first document field, in document order, that is neither `_id` nor
/// declared.
pub open spec fn first_unknown_field(
    fields: Seq<(Seq<char>, Jv)>,
    props: Seq<(Seq<char>, FieldType)>,
) -> Option<Seq<char>>
    decreases fields,
{
    if fields.len() == 0 {
        None
    } else if fields[0].0 != id_key() && !prop_declared(props, fields[0].0) {
        Some(fields[0].0)
    } else {
        first_unknown_field(fields.drop_first(), props)
    }
}

/// The reserved document-identifier field name, `_id`.
pub open spec fn id_key() -> Seq<char> {
    seq!['_', 'i', 'd']
}

/// The outcome of validating a document against a mapping: a non-object is
/// rejected outright; otherwise the first violated declared field wins, and
/// with `dynamic` false an undeclared field is reported after the declared
/// ones all pass.
pub open spec fn validate_spec(m: MappingV, doc: Jv) -> Option<ValidationErrorV> {
    match doc {
        Jv::Obj(fields) => match first_prop_violation(m.props, doc) {
            Option::Some(e) => Some(e),
            Option::None => if !m.dynamic {
                match first_unknown_field(fields, m.props) {
                    Option::Some(k) => Some(ValidationErrorV::UnknownField(k)),
                    Option::None => None,
                }
            } else {
                None
            },
        },
        _ => Some(ValidationErrorV::InvalidType(seq!['r', 'o', 'o', 't'], FieldType::Keyword)),
    }
}

/// Declared fields after writing `k` with type `ft`: the first declaration
/// of `k` is replaced in place, or the declaration is appended when `k` is
/// new.
pub open spec fn upsert_prop(
    props: Seq<(Seq<char>, FieldType)>,
    k: Seq<char>,
    ft: FieldType,
) -> Seq<(Seq<char>, FieldType)>
    decreases props,
{
    if props.len() == 0 {
        seq![(k, ft)]
    } else if props[0].0 == k {
        seq![(k, ft)] + props.drop_first()
    } else {
        seq![props[0]] + upsert_prop(props.drop_first(), k, ft)
    }
}

/// Declared fields after writing every declaration of `other` over `props`,
/// in `other`'s order: a union with right bias.
pub open spec fn merge_props(
    props: Seq<(Seq<char>, FieldType)>,
    other: Seq<(Seq<char>, FieldType)>,
) -> Seq<(Seq<char>, FieldType)>
    decreases other,
{
    if other.len() == 0 {
        props
    } else {
        merge_props(upsert_prop(props, other[0].0, other[0].1), other.drop_first())
    }
}

/// Writing a key that first occurs at `i` replaces position `i`.
proof fn lemma_upsert_prop_found(props: Seq<(Seq<char>, FieldType)>, k: Seq<char>, ft: FieldType, i: int)
    requires
        0 <= i < props.len(),
        props[i].0 == k,
        forall|j: int| 0 <= j < i ==> props[j].0 != k,
    ensures
        upsert_prop(props, k, ft) =~= props.update(i, (k, ft)),
    decreases props.len(),
{
    if i > 0 {
        lemma_upsert_prop_found(props.drop_first(), k, ft, i - 1);
    }
}

/// Writing a key that does not occur appends it.
proof fn lemma_upsert_prop_absent(props: Seq<(Seq<char>, FieldType)>, k: Seq<char>, ft: FieldType)
    requires
        forall|j: int| 0 <= j < props.len() ==> props[j].0 != k,
    ensures
        upsert_prop(props, k, ft) =~= props.push((k, ft)),
    decreases props.len(),
{
    if props.len() > 0 {
        lemma_upsert_prop_absent(props.drop_first(), k, ft);
    }
}

/// Merging one more declaration on the right is one more write.
proof fn lemma_merge_props_snoc(
    props: Seq<(Seq<char>, FieldType)>,
    other: Seq<(Seq<char>, FieldType)>,
    x: (Seq<char>, FieldType),
)
    ensures
        merge_props(props, other.push(x)) == upsert_prop(merge_props(props, other), x.0, x.1),
    decreases other.len(),
{
    if other.len() == 0 {
        assert(other.push(x)[0] == x);
        assert(other.push(x).drop_first() =~= Seq::<(Seq<char>, FieldType)>::empty());
        assert(merge_props(props, other.push(x)) == merge_props(
            upsert_prop(props, x.0, x.1),
            other.push(x).drop_first(),
        ));
        assert(merge_props(upsert_prop(props, x.0, x.1), other.push(x).drop_first())
            == upsert_prop(props, x.0, x.1));
        assert(merge_props(props, other) == props);
    } else {
        assert(other.push(x)[0] == other[0]);
        assert(other.push(x).drop_first() =~= other.drop_first().push(x));
        assert(merge_props(props, other.push(x)) == merge_props(
            upsert_prop(props, other[0].0, other[0].1),
            other.drop_first().push(x),
        ));
        lemma_merge_props_snoc(upsert_prop(props, other[0].0, other[0].1), other.drop_first(), x);
        assert(merge_props(props, other) == merge_props(
            upsert_prop(props, other[0].0, other[0].1),
            other.drop_first(),
        ));
    }
}

impl Default for Mapping {
    /// The default schema declares nothing and tolerates every field.
    fn default() -> (r: Self)
        ensures
            r@.dynamic == true,
            r@.props == Seq::<(Seq<char>, FieldType)>::empty(),
    {
        let r = Mapping { dynamic: true, properties: Vec::new() };
        proof {
            assert(r@.props =~= Seq::<(Seq<char>, FieldType)>::empty());
        }
        r
    }
}

/// Whether a value satisfies a field type, decided as `type_ok` sees it.
pub fn type_check(ft: FieldType, v: &JsonValue) -> (r: bool)
    ensures
        r == type_ok(ft, v@),
{
    match ft {
        FieldType::Text | FieldType::Keyword | FieldType::Date => matches!(v, JsonValue::Str(_)),
        FieldType::Integer | FieldType::Long => matches!(
            v,
            JsonValue::Int(_) | JsonValue::UInt(_)
        ),
        FieldType::Double => matches!(
            v,
            JsonValue::Int(_) | JsonValue::UInt(_) | JsonValue::Float(_)
        ),
        FieldType::Boolean => matches!(v, JsonValue::Bool(_)),
    }
}

impl Mapping {
    /// Checks a document against this mapping: every declared field must be
    /// present with the declared type, and with `dynamic` false no field
    /// beyond `_id` and the declared ones may appear. The first violation
    /// found, scanning declared fields in order and then document fields in
    /// order, is reported.
    #[verifier::loop_isolation(false)]
    pub fn validate(&self, document: &JsonValue) -> (r: Result<(), ValidationError>)
        ensures
            match r {
                Ok(_) => validate_spec(self@, document@) is None,
                Err(e) => validate_spec(self@, document@) == Some(e@),
            },
    {
        proof {
            reveal_strlit("root");
            reveal_strlit("_id");
        }
        let fields = match document {
            JsonValue::Obj(f) => f,
            _ => {
                let field = String::from_str("root");
                proof {
                    assert(field@ =~= seq!['r', 'o', 'o', 't']);
                }
                return Err(
                    ValidationError::InvalidType { field, expected: FieldType::Keyword },
                );
            },
        };
        let ghost props = self@.props;
        let n = self.properties.len();
        let mut i: usize = 0;
        proof {
            assert(props.subrange(0, n as int) =~= props);
        }
        while i < n
            invariant
                i <= n,
                first_prop_violation(props, document@) == first_prop_violation(
                    props.subrange(i as int, n as int),
                    document@,
                ),
            decreases n - i,
        {
            proof {
                assert(props.subrange(i as int, n as int)[0] == props[i as int]);
                assert(props.subrange(i as int, n as int).drop_first() =~= props.subrange(
                    i + 1,
                    n as int,
                ));
            }
            let name = &self.properties[i].0;
            match document.get(name) {
                Option::None => {
                    return Err(ValidationError::MissingField(name.clone()));
                },
                Option::Some(v) => {
                    let ft = self.properties[i].1.field_type;
                    if !type_check(ft, v) {
                        return Err(
                            ValidationError::InvalidType { field: name.clone(), expected: ft },
                        );
                    }
                },
            }
            i = i + 1;
        }
        proof {
            assert(props.subrange(n as int, n as int)
                =~= Seq::<(Seq<char>, FieldType)>::empty());
        }
        if !self.dynamic {
            let ghost vf = view_of_fields(fields@);
            proof {
                crate::value::lemma_view_of_fields_all(fields@);
                assert(vf.subrange(0, fields@.len() as int) =~= vf);
            }
            let m = fields.len();
            let mut k: usize = 0;
            let id_name = String::from_str("_id");
            while k < m
                invariant
                    k <= m,
                    id_name@ == id_key(),
                    first_unknown_field(vf, props) == first_unknown_field(
                        vf.subrange(k as int, m as int),
                        props,
                    ),
                decreases m - k,
            {
                proof {
                    assert(vf.subrange(k as int, m as int)[0] == vf[k as int]);
                    assert(vf.subrange(k as int, m as int).drop_first() =~= vf.subrange(
                        k + 1,
                        m as int,
                    ));
                }
                let key = &fields[k].0;
                if !(*key == id_name) && !self.contains_property(key) {
                    return Err(ValidationError::UnknownField(key.clone()));
                }
                k = k + 1;
            }
            proof {
                assert(vf.subrange(m as int, m as int) =~= Seq::<(Seq<char>, Jv)>::empty());
            }
        }
        Ok(())
    }

    /// Writes one declaration over this mapping, replacing the first
    /// declaration of the same name in place or appending a new one.
    #[verifier::loop_isolation(false)]
    fn put_property(&mut self, key: String, p: Property)
        ensures
            final(self)@.props == upsert_prop(old(self)@.props, key@, p.field_type),
            final(self).dynamic == old(self).dynamic,
    {
        let ghost props0 = self@.props;
        let n = self.properties.len();
        let mut i: usize = 0;
        while i < n
            invariant
                i <= n,
                *self == *old(self),
                forall|j: int| 0 <= j < i ==> props0[j].0 != key@,
            decreases n - i,
        {
            if self.properties[i].0 == key {
                proof {
                    assert(props0[i as int].0 == key@);
                }
                self.properties.set(i, (key, p));
                proof {
                    lemma_upsert_prop_found(props0, props0[i as int].0, p.field_type, i as int);
                    assert(self@.props =~= props0.update(
                        i as int,
                        (props0[i as int].0, p.field_type),
                    ));
                }
                return ;
            }
            proof {
                assert(props0[i as int].0 != key@);
            }
            i = i + 1;
        }
        self.properties.push((key, p));
        proof {
            lemma_upsert_prop_absent(props0, key@, p.field_type);
            assert(self@.props =~= props0.push((key@, p.field_type)));
        }
    }

    /// Merges another schema over this one: every declaration of `other`
    /// overwrites or extends the declarations here, and the `dynamic` flag
    /// is replaced outright.
    #[verifier::loop_isolation(false)]
    pub fn update(&mut self, other: Mapping)
        ensures
            final(self)@.dynamic == other@.dynamic,
            final(self)@.props == merge_props(old(self)@.props, other@.props),
    {
        let ghost props0 = self@.props;
        let ghost other_props = other@.props;
        let n = other.properties.len();
        let mut j: usize = 0;
        proof {
            assert(other_props.subrange(0, 0) =~= Seq::<(Seq<char>, FieldType)>::empty());
        }
        while j < n
            invariant
                j <= n,
                self@.props == merge_props(props0, other_props.subrange(0, j as int)),
                self.dynamic == old(self).dynamic,
            decreases n - j,
        {
            let key = other.properties[j].0.clone();
            let p = other.properties[j].1;
            self.put_property(key, p);
            proof {
                assert(other_props.subrange(0, j + 1) =~= other_props.subrange(0, j as int).push(
                    other_props[j as int],
                ));
                lemma_merge_props_snoc(
                    props0,
                    other_props.subrange(0, j as int),
                    other_props[j as int],
                );
            }
            j = j + 1;
        }
        proof {
            assert(other_props.subrange(0, n as int) =~= other_props);
        }
        self.dynamic = other.dynamic;
    }

    /// Whether `key` is a declared field of this mapping.
    pub fn contains_property(&self, key: &String) -> (r: bool)
        ensures
            r == prop_declared(self@.props, key@),
    {
        let n = self.properties.len();
        let mut i: usize = 0;
        while i < n
            invariant
                i <= n,
                n == self.properties.len(),
                forall|j: int| 0 <= j < i ==> props_view(self.properties@)[j].0 != key@,
            decreases n - i,
        {
            if self.properties[i].0 == *key {
                proof {
                    assert(props_view(self.properties@)[i as int].0 == key@);
                }
                return true;
            }
            i = i + 1;
        }
        false
    }
}


/// Every declaration a write leaves behind carries the written key or one
/// already declared.
proof fn lemma_upsert_prop_keys(props: Seq<(Seq<char>, FieldType)>, k: Seq<char>, ft: FieldType)
    ensures
        forall|m: int|
            0 <= m < upsert_prop(props, k, ft).len() ==> upsert_prop(props, k, ft)[m].0 == k
                || prop_declared(props, upsert_prop(props, k, ft)[m].0),
    decreases props,
{
    if props.len() == 0 {
    } else if props[0].0 == k {
        assert forall|m: int| 0 <= m < upsert_prop(props, k, ft).len() implies upsert_prop(
            props,
            k,
            ft,
        )[m].0 == k || prop_declared(props, upsert_prop(props, k, ft)[m].0) by {
            if m > 0 {
                assert(upsert_prop(props, k, ft)[m] == props[m]);
            }
        }
    } else {
        lemma_upsert_prop_keys(props.drop_first(), k, ft);
        assert forall|m: int| 0 <= m < upsert_prop(props, k, ft).len() implies upsert_prop(
            props,
            k,
            ft,
        )[m].0 == k || prop_declared(props, upsert_prop(props, k, ft)[m].0) by {
            if m > 0 {
                let u = upsert_prop(props.drop_first(), k, ft);
                assert(upsert_prop(props, k, ft)[m] == u[m - 1]);
                if u[m - 1].0 != k {
                    let w = choose|i: int|
                        0 <= i < props.drop_first().len() && props.drop_first()[i].0 == u[m
                            - 1].0;
                    assert(props[w + 1].0 == u[m - 1].0);
                }
            }
        }
    }
}

/// One write keeps the declared names unique.
proof fn lemma_upsert_prop_wf(props: Seq<(Seq<char>, FieldType)>, k: Seq<char>, ft: FieldType)
    requires
        props_wf(props),
    ensures
        props_wf(upsert_prop(props, k, ft)),
    decreases props,
{
    if props.len() == 0 {
    } else if props[0].0 == k {
        let u = upsert_prop(props, k, ft);
        assert forall|i: int, j: int| 0 <= i < j < u.len() implies u[i].0 != u[j].0 by {
            if i > 0 {
                assert(u[i] == props[i] && u[j] == props[j]);
            } else {
                assert(u[j] == props[j]);
            }
        }
    } else {
        assert forall|i: int, j: int|
            0 <= i < j < props.drop_first().len() implies props.drop_first()[i].0
            != props.drop_first()[j].0 by {
            assert(props.drop_first()[i] == props[i + 1]);
            assert(props.drop_first()[j] == props[j + 1]);
        }
        lemma_upsert_prop_wf(props.drop_first(), k, ft);
        lemma_upsert_prop_keys(props.drop_first(), k, ft);
        let u = upsert_prop(props, k, ft);
        let u1 = upsert_prop(props.drop_first(), k, ft);
        assert forall|i: int, j: int| 0 <= i < j < u.len() implies u[i].0 != u[j].0 by {
            if i > 0 {
                assert(u[i] == u1[i - 1] && u[j] == u1[j - 1]);
            } else {
                assert(u[j] == u1[j - 1]);
                assert(u1[j - 1].0 == k || prop_declared(props.drop_first(), u1[j - 1].0));
                if u1[j - 1].0 != k {
                    let w = choose|t: int|
                        0 <= t < props.drop_first().len() && props.drop_first()[t].0 == u1[j
                            - 1].0;
                    assert(props[w + 1].0 == u1[j - 1].0);
                }
            }
        }
    }
}

/// A schema whose declared names are unique keeps them unique under any
/// merge: every write replaces its name in place or appends a fresh one.
pub proof fn lemma_merge_preserves_wf(
    props: Seq<(Seq<char>, FieldType)>,
    other: Seq<(Seq<char>, FieldType)>,
)
    requires
        props_wf(props),
    ensures
        props_wf(merge_props(props, other)),
    decreases other,
{
    if other.len() > 0 {
        lemma_upsert_prop_wf(props, other[0].0, other[0].1);
        lemma_merge_preserves_wf(upsert_prop(props, other[0].0, other[0].1), other.drop_first());
    }
}

/// Scanning declared fields: when every present declared field is well
/// typed and some declared field is absent, the scan reports the first
/// absent one.
proof fn lemma_fpv_missing(props: Seq<(Seq<char>, FieldType)>, doc: Jv)
    requires
        exists|i: int| 0 <= i < props.len() && jv_get(doc, props[i].0) is None,
        forall|i: int|
            0 <= i < props.len() && jv_get(doc, props[i].0) is Some ==> type_ok(
                props[i].1,
                jv_get(doc, props[i].0)->Some_0,
            ),
    ensures
        exists|k: Seq<char>|
            first_prop_violation(props, doc) == Some(ValidationErrorV::MissingField(k))
                && prop_declared(props, k) && jv_get(doc, k) is None,
    decreases props,
{
    if jv_get(doc, props[0].0) is None {
        let k = props[0].0;
        assert(first_prop_violation(props, doc) == Some(ValidationErrorV::MissingField(k)));
        assert(prop_declared(props, k));
    } else {
        assert(type_ok(props[0].1, jv_get(doc, props[0].0)->Some_0));
        let iw = choose|i: int| 0 <= i < props.len() && jv_get(doc, props[i].0) is None;
        assert(iw != 0);
        assert(0 <= iw - 1 < props.drop_first().len() && jv_get(
            doc,
            props.drop_first()[iw - 1].0,
        ) is None);
        assert forall|i: int|
            0 <= i < props.drop_first().len() && jv_get(doc, props.drop_first()[i].0)
                is Some implies type_ok(
            props.drop_first()[i].1,
            jv_get(doc, props.drop_first()[i].0)->Some_0,
        ) by {
            assert(props.drop_first()[i] == props[i + 1]);
        }
        lemma_fpv_missing(props.drop_first(), doc);
        let k = choose|k: Seq<char>|
            first_prop_violation(props.drop_first(), doc) == Some(
                ValidationErrorV::MissingField(k),
            ) && prop_declared(props.drop_first(), k) && jv_get(doc, k) is None;
        let jw = choose|i: int|
            0 <= i < props.drop_first().len() && props.drop_first()[i].0 == k;
        assert(props[jw + 1].0 == k);
        assert(prop_declared(props, k));
    }
}

/// Scanning declared fields: when every declared field is present and well
/// typed, the scan reports nothing.
proof fn lemma_fpv_none(props: Seq<(Seq<char>, FieldType)>, doc: Jv)
    requires
        forall|i: int|
            0 <= i < props.len() ==> jv_get(doc, props[i].0) is Some && type_ok(
                props[i].1,
                jv_get(doc, props[i].0)->Some_0,
            ),
    ensures
        first_prop_violation(props, doc) is None,
    decreases props,
{
    if props.len() > 0 {
        assert(jv_get(doc, props[0].0) is Some && type_ok(
            props[0].1,
            jv_get(doc, props[0].0)->Some_0,
        ));
        assert forall|i: int| 0 <= i < props.drop_first().len() implies jv_get(
            doc,
            props.drop_first()[i].0,
        ) is Some && type_ok(
            props.drop_first()[i].1,
            jv_get(doc, props.drop_first()[i].0)->Some_0,
        ) by {
            assert(props.drop_first()[i] == props[i + 1]);
        }
        lemma_fpv_none(props.drop_first(), doc);
    }
}

/// Scanning document fields: when every field is `_id` or declared, the
/// scan finds no unknown field.
proof fn lemma_fuf_none(fields: Seq<(Seq<char>, Jv)>, props: Seq<(Seq<char>, FieldType)>)
    requires
        forall|i: int|
            0 <= i < fields.len() ==> fields[i].0 == id_key() || prop_declared(
                props,
                fields[i].0,
            ),
    ensures
        first_unknown_field(fields, props) is None,
    decreases fields,
{
    if fields.len() > 0 {
        assert(fields[0].0 == id_key() || prop_declared(props, fields[0].0));
        assert forall|i: int| 0 <= i < fields.drop_first().len() implies fields.drop_first()[i].0
            == id_key() || prop_declared(props, fields.drop_first()[i].0) by {
            assert(fields.drop_first()[i] == fields[i + 1]);
        }
        lemma_fuf_none(fields.drop_first(), props);
    }
}

/// With `dynamic` false, a document lacking any declared field is rejected
/// with `MissingField` naming a declared field the document lacks —
/// provided every declared field it does hold is well typed, since an
/// ill-typed declared field met earlier in the scan wins instead.
pub proof fn lemma_missing_required_field_rejected(m: MappingV, doc: Jv)
    requires
        !m.dynamic,
        doc is Obj,
        exists|i: int| 0 <= i < m.props.len() && jv_get(doc, m.props[i].0) is None,
        forall|i: int|
            0 <= i < m.props.len() && jv_get(doc, m.props[i].0) is Some ==> type_ok(
                m.props[i].1,
                jv_get(doc, m.props[i].0)->Some_0,
            ),
    ensures
        exists|k: Seq<char>|
            validate_spec(m, doc) == Some(ValidationErrorV::MissingField(k)) && prop_declared(
                m.props,
                k,
            ) && jv_get(doc, k) is None,
{
    lemma_fpv_missing(m.props, doc);
}

/// With `dynamic` false, a document holding every declared field with its
/// declared type and nothing else beyond `_id` is accepted.
pub proof fn lemma_conforming_document_accepted(m: MappingV, doc: Jv)
    requires
        !m.dynamic,
        doc is Obj,
        forall|i: int|
            0 <= i < m.props.len() ==> jv_get(doc, m.props[i].0) is Some && type_ok(
                m.props[i].1,
                jv_get(doc, m.props[i].0)->Some_0,
            ),
        forall|i: int|
            0 <= i < doc->Obj_0.len() ==> doc->Obj_0[i].0 == id_key() || prop_declared(
                m.props,
                doc->Obj_0[i].0,
            ),
    ensures
        validate_spec(m, doc) is None,
{
    lemma_fpv_none(m.props, doc);
    lemma_fuf_none(doc->Obj_0, m.props);
}

} // verus!
