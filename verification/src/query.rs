//! The boolean query language: match-all, exact-term and boolean
//! combinator predicates over documents, and the parsers that read a
//! loosely-structured query description into them.

use vstd::prelude::*;

use crate::engine::{SortOptions, SortOptionsV, SortOrder};
use crate::keyword::{strip_keyword, strip_keyword_spec};
use crate::value::{jv_get, value_eq, view_of_fields, JsonValue, Jv};

verus! {

/// The predicate that accepts every document.
#[derive(Debug)]
pub struct MatchAllQuery;

/// An exact-equality predicate on one field. A trailing `.keyword` marker
/// on the field name is ignored.
#[derive(Debug)]
pub struct TermQuery {
    pub field: String,
    pub value: JsonValue,
}

/// A boolean combinator: every `must` clause must hold, no `must_not`
/// clause may hold, and when `should` clauses exist at least one must hold.
#[derive(Debug)]
pub struct BoolQuery {
    pub must: Vec<Query>,
    pub should: Vec<Query>,
    pub must_not: Vec<Query>,
}

/// A query predicate: one of the three recognised shapes.
#[derive(Debug)]
pub enum Query {
    MatchAll(MatchAllQuery),
    Term(TermQuery),
    Bool(BoolQuery),
}

/// The model of a query predicate.
pub enum Qv {
    MatchAll,
    Term(Seq<char>, Jv),
    Bool(Seq<Qv>, Seq<Qv>, Seq<Qv>),
}

pub open spec fn qv_of(q: Query) -> Qv
    decreases q,
{
    match q {
        Query::MatchAll(_) => Qv::MatchAll,
        Query::Term(t) => Qv::Term(t.field@, t.value@),
        Query::Bool(b) => Qv::Bool(qv_of_seq(b.must@), qv_of_seq(b.should@), qv_of_seq(b.must_not@)),
    }
}

pub open spec fn qv_of_seq(s: Seq<Query>) -> Seq<Qv>
    decreases s,
{
    if s.len() == 0 {
        Seq::empty()
    } else {
        seq![qv_of(s[0])] + qv_of_seq(s.drop_first())
    }
}

impl View for Query {
    type V = Qv;

    open spec fn view(&self) -> Qv {
        qv_of(*self)
    }
}

/// Whether a term predicate holds of a document: the named field (with any
/// `.keyword` marker stripped) is present and structurally equal to the
/// sought value.
pub open spec fn term_matches_spec(field: Seq<char>, value: Jv, doc: Jv) -> bool {
    jv_get(doc, strip_keyword_spec(field)) == Some(value)
}

/// Whether a query predicate holds of a document.
pub open spec fn matches(q: Qv, doc: Jv) -> bool
    decreases q,
{
    match q {
        Qv::MatchAll => true,
        Qv::Term(field, value) => term_matches_spec(field, value, doc),
        Qv::Bool(must, should, must_not) => all_match(must, doc) && none_match(must_not, doc) && (
        should.len() == 0 || any_match(should, doc)),
    }
}

/// Every predicate in the sequence holds of the document.
pub open spec fn all_match(qs: Seq<Qv>, doc: Jv) -> bool
    decreases qs,
{
    if qs.len() == 0 {
        true
    } else {
        matches(qs[0], doc) && all_match(qs.drop_first(), doc)
    }
}

/// Some predicate in the sequence holds of the document.
pub open spec fn any_match(qs: Seq<Qv>, doc: Jv) -> bool
    decreases qs,
{
    if qs.len() == 0 {
        false
    } else {
        matches(qs[0], doc) || any_match(qs.drop_first(), doc)
    }
}

/// No predicate in the sequence holds of the document.
pub open spec fn none_match(qs: Seq<Qv>, doc: Jv) -> bool
    decreases qs,
{
    if qs.len() == 0 {
        true
    } else {
        !matches(qs[0], doc) && none_match(qs.drop_first(), doc)
    }
}

proof fn lemma_all_match_iff(qs: Seq<Qv>, doc: Jv)
    ensures
        all_match(qs, doc) <==> (forall|i: int| 0 <= i < qs.len() ==> matches(qs[i], doc)),
    decreases qs,
{
    if qs.len() > 0 {
        lemma_all_match_iff(qs.drop_first(), doc);
        if all_match(qs, doc) {
            assert forall|i: int| 0 <= i < qs.len() implies matches(qs[i], doc) by {
                if i > 0 {
                    assert(qs.drop_first()[i - 1] == qs[i]);
                }
            }
        } else if matches(qs[0], doc) {
            let iw = choose|i: int|
                0 <= i < qs.drop_first().len() && !matches(qs.drop_first()[i], doc);
            assert(qs.drop_first()[iw] == qs[iw + 1]);
            assert(!matches(qs[iw + 1], doc));
        }
    }
}

proof fn lemma_any_match_iff(qs: Seq<Qv>, doc: Jv)
    ensures
        any_match(qs, doc) <==> (exists|i: int| 0 <= i < qs.len() && matches(qs[i], doc)),
    decreases qs,
{
    if qs.len() > 0 {
        lemma_any_match_iff(qs.drop_first(), doc);
        if any_match(qs, doc) {
            if matches(qs[0], doc) {
                assert(0 <= 0 < qs.len() && matches(qs[0], doc));
            } else {
                let iw = choose|i: int|
                    0 <= i < qs.drop_first().len() && matches(qs.drop_first()[i], doc);
                assert(qs.drop_first()[iw] == qs[iw + 1]);
                assert(0 <= iw + 1 < qs.len() && matches(qs[iw + 1], doc));
            }
        } else {
            assert forall|i: int| 0 <= i < qs.len() implies !matches(qs[i], doc) by {
                if i > 0 {
                    assert(qs.drop_first()[i - 1] == qs[i]);
                }
            }
        }
    }
}

proof fn lemma_none_match_iff(qs: Seq<Qv>, doc: Jv)
    ensures
        none_match(qs, doc) <==> (forall|i: int| 0 <= i < qs.len() ==> !matches(qs[i], doc)),
    decreases qs,
{
    if qs.len() > 0 {
        lemma_none_match_iff(qs.drop_first(), doc);
        if none_match(qs, doc) {
            assert forall|i: int| 0 <= i < qs.len() implies !matches(qs[i], doc) by {
                if i > 0 {
                    assert(qs.drop_first()[i - 1] == qs[i]);
                }
            }
        } else if !matches(qs[0], doc) {
            let iw = choose|i: int|
                0 <= i < qs.drop_first().len() && matches(qs.drop_first()[i], doc);
            assert(qs.drop_first()[iw] == qs[iw + 1]);
            assert(matches(qs[iw + 1], doc));
        }
    }
}

/// Each position of a sequence of queries is modelled pointwise.
proof fn lemma_qv_of_seq_index(s: Seq<Query>, i: int)
    requires
        0 <= i < s.len(),
    ensures
        qv_of_seq(s).len() == s.len(),
        qv_of_seq(s)[i] == qv_of(s[i]),
    decreases s.len(),
{
    lemma_qv_of_seq_len(s);
    if i > 0 {
        lemma_qv_of_seq_index(s.drop_first(), i - 1);
    }
}

proof fn lemma_qv_of_seq_len(s: Seq<Query>)
    ensures
        qv_of_seq(s).len() == s.len(),
    decreases s.len(),
{
    if s.len() > 0 {
        lemma_qv_of_seq_len(s.drop_first());
    }
}

impl MatchAllQuery {
    /// Accepts every document.
    pub fn matches(&self, doc: &JsonValue) -> (r: bool)
        ensures
            r == matches(Qv::MatchAll, doc@),
    {
        let _ = doc;
        true
    }
}

impl TermQuery {
    /// Whether the document's field (with any `.keyword` marker stripped)
    /// equals the sought value.
    pub fn matches(&self, doc: &JsonValue) -> (r: bool)
        ensures
            r == term_matches_spec(self.field@, self.value@, doc@),
    {
        let field = strip_keyword(&self.field);
        match doc.get(&field) {
            Option::Some(v) => value_eq(v, &self.value),
            Option::None => false,
        }
    }
}

impl BoolQuery {
    /// Whether every `must` clause holds, no `must_not` clause holds, and,
    /// when `should` clauses exist, at least one holds.
    #[verifier::loop_isolation(false)]
    pub fn matches(&self, doc: &JsonValue) -> (r: bool)
        ensures
            r == matches(
                Qv::Bool(qv_of_seq(self.must@), qv_of_seq(self.should@), qv_of_seq(self.must_not@)),
                doc@,
            ),
        decreases *self,
    {
        proof {
            lemma_all_match_iff(qv_of_seq(self.must@), doc@);
            lemma_none_match_iff(qv_of_seq(self.must_not@), doc@);
            lemma_any_match_iff(qv_of_seq(self.should@), doc@);
            lemma_qv_of_seq_len(self.must@);
            lemma_qv_of_seq_len(self.should@);
            lemma_qv_of_seq_len(self.must_not@);
        }
        let n_must = self.must.len();
        let mut i: usize = 0;
        while i < n_must
            invariant
                i <= n_must,
                forall|j: int| 0 <= j < i ==> matches(qv_of_seq(self.must@)[j], doc@),
            decreases n_must - i,
        {
            proof {
                lemma_qv_of_seq_index(self.must@, i as int);
                assert(decreases_to!(*self => self.must));
                assert(decreases_to!(self.must => self.must@));
                assert(decreases_to!(self.must@ => self.must@[i as int]));
            }
            if !self.must[i].matches(doc) {
                return false;
            }
            i = i + 1;
        }
        let n_not = self.must_not.len();
        let mut k: usize = 0;
        while k < n_not
            invariant
                k <= n_not,
                forall|j: int| 0 <= j < k ==> !matches(qv_of_seq(self.must_not@)[j], doc@),
            decreases n_not - k,
        {
            proof {
                lemma_qv_of_seq_index(self.must_not@, k as int);
                assert(decreases_to!(*self => self.must_not));
                assert(decreases_to!(self.must_not => self.must_not@));
                assert(decreases_to!(self.must_not@ => self.must_not@[k as int]));
            }
            if self.must_not[k].matches(doc) {
                return false;
            }
            k = k + 1;
        }
        let n_should = self.should.len();
        if n_should == 0 {
            return true;
        }
        let mut s: usize = 0;
        while s < n_should
            invariant
                s <= n_should,
                forall|j: int| 0 <= j < s ==> !matches(qv_of_seq(self.should@)[j], doc@),
            decreases n_should - s,
        {
            proof {
                lemma_qv_of_seq_index(self.should@, s as int);
                assert(decreases_to!(*self => self.should));
                assert(decreases_to!(self.should => self.should@));
                assert(decreases_to!(self.should@ => self.should@[s as int]));
            }
            if self.should[s].matches(doc) {
                return true;
            }
            s = s + 1;
        }
        false
    }
}

pub open spec fn query_key() -> Seq<char> {
    seq!['q', 'u', 'e', 'r', 'y']
}

pub open spec fn bool_key() -> Seq<char> {
    seq!['b', 'o', 'o', 'l']
}

pub open spec fn term_key() -> Seq<char> {
    seq!['t', 'e', 'r', 'm']
}

pub open spec fn must_key() -> Seq<char> {
    seq!['m', 'u', 's', 't']
}

pub open spec fn should_key() -> Seq<char> {
    seq!['s', 'h', 'o', 'u', 'l', 'd']
}

pub open spec fn must_not_key() -> Seq<char> {
    seq!['m', 'u', 's', 't', '_', 'n', 'o', 't']
}

/// A present field is structurally below the object holding it.
proof fn lemma_jv_get_decreases(v: Jv, key: Seq<char>)
    requires
        jv_get(v, key) is Some,
    ensures
        decreases_to!(v => jv_get(v, key)->Some_0),
{
    let fields = v->Obj_0;
    lemma_fields_get_witness(fields, key);
    let i = choose|i: int|
        0 <= i < fields.len() && fields[i].1 == crate::value::fields_get(fields, key)->Some_0;
    assert(decreases_to!(v => v->Obj_0));
    assert(decreases_to!(fields => fields[i]));
    assert(decreases_to!(fields[i] => fields[i].1));
}

/// A found field value is one of the object's entries.
proof fn lemma_fields_get_witness(fields: Seq<(Seq<char>, Jv)>, key: Seq<char>)
    requires
        crate::value::fields_get(fields, key) is Some,
    ensures
        exists|i: int|
            0 <= i < fields.len() && fields[i].1 == crate::value::fields_get(
                fields,
                key,
            )->Some_0,
    decreases fields,
{
    if fields[0].0 == key {
        assert(0 <= 0 < fields.len() && fields[0].1 == crate::value::fields_get(
            fields,
            key,
        )->Some_0);
    } else {
        lemma_fields_get_witness(fields.drop_first(), key);
        let i = choose|i: int|
            0 <= i < fields.drop_first().len() && fields.drop_first()[i].1
                == crate::value::fields_get(fields.drop_first(), key)->Some_0;
        assert(fields[i + 1].1 == crate::value::fields_get(fields, key)->Some_0);
    }
}

/// The predicate a query description denotes: the value under `query`,
/// read as a clause; with no such wrapper, everything matches.
pub open spec fn parse_query_spec(v: Jv) -> Qv {
    match jv_get(v, query_key()) {
        Option::Some(q) => parse_internal_spec(q),
        Option::None => Qv::MatchAll,
    }
}

/// The clause an object denotes: a `bool` wrapper wins, then a `term`
/// wrapper holding an object of exactly one field, which names the term;
/// every other shape matches everything.
pub open spec fn parse_internal_spec(v: Jv) -> Qv
    decreases v, 0int,
    via parse_internal_spec_dec
{
    match jv_get(v, bool_key()) {
        Option::Some(b) => parse_bool_spec(b),
        Option::None => match jv_get(v, term_key()) {
            Option::Some(t) => match t {
                Jv::Obj(entries) => if entries.len() == 1 {
                    Qv::Term(entries[0].0, entries[0].1)
                } else {
                    Qv::MatchAll
                },
                _ => Qv::MatchAll,
            },
            Option::None => Qv::MatchAll,
        },
    }
}

#[via_fn]
proof fn parse_internal_spec_dec(v: Jv) {
    if jv_get(v, bool_key()) is Some {
        lemma_jv_get_decreases(v, bool_key());
    }
}

/// The combinator a `bool` wrapper denotes: each of `must`, `should` and
/// `must_not` is read as a clause list when present and is empty when
/// absent.
pub open spec fn parse_bool_spec(v: Jv) -> Qv
    decreases v, 0int,
    via parse_bool_spec_dec
{
    Qv::Bool(
        match jv_get(v, must_key()) {
            Option::Some(m) => parse_list_spec(m),
            Option::None => Seq::empty(),
        },
        match jv_get(v, should_key()) {
            Option::Some(s) => parse_list_spec(s),
            Option::None => Seq::empty(),
        },
        match jv_get(v, must_not_key()) {
            Option::Some(mn) => parse_list_spec(mn),
            Option::None => Seq::empty(),
        },
    )
}

#[via_fn]
proof fn parse_bool_spec_dec(v: Jv) {
    if jv_get(v, must_key()) is Some {
        lemma_jv_get_decreases(v, must_key());
    }
    if jv_get(v, should_key()) is Some {
        lemma_jv_get_decreases(v, should_key());
    }
    if jv_get(v, must_not_key()) is Some {
        lemma_jv_get_decreases(v, must_not_key());
    }
}

/// The clause list a value denotes: an array is one clause per element, and
/// any other value is the single clause it itself denotes.
pub open spec fn parse_list_spec(v: Jv) -> Seq<Qv>
    decreases v, 1int,
{
    match v {
        Jv::Arr(items) => parse_list_items_spec(items),
        _ => seq![parse_internal_spec(v)],
    }
}

pub open spec fn parse_list_items_spec(items: Seq<Jv>) -> Seq<Qv>
    decreases items, 0int,
{
    if items.len() == 0 {
        Seq::empty()
    } else {
        seq![parse_internal_spec(items[0])] + parse_list_items_spec(items.drop_first())
    }
}

impl Query {
    /// Whether this predicate holds of the document, as the model's
    /// `matches` sees it.
    pub fn matches(&self, doc: &JsonValue) -> (r: bool)
        ensures
            r == matches(self@, doc@),
        decreases *self,
    {
        match self {
            Query::MatchAll(q) => q.matches(doc),
            Query::Term(t) => t.matches(doc),
            Query::Bool(b) => {
                proof {
                    assert(decreases_to!(*self => (*self)->Bool_0));
                }
                b.matches(doc)
            },
        }
    }
}

/// Reads a query description: the value under `query` becomes the
/// predicate; with no such wrapper everything matches.
pub fn parse_query(json: &JsonValue) -> (r: Query)
    ensures
        r@ == parse_query_spec(json@),
{
    let key = String::from_str("query");
    proof {
        reveal_strlit("query");
        assert(key@ =~= query_key());
    }
    match json.get(&key) {
        Option::Some(q) => parse_query_internal(q),
        Option::None => Query::MatchAll(MatchAllQuery),
    }
}

/// Reads one clause, as the model's `parse_internal_spec` sees it.
fn parse_query_internal(json: &JsonValue) -> (r: Query)
    ensures
        r@ == parse_internal_spec(json@),
    decreases *json, 0int,
{
    let bool_k = String::from_str("bool");
    let term_k = String::from_str("term");
    proof {
        reveal_strlit("bool");
        reveal_strlit("term");
        assert(bool_k@ =~= bool_key());
        assert(term_k@ =~= term_key());
    }
    match json.get(&bool_k) {
        Option::Some(b) => Query::Bool(parse_bool(b)),
        Option::None => match json.get(&term_k) {
            Option::Some(t) => match t {
                JsonValue::Obj(entries) => {
                    if entries.len() == 1 {
                        proof {
                            crate::value::lemma_view_of_fields_index(entries@, 0);
                        }
                        Query::Term(
                            TermQuery {
                                field: entries[0].0.clone(),
                                value: entries[0].1.deep_copy(),
                            },
                        )
                    } else {
                        proof {
                            crate::value::lemma_view_of_fields_len(entries@);
                        }
                        Query::MatchAll(MatchAllQuery)
                    }
                },
                _ => Query::MatchAll(MatchAllQuery),
            },
            Option::None => Query::MatchAll(MatchAllQuery),
        },
    }
}

/// Reads the three clause lists of a `bool` wrapper.
fn parse_bool(json: &JsonValue) -> (r: BoolQuery)
    ensures
        Qv::Bool(qv_of_seq(r.must@), qv_of_seq(r.should@), qv_of_seq(r.must_not@))
            == parse_bool_spec(json@),
    decreases *json, 0int,
{
    let must_k = String::from_str("must");
    let should_k = String::from_str("should");
    let must_not_k = String::from_str("must_not");
    proof {
        reveal_strlit("must");
        reveal_strlit("should");
        reveal_strlit("must_not");
        assert(must_k@ =~= must_key());
        assert(should_k@ =~= should_key());
        assert(must_not_k@ =~= must_not_key());
    }
    let must = match json.get(&must_k) {
        Option::Some(m) => parse_list(m),
        Option::None => Vec::new(),
    };
    let should = match json.get(&should_k) {
        Option::Some(s) => parse_list(s),
        Option::None => Vec::new(),
    };
    let must_not = match json.get(&must_not_k) {
        Option::Some(mn) => parse_list(mn),
        Option::None => Vec::new(),
    };
    BoolQuery { must, should, must_not }
}

/// Reads a clause list: an array gives one clause per element, any other
/// value the single clause it denotes.
#[verifier::loop_isolation(false)]
fn parse_list(json: &JsonValue) -> (r: Vec<Query>)
    ensures
        qv_of_seq(r@) == parse_list_spec(json@),
    decreases *json, 1int,
{
    match json {
        JsonValue::Arr(items) => {
            let n = items.len();
            let mut out: Vec<Query> = Vec::new();
            let mut i: usize = 0;
            while i < n
                invariant
                    i <= n,
                    out@.len() == i,
                    forall|j: int|
                        0 <= j < i ==> qv_of(out@[j]) == parse_internal_spec(
                            crate::value::view_of_seq(items@)[j],
                        ),
                decreases n - i,
            {
                proof {
                    crate::value::lemma_view_of_seq_index(items@, i as int);
                    assert(decreases_to!(*json => (*json)->Arr_0));
                    assert((*json)->Arr_0 == *items);
                    assert(decreases_to!(*items => items@));
                    assert(decreases_to!(items@ => items@[i as int]));
                }
                let q = parse_query_internal(&items[i]);
                out.push(q);
                i = i + 1;
            }
            proof {
                let vs = crate::value::view_of_seq(items@);
                crate::value::lemma_view_of_seq_len(items@);
                lemma_qv_of_seq_len(out@);
                lemma_parse_list_items_all(vs);
                assert forall|j: int| 0 <= j < n implies qv_of_seq(out@)[j]
                    == parse_list_items_spec(vs)[j] by {
                    lemma_qv_of_seq_index(out@, j);
                }
                assert(qv_of_seq(out@) =~= parse_list_items_spec(vs));
            }
            out
        },
        _ => {
            let q = parse_query_internal(json);
            let mut r: Vec<Query> = Vec::new();
            r.push(q);
            proof {
                lemma_qv_of_seq_index(r@, 0);
                assert(qv_of_seq(r@) =~= seq![parse_internal_spec(json@)]);
            }
            r
        },
    }
}

/// Each position of a parsed clause list comes from the same position of
/// the description.
proof fn lemma_parse_list_items_all(items: Seq<Jv>)
    ensures
        parse_list_items_spec(items).len() == items.len(),
        forall|i: int|
            0 <= i < items.len() ==> parse_list_items_spec(items)[i] == parse_internal_spec(
                items[i],
            ),
    decreases items,
{
    if items.len() > 0 {
        lemma_parse_list_items_all(items.drop_first());
        assert forall|i: int| 0 <= i < items.len() implies parse_list_items_spec(items)[i]
            == parse_internal_spec(items[i]) by {
            if i > 0 {
                assert(items.drop_first()[i - 1] == items[i]);
                assert(parse_list_items_spec(items)[i] == parse_list_items_spec(
                    items.drop_first(),
                )[i - 1]);
            }
        }
    }
}


pub open spec fn from_key() -> Seq<char> {
    seq!['f', 'r', 'o', 'm']
}

pub open spec fn size_key() -> Seq<char> {
    seq!['s', 'i', 'z', 'e']
}

/// The pagination offset a query description asks for: the non-negative
/// integer under `from`, or zero.
pub open spec fn parse_from_spec(v: Jv) -> int {
    match jv_get(v, from_key()) {
        Option::Some(x) => match crate::value::jv_as_u64(x) {
            Option::Some(n) => n,
            Option::None => 0,
        },
        Option::None => 0,
    }
}

/// The page size a query description asks for: the non-negative integer
/// under `size`, or ten.
pub open spec fn parse_size_spec(v: Jv) -> int {
    match jv_get(v, size_key()) {
        Option::Some(x) => match crate::value::jv_as_u64(x) {
            Option::Some(n) => n,
            Option::None => 10,
        },
        Option::None => 10,
    }
}

/// Reads the pagination window of a query description: `from` (default 0)
/// and `size` (default 10).
pub fn parse_pagination(json: &JsonValue) -> (r: (usize, usize))
    ensures
        r.0 == parse_from_spec(json@) as usize,
        r.1 == parse_size_spec(json@) as usize,
{
    let from_k = String::from_str("from");
    let size_k = String::from_str("size");
    proof {
        reveal_strlit("from");
        reveal_strlit("size");
        assert(from_k@ =~= from_key());
        assert(size_k@ =~= size_key());
    }
    let from: usize = match json.get(&from_k) {
        Option::Some(x) => match x.as_u64() {
            Option::Some(n) => n as usize,
            Option::None => 0,
        },
        Option::None => 0,
    };
    let size: usize = match json.get(&size_k) {
        Option::Some(x) => match x.as_u64() {
            Option::Some(n) => n as usize,
            Option::None => 10,
        },
        Option::None => 10,
    };
    (from, size)
}

pub open spec fn sort_key() -> Seq<char> {
    seq!['s', 'o', 'r', 't']
}

pub open spec fn order_key() -> Seq<char> {
    seq!['o', 'r', 'd', 'e', 'r']
}

pub open spec fn desc_chars() -> Seq<char> {
    seq!['d', 'e', 's', 'c']
}

/// The direction a sort entry's value asks for: descending exactly when its
/// `order` field is the string `desc`.
pub open spec fn sort_order_of(val: Jv) -> SortOrder {
    match jv_get(val, order_key()) {
        Option::Some(Jv::Str(s)) => if s == desc_chars() {
            SortOrder::Desc
        } else {
            SortOrder::Asc
        },
        _ => SortOrder::Asc,
    }
}

/// The sort directive one value denotes: a bare string is an ascending sort
/// on that field; an object's first field names the sort key and its value
/// may carry the direction; anything else is no directive.
pub open spec fn parse_single_sort_spec(v: Jv) -> Option<SortOptionsV> {
    match v {
        Jv::Str(f) => Some(SortOptionsV { field: f, order: SortOrder::Asc }),
        Jv::Obj(entries) => if entries.len() > 0 {
            Some(SortOptionsV { field: entries[0].0, order: sort_order_of(entries[0].1) })
        } else {
            None
        },
        _ => None,
    }
}

/// The sort directive a query description asks for: the value under `sort`,
/// or, when that is an array, its first element only.
pub open spec fn parse_sort_spec(v: Jv) -> Option<SortOptionsV> {
    match jv_get(v, sort_key()) {
        Option::None => None,
        Option::Some(sv) => match sv {
            Jv::Arr(items) => if items.len() > 0 {
                parse_single_sort_spec(items[0])
            } else {
                None
            },
            _ => parse_single_sort_spec(sv),
        },
    }
}

/// Reads the sort directive of a query description, as the model's
/// `parse_sort_spec` sees it.
pub fn parse_sort(json: &JsonValue) -> (r: Option<SortOptions>)
    ensures
        match r {
            Some(so) => parse_sort_spec(json@) == Some(so@),
            None => parse_sort_spec(json@) is None,
        },
{
    let sort_k = String::from_str("sort");
    proof {
        reveal_strlit("sort");
        assert(sort_k@ =~= sort_key());
    }
    match json.get(&sort_k) {
        Option::None => None,
        Option::Some(sv) => match sv {
            JsonValue::Arr(items) => {
                if items.len() > 0 {
                    proof {
                        crate::value::lemma_view_of_seq_index(items@, 0);
                    }
                    parse_single_sort(&items[0])
                } else {
                    proof {
                        crate::value::lemma_view_of_seq_len(items@);
                    }
                    None
                }
            },
            _ => parse_single_sort(sv),
        },
    }
}

/// Reads one sort entry, as the model's `parse_single_sort_spec` sees it.
fn parse_single_sort(json: &JsonValue) -> (r: Option<SortOptions>)
    ensures
        match r {
            Some(so) => parse_single_sort_spec(json@) == Some(so@),
            None => parse_single_sort_spec(json@) is None,
        },
{
    let order_k = String::from_str("order");
    let desc_s = String::from_str("desc");
    proof {
        reveal_strlit("order");
        reveal_strlit("desc");
        assert(order_k@ =~= order_key());
        assert(desc_s@ =~= desc_chars());
    }
    match json {
        JsonValue::Str(f) => Some(SortOptions { field: f.clone(), order: SortOrder::Asc }),
        JsonValue::Obj(entries) => {
            if entries.len() > 0 {
                proof {
                    crate::value::lemma_view_of_fields_index(entries@, 0);
                }
                let field = entries[0].0.clone();
                let order = match entries[0].1.get(&order_k) {
                    Option::Some(ov) => match ov.as_str_value() {
                        Option::Some(s) => if *s == desc_s {
                            SortOrder::Desc
                        } else {
                            SortOrder::Asc
                        },
                        Option::None => SortOrder::Asc,
                    },
                    Option::None => SortOrder::Asc,
                };
                Some(SortOptions { field, order })
            } else {
                proof {
                    crate::value::lemma_view_of_fields_len(entries@);
                }
                None
            }
        },
        _ => None,
    }
}

/// A terms aggregation directive: group the documents by the distinct
/// scalar values of `field` (any `.keyword` marker ignored), counting the
/// members of each group, under the caller-chosen `name`.
#[derive(Debug)]
pub struct TermsAggregation {
    pub name: String,
    pub field: String,
}

/// The model of an aggregation directive.
pub struct TermsAggregationV {
    pub name: Seq<char>,
    pub field: Seq<char>,
}

impl View for TermsAggregation {
    type V = TermsAggregationV;

    open spec fn view(&self) -> TermsAggregationV {
        TermsAggregationV { name: self.name@, field: self.field@ }
    }
}

pub open spec fn aggs_view(s: Seq<TermsAggregation>) -> Seq<TermsAggregationV> {
    s.map_values(|a: TermsAggregation| a@)
}

pub open spec fn aggs_key() -> Seq<char> {
    seq!['a', 'g', 'g', 's']
}

pub open spec fn terms_key() -> Seq<char> {
    seq!['t', 'e', 'r', 'm', 's']
}

pub open spec fn field_key() -> Seq<char> {
    seq!['f', 'i', 'e', 'l', 'd']
}

/// The field one aggregation entry targets: the string under
/// `terms.field`, when the entry has that shape.
pub open spec fn agg_field_of(v: Jv) -> Option<Seq<char>> {
    match jv_get(v, terms_key()) {
        Option::Some(t) => match jv_get(t, field_key()) {
            Option::Some(Jv::Str(f)) => Some(f),
            _ => None,
        },
        Option::None => None,
    }
}

/// The directives a sequence of aggregation entries denotes, in order; an
/// entry of any other kind than `terms` is ignored.
pub open spec fn parse_aggs_entries_spec(entries: Seq<(Seq<char>, Jv)>) -> Seq<
    TermsAggregationV,
>
    decreases entries,
{
    if entries.len() == 0 {
        Seq::empty()
    } else {
        let rest = parse_aggs_entries_spec(entries.drop_first());
        match agg_field_of(entries[0].1) {
            Option::Some(f) => seq![TermsAggregationV { name: entries[0].0, field: f }] + rest,
            Option::None => rest,
        }
    }
}

/// The aggregation directives a query description asks for: one per
/// well-shaped entry under `aggs`.
pub open spec fn parse_aggregations_spec(v: Jv) -> Seq<TermsAggregationV> {
    match jv_get(v, aggs_key()) {
        Option::Some(Jv::Obj(entries)) => parse_aggs_entries_spec(entries),
        _ => Seq::empty(),
    }
}

/// Reads the field one aggregation entry targets.
fn agg_field(json: &JsonValue) -> (r: Option<String>)
    ensures
        match r {
            Some(f) => agg_field_of(json@) == Some(f@),
            None => agg_field_of(json@) is None,
        },
{
    let terms_k = String::from_str("terms");
    let field_k = String::from_str("field");
    proof {
        reveal_strlit("terms");
        reveal_strlit("field");
        assert(terms_k@ =~= terms_key());
        assert(field_k@ =~= field_key());
    }
    match json.get(&terms_k) {
        Option::Some(t) => match t.get(&field_k) {
            Option::Some(fv) => match fv.as_str_value() {
                Option::Some(f) => Some(f.clone()),
                Option::None => None,
            },
            Option::None => None,
        },
        Option::None => None,
    }
}

/// Reads the aggregation directives of a query description, as the model's
/// `parse_aggregations_spec` sees them.
#[verifier::loop_isolation(false)]
pub fn parse_aggregations(json: &JsonValue) -> (r: Vec<TermsAggregation>)
    ensures
        aggs_view(r@) == parse_aggregations_spec(json@),
{
    let aggs_k = String::from_str("aggs");
    proof {
        reveal_strlit("aggs");
        assert(aggs_k@ =~= aggs_key());
    }
    let mut out: Vec<TermsAggregation> = Vec::new();
    match json.get(&aggs_k) {
        Option::Some(av) => match av {
            JsonValue::Obj(entries) => {
                let ghost vf = view_of_fields(entries@);
                let n = entries.len();
                let mut i: usize = 0;
                proof {
                    crate::value::lemma_view_of_fields_all(entries@);
                    assert(vf.subrange(0, n as int) =~= vf);
                    assert(aggs_view(out@) + parse_aggs_entries_spec(vf)
                        =~= parse_aggs_entries_spec(vf));
                }
                while i < n
                    invariant
                        i <= n,
                        parse_aggs_entries_spec(vf) == aggs_view(out@)
                            + parse_aggs_entries_spec(vf.subrange(i as int, n as int)),
                    decreases n - i,
                {
                    proof {
                        assert(vf.subrange(i as int, n as int)[0] == vf[i as int]);
                        assert(vf.subrange(i as int, n as int).drop_first() =~= vf.subrange(
                            i + 1,
                            n as int,
                        ));
                    }
                    match agg_field(&entries[i].1) {
                        Option::Some(f) => {
                            let name = entries[i].0.clone();
                            let a = TermsAggregation { name, field: f };
                            out.push(a);
                            proof {
                                assert(aggs_view(out@) =~= aggs_view(out@.drop_last()).push(
                                    a@,
                                ));
                                assert(aggs_view(out@) + parse_aggs_entries_spec(
                                    vf.subrange(i + 1, n as int),
                                ) =~= aggs_view(out@.drop_last()) + (seq![a@]
                                    + parse_aggs_entries_spec(vf.subrange(i + 1, n as int))));
                            }
                        },
                        Option::None => {},
                    }
                    i = i + 1;
                }
                proof {
                    assert(vf.subrange(n as int, n as int) =~= Seq::<(Seq<char>, Jv)>::empty());
                    assert(aggs_view(out@) + parse_aggs_entries_spec(
                        vf.subrange(n as int, n as int),
                    ) =~= aggs_view(out@));
                }
            },
            _ => {
                proof {
                    assert(aggs_view(out@) =~= Seq::<TermsAggregationV>::empty());
                }
            },
        },
        Option::None => {
            proof {
                assert(aggs_view(out@) =~= Seq::<TermsAggregationV>::empty());
            }
        },
    }
    out
}

} // verus!
