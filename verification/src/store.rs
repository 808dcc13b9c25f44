//! The document store: one snapshot (mapping plus ordered document list)
//! per index name, held in a concurrent map and replaced wholesale on every
//! mutation, so a reader always sees a complete snapshot.

use vstd::prelude::*;

use dashmap::DashMap;

use crate::mapping::{
    id_key, merge_props, validate_spec, Mapping, MappingV, ValidationError, ValidationErrorV,
};
use crate::value::{jv_get, view_of_seq, JsonValue, Jv};

verus! {

/// One index's snapshot: its schema and its documents in insertion order.
#[derive(Debug)]
pub struct IndexData {
    pub mapping: Mapping,
    pub documents: Vec<JsonValue>,
}

/// The model of a snapshot.
pub struct IndexDataV {
    pub mapping: MappingV,
    pub documents: Seq<Jv>,
}

impl View for IndexData {
    type V = IndexDataV;

    open spec fn view(&self) -> IndexDataV {
        IndexDataV { mapping: self.mapping@, documents: view_of_seq(self.documents@) }
    }
}

/// How a store operation can fail. Every failure is a value; nothing is
/// thrown.
#[derive(Debug, PartialEq)]
pub enum StoreError {
    /// The named index does not exist.
    IndexNotFound,
    /// The addressed document does not exist.
    DocumentMissing,
    /// The document does not conform to the index's schema.
    ValidationFailed(ValidationError),
    /// A patch request lacked the expected content.
    ActionValidation,
}

/// The model of a store failure.
pub enum StoreErrorV {
    IndexNotFound,
    DocumentMissing,
    ValidationFailed(ValidationErrorV),
    ActionValidation,
}

impl View for StoreError {
    type V = StoreErrorV;

    open spec fn view(&self) -> StoreErrorV {
        match self {
            StoreError::IndexNotFound => StoreErrorV::IndexNotFound,
            StoreError::DocumentMissing => StoreErrorV::DocumentMissing,
            StoreError::ValidationFailed(e) => StoreErrorV::ValidationFailed(e@),
            StoreError::ActionValidation => StoreErrorV::ActionValidation,
        }
    }
}

#[verifier::external_type_specification]
#[verifier::external_body]
#[verifier::reject_recursive_types(K)]
#[verifier::reject_recursive_types(V)]
#[verifier::reject_recursive_types(S)]
pub struct ExDashMap<K, V, S>(DashMap<K, V, S>);

/// What the concurrent map holds: each present index name to the model of
/// its snapshot.
pub uninterp spec fn store_contents(m: DashMap<String, IndexData>) -> Map<Seq<char>, IndexDataV>;

/// Relies on dashmap::DashMap::new: a new map holds nothing.
#[verifier::external_body]
fn dm_new() -> (r: DashMap<String, IndexData>)
    ensures
        forall|k: Seq<char>| !store_contents(r).dom().contains(k),
{
    DashMap::new()
}

/// Relies on dashmap::DashMap::insert: afterwards the key maps to the given
/// value and every other key is as before.
#[verifier::external_body]
fn dm_insert(m: &mut DashMap<String, IndexData>, key: String, value: IndexData)
    ensures
        store_contents(*final(m)) == store_contents(*old(m)).insert(key@, value@),
{
    m.insert(key, value);
}

/// Relies on dashmap::DashMap::remove: afterwards the key maps to nothing
/// and every other key is as before; the result says whether it mapped.
#[verifier::external_body]
fn dm_remove(m: &mut DashMap<String, IndexData>, key: &String) -> (r: bool)
    ensures
        store_contents(*final(m)) == store_contents(*old(m)).remove(key@),
        r == store_contents(*old(m)).dom().contains(key@),
{
    m.remove(key).is_some()
}

/// Relies on dashmap::DashMap::get, handing back a structural copy of the
/// stored snapshot made by this crate's own copying functions.
#[verifier::external_body]
fn dm_get(m: &DashMap<String, IndexData>, key: &String) -> (r: Option<IndexData>)
    ensures
        match r {
            Some(d) => store_contents(*m).dom().contains(key@) && d@ == store_contents(*m)[key@],
            None => !store_contents(*m).dom().contains(key@),
        },
{
    m.get(key).map(|entry| entry.value().copy_snapshot())
}

/// Relies on dashmap::DashMap::contains_key.
#[verifier::external_body]
fn dm_contains(m: &DashMap<String, IndexData>, key: &String) -> (r: bool)
    ensures
        r == store_contents(*m).dom().contains(key@),
{
    m.contains_key(key)
}

/// Relies on uuid::Uuid::new_v4 and its hyphenated text form: a fresh
/// identifier of 36 characters. Distinct calls may return anything of that
/// shape.
#[verifier::external_body]
fn mint_id() -> (r: String)
    ensures
        r@.len() == 36,
{
    uuid::Uuid::new_v4().to_string()
}

impl Mapping {
    /// A structurally equal copy of this schema.
    pub fn copy_mapping(&self) -> (r: Mapping)
        ensures
            r@ == self@,
    {
        let n = self.properties.len();
        let mut props: Vec<(String, crate::mapping::Property)> = Vec::new();
        let mut i: usize = 0;
        while i < n
            invariant
                i <= n,
                n == self.properties.len(),
                props@.len() == i,
                forall|j: int| 0 <= j < i ==> props@[j] == self.properties@[j],
            decreases n - i,
        {
            let k = self.properties[i].0.clone();
            let p = self.properties[i].1;
            props.push((k, p));
            proof {
                assert(props@[i as int] == self.properties@[i as int]);
            }
            i = i + 1;
        }
        let r = Mapping { dynamic: self.dynamic, properties: props };
        proof {
            assert(r.properties@ =~= self.properties@);
        }
        r
    }
}

impl IndexData {
    /// A structurally equal copy of this snapshot.
    pub fn copy_snapshot(&self) -> (r: IndexData)
        ensures
            r@ == self@,
    {
        let mapping = self.mapping.copy_mapping();
        let n = self.documents.len();
        let mut documents: Vec<JsonValue> = Vec::new();
        let mut i: usize = 0;
        while i < n
            invariant
                i <= n,
                n == self.documents.len(),
                documents@.len() == i,
                forall|j: int|
                    0 <= j < i ==> crate::value::view_of(documents@[j]) == crate::value::view_of(
                        self.documents@[j],
                    ),
            decreases n - i,
        {
            let d = self.documents[i].deep_copy();
            documents.push(d);
            i = i + 1;
        }
        proof {
            assert forall|j: int| 0 <= j < n implies view_of_seq(documents@)[j] == view_of_seq(
                self.documents@,
            )[j] by {
                crate::value::lemma_view_of_seq_index(documents@, j);
                crate::value::lemma_view_of_seq_index(self.documents@, j);
            }
            crate::value::lemma_view_of_seq_len(documents@);
            crate::value::lemma_view_of_seq_len(self.documents@);
            assert(view_of_seq(documents@) =~= view_of_seq(self.documents@));
        }
        IndexData { mapping, documents }
    }
}

/// The store: every present index's snapshot, under its name.
pub struct InMemoryStore {
    indices: DashMap<String, IndexData>,
}

impl View for InMemoryStore {
    type V = Map<Seq<char>, IndexDataV>;

    closed spec fn view(&self) -> Map<Seq<char>, IndexDataV> {
        store_contents(self.indices)
    }
}

impl InMemoryStore {
    /// An empty store.
    pub fn new() -> (r: Self)
        ensures
            r@ == Map::<Seq<char>, IndexDataV>::empty(),
    {
        let r = InMemoryStore { indices: dm_new() };
        proof {
            assert(r@ =~= Map::<Seq<char>, IndexDataV>::empty());
        }
        r
    }

    /// Publishes an empty snapshot under `name` with the given schema,
    /// silently replacing any snapshot already there.
    pub fn create_index(&mut self, name: String, mapping: Mapping)
        ensures
            final(self)@ == old(self)@.insert(
                name@,
                IndexDataV { mapping: mapping@, documents: Seq::empty() },
            ),
    {
        let data = IndexData { mapping, documents: Vec::new() };
        proof {
            assert(view_of_seq(data.documents@) =~= Seq::<Jv>::empty());
        }
        dm_insert(&mut self.indices, name, data);
    }

    /// The snapshot under `name`, as a structurally equal copy, when the
    /// index exists.
    pub fn get_index(&self, name: &String) -> (r: Option<IndexData>)
        ensures
            match r {
                Some(d) => self@.dom().contains(name@) && d@ == self@[name@],
                None => !self@.dom().contains(name@),
            },
    {
        dm_get(&self.indices, name)
    }

    /// Removes the snapshot under `name` outright; the result says whether
    /// one was there.
    pub fn delete_index(&mut self, name: &String) -> (r: bool)
        ensures
            final(self)@ == old(self)@.remove(name@),
            r == old(self)@.dom().contains(name@),
    {
        dm_remove(&mut self.indices, name)
    }

    /// A pure existence check: every write is already visible to reads, so
    /// nothing is flushed.
    pub fn refresh(&self, index_name: &String) -> (r: Result<(), StoreError>)
        ensures
            match r {
                Ok(_) => self@.dom().contains(index_name@),
                Err(e) => !self@.dom().contains(index_name@) && e@ is IndexNotFound,
            },
    {
        if dm_contains(&self.indices, index_name) {
            Ok(())
        } else {
            Err(StoreError::IndexNotFound)
        }
    }

    /// Merges a schema over the index's current one (every given
    /// declaration overwrites or extends, and the `dynamic` flag is
    /// replaced) and publishes the new snapshot; the documents stay as they
    /// were.
    pub fn update_mapping(&mut self, name: &String, new_mapping: Mapping) -> (r: Result<
        (),
        StoreError,
    >)
        ensures
            match r {
                Ok(_) => old(self)@.dom().contains(name@) && final(self)@ == old(self)@.insert(
                    name@,
                    IndexDataV {
                        mapping: MappingV {
                            dynamic: new_mapping@.dynamic,
                            props: merge_props(
                                old(self)@[name@].mapping.props,
                                new_mapping@.props,
                            ),
                        },
                        documents: old(self)@[name@].documents,
                    },
                ),
                Err(e) => !old(self)@.dom().contains(name@) && e@ is IndexNotFound
                    && final(self)@ == old(self)@,
            },
    {
        match dm_get(&self.indices, name) {
            Option::None => Err(StoreError::IndexNotFound),
            Option::Some(data) => {
                let mut data = data;
                data.mapping.update(new_mapping);
                dm_insert(&mut self.indices, name.clone(), data);
                Ok(())
            },
        }
    }
}

/// Whether a document's `_id` field is the string `id`.
pub open spec fn doc_id_matches(d: Jv, id: Seq<char>) -> bool {
    jv_get(d, id_key()) == Some(Jv::Str(id))
}

/// The position of the first document whose `_id` is `id`, if any.
pub open spec fn first_id_idx(docs: Seq<Jv>, id: Seq<char>) -> Option<int>
    decreases docs,
{
    if docs.len() == 0 {
        None
    } else if doc_id_matches(docs[0], id) {
        Some(0)
    } else {
        match first_id_idx(docs.drop_first(), id) {
            Option::Some(i) => Some(i + 1),
            Option::None => None,
        }
    }
}

/// The documents after writing `d` under `id`: the first document with
/// that identifier is replaced at its position, or `d` is appended.
pub open spec fn upsert_doc(docs: Seq<Jv>, id: Seq<char>, d: Jv) -> Seq<Jv> {
    match first_id_idx(docs, id) {
        Option::Some(i) => docs.update(i, d),
        Option::None => docs.push(d),
    }
}

/// The first document with identifier `id`, if any.
pub open spec fn get_doc_spec(docs: Seq<Jv>, id: Seq<char>) -> Option<Jv> {
    match first_id_idx(docs, id) {
        Option::Some(i) => Some(docs[i]),
        Option::None => None,
    }
}

/// The documents with every holder of identifier `id` removed, in order.
pub open spec fn remove_id(docs: Seq<Jv>, id: Seq<char>) -> Seq<Jv>
    decreases docs,
{
    if docs.len() == 0 {
        Seq::empty()
    } else {
        remove_id(docs.drop_last(), id) + if doc_id_matches(docs.last(), id) {
            Seq::empty()
        } else {
            seq![docs.last()]
        }
    }
}

/// The string identifier a document supplies, when its `_id` field holds a
/// string.
pub open spec fn doc_string_id(doc: Jv) -> Option<Seq<char>> {
    match jv_get(doc, id_key()) {
        Option::Some(v) => if v is Str {
            Some(v->Str_0)
        } else {
            None
        },
        Option::None => None,
    }
}

/// The snapshot after a successful document write resolved to `r_id`: with
/// a supplied string `_id` the document goes in as it came; otherwise the
/// fresh identifier is written into its `_id` field first. Either way it
/// replaces the document already holding that identifier at its position,
/// or goes to the end.
pub open spec fn add_outcome(pre: IndexDataV, doc: Jv, r_id: Seq<char>) -> IndexDataV {
    IndexDataV {
        mapping: pre.mapping,
        documents: match doc_string_id(doc) {
            Option::Some(s) => upsert_doc(pre.documents, s, doc),
            Option::None => upsert_doc(
                pre.documents,
                r_id,
                crate::value::set_field(doc, id_key(), Jv::Str(r_id)),
            ),
        },
    }
}

/// The identifier a successful write reports: the document's own string
/// `_id` when it supplied one.
pub open spec fn resolved_id_ok(doc: Jv, id: Seq<char>) -> bool {
    match doc_string_id(doc) {
        Option::Some(s) => id == s,
        Option::None => true,
    }
}

/// An identifier first matched at `i` is found there.
proof fn lemma_first_id_found(docs: Seq<Jv>, id: Seq<char>, i: int)
    requires
        0 <= i < docs.len(),
        doc_id_matches(docs[i], id),
        forall|j: int| 0 <= j < i ==> !doc_id_matches(docs[j], id),
    ensures
        first_id_idx(docs, id) == Some(i),
    decreases docs.len(),
{
    if i > 0 {
        lemma_first_id_found(docs.drop_first(), id, i - 1);
    }
}

/// An identifier no document holds is found nowhere.
proof fn lemma_first_id_absent(docs: Seq<Jv>, id: Seq<char>)
    requires
        forall|j: int| 0 <= j < docs.len() ==> !doc_id_matches(docs[j], id),
    ensures
        first_id_idx(docs, id) is None,
    decreases docs.len(),
{
    if docs.len() > 0 {
        lemma_first_id_absent(docs.drop_first(), id);
    }
}

/// Whether the document's `_id` is the string `id`, as `doc_id_matches`
/// sees it.
fn doc_id_eq(d: &JsonValue, id: &String) -> (r: bool)
    ensures
        r == doc_id_matches(d@, id@),
{
    let id_k = String::from_str("_id");
    proof {
        reveal_strlit("_id");
        assert(id_k@ =~= id_key());
    }
    match d.get(&id_k) {
        Option::Some(v) => match v {
            JsonValue::Str(s) => *s == *id,
            _ => false,
        },
        Option::None => false,
    }
}

/// The position of the first document whose `_id` is `id`, as
/// `first_id_idx` sees it.
fn find_doc(documents: &Vec<JsonValue>, id: &String) -> (r: Option<usize>)
    ensures
        match r {
            Some(i) => i < documents@.len() && first_id_idx(view_of_seq(documents@), id@)
                == Some(i as int),
            None => first_id_idx(view_of_seq(documents@), id@) is None,
        },
{
    let ghost dv = view_of_seq(documents@);
    proof {
        crate::value::lemma_view_of_seq_len(documents@);
    }
    let n = documents.len();
    let mut i: usize = 0;
    while i < n
        invariant
            i <= n,
            n == documents@.len(),
            dv == view_of_seq(documents@),
            dv.len() == n,
            forall|j: int| 0 <= j < i ==> !doc_id_matches(dv[j], id@),
        decreases n - i,
    {
        proof {
            crate::value::lemma_view_of_seq_index(documents@, i as int);
        }
        if doc_id_eq(&documents[i], id) {
            proof {
                lemma_first_id_found(dv, id@, i as int);
            }
            return Some(i);
        }
        i = i + 1;
    }
    proof {
        lemma_first_id_absent(dv, id@);
    }
    None
}

pub open spec fn doc_key() -> Seq<char> {
    seq!['d', 'o', 'c']
}

/// The content a patch request carries: the value under `doc`. A request
/// without one is malformed.
pub fn extract_patch(body: &JsonValue) -> (r: Result<JsonValue, StoreError>)
    ensures
        match r {
            Ok(p) => jv_get(body@, doc_key()) == Some(p@),
            Err(e) => jv_get(body@, doc_key()) is None && e@ is ActionValidation,
        },
{
    let doc_k = String::from_str("doc");
    proof {
        reveal_strlit("doc");
        assert(doc_k@ =~= doc_key());
    }
    match body.get(&doc_k) {
        Option::Some(p) => Ok(p.deep_copy()),
        Option::None => Err(StoreError::ActionValidation),
    }
}

impl InMemoryStore {
    /// Validates a document against the index's schema, resolves its
    /// identifier (the supplied string `_id` if any, else a fresh one
    /// written into the document), writes it over the document already
    /// holding that identifier or appends it, publishes the new snapshot
    /// and reports the identifier. The write succeeds exactly when the
    /// index exists and the document conforms to its schema.
    #[verifier::loop_isolation(false)]
    pub fn add_document(&mut self, index_name: &String, doc: JsonValue) -> (r: Result<
        String,
        StoreError,
    >)
        ensures
            r is Ok <==> old(self)@.dom().contains(index_name@) && validate_spec(
                old(self)@[index_name@].mapping,
                doc@,
            ) is None,
            match r {
                Ok(id) => final(self)@ == old(self)@.insert(
                    index_name@,
                    add_outcome(old(self)@[index_name@], doc@, id@),
                ) && resolved_id_ok(doc@, id@),
                Err(e) => final(self)@ == old(self)@ && match e@ {
                    StoreErrorV::IndexNotFound => !old(self)@.dom().contains(index_name@),
                    StoreErrorV::ValidationFailed(ve) => old(self)@.dom().contains(index_name@)
                        && validate_spec(old(self)@[index_name@].mapping, doc@) == Some(ve),
                    _ => false,
                },
            },
    {
        let data = match dm_get(&self.indices, index_name) {
            Option::Some(d) => d,
            Option::None => {
                return Err(StoreError::IndexNotFound);
            },
        };
        match data.mapping.validate(&doc) {
            Result::Err(e) => {
                return Err(StoreError::ValidationFailed(e));
            },
            Result::Ok(_) => {},
        }
        let id_k = String::from_str("_id");
        proof {
            reveal_strlit("_id");
            assert(id_k@ =~= id_key());
        }
        let existing_id: Option<String> = match doc.get(&id_k) {
            Option::Some(v) => match v.as_str_value() {
                Option::Some(s) => Some(s.clone()),
                Option::None => None,
            },
            Option::None => None,
        };
        let ghost doc0 = doc@;
        let (id, doc) = match existing_id {
            Option::Some(s) => (s, doc),
            Option::None => {
                let new_id = mint_id();
                let d2 = doc.with_field(id_k, JsonValue::Str(new_id.clone()));
                (new_id, d2)
            },
        };
        proof {
            assert(resolved_id_ok(doc0, id@));
            assert(doc@ == match doc_string_id(doc0) {
                Option::Some(_) => doc0,
                Option::None => crate::value::set_field(doc0, id_key(), Jv::Str(id@)),
            });
        }
        let mut data = data;
        let ghost dv = view_of_seq(data.documents@);
        proof {
            crate::value::lemma_view_of_seq_len(data.documents@);
        }
        match find_doc(&data.documents, &id) {
            Option::Some(i) => {
                let ghost docs0 = data.documents@;
                let ghost newv = doc@;
                data.documents.set(i, doc);
                proof {
                    assert forall|j: int| 0 <= j < data.documents@.len() implies view_of_seq(
                        data.documents@,
                    )[j] == dv.update(i as int, newv)[j] by {
                        crate::value::lemma_view_of_seq_index(data.documents@, j);
                        if j != i {
                            assert(data.documents@[j] == docs0[j]);
                            crate::value::lemma_view_of_seq_index(docs0, j);
                        }
                    }
                    crate::value::lemma_view_of_seq_len(data.documents@);
                    assert(view_of_seq(data.documents@) =~= dv.update(i as int, newv));
                    assert(upsert_doc(dv, id@, newv) == dv.update(i as int, newv));
                }
            },
            Option::None => {
                let ghost docs0 = data.documents@;
                let ghost newv = doc@;
                data.documents.push(doc);
                proof {
                    assert(data.documents@.drop_last() =~= docs0);
                    crate::value::lemma_view_of_seq_snoc(data.documents@);
                    assert(view_of_seq(data.documents@) == dv.push(newv));
                    assert(upsert_doc(dv, id@, newv) == dv.push(newv));
                }
            },
        }
        proof {
            assert(data@ == add_outcome(old(self)@[index_name@], doc0, id@));
        }
        dm_insert(&mut self.indices, index_name.clone(), data);
        Ok(id)
    }
}


impl InMemoryStore {
    /// The first document of the index whose `_id` is `id`, as a
    /// structurally equal copy, when index and document both exist.
    pub fn get_document(&self, index_name: &String, id: &String) -> (r: Option<JsonValue>)
        ensures
            match r {
                Some(d) => self@.dom().contains(index_name@) && get_doc_spec(
                    self@[index_name@].documents,
                    id@,
                ) == Some(d@),
                None => !self@.dom().contains(index_name@) || get_doc_spec(
                    self@[index_name@].documents,
                    id@,
                ) is None,
            },
    {
        let data = match dm_get(&self.indices, index_name) {
            Option::Some(d) => d,
            Option::None => {
                return None;
            },
        };
        match find_doc(&data.documents, id) {
            Option::Some(i) => {
                proof {
                    crate::value::lemma_view_of_seq_index(data.documents@, i as int);
                }
                Some(data.documents[i].deep_copy())
            },
            Option::None => None,
        }
    }

    /// Removes every document of the index whose `_id` is `id` and
    /// publishes the new snapshot; the result says whether any document was
    /// removed. A missing index removes nothing.
    #[verifier::loop_isolation(false)]
    pub fn delete_document(&mut self, index_name: &String, id: &String) -> (r: bool)
        ensures
            !old(self)@.dom().contains(index_name@) ==> !r && final(self)@ == old(self)@,
            old(self)@.dom().contains(index_name@) ==> final(self)@ == old(self)@.insert(
                index_name@,
                IndexDataV {
                    mapping: old(self)@[index_name@].mapping,
                    documents: remove_id(old(self)@[index_name@].documents, id@),
                },
            ) && r == (get_doc_spec(old(self)@[index_name@].documents, id@) is Some),
    {
        let data = match dm_get(&self.indices, index_name) {
            Option::Some(d) => d,
            Option::None => {
                return false;
            },
        };
        let ghost dv = view_of_seq(data.documents@);
        proof {
            crate::value::lemma_view_of_seq_len(data.documents@);
        }
        let n = data.documents.len();
        let mut retained: Vec<JsonValue> = Vec::new();
        let mut found = false;
        let mut i: usize = 0;
        proof {
            assert(dv.subrange(0, 0) =~= Seq::<Jv>::empty());
            assert(view_of_seq(retained@) =~= Seq::<Jv>::empty());
        }
        while i < n
            invariant
                i <= n,
                view_of_seq(retained@) == remove_id(dv.subrange(0, i as int), id@),
                found <==> exists|j: int| 0 <= j < i && doc_id_matches(dv[j], id@),
            decreases n - i,
        {
            proof {
                crate::value::lemma_view_of_seq_index(data.documents@, i as int);
                assert(dv.subrange(0, i + 1).drop_last() =~= dv.subrange(0, i as int));
                assert(dv.subrange(0, i + 1).last() == dv[i as int]);
            }
            if doc_id_eq(&data.documents[i], id) {
                found = true;
                proof {
                    assert(view_of_seq(retained@) =~= remove_id(
                        dv.subrange(0, i + 1),
                        id@,
                    ));
                    assert(doc_id_matches(dv[i as int], id@));
                }
            } else {
                let d = data.documents[i].deep_copy();
                let ghost r0 = retained@;
                retained.push(d);
                proof {
                    assert(retained@.drop_last() =~= r0);
                    crate::value::lemma_view_of_seq_snoc(retained@);
                    assert(view_of_seq(retained@) =~= remove_id(
                        dv.subrange(0, i + 1),
                        id@,
                    ));
                }
            }
            i = i + 1;
        }
        proof {
            assert(dv.subrange(0, n as int) =~= dv);
            lemma_found_iff_first_idx(dv, id@);
        }
        let new_data = IndexData { mapping: data.mapping, documents: retained };
        dm_insert(&mut self.indices, index_name.clone(), new_data);
        found
    }

    /// Shallow-merges a patch over the document holding `id`, then routes
    /// the merged document back through `add_document`, so the merge is
    /// re-validated and keeps its identifier and position. Fails with
    /// `DocumentMissing` when index or document is absent.
    pub fn patch_document(&mut self, index_name: &String, id: &String, patch: JsonValue) -> (r:
        Result<String, StoreError>)
        ensures
            match r {
                Ok(rid) => {
                    &&& old(self)@.dom().contains(index_name@)
                    &&& get_doc_spec(old(self)@[index_name@].documents, id@) is Some
                    &&& ({
                        let merged = crate::value::merge_obj(
                            get_doc_spec(old(self)@[index_name@].documents, id@)->Some_0,
                            patch@,
                        );
                        &&& validate_spec(old(self)@[index_name@].mapping, merged) is None
                        &&& final(self)@ == old(self)@.insert(
                            index_name@,
                            add_outcome(old(self)@[index_name@], merged, rid@),
                        )
                        &&& resolved_id_ok(merged, rid@)
                    })
                },
                Err(e) => final(self)@ == old(self)@ && match e@ {
                    StoreErrorV::DocumentMissing => !old(self)@.dom().contains(index_name@)
                        || get_doc_spec(old(self)@[index_name@].documents, id@) is None,
                    StoreErrorV::ValidationFailed(ve) => old(self)@.dom().contains(index_name@)
                        && get_doc_spec(old(self)@[index_name@].documents, id@) is Some
                        && validate_spec(
                        old(self)@[index_name@].mapping,
                        crate::value::merge_obj(
                            get_doc_spec(old(self)@[index_name@].documents, id@)->Some_0,
                            patch@,
                        ),
                    ) == Some(ve),
                    _ => false,
                },
            },
    {
        let data = match dm_get(&self.indices, index_name) {
            Option::Some(d) => d,
            Option::None => {
                return Err(StoreError::DocumentMissing);
            },
        };
        let existing = match find_doc(&data.documents, id) {
            Option::Some(i) => {
                proof {
                    crate::value::lemma_view_of_seq_index(data.documents@, i as int);
                }
                data.documents[i].deep_copy()
            },
            Option::None => {
                return Err(StoreError::DocumentMissing);
            },
        };
        let merged = existing.merge_patch(&patch);
        self.add_document(index_name, merged)
    }
}


/// No two documents hold one identifier: the invariant every snapshot
/// built by this store's writes keeps.
pub open spec fn unique_ids(docs: Seq<Jv>) -> bool {
    forall|i: int, j: int, id: Seq<char>|
        0 <= i < j < docs.len() ==> !(doc_id_matches(docs[i], id) && doc_id_matches(
            docs[j],
            id,
        ))
}

/// The document a successful write stores carries the resolved identifier
/// as its string `_id`, unless it is no object at all — and then it carries
/// no identifier whatever.
proof fn lemma_written_doc_id(doc: Jv, rid: Seq<char>)
    ensures
        ({
            let d = match doc_string_id(doc) {
                Option::Some(_) => doc,
                Option::None => crate::value::set_field(doc, id_key(), Jv::Str(rid)),
            };
            let key = match doc_string_id(doc) {
                Option::Some(s) => s,
                Option::None => rid,
            };
            doc_string_id(d) == Some(key) || doc_string_id(d) is None
        }),
{
    match doc_string_id(doc) {
        Option::Some(_) => {},
        Option::None => {
            if doc is Obj {
                crate::value::lemma_upsert_field_get(doc->Obj_0, id_key(), Jv::Str(rid));
            }
        },
    }
}

/// A write keeps identifiers unique: it replaces the one holder of its
/// identifier in place, or appends a document whose identifier no other
/// document holds.
pub proof fn lemma_add_preserves_unique_ids(pre: IndexDataV, doc: Jv, rid: Seq<char>)
    requires
        unique_ids(pre.documents),
    ensures
        unique_ids(add_outcome(pre, doc, rid).documents),
{
    let docs = pre.documents;
    let d = match doc_string_id(doc) {
        Option::Some(_) => doc,
        Option::None => crate::value::set_field(doc, id_key(), Jv::Str(rid)),
    };
    let key = match doc_string_id(doc) {
        Option::Some(s) => s,
        Option::None => rid,
    };
    lemma_written_doc_id(doc, rid);
    lemma_first_id_props(docs, key);
    let out = add_outcome(pre, doc, rid).documents;
    match first_id_idx(docs, key) {
        Option::Some(p) => {
            assert(out == docs.update(p, d));
            assert forall|i: int, j: int, id: Seq<char>|
                0 <= i < j < out.len() implies !(doc_id_matches(out[i], id) && doc_id_matches(
                out[j],
                id,
            )) by {
                if i != p && j != p {
                    assert(out[i] == docs[i] && out[j] == docs[j]);
                } else {
                    let o = if i == p {
                        j
                    } else {
                        i
                    };
                    assert(out[o] == docs[o]);
                    if doc_id_matches(d, id) {
                        assert(id == key);
                        assert(doc_id_matches(docs[p], key));
                        assert(!(doc_id_matches(docs[p], key) && doc_id_matches(
                            docs[o],
                            key,
                        )));
                    }
                }
            }
        },
        Option::None => {
            assert(out == docs.push(d));
            assert forall|i: int, j: int, id: Seq<char>|
                0 <= i < j < out.len() implies !(doc_id_matches(out[i], id) && doc_id_matches(
                out[j],
                id,
            )) by {
                if j == docs.len() {
                    assert(out[i] == docs[i]);
                    if doc_id_matches(d, id) {
                        assert(id == key);
                    }
                } else {
                    assert(out[i] == docs[i] && out[j] == docs[j]);
                }
            }
        },
    }
}

/// A match exists exactly when a first match position exists.
proof fn lemma_found_iff_first_idx(docs: Seq<Jv>, id: Seq<char>)
    ensures
        (exists|j: int| 0 <= j < docs.len() && doc_id_matches(docs[j], id)) <==> first_id_idx(
            docs,
            id,
        ) is Some,
    decreases docs,
{
    if docs.len() > 0 {
        lemma_found_iff_first_idx(docs.drop_first(), id);
        if exists|j: int| 0 <= j < docs.len() && doc_id_matches(docs[j], id) {
            let jw = choose|j: int| 0 <= j < docs.len() && doc_id_matches(docs[j], id);
            if jw > 0 {
                assert(docs.drop_first()[jw - 1] == docs[jw]);
            }
        } else {
            assert forall|j: int|
                0 <= j < docs.drop_first().len() implies !doc_id_matches(
                docs.drop_first()[j],
                id,
            ) by {
                assert(docs.drop_first()[j] == docs[j + 1]);
            }
        }
    }
}


/// What `first_id_idx` finds: a first match is a match with none before
/// it, and no position means no match anywhere.
pub proof fn lemma_first_id_props(docs: Seq<Jv>, id: Seq<char>)
    ensures
        match first_id_idx(docs, id) {
            Option::Some(i) => 0 <= i < docs.len() && doc_id_matches(docs[i], id) && (forall|
                j: int,
            | 0 <= j < i ==> !doc_id_matches(docs[j], id)),
            Option::None => forall|j: int| 0 <= j < docs.len() ==> !doc_id_matches(docs[j], id),
        },
    decreases docs,
{
    if docs.len() > 0 && !doc_id_matches(docs[0], id) {
        lemma_first_id_props(docs.drop_first(), id);
        match first_id_idx(docs.drop_first(), id) {
            Option::Some(i) => {
                assert forall|j: int| 0 <= j < i + 1 implies !doc_id_matches(docs[j], id) by {
                    if j > 0 {
                        assert(docs.drop_first()[j - 1] == docs[j]);
                    }
                }
                assert(docs.drop_first()[i] == docs[i + 1]);
            },
            Option::None => {
                assert forall|j: int| 0 <= j < docs.len() implies !doc_id_matches(
                    docs[j],
                    id,
                ) by {
                    if j > 0 {
                        assert(docs.drop_first()[j - 1] == docs[j]);
                    }
                }
            },
        }
    }
}

/// Writing a document under one identifier twice leaves exactly one
/// document holding that identifier: the second document's content, at the
/// position the first write chose — an existing holder's position, or the
/// end. Holds of any snapshot whose documents hold the identifier at most
/// once, which every snapshot built by this store's writes does.
pub proof fn lemma_upsert_idempotent(pre: IndexDataV, d1: Jv, d2: Jv, id: Seq<char>)
    requires
        doc_string_id(d1) == Some(id),
        doc_string_id(d2) == Some(id),
        forall|i: int, j: int|
            0 <= i < j < pre.documents.len() ==> !(doc_id_matches(pre.documents[i], id)
                && doc_id_matches(pre.documents[j], id)),
    ensures
        ({
            let p = match first_id_idx(pre.documents, id) {
                Option::Some(i) => i,
                Option::None => pre.documents.len() as int,
            };
            let mid = add_outcome(pre, d1, id);
            let fin = add_outcome(mid, d2, id);
            &&& first_id_idx(mid.documents, id) == Some(p)
            &&& fin.documents == mid.documents.update(p, d2)
            &&& fin.documents.len() == mid.documents.len()
            &&& fin.documents[p] == d2
            &&& forall|j: int|
                0 <= j < fin.documents.len() && j != p ==> !doc_id_matches(fin.documents[j], id)
        }),
{
    let docs = pre.documents;
    assert(doc_id_matches(d1, id));
    assert(doc_id_matches(d2, id));
    lemma_first_id_props(docs, id);
    let p = match first_id_idx(docs, id) {
        Option::Some(i) => i,
        Option::None => docs.len() as int,
    };
    let mid = add_outcome(pre, d1, id);
    match first_id_idx(docs, id) {
        Option::Some(i) => {
            assert(mid.documents == docs.update(i, d1));
            assert forall|j: int| 0 <= j < i implies !doc_id_matches(mid.documents[j], id) by {
                assert(mid.documents[j] == docs[j]);
            }
            lemma_first_id_found(mid.documents, id, i);
        },
        Option::None => {
            assert(mid.documents == docs.push(d1));
            assert forall|j: int| 0 <= j < p implies !doc_id_matches(mid.documents[j], id) by {
                assert(mid.documents[j] == docs[j]);
            }
            lemma_first_id_found(mid.documents, id, p);
        },
    }
    let fin = add_outcome(mid, d2, id);
    assert(fin.documents == mid.documents.update(p, d2));
    assert forall|j: int|
        0 <= j < fin.documents.len() && j != p implies !doc_id_matches(fin.documents[j], id) by {
        assert(fin.documents[j] == mid.documents[j]);
        match first_id_idx(docs, id) {
            Option::Some(i) => {
                assert(mid.documents[j] == docs[j]);
                if j < p {
                } else {
                    assert(doc_id_matches(docs[p], id));
                    assert(!(doc_id_matches(docs[p], id) && doc_id_matches(docs[j], id)));
                }
            },
            Option::None => {
                assert(mid.documents[j] == docs[j]);
            },
        }
    }
}

/// A write under one index name never changes what another name holds:
/// every mutating operation of this store publishes under its own name
/// alone, so index contents are isolated from each other.
pub proof fn lemma_index_isolation(
    m: Map<Seq<char>, IndexDataV>,
    a: Seq<char>,
    b: Seq<char>,
    d: IndexDataV,
)
    requires
        a != b,
    ensures
        m.insert(a, d).dom().contains(b) == m.dom().contains(b),
        m.dom().contains(b) ==> m.insert(a, d)[b] == m[b],
        m.remove(a).dom().contains(b) == m.dom().contains(b),
        m.dom().contains(b) ==> m.remove(a)[b] == m[b],
{
}

} // verus!
