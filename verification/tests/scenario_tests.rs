use micro_es::engine::{SearchEngine, SortOptions, SortOrder};
use micro_es::mapping::Mapping;
use micro_es::query::{parse_query, MatchAllQuery, Query};
use micro_es::store::InMemoryStore;
use micro_es::value::JsonValue;

fn obj(fields: Vec<(&str, JsonValue)>) -> JsonValue {
    JsonValue::Obj(fields.into_iter().map(|(k, v)| (k.to_string(), v)).collect())
}

fn s(text: &str) -> JsonValue {
    JsonValue::Str(text.to_string())
}

fn field<'a>(doc: &'a JsonValue, name: &str) -> &'a JsonValue {
    doc.get(&name.to_string()).unwrap()
}

#[test]
fn three_documents_sorted_descending_by_val() {
    let docs = vec![
        obj(vec![("id", JsonValue::UInt(1)), ("val", JsonValue::UInt(10))]),
        obj(vec![("id", JsonValue::UInt(2)), ("val", JsonValue::UInt(20))]),
        obj(vec![("id", JsonValue::UInt(3)), ("val", JsonValue::UInt(30))]),
    ];
    let sort = Some(SortOptions { field: "val".to_string(), order: SortOrder::Desc });
    let results = SearchEngine::search(&docs, &Query::MatchAll(MatchAllQuery), sort, 0, 10);

    assert_eq!(field(&results[0], "id"), &JsonValue::UInt(3));
    assert_eq!(field(&results[1], "id"), &JsonValue::UInt(2));
    assert_eq!(field(&results[2], "id"), &JsonValue::UInt(1));
}

#[test]
fn window_of_two_from_one_returns_second_and_third() {
    let docs = vec![
        obj(vec![("id", JsonValue::UInt(1))]),
        obj(vec![("id", JsonValue::UInt(2))]),
        obj(vec![("id", JsonValue::UInt(3))]),
        obj(vec![("id", JsonValue::UInt(4))]),
    ];
    let results = SearchEngine::search(&docs, &Query::MatchAll(MatchAllQuery), None, 1, 2);
    assert_eq!(results.len(), 2);
    assert_eq!(field(&results[0], "id"), &JsonValue::UInt(2));
    assert_eq!(field(&results[1], "id"), &JsonValue::UInt(3));
}

#[test]
fn must_clauses_demand_every_term() {
    let body = obj(vec![(
        "query",
        obj(vec![(
            "bool",
            obj(vec![(
                "must",
                JsonValue::Arr(vec![
                    obj(vec![("term", obj(vec![("tags", s("rust"))]))]),
                    obj(vec![("term", obj(vec![("published", JsonValue::Bool(true))]))]),
                ]),
            )]),
        )]),
    )]);
    let query = parse_query(&body);
    assert!(query.matches(&obj(vec![("tags", s("rust")), ("published", JsonValue::Bool(true))])));
    assert!(!query.matches(&obj(vec![("tags", s("rust")), ("published", JsonValue::Bool(false))])));
}

#[test]
fn keyword_suffix_addresses_the_bare_field() {
    let body = obj(vec![(
        "query",
        obj(vec![("term", obj(vec![("status.keyword", s("active"))]))]),
    )]);
    let query = parse_query(&body);
    assert!(query.matches(&obj(vec![("status", s("active"))])));
    assert!(!query.matches(&obj(vec![("status", s("inactive"))])));
}

#[test]
fn patch_overwrites_and_extends_fields() {
    let mut store = InMemoryStore::new();
    store.create_index("test".to_string(), Mapping::default());
    store
        .add_document(
            &"test".to_string(),
            obj(vec![("_id", s("1")), ("a", JsonValue::UInt(1)), ("b", JsonValue::UInt(2))]),
        )
        .unwrap();

    store
        .patch_document(
            &"test".to_string(),
            &"1".to_string(),
            obj(vec![("b", JsonValue::UInt(3)), ("c", JsonValue::UInt(4))]),
        )
        .unwrap();

    let doc = store.get_document(&"test".to_string(), &"1".to_string()).unwrap();
    assert_eq!(
        doc,
        obj(vec![
            ("_id", s("1")),
            ("a", JsonValue::UInt(1)),
            ("b", JsonValue::UInt(3)),
            ("c", JsonValue::UInt(4)),
        ])
    );
}

#[test]
fn second_write_wins_at_first_position() {
    let mut store = InMemoryStore::new();
    store.create_index("idx".to_string(), Mapping::default());
    store.add_document(&"idx".to_string(), obj(vec![("_id", s("k")), ("v", JsonValue::UInt(1))])).unwrap();
    store.add_document(&"idx".to_string(), obj(vec![("_id", s("z")), ("v", JsonValue::UInt(5))])).unwrap();
    store.add_document(&"idx".to_string(), obj(vec![("_id", s("k")), ("v", JsonValue::UInt(2))])).unwrap();

    let index = store.get_index(&"idx".to_string()).unwrap();
    let holders: Vec<usize> = index
        .documents
        .iter()
        .enumerate()
        .filter(|(_, d)| d.get(&"_id".to_string()) == Some(&s("k")))
        .map(|(i, _)| i)
        .collect();
    assert_eq!(holders, vec![0]);
    assert_eq!(index.documents[0].get(&"v".to_string()), Some(&JsonValue::UInt(2)));
}
