use micro_es::mapping::{FieldType, Mapping, Property};
use micro_es::store::{InMemoryStore, StoreError};
use micro_es::value::JsonValue;

fn obj(fields: Vec<(&str, JsonValue)>) -> JsonValue {
    JsonValue::Obj(fields.into_iter().map(|(k, v)| (k.to_string(), v)).collect())
}

fn s(text: &str) -> JsonValue {
    JsonValue::Str(text.to_string())
}

fn mock_mapping() -> Mapping {
    Mapping {
        dynamic: false,
        properties: vec![("id".to_string(), Property { field_type: FieldType::Integer })],
    }
}

#[test]
fn should_update_mapping_in_store() {
    let mut store = InMemoryStore::new();
    store.create_index("test-index".to_string(), mock_mapping());

    let new_mapping = Mapping {
        dynamic: true,
        properties: vec![(
            "description".to_string(),
            Property { field_type: FieldType::Text },
        )],
    };

    store.update_mapping(&"test-index".to_string(), new_mapping).unwrap();

    let index = store.get_index(&"test-index".to_string()).unwrap();
    assert!(index.mapping.contains_property(&"id".to_string()));
    assert!(index.mapping.contains_property(&"description".to_string()));
    assert!(index.mapping.dynamic);
}

#[test]
fn should_delete_index() {
    let mut store = InMemoryStore::new();
    store.create_index("to-delete".to_string(), Mapping::default());
    assert!(store.get_index(&"to-delete".to_string()).is_some());

    let deleted = store.delete_index(&"to-delete".to_string());
    assert!(deleted);
    assert!(store.get_index(&"to-delete".to_string()).is_none());
}

#[test]
fn should_handle_refresh_as_noop() {
    let mut store = InMemoryStore::new();
    store.create_index("refresh-me".to_string(), Mapping::default());
    let result = store.refresh(&"refresh-me".to_string());
    assert!(result.is_ok());
}

#[test]
fn should_create_and_retrieve_index() {
    let mut store = InMemoryStore::new();
    let mapping = mock_mapping();

    store.create_index("test-index".to_string(), mapping);

    assert!(store.get_index(&"test-index".to_string()).is_some());
}

#[test]
fn should_reject_document_with_wrong_mapping() {
    let mut store = InMemoryStore::new();
    store.create_index("test-index".to_string(), mock_mapping());

    let invalid_doc = obj(vec![("id", s("not-an-integer"))]);
    let result = store.add_document(&"test-index".to_string(), invalid_doc);

    assert!(result.is_err());
}

#[test]
fn should_accept_valid_document() {
    let mut store = InMemoryStore::new();
    store.create_index("test-index".to_string(), mock_mapping());

    let valid_doc = obj(vec![("id", JsonValue::UInt(1))]);
    let result = store.add_document(&"test-index".to_string(), valid_doc);

    assert!(result.is_ok());
    assert_eq!(store.get_index(&"test-index".to_string()).unwrap().documents.len(), 1);
}

#[test]
fn should_accept_extra_fields_on_default_mapping() {
    let mut store = InMemoryStore::new();
    store.create_index(".migrations".to_string(), Mapping::default());

    let doc = obj(vec![
        ("filename", s("0001_init.json")),
        ("executed_at", s("2026-02-27T12:00:00Z")),
    ]);

    let result = store.add_document(&".migrations".to_string(), doc);
    assert!(result.is_ok());
}

#[test]
fn should_get_and_delete_document_by_id() {
    let mut store = InMemoryStore::new();
    store.create_index("test".to_string(), Mapping::default());

    let id = store.add_document(&"test".to_string(), obj(vec![("name", s("doc1"))])).unwrap();

    assert!(store.get_document(&"test".to_string(), &id).is_some());
    assert!(store.delete_document(&"test".to_string(), &id));
    assert!(store.get_document(&"test".to_string(), &id).is_none());
}

#[test]
fn should_update_existing_document_with_same_id() {
    let mut store = InMemoryStore::new();
    store.create_index("test".to_string(), Mapping::default());

    let doc = obj(vec![("_id", s("1")), ("val", s("old"))]);
    store.add_document(&"test".to_string(), doc).unwrap();

    let new_doc = obj(vec![("_id", s("1")), ("val", s("new"))]);
    store.add_document(&"test".to_string(), new_doc).unwrap();

    let stored = store.get_document(&"test".to_string(), &"1".to_string()).unwrap();
    assert_eq!(stored.get(&"val".to_string()), Some(&s("new")));
    assert_eq!(store.get_index(&"test".to_string()).unwrap().documents.len(), 1);
}

#[test]
fn should_partially_update_document() {
    let mut store = InMemoryStore::new();
    store.create_index("test".to_string(), Mapping::default());

    store
        .add_document(
            &"test".to_string(),
            obj(vec![("_id", s("1")), ("a", JsonValue::UInt(1)), ("b", JsonValue::UInt(2))]),
        )
        .unwrap();
    store
        .patch_document(
            &"test".to_string(),
            &"1".to_string(),
            obj(vec![("b", JsonValue::UInt(3)), ("c", JsonValue::UInt(4))]),
        )
        .unwrap();

    let doc = store.get_document(&"test".to_string(), &"1".to_string()).unwrap();
    assert_eq!(doc.get(&"a".to_string()), Some(&JsonValue::UInt(1)));
    assert_eq!(doc.get(&"b".to_string()), Some(&JsonValue::UInt(3)));
    assert_eq!(doc.get(&"c".to_string()), Some(&JsonValue::UInt(4)));
}

#[test]
fn should_report_index_not_found_on_add() {
    let mut store = InMemoryStore::new();
    let result = store.add_document(&"missing".to_string(), obj(vec![]));
    assert_eq!(result, Err(StoreError::IndexNotFound));
}

#[test]
fn should_report_document_missing_on_patch() {
    let mut store = InMemoryStore::new();
    store.create_index("test".to_string(), Mapping::default());
    let result = store.patch_document(&"test".to_string(), &"nope".to_string(), obj(vec![]));
    assert_eq!(result, Err(StoreError::DocumentMissing));
}

#[test]
fn should_report_validation_failure_variant() {
    let mut store = InMemoryStore::new();
    store.create_index("test".to_string(), mock_mapping());
    let result = store.add_document(&"test".to_string(), obj(vec![]));
    assert!(matches!(result, Err(StoreError::ValidationFailed(_))));
}

#[test]
fn should_report_missing_patch_content() {
    let body = obj(vec![("nope", s("x"))]);
    assert_eq!(micro_es::store::extract_patch(&body), Err(StoreError::ActionValidation));

    let good = obj(vec![("doc", obj(vec![("a", JsonValue::UInt(1))]))]);
    assert_eq!(
        micro_es::store::extract_patch(&good),
        Ok(obj(vec![("a", JsonValue::UInt(1))]))
    );
}

#[test]
fn should_mint_identifier_when_id_absent() {
    let mut store = InMemoryStore::new();
    store.create_index("test".to_string(), Mapping::default());
    let id = store.add_document(&"test".to_string(), obj(vec![("v", JsonValue::UInt(1))])).unwrap();
    assert_eq!(id.chars().count(), 36);
    let stored = store.get_document(&"test".to_string(), &id).unwrap();
    assert_eq!(stored.get(&"_id".to_string()), Some(&s(id.as_str())));
}

#[test]
fn should_keep_first_position_on_upsert() {
    let mut store = InMemoryStore::new();
    store.create_index("test".to_string(), Mapping::default());
    store.add_document(&"test".to_string(), obj(vec![("_id", s("a")), ("v", JsonValue::UInt(1))])).unwrap();
    store.add_document(&"test".to_string(), obj(vec![("_id", s("b")), ("v", JsonValue::UInt(2))])).unwrap();
    store.add_document(&"test".to_string(), obj(vec![("_id", s("a")), ("v", JsonValue::UInt(3))])).unwrap();

    let index = store.get_index(&"test".to_string()).unwrap();
    assert_eq!(index.documents.len(), 2);
    assert_eq!(index.documents[0].get(&"_id".to_string()), Some(&s("a")));
    assert_eq!(index.documents[0].get(&"v".to_string()), Some(&JsonValue::UInt(3)));
    assert_eq!(index.documents[1].get(&"_id".to_string()), Some(&s("b")));
}

#[test]
fn should_keep_other_indices_untouched() {
    let mut store = InMemoryStore::new();
    store.create_index("a".to_string(), Mapping::default());
    store.create_index("b".to_string(), Mapping::default());
    store.add_document(&"b".to_string(), obj(vec![("_id", s("1")), ("v", JsonValue::UInt(9))])).unwrap();

    store.add_document(&"a".to_string(), obj(vec![("v", JsonValue::UInt(1))])).unwrap();
    store.delete_document(&"a".to_string(), &"zzz".to_string());
    store.create_index("a".to_string(), Mapping::default());
    store.delete_index(&"a".to_string());

    let b = store.get_index(&"b".to_string()).unwrap();
    assert_eq!(b.documents.len(), 1);
    assert_eq!(b.documents[0].get(&"v".to_string()), Some(&JsonValue::UInt(9)));
}

#[test]
fn should_overwrite_index_on_create() {
    let mut store = InMemoryStore::new();
    store.create_index("x".to_string(), Mapping::default());
    store.add_document(&"x".to_string(), obj(vec![("v", JsonValue::UInt(1))])).unwrap();
    store.create_index("x".to_string(), mock_mapping());
    let index = store.get_index(&"x".to_string()).unwrap();
    assert_eq!(index.documents.len(), 0);
    assert!(!index.mapping.dynamic);
}

#[test]
fn should_report_refresh_failure_for_missing_index() {
    let store = InMemoryStore::new();
    assert_eq!(store.refresh(&"ghost".to_string()), Err(StoreError::IndexNotFound));
}
