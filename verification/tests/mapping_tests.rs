use micro_es::mapping::{FieldType, Mapping, Property, ValidationError};
use micro_es::value::JsonValue;

fn obj(fields: Vec<(&str, JsonValue)>) -> JsonValue {
    JsonValue::Obj(fields.into_iter().map(|(k, v)| (k.to_string(), v)).collect())
}

fn setup_mapping() -> Mapping {
    Mapping {
        dynamic: false,
        properties: vec![
            ("title".to_string(), Property { field_type: FieldType::Text }),
            ("count".to_string(), Property { field_type: FieldType::Integer }),
        ],
    }
}

#[test]
fn should_validate_correct_document() {
    let mapping = setup_mapping();
    let doc = obj(vec![
        ("title", JsonValue::Str("Elasticsearch in Rust".to_string())),
        ("count", JsonValue::UInt(10)),
    ]);

    assert!(mapping.validate(&doc).is_ok());
}

#[test]
fn should_return_error_for_missing_field() {
    let mapping = setup_mapping();
    let doc = obj(vec![("title", JsonValue::Str("Missing count".to_string()))]);

    assert_eq!(
        mapping.validate(&doc),
        Err(ValidationError::MissingField("count".to_string()))
    );
}

#[test]
fn should_return_error_for_invalid_type() {
    let mapping = setup_mapping();
    let doc = obj(vec![
        ("title", JsonValue::Str("Wrong type".to_string())),
        ("count", JsonValue::Str("string instead of int".to_string())),
    ]);

    assert_eq!(
        mapping.validate(&doc),
        Err(ValidationError::InvalidType {
            field: "count".to_string(),
            expected: FieldType::Integer
        })
    );
}

#[test]
fn should_return_error_for_unknown_field() {
    let mapping = setup_mapping();
    let doc = obj(vec![
        ("title", JsonValue::Str("Title".to_string())),
        ("count", JsonValue::UInt(1)),
        ("extra", JsonValue::Str("not in mapping".to_string())),
    ]);

    assert_eq!(
        mapping.validate(&doc),
        Err(ValidationError::UnknownField("extra".to_string()))
    );
}

#[test]
fn should_allow_extra_fields_when_dynamic_true() {
    let mut mapping = setup_mapping();
    mapping.dynamic = true;
    let doc = obj(vec![
        ("title", JsonValue::Str("Title".to_string())),
        ("count", JsonValue::UInt(1)),
        ("extra", JsonValue::Str("I am allowed".to_string())),
    ]);

    assert!(mapping.validate(&doc).is_ok());
}

#[test]
fn should_update_mapping_with_new_properties() {
    let mut mapping = setup_mapping();
    let other = Mapping {
        dynamic: true,
        properties: vec![(
            "new_field".to_string(),
            Property { field_type: FieldType::Boolean },
        )],
    };

    mapping.update(other);

    assert!(mapping.contains_property(&"new_field".to_string()));
    assert!(mapping.contains_property(&"title".to_string()));
    assert!(mapping.dynamic);
}

#[test]
fn should_reject_non_object_document() {
    let mapping = Mapping::default();
    let result = mapping.validate(&JsonValue::UInt(5));
    assert_eq!(
        result,
        Err(ValidationError::InvalidType {
            field: "root".to_string(),
            expected: FieldType::Keyword
        })
    );
}

#[test]
fn should_tolerate_id_field_when_dynamic_false() {
    let mapping = setup_mapping();
    let doc = obj(vec![
        ("_id", JsonValue::Str("7".to_string())),
        ("title", JsonValue::Str("Title".to_string())),
        ("count", JsonValue::Int(-3)),
    ]);
    assert!(mapping.validate(&doc).is_ok());
}

#[test]
fn should_check_each_declared_type() {
    let mapping = Mapping {
        dynamic: true,
        properties: vec![
            ("k".to_string(), Property { field_type: FieldType::Keyword }),
            ("d".to_string(), Property { field_type: FieldType::Date }),
            ("l".to_string(), Property { field_type: FieldType::Long }),
            ("x".to_string(), Property { field_type: FieldType::Double }),
            ("b".to_string(), Property { field_type: FieldType::Boolean }),
        ],
    };
    let good = obj(vec![
        ("k", JsonValue::Str("key".to_string())),
        ("d", JsonValue::Str("2024-01-01".to_string())),
        ("l", JsonValue::Int(-9)),
        ("x", JsonValue::Float("2.5".to_string())),
        ("b", JsonValue::Bool(true)),
    ]);
    assert!(mapping.validate(&good).is_ok());

    let bad = obj(vec![
        ("k", JsonValue::Str("key".to_string())),
        ("d", JsonValue::Str("2024-01-01".to_string())),
        ("l", JsonValue::Float("2.5".to_string())),
        ("x", JsonValue::Float("2.5".to_string())),
        ("b", JsonValue::Bool(true)),
    ]);
    assert_eq!(
        mapping.validate(&bad),
        Err(ValidationError::InvalidType {
            field: "l".to_string(),
            expected: FieldType::Long
        })
    );
}
