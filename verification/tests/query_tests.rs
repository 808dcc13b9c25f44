use micro_es::engine::SortOrder;
use micro_es::query::{parse_pagination, parse_query, parse_sort, TermQuery};
use micro_es::value::JsonValue;

fn obj(fields: Vec<(&str, JsonValue)>) -> JsonValue {
    JsonValue::Obj(fields.into_iter().map(|(k, v)| (k.to_string(), v)).collect())
}

fn s(text: &str) -> JsonValue {
    JsonValue::Str(text.to_string())
}

#[test]
fn should_match_term_with_keyword_suffix() {
    let query = TermQuery { field: "status.keyword".to_string(), value: s("active") };
    let doc = obj(vec![("status", s("active"))]);
    assert!(query.matches(&doc));
}

#[test]
fn should_parse_simple_term_query() {
    let body = obj(vec![(
        "query",
        obj(vec![("term", obj(vec![("user_id", JsonValue::UInt(1))]))]),
    )]);
    let query = parse_query(&body);
    let doc = obj(vec![("user_id", JsonValue::UInt(1))]);
    assert!(query.matches(&doc));
}

#[test]
fn should_parse_bool_must_query() {
    let body = obj(vec![(
        "query",
        obj(vec![(
            "bool",
            obj(vec![(
                "must",
                JsonValue::Arr(vec![
                    obj(vec![("term", obj(vec![("tags", s("rust"))]))]),
                    obj(vec![("term", obj(vec![("published", JsonValue::Bool(true))]))]),
                ]),
            )]),
        )]),
    )]);
    let query = parse_query(&body);

    assert!(query.matches(&obj(vec![("tags", s("rust")), ("published", JsonValue::Bool(true))])));
    assert!(!query.matches(&obj(vec![("tags", s("rust")), ("published", JsonValue::Bool(false))])));
}

#[test]
fn should_parse_bool_must_not_query() {
    let body = obj(vec![(
        "query",
        obj(vec![(
            "bool",
            obj(vec![("must_not", obj(vec![("term", obj(vec![("status", s("deleted"))]))]))]),
        )]),
    )]);
    let query = parse_query(&body);

    assert!(query.matches(&obj(vec![("status", s("active"))])));
    assert!(!query.matches(&obj(vec![("status", s("deleted"))])));
}

#[test]
fn should_parse_sort_string() {
    let body = obj(vec![("sort", JsonValue::Arr(vec![s("created_at")]))]);
    let sort = parse_sort(&body).unwrap();
    assert_eq!(sort.field, "created_at");
    assert!(matches!(sort.order, SortOrder::Asc));
}

#[test]
fn should_parse_sort_object_desc() {
    let body = obj(vec![("sort", obj(vec![("price", obj(vec![("order", s("desc"))]))]))]);
    let sort = parse_sort(&body).unwrap();
    assert_eq!(sort.field, "price");
    assert!(matches!(sort.order, SortOrder::Desc));
}

#[test]
fn should_parse_pagination_parameters() {
    let body = obj(vec![("from", JsonValue::UInt(20)), ("size", JsonValue::UInt(50))]);
    let (from, size) = parse_pagination(&body);
    assert_eq!(from, 20);
    assert_eq!(size, 50);
}

#[test]
fn should_return_default_pagination_when_missing() {
    let body = obj(vec![]);
    let (from, size) = parse_pagination(&body);
    assert_eq!(from, 0);
    assert_eq!(size, 10);
}

#[test]
fn should_treat_missing_query_wrapper_as_match_all() {
    let body = obj(vec![]);
    let query = parse_query(&body);
    assert!(query.matches(&obj(vec![("anything", JsonValue::UInt(3))])));
    assert!(query.matches(&JsonValue::Null));
}

#[test]
fn should_treat_unsupported_shapes_as_match_all() {
    let body = obj(vec![("query", obj(vec![("fuzzy", obj(vec![("f", s("x"))]))]))]);
    let query = parse_query(&body);
    assert!(query.matches(&obj(vec![("f", s("y"))])));
}

#[test]
fn should_parse_single_should_clause_object() {
    let body = obj(vec![(
        "query",
        obj(vec![(
            "bool",
            obj(vec![("should", obj(vec![("term", obj(vec![("a", JsonValue::UInt(1))]))]))]),
        )]),
    )]);
    let query = parse_query(&body);
    assert!(query.matches(&obj(vec![("a", JsonValue::UInt(1))])));
    assert!(!query.matches(&obj(vec![("a", JsonValue::UInt(2))])));
}

#[test]
fn should_match_int_and_uint_of_equal_magnitude() {
    let query = TermQuery { field: "n".to_string(), value: JsonValue::Int(5) };
    let doc = obj(vec![("n", JsonValue::UInt(5))]);
    assert!(query.matches(&doc));
}

#[test]
fn should_match_structured_term_values() {
    let query = TermQuery {
        field: "tags".to_string(),
        value: JsonValue::Arr(vec![s("a"), s("b")]),
    };
    assert!(query.matches(&obj(vec![("tags", JsonValue::Arr(vec![s("a"), s("b")]))])));
    assert!(!query.matches(&obj(vec![("tags", JsonValue::Arr(vec![s("b"), s("a")]))])));
}

#[test]
fn should_match_fractional_values_by_their_text() {
    let query = TermQuery { field: "price".to_string(), value: JsonValue::Float("2.5".to_string()) };
    assert!(query.matches(&obj(vec![("price", JsonValue::Float("2.5".to_string()))])));
    assert!(!query.matches(&obj(vec![("price", JsonValue::Float("2.50".to_string()))])));
}

#[test]
fn should_default_pagination_on_non_numeric_values() {
    let body = obj(vec![("from", s("x")), ("size", JsonValue::Int(-3))]);
    let (from, size) = parse_pagination(&body);
    assert_eq!(from, 0);
    assert_eq!(size, 10);
}

#[test]
fn should_degrade_multi_field_term_to_match_all() {
    let body = obj(vec![(
        "query",
        obj(vec![("term", obj(vec![("a", JsonValue::UInt(1)), ("b", JsonValue::UInt(2))]))]),
    )]);
    let query = parse_query(&body);
    assert!(query.matches(&obj(vec![("a", JsonValue::UInt(9))])));
}
