use micro_es::engine::{SearchEngine, SortOptions, SortOrder};
use micro_es::query::{MatchAllQuery, Query, TermQuery, TermsAggregation};
use micro_es::value::JsonValue;

fn obj(fields: Vec<(&str, JsonValue)>) -> JsonValue {
    JsonValue::Obj(fields.into_iter().map(|(k, v)| (k.to_string(), v)).collect())
}

fn s(text: &str) -> JsonValue {
    JsonValue::Str(text.to_string())
}

fn field<'a>(doc: &'a JsonValue, name: &str) -> &'a JsonValue {
    doc.get(&name.to_string()).unwrap()
}

#[test]
fn should_sort_documents_ascending() {
    let docs = vec![
        obj(vec![("id", JsonValue::UInt(2)), ("val", JsonValue::UInt(20))]),
        obj(vec![("id", JsonValue::UInt(1)), ("val", JsonValue::UInt(10))]),
        obj(vec![("id", JsonValue::UInt(3)), ("val", JsonValue::UInt(30))]),
    ];
    let sort = Some(SortOptions { field: "val".to_string(), order: SortOrder::Asc });

    let results = SearchEngine::search(&docs, &Query::MatchAll(MatchAllQuery), sort, 0, 10);

    assert_eq!(field(&results[0], "id"), &JsonValue::UInt(1));
    assert_eq!(field(&results[2], "id"), &JsonValue::UInt(3));
}

#[test]
fn should_sort_documents_descending() {
    let docs = vec![
        obj(vec![("id", JsonValue::UInt(1)), ("val", JsonValue::UInt(10))]),
        obj(vec![("id", JsonValue::UInt(2)), ("val", JsonValue::UInt(20))]),
    ];
    let sort = Some(SortOptions { field: "val".to_string(), order: SortOrder::Desc });

    let results = SearchEngine::search(&docs, &Query::MatchAll(MatchAllQuery), sort, 0, 10);

    assert_eq!(field(&results[0], "id"), &JsonValue::UInt(2));
}

#[test]
fn should_handle_keyword_suffix_in_sort() {
    let docs = vec![obj(vec![("name", s("B"))]), obj(vec![("name", s("A"))])];
    let sort = Some(SortOptions { field: "name.keyword".to_string(), order: SortOrder::Asc });

    let results = SearchEngine::search(&docs, &Query::MatchAll(MatchAllQuery), sort, 0, 10);
    assert_eq!(field(&results[0], "name"), &s("A"));
}

#[test]
fn should_handle_keyword_suffix_in_query() {
    let docs = vec![obj(vec![("filename", s("test.json"))])];
    let query = Query::Term(TermQuery {
        field: "filename.keyword".to_string(),
        value: s("test.json"),
    });

    let results = SearchEngine::search(&docs, &query, None, 0, 10);
    assert_eq!(results.len(), 1);
}

#[test]
fn should_apply_pagination_from_and_size() {
    let docs = vec![
        obj(vec![("id", JsonValue::UInt(1))]),
        obj(vec![("id", JsonValue::UInt(2))]),
        obj(vec![("id", JsonValue::UInt(3))]),
        obj(vec![("id", JsonValue::UInt(4))]),
    ];

    let results = SearchEngine::search(&docs, &Query::MatchAll(MatchAllQuery), None, 1, 2);

    assert_eq!(results.len(), 2);
    assert_eq!(field(&results[0], "id"), &JsonValue::UInt(2));
    assert_eq!(field(&results[1], "id"), &JsonValue::UInt(3));
}

#[test]
fn should_aggregate_terms_correctly() {
    let docs = vec![
        obj(vec![("color", s("red"))]),
        obj(vec![("color", s("blue"))]),
        obj(vec![("color", s("red"))]),
        obj(vec![("color", s("green"))]),
    ];
    let aggs = vec![TermsAggregation {
        name: "colors".to_string(),
        field: "color.keyword".to_string(),
    }];

    let results = SearchEngine::aggregate(&docs, &aggs);

    assert_eq!(results.len(), 1);
    let agg_res = &results[0];
    assert_eq!(agg_res.name, "colors");

    let red_bucket = agg_res.buckets.iter().find(|b| b.key == s("red")).unwrap();
    assert_eq!(red_bucket.doc_count, 2);

    let blue_bucket = agg_res.buckets.iter().find(|b| b.key == s("blue")).unwrap();
    assert_eq!(blue_bucket.doc_count, 1);
}

#[test]
fn should_order_buckets_by_count_then_key() {
    let docs = vec![
        obj(vec![("c", s("b"))]),
        obj(vec![("c", s("a"))]),
        obj(vec![("c", s("a"))]),
        obj(vec![("c", s("c"))]),
    ];
    let aggs = vec![TermsAggregation { name: "cs".to_string(), field: "c".to_string() }];
    let results = SearchEngine::aggregate(&docs, &aggs);
    let buckets = &results[0].buckets;
    assert_eq!(buckets.len(), 3);
    assert_eq!(buckets[0].key, s("a"));
    assert_eq!(buckets[0].doc_count, 2);
    assert_eq!(buckets[1].key, s("b"));
    assert_eq!(buckets[2].key, s("c"));
}

#[test]
fn should_group_numbers_by_their_decimal_text() {
    let docs = vec![
        obj(vec![("v", JsonValue::UInt(5))]),
        obj(vec![("v", JsonValue::Int(5))]),
        obj(vec![("v", s("5"))]),
        obj(vec![("v", JsonValue::Int(-5))]),
    ];
    let aggs = vec![TermsAggregation { name: "vs".to_string(), field: "v".to_string() }];
    let results = SearchEngine::aggregate(&docs, &aggs);
    let buckets = &results[0].buckets;
    assert_eq!(buckets.len(), 2);
    assert_eq!(buckets[0].doc_count, 3);
    assert_eq!(buckets[0].key, JsonValue::UInt(5));
    assert_eq!(buckets[1].doc_count, 1);
    assert_eq!(buckets[1].key, JsonValue::Int(-5));
}

#[test]
fn should_exclude_non_scalar_values_from_buckets() {
    let docs = vec![
        obj(vec![("v", JsonValue::Arr(vec![JsonValue::UInt(1)]))]),
        obj(vec![("v", JsonValue::Null)]),
        obj(vec![("v", JsonValue::Bool(true))]),
        obj(vec![("w", JsonValue::UInt(1))]),
    ];
    let aggs = vec![TermsAggregation { name: "vs".to_string(), field: "v".to_string() }];
    let results = SearchEngine::aggregate(&docs, &aggs);
    let buckets = &results[0].buckets;
    assert_eq!(buckets.len(), 1);
    assert_eq!(buckets[0].key, JsonValue::Bool(true));
    assert_eq!(buckets[0].doc_count, 1);
}

#[test]
fn should_sum_bucket_counts_to_scalar_holders() {
    let docs = vec![
        obj(vec![("f", s("x"))]),
        obj(vec![("f", s("y"))]),
        obj(vec![("f", s("x"))]),
        obj(vec![("f", JsonValue::Null)]),
        obj(vec![("g", s("x"))]),
        obj(vec![("f", JsonValue::UInt(9))]),
    ];
    let aggs = vec![TermsAggregation { name: "fs".to_string(), field: "f".to_string() }];
    let results = SearchEngine::aggregate(&docs, &aggs);
    let total: usize = results[0].buckets.iter().map(|b| b.doc_count).sum();
    assert_eq!(total, 4);
}

#[test]
fn should_sort_missing_field_documents_last_ascending() {
    let docs = vec![
        obj(vec![("id", JsonValue::UInt(1))]),
        obj(vec![("id", JsonValue::UInt(2)), ("val", JsonValue::UInt(7))]),
    ];
    let asc = Some(SortOptions { field: "val".to_string(), order: SortOrder::Asc });
    let results = SearchEngine::search(&docs, &Query::MatchAll(MatchAllQuery), asc, 0, 10);
    assert_eq!(field(&results[0], "id"), &JsonValue::UInt(2));
    assert_eq!(field(&results[1], "id"), &JsonValue::UInt(1));

    let desc = Some(SortOptions { field: "val".to_string(), order: SortOrder::Desc });
    let results = SearchEngine::search(&docs, &Query::MatchAll(MatchAllQuery), desc, 0, 10);
    assert_eq!(field(&results[0], "id"), &JsonValue::UInt(1));
    assert_eq!(field(&results[1], "id"), &JsonValue::UInt(2));
}

#[test]
fn should_return_empty_page_past_the_end() {
    let docs = vec![obj(vec![("id", JsonValue::UInt(1))])];
    let results = SearchEngine::search(&docs, &Query::MatchAll(MatchAllQuery), None, 5, 10);
    assert!(results.is_empty());
}
