use not_so_turbo_puffer::api::{JsonNumber, JsonValue};
use not_so_turbo_puffer::engine::{AttributeValue, Attributes, DocumentId, Row};
use not_so_turbo_puffer::inverted_index::{canonicalize_value, IndexEntry, InvertedIndex};

fn attrs(pairs: Vec<(&str, AttributeValue)>) -> Attributes {
    let mut a = Attributes::new();
    for (k, v) in pairs {
        a.insert(k.to_string(), v);
    }
    a
}

fn float_text(v: &AttributeValue) -> String {
    match v {
        AttributeValue::Float(bits) => f64::from_bits(*bits).to_string(),
        AttributeValue::FloatArray(v) => {
            let parts: Vec<f64> = v.iter().map(|b| f64::from_bits(*b)).collect();
            format!("FloatArray({:?})", parts)
        }
        _ => String::new(),
    }
}

fn filters(pairs: &[(&str, &str)]) -> Vec<(String, String)> {
    pairs.iter().map(|(k, v)| (k.to_string(), v.to_string())).collect()
}

#[test]
fn test_inverted_index_filtering() {
    let mut rows = Vec::new();

    rows.push(Row {
        id: DocumentId::from_text("doc1"),
        vector: vec![],
        attributes: attrs(vec![("tag", AttributeValue::String("A".to_string())), ("num", AttributeValue::Int(10))]),
        timestamp: 0,
    });
    rows.push(Row {
        id: DocumentId::from_text("doc2"),
        vector: vec![],
        attributes: attrs(vec![("tag", AttributeValue::String("B".to_string())), ("num", AttributeValue::Int(10))]),
        timestamp: 0,
    });
    rows.push(Row {
        id: DocumentId::from_text("doc3"),
        vector: vec![],
        attributes: attrs(vec![("tag", AttributeValue::String("A".to_string())), ("num", AttributeValue::Int(20))]),
        timestamp: 0,
    });

    let index = InvertedIndex::build_from_rows(&rows, &Vec::new(), float_text);

    // tag=A
    let mut filter = filters(&[("tag", "A")]);
    let results = index.filter(&filter).unwrap();
    assert_eq!(results.len(), 2);
    assert!(results.contains(&DocumentId::from_text("doc1")));
    assert!(results.contains(&DocumentId::from_text("doc3")));

    // tag=A AND num=10
    filter.push(("num".to_string(), "10".to_string()));
    let results = index.filter(&filter).unwrap();
    assert_eq!(results.len(), 1);
    assert!(results.contains(&DocumentId::from_text("doc1")));

    // num=99: no match
    let filter_none = filters(&[("num", "99")]);
    let results = index.filter(&filter_none).unwrap();
    assert!(results.is_empty());
}

#[test]
fn filter_without_filters_is_none_and_unknown_field_matches_nothing() {
    let rows = vec![Row {
        id: DocumentId::from_u64(1),
        vector: vec![],
        attributes: attrs(vec![("color", AttributeValue::String("red".to_string()))]),
        timestamp: 0,
    }];
    let index = InvertedIndex::build_from_rows(&rows, &Vec::new(), float_text);
    assert!(index.filter(&Vec::new()).is_none());
    assert!(index.filter(&filters(&[("size", "red")])).unwrap().is_empty());
    assert!(index.filter(&filters(&[("color", "blue")])).unwrap().is_empty());
    let found = index.filter(&filters(&[("color", "red")])).unwrap();
    assert_eq!(found, vec![DocumentId::from_u64(1)]);
}

#[test]
fn schema_limits_indexed_attributes_and_postings_are_sorted() {
    let rows = vec![
        Row {
            id: DocumentId::from_text("b"),
            vector: vec![],
            attributes: attrs(vec![("kind", AttributeValue::Bool(true)), ("skip", AttributeValue::Int(1))]),
            timestamp: 0,
        },
        Row {
            id: DocumentId::from_text("a"),
            vector: vec![],
            attributes: attrs(vec![("kind", AttributeValue::Bool(true))]),
            timestamp: 0,
        },
    ];
    let index = InvertedIndex::build_from_rows(&rows, &vec!["kind".to_string()], float_text);
    assert!(index.postings(&"skip".to_string(), &"1".to_string()).is_none());
    let ids = index.postings(&"kind".to_string(), &"true".to_string()).unwrap();
    assert_eq!(ids, &vec![DocumentId::from_text("a"), DocumentId::from_text("b")]);
    assert_eq!(index.entries().len(), 1);
}

#[test]
fn float_values_take_their_key_from_outside() {
    let rows = vec![Row {
        id: DocumentId::from_text("x"),
        vector: vec![],
        attributes: attrs(vec![("score", AttributeValue::Float(1.5f64.to_bits()))]),
        timestamp: 0,
    }];
    let index = InvertedIndex::build_from_rows(&rows, &Vec::new(), float_text);
    let found = index.filter(&filters(&[("score", "1.5")])).unwrap();
    assert_eq!(found, vec![DocumentId::from_text("x")]);
}

#[test]
fn canonical_keys_of_each_kind() {
    let key = |v: AttributeValue| canonicalize_value(&v);
    assert_eq!(key(AttributeValue::String("hi".to_string())), Some("hi".to_string()));
    assert_eq!(key(AttributeValue::Int(-42)), Some("-42".to_string()));
    assert_eq!(key(AttributeValue::Uint(18446744073709551615)), Some("18446744073709551615".to_string()));
    assert_eq!(key(AttributeValue::Bool(false)), Some("false".to_string()));
    assert_eq!(key(AttributeValue::DateTime(1700000000)), Some("1700000000".to_string()));
    assert_eq!(key(AttributeValue::Null), Some("null".to_string()));
    assert_eq!(key(AttributeValue::EmptyArray), Some("EmptyArray".to_string()));
    assert_eq!(
        key(AttributeValue::Uuid(0x67e5504410b1426f9247bb680e5fe0c8)),
        Some("67e55044-10b1-426f-9247-bb680e5fe0c8".to_string())
    );
    assert_eq!(key(AttributeValue::IntArray(vec![1, -2, 3])), Some("IntArray([1, -2, 3])".to_string()));
    assert_eq!(key(AttributeValue::UintArray(vec![])), Some("UintArray([])".to_string()));
    assert_eq!(key(AttributeValue::BoolArray(vec![true, false])), Some("BoolArray([true, false])".to_string()));
    assert_eq!(key(AttributeValue::DateTimeArray(vec![5])), Some("DateTimeArray([5])".to_string()));
    assert_eq!(
        key(AttributeValue::StringArray(vec!["a".to_string(), "b\"c".to_string()])),
        Some("StringArray([\"a\", \"b\\\"c\"])".to_string())
    );
    assert_eq!(
        key(AttributeValue::UuidArray(vec![1])),
        Some("UuidArray([00000000-0000-0000-0000-000000000001])".to_string())
    );
    assert_eq!(key(AttributeValue::Float(0)), None);
    assert_eq!(key(AttributeValue::FloatArray(vec![0])), None);
}

#[test]
fn index_from_entries_refuses_duplicate_keys() {
    let entry = |f: &str, v: &str| IndexEntry { field: f.to_string(), value: v.to_string(), ids: vec![] };
    assert!(InvertedIndex::from_entries(vec![entry("a", "1"), entry("a", "2")]).is_some());
    assert!(InvertedIndex::from_entries(vec![entry("a", "1"), entry("a", "1")]).is_none());
    let mut idx = InvertedIndex::new();
    idx.add("f".to_string(), "v".to_string(), DocumentId::from_u64(2));
    idx.add("f".to_string(), "v".to_string(), DocumentId::from_u64(1));
    assert_eq!(
        idx.postings(&"f".to_string(), &"v".to_string()).unwrap(),
        &vec![DocumentId::from_u64(2), DocumentId::from_u64(1)]
    );
    idx.sort_postings();
    assert_eq!(
        idx.postings(&"f".to_string(), &"v".to_string()).unwrap(),
        &vec![DocumentId::from_u64(1), DocumentId::from_u64(2)]
    );
}

#[test]
fn json_filter_values_have_key_texts() {
    let int = JsonValue::Number(JsonNumber { as_i64: Some(-3), as_u64: None, as_f64_bits: Some((-3.0f64).to_bits()) });
    let big = JsonValue::Number(JsonNumber { as_i64: None, as_u64: Some(u64::MAX), as_f64_bits: None });
    let float = JsonValue::Number(JsonNumber { as_i64: None, as_u64: None, as_f64_bits: Some(1.5f64.to_bits()) });
    assert_eq!(InvertedIndex::canonicalize_json_value(&int), Some("-3".to_string()));
    assert_eq!(InvertedIndex::canonicalize_json_value(&big), Some("18446744073709551615".to_string()));
    assert_eq!(InvertedIndex::canonicalize_json_value(&float), None);
    assert_eq!(InvertedIndex::canonicalize_json_value(&JsonValue::Bool(true)), Some("true".to_string()));
    assert_eq!(InvertedIndex::canonicalize_json_value(&JsonValue::Null), Some("null".to_string()));
    assert_eq!(InvertedIndex::canonicalize_json_value(&JsonValue::String("x".to_string())), Some("x".to_string()));
    assert_eq!(InvertedIndex::canonicalize_json_value(&JsonValue::Object), None);
}
