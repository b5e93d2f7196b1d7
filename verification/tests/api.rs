use not_so_turbo_puffer::api::{
    attribute_to_json, check_not_empty, check_query, convert_attributes, default_top_k, json_to_attribute, queue_compaction,
    validated_namespace, ApiError, CompactionParams, DeleteRequest, DocumentIdInput, EngineFailure, JsonNumber,
    JsonValue, MetadataResponse, NamespaceList, PatchRow, UpsertRow,
};
use not_so_turbo_puffer::client::{DimensionMismatch, DistanceMetricConflict};
use not_so_turbo_puffer::engine::{AttributeValue, DocumentId, IndexStatus, Namespace, WalRecord};
use not_so_turbo_puffer::s3client::initial_metadata_at;
use not_so_turbo_puffer::vectors::DistanceMetric;

fn integer(i: i64) -> JsonValue {
    JsonValue::Number(JsonNumber { as_i64: Some(i), as_u64: if i >= 0 { Some(i as u64) } else { None }, as_f64_bits: Some((i as f64).to_bits()) })
}

fn float(f: f64) -> JsonValue {
    JsonValue::Number(JsonNumber { as_i64: None, as_u64: None, as_f64_bits: Some(f.to_bits()) })
}

fn text(s: &str) -> JsonValue {
    JsonValue::String(s.to_string())
}

#[test]
fn error_statuses_and_messages() {
    let e = ApiError::bad_request("x".to_string());
    assert_eq!((e.status, e.message.as_str()), (400, "x"));
    assert_eq!(ApiError::conflict("y".to_string()).status, 409);
    assert_eq!(ApiError::internal("z".to_string()).status, 500);

    let e = ApiError::from_failure(EngineFailure::DimensionMismatch(DimensionMismatch {
        namespace: "ns".to_string(),
        expected: 3,
        actual: 2,
    }));
    assert_eq!(e.status, 400);
    assert_eq!(e.message, "Vector dimension mismatch: namespace 'ns' expects 3 dimensions, got 2");

    let e = ApiError::from_failure(EngineFailure::DistanceMetricConflict(DistanceMetricConflict {
        existing: DistanceMetric::CosineDistance,
        requested: DistanceMetric::EuclideanSquared,
    }));
    assert_eq!(e.status, 409);
    assert_eq!(e.message, "namespace already uses CosineDistance, cannot change to EuclideanSquared");

    let e = ApiError::from_failure(EngineFailure::Other("boom".to_string()));
    assert_eq!((e.status, e.message.as_str()), (500, "boom"));
}

#[test]
fn namespaces_from_paths() {
    assert_eq!(validated_namespace("good-name").unwrap(), "good-name");
    let e = validated_namespace("Bad").unwrap_err();
    assert_eq!(e.status, 400);
    assert_eq!(e.message, "namespace must be lowercase");
    let e = validated_namespace("").unwrap_err();
    assert_eq!(e.message, "namespace cannot be empty!");
}

#[test]
fn query_and_write_requests_are_checked() {
    assert!(check_query(3, 10, 100).is_ok());
    assert_eq!(check_query(0, 10, 100).unwrap_err().message, "query vector cannot be empty");
    assert_eq!(check_query(3, 0, 100).unwrap_err().message, "top_k must be between 1 and 100");
    assert_eq!(check_query(3, 101, 100).unwrap_err().message, "top_k must be between 1 and 100");
    assert!(check_query(3, 100, 100).is_ok());
    assert_eq!(default_top_k(), 10);
    assert!(check_not_empty(1, false).is_ok());
    assert_eq!(check_not_empty(0, false).unwrap_err().message, "rows cannot be empty");
    assert_eq!(check_not_empty(0, true).unwrap_err().message, "ids cannot be empty");
}

#[test]
fn compaction_requests_are_queued_as_asked() {
    let (req, queued) = queue_compaction("ns-one", &CompactionParams { force: true }).unwrap();
    assert_eq!(req.namespace, "ns-one");
    assert!(req.forced);
    assert_eq!(queued.namespace, "ns-one");
    assert!(queued.forced);
    let (req, queued) = queue_compaction("ns-one", &CompactionParams::default()).unwrap();
    assert!(!req.forced && !queued.forced);
    assert_eq!(queue_compaction("a", &CompactionParams::default()).unwrap_err().status, 400);
}

#[test]
fn listings_and_metadata_views() {
    let list = NamespaceList::from_namespaces(vec![
        Namespace { id: "a".to_string() },
        Namespace { id: "b".to_string() },
    ]);
    assert_eq!(list.namespaces, vec!["a".to_string(), "b".to_string()]);
    assert_eq!(list.count, 2);

    let mut m = initial_metadata_at(100);
    m.wal_files.push("wal/1".to_string());
    m.approx_row_count = 5;
    let r = MetadataResponse::new("ns".to_string(), &m);
    assert_eq!(r.namespace, "ns");
    assert_eq!(r.pending_wal_files, 1);
    assert_eq!(r.approx_row_count, 5);
    assert_eq!(r.index_status, IndexStatus::UpToDate);
    assert_eq!(r.created_at, 100);
    assert_eq!(r.distance_metric, DistanceMetric::CosineDistance);
}

#[test]
fn ids_and_deletes_from_requests() {
    assert_eq!(DocumentIdInput::String("d".to_string()).into_document_id(), DocumentId::from_text("d"));
    assert_eq!(DocumentIdInput::Number(9).into_document_id(), DocumentId::from_u64(9));
    let records = DeleteRequest { ids: vec![DocumentIdInput::Number(1), DocumentIdInput::String("x".to_string())] }
        .into_records(77);
    assert_eq!(records.len(), 2);
    match &records[1] {
        WalRecord::Delete { id, timestamp } => {
            assert_eq!(id, &DocumentId::from_text("x"));
            assert_eq!(*timestamp, 77);
        }
        _ => panic!("expected a deletion"),
    }
}

#[test]
fn json_values_become_attributes() {
    assert!(matches!(json_to_attribute(text("s")), Ok(AttributeValue::String(s)) if s == "s"));
    assert!(matches!(json_to_attribute(JsonValue::Bool(true)), Ok(AttributeValue::Bool(true))));
    assert!(matches!(json_to_attribute(JsonValue::Null), Ok(AttributeValue::Null)));
    assert!(matches!(json_to_attribute(integer(-3)), Ok(AttributeValue::Int(-3))));
    let big = JsonValue::Number(JsonNumber { as_i64: None, as_u64: Some(u64::MAX), as_f64_bits: Some((u64::MAX as f64).to_bits()) });
    assert!(matches!(json_to_attribute(big), Ok(AttributeValue::Uint(u64::MAX))));
    assert!(matches!(json_to_attribute(float(2.5)), Ok(AttributeValue::Float(b)) if b == 2.5f64.to_bits()));
    assert!(matches!(json_to_attribute(JsonValue::Array(vec![])), Ok(AttributeValue::EmptyArray)));
    assert!(matches!(json_to_attribute(JsonValue::Array(vec![integer(1), integer(2)])), Ok(AttributeValue::IntArray(v)) if v == vec![1, 2]));
    assert!(matches!(
        json_to_attribute(JsonValue::Array(vec![integer(1), float(0.5)])),
        Ok(AttributeValue::FloatArray(v)) if v == vec![1f64.to_bits(), 0.5f64.to_bits()]
    ));
    assert!(matches!(json_to_attribute(JsonValue::Array(vec![text("a"), text("b")])), Ok(AttributeValue::StringArray(v)) if v == vec!["a".to_string(), "b".to_string()]));
    assert!(matches!(json_to_attribute(JsonValue::Array(vec![JsonValue::Bool(false)])), Ok(AttributeValue::BoolArray(v)) if v == vec![false]));
    assert_eq!(json_to_attribute(JsonValue::Object).unwrap_err(), "nested objects are not supported");
    assert_eq!(
        json_to_attribute(JsonValue::Array(vec![text("a"), integer(1)])).unwrap_err(),
        "mixed-type arrays are not supported"
    );
    assert_eq!(
        json_to_attribute(JsonValue::Array(vec![integer(1), text("a")])).unwrap_err(),
        "mixed-type arrays are not supported"
    );
    assert_eq!(
        json_to_attribute(JsonValue::Array(vec![JsonValue::Null])).unwrap_err(),
        "array elements must be strings, booleans, or numbers"
    );
}

#[test]
fn attribute_maps_are_converted_or_refused_by_name() {
    let a = convert_attributes(vec![("k".to_string(), integer(1)), ("s".to_string(), text("v"))]).unwrap();
    assert_eq!(a.len(), 2);
    assert!(matches!(a.get(&"k".to_string()), Some(AttributeValue::Int(1))));
    let e = convert_attributes(vec![("ok".to_string(), integer(1)), ("bad".to_string(), JsonValue::Object)]).unwrap_err();
    assert_eq!(e, "invalid value for attribute 'bad': nested objects are not supported");

    let row = UpsertRow {
        id: DocumentIdInput::Number(4),
        vector: vec![1f32.to_bits()],
        attributes: vec![("t".to_string(), text("x"))],
    }
    .into_row(55)
    .unwrap();
    assert_eq!(row.id, DocumentId::from_u64(4));
    assert_eq!(row.timestamp, 55);
    assert_eq!(row.vector, vec![1f32.to_bits()]);
    assert_eq!(row.attributes.len(), 1);

    let refused = UpsertRow {
        id: DocumentIdInput::Number(4),
        vector: vec![],
        attributes: vec![("t".to_string(), JsonValue::Array(vec![JsonValue::Object]))],
    }
    .into_row(1);
    assert_eq!(refused.unwrap_err(), "invalid value for attribute 't': array elements must be strings, booleans, or numbers");

    match (PatchRow { id: DocumentIdInput::String("p".to_string()), attributes: vec![("n".to_string(), JsonValue::Null)] })
        .into_record(8)
        .unwrap()
    {
        WalRecord::Patch { id, timestamp, attributes } => {
            assert_eq!(id, DocumentId::from_text("p"));
            assert_eq!(timestamp, 8);
            assert!(matches!(attributes.get(&"n".to_string()), Some(AttributeValue::Null)));
        }
        _ => panic!("expected a patch"),
    }
}

fn same_attribute(a: &AttributeValue, b: &AttributeValue) -> bool {
    format!("{:?}", a) == format!("{:?}", b)
}

#[test]
fn attribute_values_come_back_from_their_json_form() {
    let values = vec![
        AttributeValue::String("x".to_string()),
        AttributeValue::Int(-5),
        AttributeValue::Bool(true),
        AttributeValue::Null,
        AttributeValue::EmptyArray,
        AttributeValue::StringArray(vec!["a".to_string(), "b".to_string()]),
        AttributeValue::IntArray(vec![1, -2]),
        AttributeValue::BoolArray(vec![false, true]),
    ];
    for v in values {
        let back = json_to_attribute(attribute_to_json(&v)).unwrap();
        assert!(same_attribute(&back, &v), "{:?} came back as {:?}", v, back);
    }
}

#[test]
fn attribute_values_are_written_as_json() {
    match attribute_to_json(&AttributeValue::Uint(u64::MAX)) {
        JsonValue::Number(n) => assert_eq!((n.as_i64, n.as_u64, n.as_f64_bits), (None, Some(u64::MAX), None)),
        other => panic!("unexpected {:?}", other),
    }
    match attribute_to_json(&AttributeValue::Uint(7)) {
        JsonValue::Number(n) => assert_eq!((n.as_i64, n.as_u64), (Some(7), Some(7))),
        other => panic!("unexpected {:?}", other),
    }
    match attribute_to_json(&AttributeValue::Uuid(0x0123456789abcdef0123456789abcdef)) {
        JsonValue::String(s) => assert_eq!(s, "01234567-89ab-cdef-0123-456789abcdef"),
        other => panic!("unexpected {:?}", other),
    }
    match attribute_to_json(&AttributeValue::FloatArray(vec![1.5f64.to_bits()])) {
        JsonValue::Array(items) => match &items[0] {
            JsonValue::Number(n) => assert_eq!(n.as_f64_bits, Some(1.5f64.to_bits())),
            other => panic!("unexpected {:?}", other),
        },
        other => panic!("unexpected {:?}", other),
    }
    assert!(same_attribute(
        &json_to_attribute(attribute_to_json(&AttributeValue::DateTime(9))).unwrap(),
        &AttributeValue::Int(9)
    ));
}
