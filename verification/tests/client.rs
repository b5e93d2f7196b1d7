use not_so_turbo_puffer::client::{apply_pending_patches, decide_filtering, filter_result, missing_index_message, FilterDecision, FilterResult};
use not_so_turbo_puffer::candidates::merge_candidates;
use not_so_turbo_puffer::client::{
    after_metadata_put, allowed_rows, apply_distance_metric, assemble_chunks, deleted_file_cache_keys,
    drop_deleted_candidates, may_retry, merge_metadata_at, metadata_cache_key, metadata_object_key, needs_compaction,
    record_wal_write, retries_exhausted_message, sorted_union, spfresh_cache_key, spfresh_cache_prefix,
    validate_dimensions, wal_cache_key, DimensionMismatch, DistanceMetricConflict, PersistAction,
};
use not_so_turbo_puffer::engine::{
    replay_wal_with_tombstones, Attributes, DocumentId, IndexStatus, ReplayOutcome, Row, WalRecord,
};
use not_so_turbo_puffer::s3client::initial_metadata_at;
use not_so_turbo_puffer::store::FailureKind;
use not_so_turbo_puffer::vectors::DistanceMetric;

fn row(id: &str, dims: usize, ts: i64) -> Row {
    Row { id: DocumentId::from_text(id), vector: vec![0; dims], attributes: Attributes::new(), timestamp: ts }
}

fn names(v: &[(u32, Row)]) -> Vec<(u32, DocumentId)> {
    v.iter().map(|(s, r)| (*s, r.id.clone())).collect()
}

#[test]
fn the_metric_is_fixed_once_data_exists() {
    let mut m = initial_metadata_at(0);
    assert!(apply_distance_metric(&mut m, Some(DistanceMetric::EuclideanSquared)).is_ok());
    assert_eq!(m.distance_metric, DistanceMetric::EuclideanSquared);
    m.wal_files.push("wal/x".to_string());
    let err = apply_distance_metric(&mut m, Some(DistanceMetric::CosineDistance)).unwrap_err();
    assert_eq!(err, DistanceMetricConflict { existing: DistanceMetric::EuclideanSquared, requested: DistanceMetric::CosineDistance });
    assert_eq!(err.message(), "namespace already uses EuclideanSquared, cannot change to CosineDistance");
    assert!(apply_distance_metric(&mut m, Some(DistanceMetric::EuclideanSquared)).is_ok());
    assert!(apply_distance_metric(&mut m, None).is_ok());
    assert_eq!(m.distance_metric, DistanceMetric::EuclideanSquared);
}

#[test]
fn the_first_vectors_set_the_dimensions() {
    let mut m = initial_metadata_at(0);
    let ok = vec![WalRecord::Upsert(row("a", 3, 0)), WalRecord::Delete { id: DocumentId::from_u64(1), timestamp: 0 }, WalRecord::Upsert(row("b", 3, 0))];
    assert!(validate_dimensions("ns", &mut m, &ok).is_ok());
    assert_eq!(m.vector_dimensions, Some(3));
    let bad = vec![WalRecord::Upsert(row("c", 4, 0))];
    let err: DimensionMismatch = validate_dimensions("ns", &mut m, &bad).unwrap_err();
    assert_eq!((err.expected, err.actual), (3, 4));
    assert_eq!(err.message(), "Vector dimension mismatch: namespace 'ns' expects 3 dimensions, got 4");
    assert_eq!(m.vector_dimensions, Some(3));
}

#[test]
fn a_log_write_is_recorded_and_may_call_for_compaction() {
    let mut m = initial_metadata_at(1);
    record_wal_write(&mut m, "wal/01".to_string(), 4, 9);
    assert_eq!(m.wal_files, vec!["wal/01".to_string()]);
    assert_eq!(m.approx_row_count, 4);
    assert_eq!(m.updated_at, 9);
    assert_eq!(m.index.status, IndexStatus::Updating);
    assert!(!needs_compaction(&m, 2, 100));
    assert!(needs_compaction(&m, 1, 100));
    m.unindexed_bytes = 100;
    assert!(needs_compaction(&m, 2, 100));
}

#[test]
fn conflicting_metadata_merges_files_and_counters() {
    let mut remote = initial_metadata_at(1);
    remote.wal_files = vec!["wal/b".to_string(), "wal/a".to_string()];
    remote.approx_row_count = 10;
    remote.unindexed_bytes = 1;
    let mut local = initial_metadata_at(2);
    local.wal_files = vec!["wal/c".to_string(), "wal/a".to_string()];
    local.approx_row_count = 3;
    local.unindexed_bytes = 7;
    let merged = merge_metadata_at(remote, &local, 99);
    assert_eq!(merged.wal_files, vec!["wal/a", "wal/b", "wal/c"]);
    assert_eq!((merged.approx_row_count, merged.unindexed_bytes, merged.updated_at, merged.created_at), (10, 7, 99, 1));
    assert_eq!(sorted_union(&vec!["b".to_string()], &vec!["a".to_string(), "b".to_string()]), vec!["a", "b"]);
}

#[test]
fn deleted_documents_leave_index_results_and_filters_limit_log_rows() {
    let doc = DocumentId::from_text("gone");
    let replayed = replay_wal_with_tombstones(vec![vec![
        WalRecord::Delete { id: doc.clone(), timestamp: 50 },
        WalRecord::Delete { id: DocumentId::from_text("old"), timestamp: 5 },
    ]]);
    let candidates = vec![(1u32, row("gone", 1, 40)), (2u32, row("old", 1, 10)), (3u32, row("other", 1, 0))];
    let kept = drop_deleted_candidates(candidates, &replayed);
    assert_eq!(names(&kept), vec![(2, DocumentId::from_text("old")), (3, DocumentId::from_text("other"))]);

    let rows = vec![row("a", 1, 0), row("b", 1, 0)];
    let only_b = allowed_rows(rows.clone(), &Some(vec![DocumentId::from_text("b")]));
    assert_eq!(only_b.len(), 1);
    assert_eq!(only_b[0].id, DocumentId::from_text("b"));
    assert_eq!(allowed_rows(rows, &None).len(), 2);
}

#[test]
fn index_and_log_candidates_merge_by_id_newest_wins() {
    let index = vec![(1u32, row("a", 1, 10)), (2u32, row("b", 1, 30))];
    let wal = vec![(3u32, row("b", 1, 20)), (4u32, row("c", 1, 5)), (5u32, row("a", 1, 10))];
    let merged = merge_candidates(index, wal);
    assert_eq!(
        names(&merged),
        vec![(5, DocumentId::from_text("a")), (2, DocumentId::from_text("b")), (4, DocumentId::from_text("c"))]
    );
}

#[test]
fn cache_keys_and_chunk_order() {
    assert_eq!(metadata_object_key(), "metadata/metadata.json");
    assert_eq!(metadata_cache_key("ns"), "metadata:ns");
    assert_eq!(wal_cache_key("ns", "wal/1"), "ns/wal/1");
    assert_eq!(spfresh_cache_key("ns", "index/x"), "spfresh:ns:index/x");
    assert_eq!(spfresh_cache_prefix("ns"), "spfresh:ns:");
    assert_eq!(deleted_file_cache_keys("ns", &vec!["a".to_string(), "b".to_string()]), vec!["ns/a", "ns/b"]);
    assert_eq!(assemble_chunks(vec![Some(vec![1]), None, Some(vec![2, 3])]), vec![vec![1], vec![2, 3]]);
}

#[test]
fn metadata_writes_retry_on_conflict_only() {
    assert_eq!(after_metadata_put(None), PersistAction::Stored);
    assert_eq!(after_metadata_put(Some(FailureKind::PreconditionFailed)), PersistAction::MergeAndRetry);
    assert_eq!(after_metadata_put(Some(FailureKind::BucketMissing)), PersistAction::Fail);
    assert!(may_retry(2, 3));
    assert!(!may_retry(3, 3));
    assert_eq!(retries_exhausted_message(), "Max retries exceeded for metadata persistence");
}

#[test]
fn a_deleted_document_stays_out_of_merged_results() {
    let replayed = replay_wal_with_tombstones(vec![
        vec![WalRecord::Upsert(row("gone", 1, 10)), WalRecord::Upsert(row("kept", 1, 12))],
        vec![WalRecord::Delete { id: DocumentId::from_text("gone"), timestamp: 30 }],
    ]);
    let index = vec![(1u32, row("gone", 1, 20)), (2u32, row("kept", 1, 5)), (3u32, row("idx", 1, 1))];
    let survivors = drop_deleted_candidates(index, &replayed);
    let wal: Vec<(u32, Row)> = replayed.rows.iter().map(|r| (9u32, r.clone())).collect();
    let merged = merge_candidates(survivors, wal);
    assert_eq!(names(&merged), vec![(3, DocumentId::from_text("idx")), (9, DocumentId::from_text("kept"))]);
}

fn with_attr(id: &str, ts: i64, key: &str, value: &str) -> Row {
    let mut r = row(id, 1, ts);
    r.attributes.insert(key.to_string(), not_so_turbo_puffer::engine::AttributeValue::String(value.to_string()));
    r
}

fn patch(id: &str, ts: i64, key: &str, value: &str) -> WalRecord {
    let mut a = Attributes::new();
    a.insert(key.to_string(), not_so_turbo_puffer::engine::AttributeValue::String(value.to_string()));
    WalRecord::Patch { id: DocumentId::from_text(id), timestamp: ts, attributes: a }
}

fn text_of(r: &Row, key: &str) -> Option<String> {
    match r.attributes.get(&key.to_string()) {
        Some(not_so_turbo_puffer::engine::AttributeValue::String(s)) => Some(s.clone()),
        _ => None,
    }
}

#[test]
fn a_patch_of_a_compacted_document_is_seen_at_once() {
    let replayed = replay_wal_with_tombstones(vec![vec![
        patch("indexed", 20, "color", "red"),
        patch("indexed", 25, "color", "blue"),
        patch("indexed", 30, "size", "big"),
        patch("deleted", 20, "color", "red"),
        WalRecord::Delete { id: DocumentId::from_text("deleted"), timestamp: 21 },
    ]]);
    assert!(replayed.rows.is_empty());
    assert_eq!(replayed.pending.len(), 1);
    assert_eq!(replayed.pending[0].1, 30);

    let index = vec![
        (1u32, with_attr("indexed", 10, "color", "green")),
        (2u32, with_attr("newer", 50, "color", "green")),
    ];
    let kept = drop_deleted_candidates(index, &replayed);
    let ReplayOutcome { rows, tombstones: _, pending } = replayed;
    let overlaid = apply_pending_patches(kept, pending);
    let merged = merge_candidates(overlaid, rows.into_iter().map(|r| (0u32, r)).collect());
    assert_eq!(merged.len(), 2);
    assert_eq!(merged[0].1.id, DocumentId::from_text("indexed"));
    assert_eq!(text_of(&merged[0].1, "color"), Some("blue".to_string()));
    assert_eq!(text_of(&merged[0].1, "size"), Some("big".to_string()));
    assert_eq!(merged[0].1.timestamp, 30);
    assert_eq!(text_of(&merged[1].1, "color"), Some("green".to_string()));
}

#[test]
fn filter_decisions() {
    assert_eq!(decide_filtering(0, false), FilterDecision::Unfiltered);
    assert_eq!(decide_filtering(2, true), FilterDecision::UseIndex);
    assert_eq!(decide_filtering(1, false), FilterDecision::MissingIndex);
    assert_eq!(missing_index_message(), "Filtering requested but inverted index not yet built");
    assert!(matches!(filter_result(None), FilterResult::All));
    assert!(matches!(filter_result(Some(vec![])), FilterResult::Nothing));
    match filter_result(Some(vec![DocumentId::from_text("a")])) {
        FilterResult::Only(ids) => assert_eq!(ids, vec![DocumentId::from_text("a")]),
        _ => panic!("expected a restriction"),
    }
}
