use not_so_turbo_puffer::compactor::{index_work_needed, settle_indexed_rows, touched_documents};
use not_so_turbo_puffer::engine::{replay_wal_with_tombstones, AttributeValue, Attributes, DocumentId, Row, WalRecord};
use not_so_turbo_puffer::spfresh::DeltaOperation;
use not_so_turbo_puffer::compactor::{
    apply_compaction, filter_wal_keys, finish_cleanup, fresh_metadata_at, more_compaction_pending,
    should_skip_compaction, trigger_compaction, trigger_forced_compaction, Compactor, WalBatchSelection,
};
use not_so_turbo_puffer::engine::IndexStatus;
use not_so_turbo_puffer::s3client::initial_metadata_at;

fn strings(v: &[&str]) -> Vec<String> {
    v.iter().map(|s| s.to_string()).collect()
}

#[test]
fn triggers_carry_the_namespace_and_force() {
    let r = trigger_compaction("ns");
    assert_eq!((r.namespace.as_str(), r.forced), ("ns", false));
    let r = trigger_forced_compaction("ns");
    assert_eq!((r.namespace.as_str(), r.forced), ("ns", true));
}

#[test]
fn one_compaction_per_namespace_at_a_time() {
    let mut c = Compactor::new();
    assert!(c.try_begin("a"));
    assert!(!c.try_begin("a"));
    assert!(c.try_begin("b"));
    assert!(c.is_processing("a"));
    c.finish("a");
    assert!(!c.is_processing("a"));
    assert!(c.is_processing("b"));
    assert!(c.try_begin("a"));
}

#[test]
fn cycles_are_skipped_or_repeated_by_log_size() {
    let mut m = initial_metadata_at(0);
    m.wal_files = strings(&["wal/1"]);
    assert!(should_skip_compaction(&m, false));
    assert!(!should_skip_compaction(&m, true));
    m.wal_files.push("wal/2".to_string());
    assert!(!should_skip_compaction(&m, false));
    assert!(more_compaction_pending(&m, 2));
    assert!(!more_compaction_pending(&m, 3));
}

#[test]
fn a_cycle_takes_files_until_the_byte_limit() {
    let mut s = WalBatchSelection::new();
    assert!(s.offer("wal/1".to_string(), Some(80), false, 100));
    assert!(s.offer("wal/2".to_string(), None, false, 100));
    assert!(!s.offer("wal/3".to_string(), Some(30), false, 100));
    assert_eq!(s.keys, strings(&["wal/1", "wal/2"]));
    assert_eq!((s.chunk_count, s.total_bytes), (1, 80));
    assert!(s.offer("wal/3".to_string(), Some(30), true, 100));
    assert_eq!(s.total_bytes, 110);
    let mut first = WalBatchSelection::new();
    assert!(first.offer("wal/big".to_string(), Some(500), false, 100));
}

#[test]
fn committing_a_cycle_moves_files_and_indexes() {
    let mut m = initial_metadata_at(0);
    m.wal_files = strings(&["wal/1", "wal/2", "wal/3"]);
    m.unindexed_bytes = 100;
    m.index.ann_index_file = Some("index/ann_old".to_string());
    m.index.status = IndexStatus::Updating;
    let out = apply_compaction(
        m,
        &strings(&["wal/1", "wal/2"]),
        30,
        Some("index/ann_new".to_string()),
        Some("index/inv_new".to_string()),
        7,
        99,
    );
    assert_eq!(out.wal_files, strings(&["wal/3"]));
    assert_eq!(out.deleted_files, strings(&["wal/1", "wal/2", "index/ann_old"]));
    assert_eq!(out.unindexed_bytes, 70);
    assert_eq!(out.index.ann_index_file, Some("index/ann_new".to_string()));
    assert_eq!(out.index.inverted_index_file, Some("index/inv_new".to_string()));
    assert_eq!(out.index.indexed_row_count, 7);
    assert_eq!(out.index.status, IndexStatus::UpToDate);
    assert_eq!(out.updated_at, 99);

    let mut all = initial_metadata_at(0);
    all.wal_files = strings(&["wal/1"]);
    all.unindexed_bytes = 5;
    let out = apply_compaction(all, &strings(&["wal/1"]), 1, None, None, 0, 1);
    assert!(out.wal_files.is_empty());
    assert_eq!(out.unindexed_bytes, 0);
    assert_eq!(out.index.ann_index_file, None);
}

#[test]
fn cleanup_and_reconstruction() {
    let mut m = initial_metadata_at(0);
    m.deleted_files = strings(&["a", "b"]);
    finish_cleanup(&mut m, strings(&["b"]), 5);
    assert_eq!(m.deleted_files, strings(&["b"]));
    assert_eq!(m.updated_at, 5);
    assert_eq!(filter_wal_keys(strings(&["wal/1", "index/x", "wal", "wal/2"])), strings(&["wal/1", "wal/2"]));
    let f = fresh_metadata_at(strings(&["wal/1"]), 3);
    assert_eq!(f.wal_files, strings(&["wal/1"]));
    assert_eq!((f.created_at, f.index.status), (3, IndexStatus::Updating));
}

#[test]
fn a_compacted_log_settles_indexed_rows() {
    let id = |s: &str| DocumentId::from_text(s);
    let mut a = Attributes::new();
    a.insert("tag".to_string(), AttributeValue::String("new".to_string()));
    let replayed = replay_wal_with_tombstones(vec![vec![
        WalRecord::Delete { id: id("gone"), timestamp: 40 },
        WalRecord::Patch { id: id("patched"), timestamp: 40, attributes: a },
        WalRecord::Delete { id: id("kept"), timestamp: 5 },
    ]]);
    let touched = touched_documents(&replayed);
    assert_eq!(touched, vec![id("gone"), id("kept"), id("patched")]);
    assert!(index_work_needed(replayed.rows.len(), touched.len()));
    assert!(!index_work_needed(0, 0));

    let row = |s: &str, ts: i64| Row { id: id(s), vector: vec![1], attributes: Attributes::new(), timestamp: ts };
    let ops = settle_indexed_rows(vec![(7, row("gone", 10)), (8, row("kept", 10)), (9, row("patched", 10))], replayed);
    assert_eq!(ops.len(), 2);
    match &ops[0] {
        (7, DeltaOperation::Delete { doc_id }) => assert_eq!(doc_id, "gone"),
        other => panic!("unexpected {:?}", other),
    }
    match &ops[1] {
        (9, DeltaOperation::Insert { row }) => {
            assert_eq!(row.id, id("patched"));
            assert_eq!(row.timestamp, 40);
            assert!(matches!(row.attributes.get(&"tag".to_string()), Some(AttributeValue::String(s)) if s == "new"));
        }
        other => panic!("unexpected {:?}", other),
    }
}
