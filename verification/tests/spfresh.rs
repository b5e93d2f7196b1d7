use not_so_turbo_puffer::spfresh::{fate_after_delete, plan_placements, ShrinkFate};
use not_so_turbo_puffer::engine::{Attributes, DocumentId, Row};
use not_so_turbo_puffer::spfresh::{
    apply_delta, delta_flush_threshold, posting_fate, posting_size_estimate, reassignment_keeps_balance,
    should_flush_deltas, DeltaOperation, DocPostings, Posting, PostingDelta, PostingFate, SPFreshConfig,
};

fn row(id: &str, v: u32) -> Row {
    Row { id: DocumentId::from_text(id), vector: vec![v], attributes: Attributes::new(), timestamp: 0 }
}

#[test]
fn default_settings() {
    let c = SPFreshConfig::default();
    assert_eq!(
        (c.max_posting_size, c.min_posting_size, c.neighbor_fanout, c.search_fanout, c.random_seed),
        (1000, 100, 32, 4, 42)
    );
}

#[test]
fn posting_sizes_are_estimated() {
    let c = SPFreshConfig::default();
    assert_eq!(posting_size_estimate(Some(7), None, &c), 7);
    assert_eq!(posting_size_estimate(None, None, &c), 500);
    let d = PostingDelta {
        posting_id: 1,
        operations: vec![
            DeltaOperation::Insert { row: row("a", 1) },
            DeltaOperation::Insert { row: row("b", 1) },
            DeltaOperation::Delete { doc_id: "c".to_string() },
            DeltaOperation::UpdateCentroid { new_centroid: vec![] },
        ],
        version: 0,
        created_at: 0,
    };
    assert_eq!(posting_size_estimate(None, Some(&d), &c), 551);
    let tiny = SPFreshConfig { max_posting_size: 1, min_posting_size: 0, ..c };
    let many_deletes = PostingDelta {
        posting_id: 1,
        operations: vec![DeltaOperation::Delete { doc_id: "x".to_string() }, DeltaOperation::Delete { doc_id: "y".to_string() }],
        version: 0,
        created_at: 0,
    };
    assert_eq!(posting_size_estimate(None, Some(&many_deletes), &tiny), 0);
    let odd = SPFreshConfig { max_posting_size: usize::MAX, min_posting_size: usize::MAX, ..c };
    assert_eq!(posting_size_estimate(None, Some(&d), &odd), usize::MAX - 1);
}

#[test]
fn reassignment_respects_posting_balance() {
    let c = SPFreshConfig::default();
    assert!(reassignment_keeps_balance(500, 100, &c));
    assert!(!reassignment_keeps_balance(500, 800, &c));
    assert!(reassignment_keeps_balance(500, 799, &c));
    assert!(!reassignment_keeps_balance(101, 10, &c));
    assert!(reassignment_keeps_balance(102, 10, &c));
}

#[test]
fn deltas_flush_at_the_threshold_and_postings_meet_their_fate() {
    assert_eq!(delta_flush_threshold(), 100);
    assert!(!should_flush_deltas(99));
    assert!(should_flush_deltas(100));
    let c = SPFreshConfig::default();
    assert_eq!(posting_fate(0, &c), PostingFate::Remove);
    assert_eq!(posting_fate(1000, &c), PostingFate::Save);
    assert_eq!(posting_fate(1001, &c), PostingFate::Split);
}

#[test]
fn applying_a_delta_replaces_and_removes_documents() {
    let mut posting = Posting { id: 3, rows: vec![row("a", 1), row("b", 2)], centroid: vec![0], version: 5, created_at: 9 };
    let mut docs = DocPostings::new();
    docs.insert("a".to_string(), 3);
    docs.insert("b".to_string(), 3);
    apply_delta(
        &mut posting,
        vec![
            DeltaOperation::Insert { row: row("a", 10) },
            DeltaOperation::Delete { doc_id: "b".to_string() },
            DeltaOperation::Insert { row: row("c", 11) },
            DeltaOperation::UpdateCentroid { new_centroid: vec![42] },
        ],
        &mut docs,
    );
    let got: Vec<(DocumentId, u32)> = posting.rows.iter().map(|r| (r.id.clone(), r.vector[0])).collect();
    assert_eq!(got, vec![(DocumentId::from_text("a"), 10), (DocumentId::from_text("c"), 11)]);
    assert_eq!(posting.centroid, vec![42]);
    assert_eq!(posting.version, 6);
    assert_eq!(posting.created_at, 9);
    assert_eq!(docs.get(&"a".to_string()), Some(3));
    assert_eq!(docs.get(&"b".to_string()), None);
    assert_eq!(docs.get(&"c".to_string()), Some(3));
    docs.remove(&"a".to_string());
    assert_eq!(docs.get(&"a".to_string()), None);
}

fn op_text(op: &(u32, DeltaOperation)) -> String {
    match &op.1 {
        DeltaOperation::Insert { row } => format!("{}:insert:{}", op.0, row.id.to_text()),
        DeltaOperation::Delete { doc_id } => format!("{}:delete:{}", op.0, doc_id),
        DeltaOperation::UpdateCentroid { .. } => format!("{}:centroid", op.0),
    }
}

#[test]
fn placements_move_documents_with_a_delete_then_an_insert() {
    let mut docs = DocPostings::new();
    docs.insert("a".to_string(), 1);
    let ops = plan_placements(&mut docs, vec![row("a", 1), row("b", 2), row("b", 3)], &vec![2, 3, 4]);
    let texts: Vec<String> = ops.iter().map(op_text).collect();
    assert_eq!(texts, vec!["1:delete:a", "2:insert:a", "3:insert:b", "3:delete:b", "4:insert:b"]);
    assert_eq!(docs.get(&"a".to_string()), Some(2));
    assert_eq!(docs.get(&"b".to_string()), Some(4));
    assert_eq!(docs.len(), 2);
}

#[test]
fn a_shrunk_posting_is_removed_merged_or_kept() {
    let c = SPFreshConfig::default();
    assert_eq!(fate_after_delete(0, &c), ShrinkFate::Remove);
    assert_eq!(fate_after_delete(99, &c), ShrinkFate::Merge);
    assert_eq!(fate_after_delete(100, &c), ShrinkFate::Keep);
}
