use not_so_turbo_puffer::engine::{
    find_row, replay_wal, replay_wal_with_tombstones, AttributeValue, Attributes, DocumentId, Row, WalRecord,
};

fn bits(v: &[f32]) -> Vec<u32> {
    v.iter().map(|x| x.to_bits()).collect()
}

fn row(id: &DocumentId, vector: &[f32], timestamp: i64) -> Row {
    Row { id: id.clone(), vector: bits(vector), attributes: Attributes::new(), timestamp }
}

fn get<'a>(rows: &'a Vec<Row>, id: &DocumentId) -> &'a Row {
    &rows[find_row(rows, id).expect("row present")]
}

fn contains(rows: &Vec<Row>, id: &DocumentId) -> bool {
    find_row(rows, id).is_some()
}

#[test]
fn test_wal_replay_ordering_with_conflicts() {
    let doc_id = DocumentId::from_text("test_doc");
    let early_row = row(&doc_id, &[1.0, 2.0, 3.0], 1000);
    let late_row = row(&doc_id, &[4.0, 5.0, 6.0], 2000);

    let records1 = vec![WalRecord::Upsert(early_row)];
    let records2 = vec![WalRecord::Upsert(late_row)];

    let result1 = replay_wal(vec![records1.clone(), records2.clone()]);
    let result2 = replay_wal(vec![records2, records1]);

    assert_eq!(result1.len(), 1);
    assert_eq!(result2.len(), 1);

    let final_row1 = get(&result1, &doc_id);
    let final_row2 = get(&result2, &doc_id);

    assert_eq!(final_row1.timestamp, 2000);
    assert_eq!(final_row2.timestamp, 2000);
    assert_eq!(final_row1.vector, bits(&[4.0, 5.0, 6.0]));
    assert_eq!(final_row2.vector, bits(&[4.0, 5.0, 6.0]));
}

#[test]
fn test_wal_replay_with_deletions() {
    let doc_id = DocumentId::from_text("test_doc");

    let records1 = vec![WalRecord::Upsert(row(&doc_id, &[1.0, 2.0, 3.0], 1000))];
    let records2 = vec![WalRecord::Delete { id: doc_id.clone(), timestamp: 2000 }];

    let result = replay_wal(vec![records1, records2]);
    assert_eq!(result.len(), 0);
    assert!(!contains(&result, &doc_id));

    let records1 = vec![WalRecord::Upsert(row(&doc_id, &[1.0, 2.0, 3.0], 1000))];
    let records2 = vec![WalRecord::Delete { id: doc_id, timestamp: 2000 }];

    let result = replay_wal(vec![records2, records1]);
    assert_eq!(result.len(), 0);
}

#[test]
fn test_wal_replay_delete_before_insert() {
    let doc_id = DocumentId::from_text("test_doc");

    let records1 = vec![WalRecord::Delete { id: doc_id.clone(), timestamp: 1000 }];
    let records2 = vec![WalRecord::Upsert(row(&doc_id, &[1.0, 2.0, 3.0], 2000))];

    let result = replay_wal(vec![records1, records2]);
    assert_eq!(result.len(), 1);

    let final_row = get(&result, &doc_id);
    assert_eq!(final_row.timestamp, 2000);
    assert_eq!(final_row.vector, bits(&[1.0, 2.0, 3.0]));
}

#[test]
fn test_wal_replay_multiple_documents() {
    let doc1 = DocumentId::from_text("doc1");
    let doc2 = DocumentId::from_text("doc2");
    let doc3 = DocumentId::from_text("doc3");

    let records1 = vec![
        WalRecord::Upsert(row(&doc1, &[1.0], 1000)),
        WalRecord::Upsert(row(&doc2, &[2.0], 1001)),
    ];
    let records2 = vec![
        WalRecord::Upsert(row(&doc1, &[1.1], 2000)),
        WalRecord::Upsert(row(&doc3, &[3.0], 2001)),
        WalRecord::Delete { id: doc2.clone(), timestamp: 2002 },
    ];

    let result = replay_wal(vec![records1, records2]);
    assert_eq!(result.len(), 2);

    let doc1_final = get(&result, &doc1);
    assert_eq!(doc1_final.vector, bits(&[1.1]));
    assert_eq!(doc1_final.timestamp, 2000);

    let doc3_final = get(&result, &doc3);
    assert_eq!(doc3_final.vector, bits(&[3.0]));
    assert_eq!(doc3_final.timestamp, 2001);

    assert!(!contains(&result, &doc2));
}

#[test]
fn test_wal_replay_empty_files() {
    let empty_records: Vec<WalRecord> = vec![];

    let result = replay_wal(vec![empty_records.clone()]);
    assert_eq!(result.len(), 0);

    let doc_id = DocumentId::from_text("test_doc");
    let records = vec![WalRecord::Upsert(row(&doc_id, &[1.0], 1000))];

    let result = replay_wal(vec![empty_records, records]);
    assert_eq!(result.len(), 1);
    assert!(contains(&result, &doc_id));
}

#[test]
fn test_compaction_output_deterministic() {
    let doc1 = DocumentId::from_text("doc1");
    let doc2 = DocumentId::from_text("doc2");

    let records = vec![
        WalRecord::Upsert(row(&doc1, &[1.0], 1000)),
        WalRecord::Upsert(row(&doc2, &[2.0], 1001)),
    ];

    let result1 = replay_wal(vec![records.clone()]);
    let result2 = replay_wal(vec![records.clone()]);
    let result3 = replay_wal(vec![records]);

    assert_eq!(result1.len(), result2.len());
    assert_eq!(result1.len(), result3.len());

    for row1 in &result1 {
        let row2 = get(&result2, &row1.id);
        let row3 = get(&result3, &row1.id);
        assert_eq!(row1.timestamp, row2.timestamp);
        assert_eq!(row1.timestamp, row3.timestamp);
        assert_eq!(row1.vector, row2.vector);
        assert_eq!(row1.vector, row3.vector);
    }
}

#[test]
fn test_compacted_output_serialization() {
    let doc_id = DocumentId::from_text("test_doc");

    let mut attributes = Attributes::new();
    attributes.insert("key".to_string(), AttributeValue::String("value".to_string()));
    let written_row = Row { id: doc_id.clone(), vector: bits(&[1.0, 2.0, 3.0]), attributes, timestamp: 1000 };

    let records = vec![WalRecord::Upsert(written_row.clone())];

    let replay_result = replay_wal(vec![records]);
    let compacted_records: Vec<WalRecord> = replay_result.into_iter().map(WalRecord::Upsert).collect();

    assert_eq!(compacted_records.len(), 1);
    if let WalRecord::Upsert(compacted_row) = &compacted_records[0] {
        assert_eq!(compacted_row.id, written_row.id);
        assert_eq!(compacted_row.vector, written_row.vector);
        assert_eq!(compacted_row.timestamp, written_row.timestamp);
    } else {
        panic!("Expected Upsert record");
    }

    let final_result = replay_wal(vec![compacted_records]);

    assert_eq!(final_result.len(), 1);
    let final_row = get(&final_result, &doc_id);
    assert_eq!(final_row.vector, written_row.vector);
    assert_eq!(final_row.timestamp, written_row.timestamp);
}

#[test]
fn replay_patch_updates_only_older_live_rows() {
    let doc = DocumentId::from_u64(7);
    let mut attrs = Attributes::new();
    attrs.insert("a".to_string(), AttributeValue::Int(1));
    let base = Row { id: doc.clone(), vector: bits(&[1.0]), attributes: attrs, timestamp: 10 };
    let mut patch = Attributes::new();
    patch.insert("b".to_string(), AttributeValue::Bool(true));
    patch.insert("a".to_string(), AttributeValue::Int(2));
    let out = replay_wal_with_tombstones(vec![vec![
        WalRecord::Upsert(base),
        WalRecord::Patch { id: doc.clone(), timestamp: 5, attributes: Attributes::new() },
        WalRecord::Patch { id: doc.clone(), timestamp: 20, attributes: patch },
    ]]);
    let r = get(&out.rows, &doc);
    assert_eq!(r.timestamp, 20);
    assert_eq!(r.attributes.len(), 2);
    assert!(matches!(r.attributes.get(&"a".to_string()), Some(AttributeValue::Int(2))));
    assert!(matches!(r.attributes.get(&"b".to_string()), Some(AttributeValue::Bool(true))));
    assert!(out.tombstones.is_empty());
}

#[test]
fn replay_keeps_newest_tombstone_and_equal_time_delete_wins_when_later() {
    let doc = DocumentId::from_text("d");
    let out = replay_wal_with_tombstones(vec![
        vec![WalRecord::Delete { id: doc.clone(), timestamp: 30 }],
        vec![WalRecord::Delete { id: doc.clone(), timestamp: 10 }],
        vec![WalRecord::Upsert(row(&doc, &[0.5], 30)), WalRecord::Delete { id: doc.clone(), timestamp: 30 }],
    ]);
    assert!(out.rows.is_empty());
    assert_eq!(out.tombstones.len(), 1);
    assert_eq!(out.tombstones[0].1, 30);
    // a patch newer than the row but older than a deletion is dropped
    let out = replay_wal_with_tombstones(vec![vec![
        WalRecord::Delete { id: doc.clone(), timestamp: 50 },
        WalRecord::Upsert(row(&doc, &[0.5], 60)),
        WalRecord::Patch { id: doc.clone(), timestamp: 40, attributes: Attributes::new() },
    ]]);
    assert_eq!(get(&out.rows, &doc).timestamp, 60);
}
