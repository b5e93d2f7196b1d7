use not_so_turbo_puffer::config::BatchingConfig;
use not_so_turbo_puffer::engine::{DocumentId, WalRecord};
use not_so_turbo_puffer::wal_batcher::{
    batch_failure_message, estimated_size, BatchConfig, PendingWrite, WalBatcher, WriteBatch,
};

fn del(n: u64) -> WalRecord {
    WalRecord::Delete { id: DocumentId::from_u64(n), timestamp: n as i64 }
}

fn ids(records: &[WalRecord]) -> Vec<u64> {
    records
        .iter()
        .map(|r| match r {
            WalRecord::Delete { timestamp, .. } => *timestamp as u64,
            _ => panic!("unexpected record"),
        })
        .collect()
}

fn config(size: usize, time_ms: u64, bytes: usize) -> BatchConfig {
    BatchConfig { max_batch_size: size, max_batch_time_ms: time_ms, max_batch_bytes: bytes }
}

#[test]
fn settings_come_from_the_configuration() {
    let c = BatchConfig::from_system_config(&BatchingConfig { max_batch_time_ms: 250, max_batch_size: 8, max_batch_bytes: 9 });
    assert_eq!((c.max_batch_size, c.max_batch_time_ms, c.max_batch_bytes), (8, 250, 9));
    assert_eq!(c.check_interval_ms(), 25);
    assert_eq!(c.for_shutdown().max_batch_time_ms, 0);
    assert_eq!(c.for_shutdown().max_batch_size, 8);
    assert_eq!(estimated_size(3), 3072);
}

#[test]
fn a_batch_is_due_by_count_age_or_bytes() {
    let c = config(2, 100, 4096);
    let mut b: WriteBatch<u8> = WriteBatch::new(1000);
    assert!(b.is_empty());
    b.add_request(PendingWrite { records: vec![del(1)], reply: 1 }, 1024);
    assert!(!b.should_flush(&c, 1050));
    assert!(b.should_flush(&c, 1100));
    assert_eq!(b.age_ms(900), 0);
    b.add_request(PendingWrite { records: vec![del(2)], reply: 2 }, 1024);
    assert!(b.should_flush(&c, 1000));
    assert_eq!((b.len(), b.bytes()), (2, 2048));
    let mut big: WriteBatch<u8> = WriteBatch::new(0);
    big.add_request(PendingWrite { records: vec![], reply: 0 }, 4096);
    assert!(big.should_flush(&config(10, 1000, 4096), 0));
}

#[test]
fn a_flushed_batch_keeps_submission_order() {
    let mut b: WriteBatch<&str> = WriteBatch::new(0);
    b.add_request(PendingWrite { records: vec![del(1), del(2)], reply: "first" }, 2048);
    b.add_request(PendingWrite { records: vec![del(3)], reply: "second" }, 1024);
    let taken = b.take(50);
    assert!(b.is_empty());
    assert_eq!(b.age_ms(60), 10);
    let (records, replies) = taken.into_parts();
    assert_eq!(ids(&records), vec![1, 2, 3]);
    assert_eq!(replies, vec!["first", "second"]);
}

#[test]
fn the_batcher_flushes_due_batches_per_namespace() {
    let mut batcher: WalBatcher<u32> = WalBatcher::new(config(2, 1000, 1 << 20));
    assert!(batcher.submit_write("a", vec![del(1)], 1, 0).is_none());
    assert!(batcher.submit_write("b", vec![del(2)], 2, 0).is_none());
    let full = batcher.submit_write("a", vec![del(3)], 3, 10).expect("second write fills the batch");
    let (records, replies) = full.into_parts();
    assert_eq!(ids(&records), vec![1, 3]);
    assert_eq!(replies, vec![1, 3]);

    // nothing is due yet
    assert!(batcher.take_due(&config(2, 1000, 1 << 20), 500).is_empty());
    // "b" has waited long enough at t=1000; "a" is empty
    let due = batcher.take_due(&config(2, 1000, 1 << 20), 1000);
    assert_eq!(due.len(), 1);
    assert_eq!(due[0].0, "b");
    // shutdown flushes whatever waits
    assert!(batcher.submit_write("c", vec![del(4)], 4, 1001).is_none());
    let at_shutdown = batcher.take_due(&config(2, 1000, 1 << 20).for_shutdown(), 1001);
    assert_eq!(at_shutdown.len(), 1);
    assert_eq!(at_shutdown[0].0, "c");
}

#[test]
fn failed_batches_tell_each_writer() {
    assert_eq!(
        batch_failure_message("ns", "timeout"),
        "Failed to write WAL batch for namespace 'ns': timeout"
    );
}
