use not_so_turbo_puffer::store::{
    classify_failure, get_s3_round_trips, read_finds_nothing, reset_s3_round_trips, service_failure_message,
    BucketMissing, CachingStore, CountingStore, FailureKind, PreconditionFailed, RoundTripCounter, StoreCall,
};

#[test]
fn failures_are_classified_by_status() {
    assert_eq!(classify_failure(Some(404)), FailureKind::BucketMissing);
    assert_eq!(classify_failure(Some(403)), FailureKind::BucketMissing);
    assert_eq!(classify_failure(Some(412)), FailureKind::PreconditionFailed);
    assert_eq!(classify_failure(Some(500)), FailureKind::Other);
    assert_eq!(classify_failure(None), FailureKind::Other);
    assert!(read_finds_nothing(Some(404)));
    assert!(!read_finds_nothing(Some(412)));
    assert_eq!(BucketMissing.message(), "bucket is missing or not accessible");
    assert_eq!(PreconditionFailed.message(), "S3 precondition failed (412)");
}

#[test]
fn failure_messages_name_the_call() {
    assert_eq!(
        service_failure_message("get", "ns", "wal/1", 503, Some("SlowDown"), None),
        "S3 get failed for ns/wal/1: HTTP 503, SlowDown - No message"
    );
    assert_eq!(
        service_failure_message("put", "ns", "k", 400, None, Some("bad")),
        "S3 put failed for ns/k: HTTP 400, Unknown - bad"
    );
}

#[test]
fn round_trips_are_counted_with_labels() {
    let mut c = RoundTripCounter::new();
    c.record_call(&StoreCall::Get { key: "a" });
    c.record_call(&StoreCall::PutIfMatch { key: "metadata/metadata.json" });
    c.record_call(&StoreCall::ListPage { prefix: "wal/" });
    c.record_call(&StoreCall::ListNamespaces);
    c.record_call(&StoreCall::CreateBucket { namespace: "ns" });
    c.record_call(&StoreCall::Delete { key: "old" });
    let (n, labels) = get_s3_round_trips(&c);
    assert_eq!(n, 6);
    assert_eq!(
        labels,
        vec![
            "s3:read:a",
            "s3:put:metadata/metadata.json",
            "s3:list:wal/",
            "s3:list:buckets",
            "s3:create-bucket:ns",
            "s3:delete:old"
        ]
    );
    reset_s3_round_trips(&mut c);
    assert_eq!(get_s3_round_trips(&c), (0, Vec::new()));
    assert_eq!(StoreCall::GetWithEtag { key: "m" }.label(), "s3:read:m");
    assert_eq!(StoreCall::Put { key: "p" }.label(), "s3:put:p");
    assert_eq!(StoreCall::PutIfNotExists { key: "q" }.label(), "s3:put:q");
}

#[test]
fn layers_wrap_the_store_below() {
    let stack = CachingStore::new(CountingStore::new(7u8));
    assert_eq!(stack.inner.inner, 7);
}

#[test]
fn after_a_reset_the_counter_reads_what_was_recorded() {
    let mut c = RoundTripCounter::new();
    c.record("s3:read:x".to_string());
    reset_s3_round_trips(&mut c);
    c.record_call(&StoreCall::Get { key: "a" });
    c.record_call(&StoreCall::Put { key: "b" });
    let (n, labels) = get_s3_round_trips(&c);
    assert_eq!(n, 2);
    assert_eq!(labels, vec!["s3:read:a".to_string(), "s3:put:b".to_string()]);
    assert_eq!(get_s3_round_trips(&c), (2, labels));
}
