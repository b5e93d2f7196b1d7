use not_so_turbo_puffer::compactor::{
    cleanup_retries_exhausted, plan_ann_index, swap_retries_exhausted, sweep_actions, AnnIndexPlan,
};
use not_so_turbo_puffer::engine::IndexStatus;
use not_so_turbo_puffer::s3client::{
    combine_listings, initial_metadata_at, metadata_already_present, namespaces_from_names,
    provision_and_retry, sort_keys,
};
use not_so_turbo_puffer::store::FailureKind;
use not_so_turbo_puffer::vectors::DistanceMetric;

fn strings(v: &[&str]) -> Vec<String> {
    v.iter().map(|s| s.to_string()).collect()
}

#[test]
fn listings_come_back_in_key_order() {
    assert_eq!(sort_keys(strings(&["b", "a", "c", "a"])), strings(&["a", "a", "b", "c"]));
    assert_eq!(
        combine_listings(strings(&["wal/02", "wal/01"]), strings(&["index/x"])),
        strings(&["index/x", "wal/01", "wal/02"])
    );
    let ns = namespaces_from_names(strings(&["one", "two"]));
    assert_eq!(ns.iter().map(|n| n.id.clone()).collect::<Vec<_>>(), strings(&["one", "two"]));
}

#[test]
fn a_new_namespace_starts_empty() {
    let m = initial_metadata_at(12);
    assert_eq!((m.created_at, m.updated_at, m.approx_row_count, m.unindexed_bytes), (12, 12, 0, 0));
    assert!(m.wal_files.is_empty() && m.deleted_files.is_empty());
    assert_eq!(m.index.status, IndexStatus::UpToDate);
    assert_eq!(m.distance_metric, DistanceMetric::CosineDistance);
    assert_eq!(m.vector_dimensions, None);
}

#[test]
fn provisioning_decisions() {
    assert!(provision_and_retry(FailureKind::BucketMissing));
    assert!(!provision_and_retry(FailureKind::PreconditionFailed));
    assert!(metadata_already_present(FailureKind::PreconditionFailed));
    assert!(!metadata_already_present(FailureKind::Other));
}

#[test]
fn compaction_plans_for_the_vector_index() {
    assert_eq!(plan_ann_index(Some((3, true, true)), 3, 1, false), AnnIndexPlan::Extend { rebuild_placement: true });
    assert_eq!(plan_ann_index(Some((3, false, true)), 3, 1, false), AnnIndexPlan::Extend { rebuild_placement: false });
    assert_eq!(plan_ann_index(Some((3, true, false)), 3, 1, false), AnnIndexPlan::Extend { rebuild_placement: false });
    assert_eq!(plan_ann_index(Some((4, false, true)), 3, 100, false), AnnIndexPlan::Rebuild);
    assert_eq!(plan_ann_index(None, 3, 9, false), AnnIndexPlan::Skip);
    assert_eq!(plan_ann_index(None, 3, 9, true), AnnIndexPlan::Build);
    assert_eq!(plan_ann_index(None, 3, 10, false), AnnIndexPlan::Build);
}

#[test]
fn the_sweeper_cleans_and_compacts_when_due() {
    let mut m = initial_metadata_at(0);
    let a = sweep_actions(&m, 2, 100);
    assert!(!a.clean_up && !a.compact);
    m.deleted_files.push("wal/old".to_string());
    m.wal_files = strings(&["wal/1", "wal/2"]);
    let a = sweep_actions(&m, 2, 100);
    assert!(a.clean_up && a.compact);
    assert_eq!(swap_retries_exhausted("ns"), "Max retries exceeded for compaction metadata swap for ns");
    assert_eq!(cleanup_retries_exhausted("ns"), "Max retries exceeded for deleted-file cleanup for ns");
}
