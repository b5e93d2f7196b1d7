use not_so_turbo_puffer::config::{
    default_local_cache_path, default_port, default_s3_endpoint, default_s3_region, parse_port, BatchingConfig,
    CompactorConfig, Config, EnvOverrides, IndexingConfig, LimitsConfig, ServerConfig, StorageConfig,
};

fn sample() -> Config {
    Config {
        server: ServerConfig { max_request_body_size: 1024, request_timeout_ms: 500, port: default_port() },
        limits: LimitsConfig {
            max_unindexed_wal_bytes: 1,
            max_top_k: 100,
            max_vector_dimensions: 2048,
            max_attribute_value_size: 10,
            max_document_size: 20,
            max_rows_affected_by_patch_by_filter: 30,
            max_rows_affected_by_delete_by_filter: 40,
            max_concurrent_queries_per_namespace: 50,
        },
        batching: BatchingConfig { max_batch_time_ms: 100, max_batch_size: 10, max_batch_bytes: 4096 },
        indexing: IndexingConfig {
            reindex_threshold_wal_count: 5,
            reindex_threshold_row_count: 6,
            reindex_threshold_bytes: 7,
            compaction_batch_size_bytes: 8,
            cache_fill_concurrency: 9,
        },
        storage: StorageConfig {
            max_s3_connections: 1,
            max_wal_write_retries: 3,
            write_collision_retry_delay_ms: 2,
            s3_endpoint: default_s3_endpoint(),
            s3_region: default_s3_region(),
            local_cache_path: default_local_cache_path(),
            s3_bucket: None,
        },
        compactor: CompactorConfig { sweeper_interval_secs: 60, max_pending_requests: 10, max_files_per_cycle: 4 },
    }
}

#[test]
fn defaults() {
    assert_eq!(default_port(), 3000);
    assert_eq!(default_s3_endpoint(), "https://t3.storage.dev");
    assert_eq!(default_s3_region(), "sin");
    assert_eq!(default_local_cache_path(), "./data/cache");
}

#[test]
fn ports_parse_as_u16_does() {
    assert_eq!(parse_port("8080"), Some(8080));
    assert_eq!(parse_port("+80"), Some(80));
    assert_eq!(parse_port("0"), Some(0));
    assert_eq!(parse_port("65535"), Some(65535));
    assert_eq!(parse_port("65536"), None);
    assert_eq!(parse_port("99999999999999999999"), None);
    assert_eq!(parse_port(""), None);
    assert_eq!(parse_port("+"), None);
    assert_eq!(parse_port("-1"), None);
    assert_eq!(parse_port(" 80"), None);
    assert_eq!(parse_port("8a"), None);
    for text in ["1", "443", "00080", "+65535", "65536", "x", "+-1"] {
        assert_eq!(parse_port(text), text.parse::<u16>().ok());
    }
}

#[test]
fn environment_overrides_replace_what_they_name() {
    let mut c = sample();
    c.apply_overrides(EnvOverrides {
        s3_endpoint: Some("http://localhost:9000".to_string()),
        s3_region: None,
        local_cache_path: Some("/tmp/cache".to_string()),
        s3_bucket: Some("bucket".to_string()),
        port: Some("8081".to_string()),
    });
    assert_eq!(c.storage.s3_endpoint, "http://localhost:9000");
    assert_eq!(c.storage.s3_region, "sin");
    assert_eq!(c.storage.local_cache_path, "/tmp/cache");
    assert_eq!(c.storage.s3_bucket, Some("bucket".to_string()));
    assert_eq!(c.server.port, 8081);
    assert_eq!(c.limits.max_top_k, 100);

    c.apply_overrides(EnvOverrides { s3_endpoint: None, s3_region: None, local_cache_path: None, s3_bucket: None, port: Some("not-a-port".to_string()) });
    assert_eq!(c.server.port, 8081);
}
