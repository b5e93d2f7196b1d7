//! The service configuration, its defaults, and the environment overrides that
//! deployments apply on top of the configuration file.
use vstd::prelude::*;
use vstd::string::StringSliceAdditionalSpecFns;

verus! {

/// The whole configuration.
#[derive(Debug)]
pub struct Config {
    pub server: ServerConfig,
    pub limits: LimitsConfig,
    pub batching: BatchingConfig,
    pub indexing: IndexingConfig,
    pub storage: StorageConfig,
    pub compactor: CompactorConfig,
}

/// The HTTP server's settings.
#[derive(Debug)]
pub struct ServerConfig {
    pub max_request_body_size: usize,
    pub request_timeout_ms: u64,
    pub port: u16,
}

/// Limits on requests and namespaces.
#[derive(Debug)]
pub struct LimitsConfig {
    pub max_unindexed_wal_bytes: u64,
    pub max_top_k: usize,
    pub max_vector_dimensions: usize,
    pub max_attribute_value_size: usize,
    pub max_document_size: usize,
    pub max_rows_affected_by_patch_by_filter: usize,
    pub max_rows_affected_by_delete_by_filter: usize,
    pub max_concurrent_queries_per_namespace: usize,
}

/// When the write batcher flushes: after a time in milliseconds, a number of
/// requests, or a number of bytes.
#[derive(Debug)]
pub struct BatchingConfig {
    pub max_batch_time_ms: u64,
    pub max_batch_size: usize,
    pub max_batch_bytes: usize,
}

/// When compaction is triggered and how much it takes at once.
#[derive(Debug)]
pub struct IndexingConfig {
    pub reindex_threshold_wal_count: usize,
    pub reindex_threshold_row_count: usize,
    pub reindex_threshold_bytes: u64,
    pub compaction_batch_size_bytes: u64,
    pub cache_fill_concurrency: usize,
}

/// Where data is stored.
#[derive(Debug)]
pub struct StorageConfig {
    pub max_s3_connections: usize,
    pub max_wal_write_retries: usize,
    pub write_collision_retry_delay_ms: u64,
    pub s3_endpoint: String,
    pub s3_region: String,
    pub local_cache_path: String,
    pub s3_bucket: Option<String>,
}

/// The background compactor's settings.
#[derive(Debug)]
pub struct CompactorConfig {
    pub sweeper_interval_secs: u64,
    pub max_pending_requests: usize,
    pub max_files_per_cycle: usize,
}

/// The port the server listens on when the configuration names none.
pub fn default_port() -> (p: u16)
    ensures
        p == 3000,
{
    3000
}

/// The object-store endpoint when the configuration names none.
pub fn default_s3_endpoint() -> (s: String)
    ensures
        s@ == "https://t3.storage.dev"@,
{
    String::from_str("https://t3.storage.dev")
}

/// The object-store region when the configuration names none.
pub fn default_s3_region() -> (s: String)
    ensures
        s@ == "sin"@,
{
    String::from_str("sin")
}

/// The local cache directory when the configuration names none.
pub fn default_local_cache_path() -> (s: String)
    ensures
        s@ == "./data/cache"@,
{
    String::from_str("./data/cache")
}

/// An ASCII decimal digit.
pub open spec fn is_digit_byte(b: u8) -> bool {
    48 <= b <= 57
}

/// The value of a run of ASCII decimal digits.
pub open spec fn digits_value(s: Seq<u8>) -> nat
    decreases s.len(),
{
    if s.len() == 0 {
        0
    } else {
        digits_value(s.drop_last()) * 10 + (s.last() - 48) as nat
    }
}

/// The digits of a port text: the text without one leading `+`.
pub open spec fn unsigned_digits(s: Seq<u8>) -> Seq<u8> {
    if s.len() > 0 && s[0] == 43 {
        s.drop_first()
    } else {
        s
    }
}

/// What parsing a text as a `u16` gives: an optional `+` followed by at
/// least one ASCII digit, whose value fits in 16 bits.
pub open spec fn parsed_u16(s: Seq<u8>) -> Option<u16> {
    let d = unsigned_digits(s);
    if d.len() > 0 && (forall|i: int| 0 <= i < d.len() ==> is_digit_byte(#[trigger] d[i]))
        && digits_value(d) <= 65535 {
        Some(digits_value(d) as u16)
    } else {
        None
    }
}

proof fn lemma_digits_value_push(s: Seq<u8>, b: u8)
    ensures
        digits_value(s.push(b)) == digits_value(s) * 10 + (b - 48) as nat,
{
    assert(s.push(b).drop_last() =~= s);
}

proof fn lemma_digits_value_grows(s: Seq<u8>, k: int)
    requires
        0 <= k <= s.len(),
        forall|i: int| 0 <= i < s.len() ==> is_digit_byte(#[trigger] s[i]),
    ensures
        digits_value(s.subrange(0, k)) <= digits_value(s),
    decreases s.len() - k,
{
    if k < s.len() {
        lemma_digits_value_grows(s, k + 1);
        lemma_digits_value_push(s.subrange(0, k), s[k]);
        assert(s.subrange(0, k + 1) =~= s.subrange(0, k).push(s[k]));
    } else {
        assert(s.subrange(0, k) =~= s);
    }
}

/// Parses a port number as `str::parse::<u16>` does: an optional `+`, then
/// ASCII digits only, with a value of at most 65535.
pub fn parse_port(text: &str) -> (r: Option<u16>)
    ensures
        r == parsed_u16(text.spec_bytes()),
{
    let b = text.as_bytes();
    let n = b.len();
    let ghost s = b@;
    let start: usize = if n > 0 && b[0] == 43 { 1 } else { 0 };
    let ghost d = unsigned_digits(s);
    assert(d =~= s.subrange(start as int, n as int));
    if start >= n {
        return None;
    }
    let mut value: u32 = 0;
    let mut i: usize = start;
    let mut ok: bool = true;
    while i < n && ok
        invariant
            s == b@,
            n == s.len(),
            d == unsigned_digits(s),
            start <= i <= n,
            d =~= s.subrange(start as int, n as int),
            ok ==> forall|j: int| 0 <= j < i - start ==> is_digit_byte(#[trigger] d[j]),
            ok ==> value == digits_value(d.subrange(0, i - start)),
            ok ==> value <= 65535,
            !ok ==> parsed_u16(s) is None,
        decreases n - i + (if ok { 1int } else { 0int }),
    {
        let c = b[i];
        if c < 48 || c > 57 {
            assert(!is_digit_byte(d[i - start]));
            ok = false;
        } else {
            let next: u32 = value * 10 + (c - 48) as u32;
            proof {
                lemma_digits_value_push(d.subrange(0, i - start), c);
                assert(d.subrange(0, i - start + 1) =~= d.subrange(0, i - start).push(c));
            }
            if next > 65535 {
                proof {
                    if forall|j: int| 0 <= j < d.len() ==> is_digit_byte(#[trigger] d[j]) {
                        lemma_digits_value_grows(d, i - start + 1);
                    }
                }
                ok = false;
            } else {
                value = next;
                i = i + 1;
            }
        }
    }
    if ok {
        assert(d.subrange(0, i - start) =~= d);
        Some(value as u16)
    } else {
        None
    }
}

/// Values taken from the environment that replace parts of the configuration
/// file: `S3_ENDPOINT`, `S3_REGION`, `LOCAL_CACHE_PATH`, `S3_BUCKET` and `PORT`.
#[derive(Debug)]
pub struct EnvOverrides {
    pub s3_endpoint: Option<String>,
    pub s3_region: Option<String>,
    pub local_cache_path: Option<String>,
    pub s3_bucket: Option<String>,
    pub port: Option<String>,
}

/// The value that an optional override leaves.
pub open spec fn overridden<T>(current: T, replacement: Option<T>) -> T {
    match replacement {
        Some(v) => v,
        None => current,
    }
}

/// The port after the `PORT` override: replaced only by a text that parses.
pub open spec fn overridden_port(current: u16, text: Option<String>) -> u16 {
    match text {
        Some(t) => match parsed_u16(vstd::utf8::encode_utf8(t@)) {
            Some(p) => p,
            None => current,
        },
        None => current,
    }
}

impl Config {
    /// Applies the environment overrides. Each storage setting that the
    /// environment holds replaces the file's; the port is replaced only when
    /// the environment's text parses as a port. Everything else is kept.
    pub fn apply_overrides(&mut self, env: EnvOverrides)
        ensures
            final(self).storage.s3_endpoint == overridden(old(self).storage.s3_endpoint, env.s3_endpoint),
            final(self).storage.s3_region == overridden(old(self).storage.s3_region, env.s3_region),
            final(self).storage.local_cache_path == overridden(
                old(self).storage.local_cache_path,
                env.local_cache_path,
            ),
            final(self).storage.s3_bucket == (match env.s3_bucket {
                Some(b) => Some(b),
                None => old(self).storage.s3_bucket,
            }),
            final(self).server.port == overridden_port(old(self).server.port, env.port),
            final(self).storage.max_s3_connections == old(self).storage.max_s3_connections,
            final(self).storage.max_wal_write_retries == old(self).storage.max_wal_write_retries,
            final(self).storage.write_collision_retry_delay_ms
                == old(self).storage.write_collision_retry_delay_ms,
            final(self).server.max_request_body_size == old(self).server.max_request_body_size,
            final(self).server.request_timeout_ms == old(self).server.request_timeout_ms,
            final(self).limits == old(self).limits,
            final(self).batching == old(self).batching,
            final(self).indexing == old(self).indexing,
            final(self).compactor == old(self).compactor,
    {
        let EnvOverrides { s3_endpoint, s3_region, local_cache_path, s3_bucket, port } = env;
        if let Some(e) = s3_endpoint {
            self.storage.s3_endpoint = e;
        }
        if let Some(r) = s3_region {
            self.storage.s3_region = r;
        }
        if let Some(p) = local_cache_path {
            self.storage.local_cache_path = p;
        }
        if let Some(b) = s3_bucket {
            self.storage.s3_bucket = Some(b);
        }
        if let Some(text) = port {
            if let Some(p) = parse_port(text.as_str()) {
                self.server.port = p;
            }
        }
    }
}

} // verus!
