//! The object-store stack: how store failures are classified, the labels and
//! the counter of round trips, and the counting and caching layers.
use vstd::prelude::*;
use vstd::string::StringExecFns;
use crate::format::{decimal, u64_to_decimal};

verus! {

/// A failure caused by a missing or inaccessible bucket (HTTP 404 or 403).
#[derive(Debug, Clone, Copy, PartialEq, Eq, Structural)]
pub struct BucketMissing;

impl BucketMissing {
    /// The failure's message.
    pub fn message(&self) -> (m: &'static str)
        ensures
            m@ == "bucket is missing or not accessible"@,
    {
        "bucket is missing or not accessible"
    }
}

/// A failure caused by a failed write precondition (HTTP 412): an
/// `if-none-match` collision or an `if-match` ETag conflict.
#[derive(Debug, Clone, Copy, PartialEq, Eq, Structural)]
pub struct PreconditionFailed;

impl PreconditionFailed {
    /// The failure's message.
    pub fn message(&self) -> (m: &'static str)
        ensures
            m@ == "S3 precondition failed (412)"@,
    {
        "S3 precondition failed (412)"
    }
}

/// What a failed store call means to its callers.
#[derive(Debug, Clone, Copy, PartialEq, Eq, Structural)]
pub enum FailureKind {
    BucketMissing,
    PreconditionFailed,
    Other,
}

/// The meaning of a failure by the HTTP status of the service's answer;
/// `None` when no answer came (a timeout, a dropped connection).
pub open spec fn failure_kind_of(status: Option<u16>) -> FailureKind {
    match status {
        Some(s) => if s == 404 || s == 403 {
            FailureKind::BucketMissing
        } else if s == 412 {
            FailureKind::PreconditionFailed
        } else {
            FailureKind::Other
        },
        None => FailureKind::Other,
    }
}

/// Classifies a failed store call by the HTTP status of the answer.
pub fn classify_failure(status: Option<u16>) -> (k: FailureKind)
    ensures
        k == failure_kind_of(status),
{
    match status {
        Some(s) => {
            if s == 404 || s == 403 {
                FailureKind::BucketMissing
            } else if s == 412 {
                FailureKind::PreconditionFailed
            } else {
                FailureKind::Other
            }
        },
        None => FailureKind::Other,
    }
}

/// A read that fails with 404 or 403 finds nothing rather than failing.
pub fn read_finds_nothing(status: Option<u16>) -> (b: bool)
    ensures
        b == (failure_kind_of(status) == FailureKind::BucketMissing),
{
    match status {
        Some(s) => s == 404 || s == 403,
        None => false,
    }
}

/// The message of a failed store call that the service answered:
/// `S3 {op} failed for {namespace}/{key}: HTTP {status}, {code} - {message}`,
/// with `Unknown` and `No message` for a missing code and message.
pub open spec fn service_failure_text(
    op: Seq<char>,
    namespace: Seq<char>,
    key: Seq<char>,
    status: u16,
    code: Option<Seq<char>>,
    message: Option<Seq<char>>,
) -> Seq<char> {
    "S3 "@ + op + " failed for "@ + namespace + "/"@ + key + ": HTTP "@ + decimal(status as nat) + ", "@
        + (match code {
        Some(c) => c,
        None => "Unknown"@,
    }) + " - "@ + (match message {
        Some(m) => m,
        None => "No message"@,
    })
}

/// Builds the message of a failed store call that the service answered.
pub fn service_failure_message(
    op: &str,
    namespace: &str,
    key: &str,
    status: u16,
    code: Option<&str>,
    message: Option<&str>,
) -> (s: String)
    ensures
        s@ == service_failure_text(
            op@,
            namespace@,
            key@,
            status,
            match code {
                Some(c) => Some(c@),
                None => None,
            },
            match message {
                Some(m) => Some(m@),
                None => None,
            },
        ),
{
    let mut s = String::from_str("S3 ");
    s.append(op);
    s.append(" failed for ");
    s.append(namespace);
    s.append("/");
    s.append(key);
    s.append(": HTTP ");
    let digits = u64_to_decimal(status as u64);
    s.append(digits.as_str());
    s.append(", ");
    match code {
        Some(c) => s.append(c),
        None => s.append("Unknown"),
    }
    s.append(" - ");
    match message {
        Some(m) => s.append(m),
        None => s.append("No message"),
    }
    s
}

/// A call on the object store, with the names its round-trip label uses.
#[derive(Debug)]
pub enum StoreCall<'a> {
    Get { key: &'a str },
    GetWithEtag { key: &'a str },
    Put { key: &'a str },
    PutIfNotExists { key: &'a str },
    PutIfMatch { key: &'a str },
    Delete { key: &'a str },
    ListPage { prefix: &'a str },
    ListNamespaces,
    CreateBucket { namespace: &'a str },
}

/// The label a counted round trip is recorded under.
pub open spec fn round_trip_label(call: StoreCall) -> Seq<char> {
    match call {
        StoreCall::Get { key } => "s3:read:"@ + key@,
        StoreCall::GetWithEtag { key } => "s3:read:"@ + key@,
        StoreCall::Put { key } => "s3:put:"@ + key@,
        StoreCall::PutIfNotExists { key } => "s3:put:"@ + key@,
        StoreCall::PutIfMatch { key } => "s3:put:"@ + key@,
        StoreCall::Delete { key } => "s3:delete:"@ + key@,
        StoreCall::ListPage { prefix } => "s3:list:"@ + prefix@,
        StoreCall::ListNamespaces => "s3:list:buckets"@,
        StoreCall::CreateBucket { namespace } => "s3:create-bucket:"@ + namespace@,
    }
}

impl<'a> StoreCall<'a> {
    /// The label this call is counted under.
    pub fn label(&self) -> (s: String)
        ensures
            s@ == round_trip_label(*self),
    {
        match self {
            StoreCall::Get { key } => String::from_str("s3:read:").concat(key),
            StoreCall::GetWithEtag { key } => String::from_str("s3:read:").concat(key),
            StoreCall::Put { key } => String::from_str("s3:put:").concat(key),
            StoreCall::PutIfNotExists { key } => String::from_str("s3:put:").concat(key),
            StoreCall::PutIfMatch { key } => String::from_str("s3:put:").concat(key),
            StoreCall::Delete { key } => String::from_str("s3:delete:").concat(key),
            StoreCall::ListPage { prefix } => String::from_str("s3:list:").concat(prefix),
            StoreCall::ListNamespaces => String::from_str("s3:list:buckets"),
            StoreCall::CreateBucket { namespace } => String::from_str("s3:create-bucket:").concat(
                namespace,
            ),
        }
    }
}

/// A counter's reading after one more round trip under `label`.
pub open spec fn count_round_trip(v: (nat, Seq<Seq<char>>), label: Seq<char>) -> (nat, Seq<Seq<char>>) {
    (v.0 + 1, v.1.push(label))
}

/// A counter's reading after round trips under `labels`, in order.
pub open spec fn count_round_trips(v: (nat, Seq<Seq<char>>), labels: Seq<Seq<char>>) -> (nat, Seq<Seq<char>>)
    decreases labels.len(),
{
    if labels.len() == 0 {
        v
    } else {
        count_round_trip(count_round_trips(v, labels.drop_last()), labels.last())
    }
}

/// After a reset, the counter reads exactly the round trips recorded since:
/// their number and their labels in order.
pub proof fn counter_reads_what_was_recorded(labels: Seq<Seq<char>>)
    ensures
        count_round_trips((0nat, Seq::<Seq<char>>::empty()), labels) == (labels.len(), labels),
    decreases labels.len(),
{
    if labels.len() > 0 {
        counter_reads_what_was_recorded(labels.drop_last());
        assert(labels.drop_last().push(labels.last()) =~= labels);
    }
}

/// The round trips made to the object store since the last reset: how many,
/// and the label of each in order.
#[derive(Debug)]
pub struct RoundTripCounter {
    count: u64,
    keys: Vec<String>,
}

impl View for RoundTripCounter {
    type V = (nat, Seq<Seq<char>>);

    closed spec fn view(&self) -> (nat, Seq<Seq<char>>) {
        (self.count as nat, self.keys@.map_values(|k: String| k@))
    }
}

impl RoundTripCounter {
    /// A counter with no round trips.
    pub fn new() -> (c: RoundTripCounter)
        ensures
            c@ == (0nat, Seq::<Seq<char>>::empty()),
    {
        let c = RoundTripCounter { count: 0, keys: Vec::new() };
        assert(c.keys@.map_values(|k: String| k@) =~= Seq::<Seq<char>>::empty());
        c
    }

    /// How many round trips were counted.
    pub fn count(&self) -> (n: u64)
        ensures
            n == self@.0,
    {
        self.count
    }

    /// Counts one round trip under `label`.
    pub fn record(&mut self, label: String)
        requires
            old(self)@.0 < u64::MAX,
        ensures
            final(self)@ == count_round_trip(old(self)@, label@),
    {
        self.count = self.count + 1;
        let ghost before = self.keys@;
        self.keys.push(label);
        assert(self.keys@.map_values(|k: String| k@) =~= before.map_values(|k: String| k@).push(
            label@,
        ));
    }

    /// Counts the round trip of a store call.
    pub fn record_call(&mut self, call: &StoreCall)
        requires
            old(self)@.0 < u64::MAX,
        ensures
            final(self)@ == count_round_trip(old(self)@, round_trip_label(*call)),
    {
        let label = call.label();
        self.record(label);
    }
}

fn clone_labels(keys: &Vec<String>) -> (r: Vec<String>)
    ensures
        r@.map_values(|k: String| k@) == keys@.map_values(|k: String| k@),
{
    let mut r: Vec<String> = Vec::new();
    let mut i: usize = 0;
    while i < keys.len()
        invariant
            i <= keys.len(),
            r@.len() == i,
            forall|j: int| 0 <= j < i ==> (#[trigger] r@[j])@ == keys@[j]@,
        decreases keys.len() - i,
    {
        let k = keys[i].clone();
        r.push(k);
        i = i + 1;
    }
    assert(r@.map_values(|k: String| k@) =~= keys@.map_values(|k: String| k@));
    r
}

/// The number of round trips since the last reset and their labels in order.
pub fn get_s3_round_trips(counter: &RoundTripCounter) -> (r: (u64, Vec<String>))
    ensures
        r.0 == counter@.0,
        r.1@.map_values(|k: String| k@) == counter@.1,
{
    (counter.count, clone_labels(&counter.keys))
}

/// Forgets every round trip counted so far.
pub fn reset_s3_round_trips(counter: &mut RoundTripCounter)
    ensures
        final(counter)@ == (0nat, Seq::<Seq<char>>::empty()),
{
    counter.count = 0;
    counter.keys.clear();
    assert(counter.keys@.map_values(|k: String| k@) =~= Seq::<Seq<char>>::empty());
}

/// The layer that counts each call before handing it to the store below.
#[derive(Debug)]
pub struct CountingStore<S> {
    pub inner: S,
}

impl<S> CountingStore<S> {
    /// Wraps a store.
    pub fn new(inner: S) -> (c: CountingStore<S>)
        ensures
            c.inner == inner,
    {
        CountingStore { inner }
    }
}

/// The write-through local-disk cache layer above a store.
#[derive(Debug)]
pub struct CachingStore<S> {
    pub inner: S,
}

impl<S> CachingStore<S> {
    /// Wraps a store.
    pub fn new(inner: S) -> (c: CachingStore<S>)
        ensures
            c.inner == inner,
    {
        CachingStore { inner }
    }
}

} // verus!
