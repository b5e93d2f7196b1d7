//! The decisions of the client's write, query and metadata paths: distance
//! metric and dimension checks, the bookkeeping of a log write, the merge of
//! a conflicting metadata update, and the filtering of query candidates.
use vstd::prelude::*;
use crate::candidates::{bytes_order, compare_bytes};
use crate::engine::{
    deleted_after, tomb_pairs, texts, DocumentId, IndexStatus, Metadata, MetadataView, RecordView, ReplayOutcome,
    Row, WalRecord,
};
use crate::merge_laws::{lemma_bytes_antisym, lemma_bytes_trans, lemma_bytes_zero};
use crate::vectors::{metric_name, DistanceMetric};
use crate::candidates::cand_view;
use crate::format::{decimal, usize_to_decimal};
use crate::engine::{contains_id, find_tombstone, id_views, DocId, ReplayState, RowView};
use crate::engine::{find_pending, first_pending, patched_row, pend_pairs, Attributes, PendingView};
use crate::keyed::{has_key, lemma_map_at};
use vstd::string::StringExecFns;
use crate::store::FailureKind;
use vstd::utf8::{encode_utf8, encode_utf8_decode_utf8};

verus! {

/// The namespace already holds data under another distance metric.
#[derive(Debug, Clone, Copy, PartialEq, Eq, Structural)]
pub struct DistanceMetricConflict {
    pub existing: DistanceMetric,
    pub requested: DistanceMetric,
}

/// A vector's length differs from the namespace's dimensions.
#[derive(Debug, Clone)]
pub struct DimensionMismatch {
    pub namespace: String,
    pub expected: usize,
    pub actual: usize,
}

impl DistanceMetricConflict {
    /// The refusal's message:
    /// `namespace already uses {existing}, cannot change to {requested}`.
    pub fn message(&self) -> (s: String)
        ensures
            s@ == "namespace already uses "@ + metric_name(self.existing) + ", cannot change to "@
                + metric_name(self.requested),
    {
        let mut s = String::from_str("namespace already uses ");
        s.append(self.existing.name());
        s.append(", cannot change to ");
        s.append(self.requested.name());
        s
    }
}

impl DimensionMismatch {
    /// The refusal's message: `Vector dimension mismatch: namespace '{namespace}'
    /// expects {expected} dimensions, got {actual}`.
    pub fn message(&self) -> (s: String)
        ensures
            s@ == "Vector dimension mismatch: namespace '"@ + self.namespace@ + "' expects "@ + decimal(
                self.expected as nat,
            ) + " dimensions, got "@ + decimal(self.actual as nat),
    {
        let mut s = String::from_str("Vector dimension mismatch: namespace '");
        s.append(self.namespace.as_str());
        s.append("' expects ");
        let e = usize_to_decimal(self.expected);
        s.append(e.as_str());
        s.append(" dimensions, got ");
        let a = usize_to_decimal(self.actual);
        s.append(a.as_str());
        s
    }
}

/// Stands for the client of the engine; its operations read and write
/// object storage and are driven from outside the library.
#[derive(Debug, Clone, Copy)]
pub struct Client;

/// The namespace already holds rows or log files.
pub open spec fn has_data(m: MetadataView) -> bool {
    m.approx_row_count > 0 || m.wal_files.len() > 0
}

/// Applies the distance metric that a write asks for. A namespace that
/// holds data keeps its metric, and a different request is refused; an
/// empty namespace takes the requested metric.
pub fn apply_distance_metric(metadata: &mut Metadata, requested: Option<DistanceMetric>) -> (r: Result<
    (),
    DistanceMetricConflict,
>)
    ensures
        match requested {
            Some(m) => if m != old(metadata).distance_metric && has_data(old(metadata)@) {
                &&& r == Err::<(), DistanceMetricConflict>(
                    DistanceMetricConflict { existing: old(metadata).distance_metric, requested: m },
                )
                &&& *final(metadata) == *old(metadata)
            } else {
                &&& r is Ok
                &&& *final(metadata) == Metadata { distance_metric: m, ..*old(metadata) }
            },
            None => r is Ok && *final(metadata) == *old(metadata),
        },
{
    if let Some(m) = requested {
        if m != metadata.distance_metric {
            let has = metadata.approx_row_count > 0 || metadata.wal_files.len() > 0;
            if has {
                return Err(DistanceMetricConflict { existing: metadata.distance_metric, requested: m });
            }
            metadata.distance_metric = m;
        }
    }
    Ok(())
}

/// The outcome of checking vector lengths against the namespace dimensions.
#[derive(Debug)]
pub enum DimensionScan {
    /// Every upsert fits; these are the dimensions afterwards.
    Fits(Option<usize>),
    /// The first upsert that does not fit: expected and actual length.
    Mismatch(usize, usize),
}

/// Checks upserts in order; the first upsert of a namespace without
/// dimensions establishes them.
pub open spec fn scan_dimensions(d: Option<usize>, recs: Seq<RecordView>) -> DimensionScan
    decreases recs.len(),
{
    if recs.len() == 0 {
        DimensionScan::Fits(d)
    } else {
        match scan_dimensions(d, recs.drop_last()) {
            DimensionScan::Mismatch(e, a) => DimensionScan::Mismatch(e, a),
            DimensionScan::Fits(cur) => match recs.last() {
                RecordView::Upsert(row) => match cur {
                    Some(e) => if row.vector.len() != e {
                        DimensionScan::Mismatch(e, row.vector.len() as usize)
                    } else {
                        DimensionScan::Fits(cur)
                    },
                    None => DimensionScan::Fits(Some(row.vector.len() as usize)),
                },
                _ => DimensionScan::Fits(cur),
            },
        }
    }
}

proof fn lemma_scan_mismatch_persists(d: Option<usize>, recs: Seq<RecordView>, k: int)
    requires
        0 <= k <= recs.len(),
        scan_dimensions(d, recs.take(k)) is Mismatch,
    ensures
        scan_dimensions(d, recs) == scan_dimensions(d, recs.take(k)),
    decreases recs.len() - k,
{
    if k < recs.len() {
        assert(recs.drop_last().take(k) =~= recs.take(k));
        lemma_scan_mismatch_persists(d, recs.drop_last(), k);
    } else {
        assert(recs.take(k) =~= recs);
    }
}

proof fn lemma_to_set_push<A>(s: Seq<A>, x: A)
    ensures
        s.push(x).to_set() == s.to_set().insert(x),
{
    assert forall|y: A| s.push(x).to_set().contains(y) <==> s.to_set().insert(x).contains(y) by {
        if s.push(x).to_set().contains(y) {
            let k = choose|k: int| 0 <= k < s.push(x).len() && s.push(x)[k] == y;
            if k < s.len() {
                assert(s[k] == y);
            }
        }
        if s.to_set().contains(y) {
            let k = choose|k: int| 0 <= k < s.len() && s[k] == y;
            assert(s.push(x)[k] == y);
        }
        if y == x {
            assert(s.push(x)[s.len() as int] == y);
        }
    }
    assert(s.push(x).to_set() =~= s.to_set().insert(x));
}

/// Checking vector lengths accepts a batch only when every upsert fits:
/// after a success every upserted vector has the namespace's dimensions
/// (the existing ones, or those the first upsert sets), and a batch without
/// upserts leaves the dimensions as they were; a failure reports an expected
/// length (the existing dimensions, if any) that differs from the actual
/// one; and whenever the namespace has dimensions and some upsert's vector
/// has another length, the check fails.
pub proof fn dimension_check_accepts_only_fitting_vectors(d: Option<usize>, recs: Seq<RecordView>)
    requires
        forall|i: int| 0 <= i < recs.len() ==> (#[trigger] recs[i] matches RecordView::Upsert(row)
            ==> row.vector.len() <= usize::MAX),
    ensures
        scan_dimensions(d, recs) matches DimensionScan::Fits(f) ==> {
            &&& d is Some ==> f == d
            &&& forall|i: int| 0 <= i < recs.len() ==> (#[trigger] recs[i] matches RecordView::Upsert(row) ==> f
                is Some && row.vector.len() == f->0)
            &&& (forall|i: int| 0 <= i < recs.len() ==> !(#[trigger] recs[i] is Upsert)) ==> f == d
        },
        scan_dimensions(d, recs) matches DimensionScan::Mismatch(e, a) ==> e != a && (d is Some ==> e == d->0),
        (d matches Some(e) && exists|i: int| 0 <= i < recs.len() && (#[trigger] recs[i] matches RecordView::Upsert(row)
            && row.vector.len() != e)) ==> scan_dimensions(d, recs) is Mismatch,
    decreases recs.len(),
{
    if recs.len() > 0 {
        let prev = recs.drop_last();
        assert forall|i: int| 0 <= i < prev.len() implies #[trigger] prev[i] == recs[i] by {}
        assert forall|i: int| 0 <= i < prev.len() implies (#[trigger] prev[i] matches RecordView::Upsert(row)
            ==> row.vector.len() <= usize::MAX) by {
            assert(prev[i] == recs[i]);
        }
        dimension_check_accepts_only_fitting_vectors(d, prev);
        let last = recs.last();
        assert(recs[recs.len() - 1] == last);
        if scan_dimensions(d, recs) is Fits {
            assert(scan_dimensions(d, prev) is Fits);
            let fp = scan_dimensions(d, prev)->Fits_0;
            let f = scan_dimensions(d, recs)->Fits_0;
            if fp is None {
                assert forall|i: int| 0 <= i < prev.len() implies !(#[trigger] prev[i] is Upsert) by {
                    assert(prev[i] == recs[i]);
                }
            }
            assert forall|i: int| 0 <= i < recs.len() implies (#[trigger] recs[i] matches RecordView::Upsert(row) ==> f
                is Some && row.vector.len() == f->0) by {
                if i < prev.len() {
                    assert(prev[i] == recs[i]);
                    if recs[i] is Upsert {
                        assert(fp is Some);
                    }
                }
            }
            if forall|i: int| 0 <= i < recs.len() ==> !(#[trigger] recs[i] is Upsert) {
                assert forall|i: int| 0 <= i < prev.len() implies !(#[trigger] prev[i] is Upsert) by {
                    assert(prev[i] == recs[i]);
                }
            }
        }
        if let Some(e) = d {
            if exists|i: int| 0 <= i < recs.len() && (#[trigger] recs[i] matches RecordView::Upsert(row)
                && row.vector.len() != e) {
                let i = choose|i: int| 0 <= i < recs.len() && (#[trigger] recs[i] matches RecordView::Upsert(row)
                    && row.vector.len() != e);
                if i < prev.len() {
                    assert(prev[i] == recs[i]);
                }
            }
        }
    }
}

/// Checks every upsert against the namespace's vector dimensions. The first
/// vectors in a namespace without dimensions establish them. On a mismatch
/// nothing changes.
pub fn validate_dimensions(namespace: &str, metadata: &mut Metadata, records: &Vec<WalRecord>) -> (r: Result<
    (),
    DimensionMismatch,
>)
    ensures
        match scan_dimensions(old(metadata).vector_dimensions, records@.map_values(|x: WalRecord| x@)) {
            DimensionScan::Fits(d) => r is Ok && *final(metadata) == Metadata {
                vector_dimensions: d,
                ..*old(metadata)
            },
            DimensionScan::Mismatch(e, a) => *final(metadata) == *old(metadata) && match r {
                Err(m) => m.namespace@ == namespace@ && m.expected == e && m.actual == a,
                Ok(_) => false,
            },
        },
{
    let ghost recs = records@.map_values(|x: WalRecord| x@);
    let mut dims = metadata.vector_dimensions;
    let n = records.len();
    let mut i: usize = 0;
    while i < n
        invariant
            n == records@.len(),
            recs == records@.map_values(|x: WalRecord| x@),
            i <= n,
            scan_dimensions(metadata.vector_dimensions, recs.take(i as int)) == DimensionScan::Fits(dims),
        decreases n - i,
    {
        proof {
            assert(recs.take(i + 1).drop_last() =~= recs.take(i as int));
            assert(recs.take(i + 1).last() == records@[i as int]@);
        }
        match &records[i] {
            WalRecord::Upsert(row) => {
                let len = row.vector.len();
                match dims {
                    Some(expected) => {
                        if len != expected {
                            proof {
                                lemma_scan_mismatch_persists(metadata.vector_dimensions, recs, i + 1);
                            }
                            return Err(DimensionMismatch { namespace: namespace.to_owned(), expected, actual: len });
                        }
                    },
                    None => {
                        dims = Some(len);
                    },
                }
            },
            _ => {},
        }
        i = i + 1;
    }
    proof {
        assert(recs.take(n as int) =~= recs);
    }
    metadata.vector_dimensions = dims;
    Ok(())
}

/// Records a durable log write in the metadata: the new log file, the
/// written record count, the time, and that the indexes now lag behind.
pub fn record_wal_write(metadata: &mut Metadata, wal_key: String, record_count: usize, now: i64)
    requires
        old(metadata).approx_row_count + record_count <= u64::MAX,
    ensures
        final(metadata)@ == (MetadataView {
            wal_files: old(metadata)@.wal_files.push(wal_key@),
            approx_row_count: (old(metadata).approx_row_count + record_count) as u64,
            updated_at: now,
            status: IndexStatus::Updating,
            ..old(metadata)@
        }),
{
    let ghost k = wal_key@;
    metadata.wal_files.push(wal_key);
    metadata.approx_row_count = metadata.approx_row_count + record_count as u64;
    metadata.updated_at = now;
    metadata.index.status = IndexStatus::Updating;
    proof {
        assert(texts(metadata.wal_files@) =~= texts(old(metadata).wal_files@).push(k));
    }
}

/// Whether the log has grown enough to call for a compaction: enough log
/// files, or enough unindexed bytes.
pub fn needs_compaction(metadata: &Metadata, wal_count_threshold: usize, bytes_threshold: u64) -> (b: bool)
    ensures
        b == (metadata.wal_files@.len() >= wal_count_threshold || metadata.unindexed_bytes >= bytes_threshold),
{
    metadata.wal_files.len() >= wal_count_threshold || metadata.unindexed_bytes >= bytes_threshold
}

/// The order of texts: the order of their UTF-8 bytes.
pub open spec fn text_order(a: Seq<char>, b: Seq<char>) -> int {
    bytes_order(encode_utf8(a), encode_utf8(b))
}

/// The relative order of two strings: `-1`, `0` or `1`.
pub fn compare_texts(a: &String, b: &String) -> (c: i8)
    ensures
        c == text_order(a@, b@),
{
    compare_bytes(a.as_str().as_bytes(), b.as_str().as_bytes())
}

pub proof fn lemma_text_order(a: Seq<char>, b: Seq<char>)
    ensures
        text_order(a, b) == -text_order(b, a),
        text_order(a, b) == 0 <==> a == b,
        -1 <= text_order(a, b) <= 1,
{
    lemma_bytes_antisym(encode_utf8(a), encode_utf8(b));
    lemma_bytes_zero(encode_utf8(a), encode_utf8(b));
    encode_utf8_decode_utf8(a);
    encode_utf8_decode_utf8(b);
}

pub proof fn lemma_text_trans(a: Seq<char>, b: Seq<char>, c: Seq<char>)
    requires
        text_order(a, b) <= 0,
        text_order(b, c) <= 0,
    ensures
        text_order(a, c) <= 0,
        (text_order(a, b) < 0 || text_order(b, c) < 0) ==> text_order(a, c) < 0,
{
    lemma_bytes_trans(encode_utf8(a), encode_utf8(b), encode_utf8(c));
    lemma_text_order(a, b);
    lemma_text_order(b, c);
    lemma_text_order(a, c);
}

/// Texts strictly increase along the sequence.
pub open spec fn strictly_sorted_texts(s: Seq<Seq<char>>) -> bool {
    forall|i: int, j: int| 0 <= i < j < s.len() ==> text_order(#[trigger] s[i], #[trigger] s[j]) < 0
}

/// Adds a text to a strictly sorted list unless it is there already.
fn insert_text_sorted(out: &mut Vec<String>, x: String)
    requires
        strictly_sorted_texts(texts(old(out)@)),
    ensures
        strictly_sorted_texts(texts(final(out)@)),
        texts(final(out)@).to_set() == texts(old(out)@).to_set().insert(x@),
{
    let ghost pre = texts(out@);
    let n = out.len();
    let mut p: usize = 0;
    while p < n && compare_texts(&out[p], &x) < 0
        invariant
            n == out@.len(),
            pre == texts(out@),
            p <= n,
            forall|k: int| 0 <= k < p ==> text_order(#[trigger] pre[k], x@) < 0,
        decreases n - p,
    {
        proof {
            assert(pre[p as int] == out@[p as int]@);
        }
        p = p + 1;
    }
    if p < n && compare_texts(&out[p], &x) == 0 {
        proof {
            assert(pre[p as int] == out@[p as int]@);
            lemma_text_order(pre[p as int], x@);
            assert(pre.to_set().insert(x@) =~= pre.to_set());
        }
        return;
    }
    proof {
        if p < n {
            assert(pre[p as int] == out@[p as int]@);
            lemma_text_order(pre[p as int], x@);
            assert(text_order(x@, pre[p as int]) < 0);
        }
    }
    let ghost xv = x@;
    out.insert(p, x);
    proof {
        let post = texts(out@);
        assert(post =~= pre.insert(p as int, xv));
        assert forall|i: int, j: int| 0 <= i < j < post.len() implies text_order(#[trigger] post[i], #[trigger] post[j])
            < 0 by {
            if j < p {
                assert(post[i] == pre[i] && post[j] == pre[j]);
            } else if j == p {
                assert(post[i] == pre[i]);
            } else if i < p {
                assert(post[i] == pre[i] && post[j] == pre[j - 1]);
                assert(text_order(pre[i], xv) < 0);
                assert(text_order(xv, pre[p as int]) < 0);
                lemma_text_trans(pre[i], xv, pre[p as int]);
                if j - 1 > p {
                    assert(text_order(pre[p as int], pre[j - 1]) < 0);
                    lemma_text_trans(pre[i], pre[p as int], pre[j - 1]);
                }
            } else if i == p {
                assert(post[j] == pre[j - 1]);
                if j - 1 > p {
                    assert(text_order(pre[p as int], pre[j - 1]) < 0);
                    lemma_text_trans(xv, pre[p as int], pre[j - 1]);
                }
            } else {
                assert(post[i] == pre[i - 1] && post[j] == pre[j - 1]);
            }
        }
        assert forall|y: Seq<char>| post.to_set().contains(y) <==> pre.to_set().insert(xv).contains(y) by {
            if post.to_set().contains(y) {
                let k = choose|k: int| 0 <= k < post.len() && post[k] == y;
                if k < p {
                    assert(pre[k] == y);
                } else if k > p {
                    assert(pre[k - 1] == y);
                }
            }
            if pre.to_set().contains(y) {
                let k = choose|k: int| 0 <= k < pre.len() && pre[k] == y;
                if k < p {
                    assert(post[k] == y);
                } else {
                    assert(post[k + 1] == y);
                }
            }
            if y == xv {
                assert(post[p as int] == y);
            }
        }
        assert(post.to_set() =~= pre.to_set().insert(xv));
    }
}

/// The texts of both lists, each once, in increasing order.
pub fn sorted_union(a: &Vec<String>, b: &Vec<String>) -> (r: Vec<String>)
    ensures
        strictly_sorted_texts(texts(r@)),
        texts(r@).to_set() == texts(a@).to_set() + texts(b@).to_set(),
{
    let mut out: Vec<String> = Vec::new();
    proof {
        assert(texts(out@).to_set() =~= Set::<Seq<char>>::empty());
    }
    let mut i: usize = 0;
    while i < a.len()
        invariant
            i <= a@.len(),
            strictly_sorted_texts(texts(out@)),
            texts(out@).to_set() == texts(a@.take(i as int)).to_set(),
        decreases a@.len() - i,
    {
        insert_text_sorted(&mut out, a[i].clone());
        proof {
            assert(texts(a@.take(i + 1)) =~= texts(a@.take(i as int)).push(a@[i as int]@));
            lemma_to_set_push(texts(a@.take(i as int)), a@[i as int]@);
        }
        i = i + 1;
    }
    proof {
        assert(a@.take(a@.len() as int) =~= a@);
    }
    let mut j: usize = 0;
    while j < b.len()
        invariant
            j <= b@.len(),
            strictly_sorted_texts(texts(out@)),
            texts(out@).to_set() == texts(a@).to_set() + texts(b@.take(j as int)).to_set(),
        decreases b@.len() - j,
    {
        insert_text_sorted(&mut out, b[j].clone());
        proof {
            assert(texts(b@.take(j + 1)) =~= texts(b@.take(j as int)).push(b@[j as int]@));
            lemma_to_set_push(texts(b@.take(j as int)), b@[j as int]@);
            assert(texts(a@).to_set() + texts(b@.take(j + 1)).to_set() =~= (texts(a@).to_set() + texts(
                b@.take(j as int),
            ).to_set()).insert(b@[j as int]@));
        }
        j = j + 1;
    }
    proof {
        assert(b@.take(b@.len() as int) =~= b@);
    }
    out
}

/// Merges a conflicting local metadata update on top of the remote state at
/// time `now`: the union of the log files, each once and in increasing key
/// order (log keys sort in time order), and the larger of each counter.
pub fn merge_metadata_at(remote: Metadata, local: &Metadata, now: i64) -> (m: Metadata)
    ensures
        strictly_sorted_texts(m@.wal_files),
        m@.wal_files.to_set() == remote@.wal_files.to_set() + local@.wal_files.to_set(),
        m.approx_row_count == if remote.approx_row_count >= local.approx_row_count {
            remote.approx_row_count
        } else {
            local.approx_row_count
        },
        m.unindexed_bytes == if remote.unindexed_bytes >= local.unindexed_bytes {
            remote.unindexed_bytes
        } else {
            local.unindexed_bytes
        },
        m.updated_at == now,
        m == (Metadata {
            wal_files: m.wal_files,
            approx_row_count: m.approx_row_count,
            unindexed_bytes: m.unindexed_bytes,
            updated_at: now,
            ..remote
        }),
{
    let files = sorted_union(&remote.wal_files, &local.wal_files);
    let approx = if remote.approx_row_count >= local.approx_row_count {
        remote.approx_row_count
    } else {
        local.approx_row_count
    };
    let unindexed = if remote.unindexed_bytes >= local.unindexed_bytes {
        remote.unindexed_bytes
    } else {
        local.unindexed_bytes
    };
    Metadata { wal_files: files, approx_row_count: approx, unindexed_bytes: unindexed, updated_at: now, ..remote }
}

/// The merged metadata for given merged log files and time.
pub open spec fn merge_metadata_at_spec(remote: Metadata, local: &Metadata, now: i64, files: Vec<String>) -> Metadata {
    Metadata {
        wal_files: files,
        approx_row_count: if remote.approx_row_count >= local.approx_row_count {
            remote.approx_row_count
        } else {
            local.approx_row_count
        },
        unindexed_bytes: if remote.unindexed_bytes >= local.unindexed_bytes {
            remote.unindexed_bytes
        } else {
            local.unindexed_bytes
        },
        updated_at: now,
        ..remote
    }
}

/// An index candidate survives unless the log deleted its document after
/// the candidate's row was written.
pub open spec fn survives_log<T>(st: ReplayState) -> spec_fn((T, RowView)) -> bool {
    |c: (T, RowView)| !deleted_after(st, c.1.id, c.1.timestamp)
}

/// Drops the index candidates whose documents a newer log deletion removed,
/// keeping the others in order.
pub fn drop_deleted_candidates<T>(candidates: Vec<(T, Row)>, replayed: &ReplayOutcome) -> (r: Vec<(T, Row)>)
    requires
        replayed.wf(),
    ensures
        cand_view(r@) == cand_view(candidates@).filter(survives_log::<T>(replayed@)),
{
    let ghost all = cand_view(candidates@);
    let mut out: Vec<(T, Row)> = Vec::new();
    for c in it: candidates.into_iter()
        invariant
            all == cand_view(it.seq()),
            replayed.wf(),
            cand_view(out@) == all.take(it.index() as int).filter(survives_log::<T>(replayed@)),
    {
        let ghost i = it.index();
        let deleted = match find_tombstone(&replayed.tombstones, &c.1.id) {
            Some(k) => replayed.tombstones[k].1 > c.1.timestamp,
            None => false,
        };
        proof {
            assert(all.take(i + 1) =~= all.take(i as int).push(all[i as int]));
            assert(all[i as int] == (c.0, c.1@));
            lemma_tombstone_lookup(replayed, c.1.id@);
            all.take(i as int).lemma_filter_push(all[i as int], survives_log::<T>(replayed@));
        }
        if !deleted {
            let ghost before = cand_view(out@);
            let ghost cv = (c.0, c.1@);
            out.push(c);
            proof {
                assert(cand_view(out@) =~= before.push(cv));
            }
        }
    }
    proof {
        assert(all.take(all.len() as int) =~= all);
    }
    out
}

proof fn lemma_tombstone_lookup(replayed: &ReplayOutcome, id: DocId)
    requires
        replayed.wf(),
    ensures
        forall|k: int| 0 <= k < replayed.tombstones@.len() && (#[trigger] replayed.tombstones@[k]).0@ == id
            ==> replayed@.deleted.contains_key(id) && replayed@.deleted[id] == replayed.tombstones@[k].1,
        !has_key(tomb_pairs(replayed.tombstones@), id) ==> !replayed@.deleted.contains_key(id),
{
    let tp = tomb_pairs(replayed.tombstones@);
    assert forall|k: int| 0 <= k < replayed.tombstones@.len() && (#[trigger] replayed.tombstones@[k]).0@ == id
        implies replayed@.deleted.contains_key(id) && replayed@.deleted[id] == replayed.tombstones@[k].1 by {
        assert(tp[k] == (id, replayed.tombstones@[k].1));
        lemma_map_at(tp, k);
    }
}

/// Index candidates with the pending patches laid over them, in order: a
/// candidate whose document has a pending patch newer than its row takes
/// that patch (the first one listed for the document), which is then used
/// up; other candidates stay as they are.
pub open spec fn overlay_pending<T>(pend: Seq<PendingView>, cands: Seq<(T, RowView)>) -> Seq<(T, RowView)>
    decreases cands.len(),
{
    if cands.len() == 0 {
        Seq::empty()
    } else {
        let c = cands[0];
        let k = first_pending(pend, c.1.id);
        if k is Some && pend[k->0].1.0 > c.1.timestamp {
            seq![(c.0, patched_row(c.1, pend[k->0].1))] + overlay_pending(pend.remove(k->0), cands.drop_first())
        } else {
            seq![c] + overlay_pending(pend, cands.drop_first())
        }
    }
}

/// Lays the log's pending patches over index candidates: a patch of a
/// compacted document is seen at once, before the next compaction folds it
/// into the indexes. See `overlay_pending`.
pub fn apply_pending_patches<T>(candidates: Vec<(T, Row)>, pending: Vec<(DocumentId, i64, Attributes)>) -> (r: Vec<
    (T, Row),
>)
    ensures
        cand_view(r@) == overlay_pending(pend_pairs(pending@), cand_view(candidates@)),
{
    let ghost all = cand_view(candidates@);
    let ghost pend0 = pend_pairs(pending@);
    let mut pend = pending;
    let mut out: Vec<(T, Row)> = Vec::new();
    proof {
        assert(all.skip(0) =~= all);
        assert(cand_view(out@) + overlay_pending(pend_pairs(pend@), all.skip(0)) =~= overlay_pending(pend0, all));
    }
    for c in it: candidates.into_iter()
        invariant
            all == cand_view(it.seq()),
            cand_view(out@) + overlay_pending(pend_pairs(pend@), all.skip(it.index() as int)) == overlay_pending(
                pend0,
                all,
            ),
    {
        let ghost i = it.index();
        let ghost rest = all.skip(i as int);
        let ghost pv = pend_pairs(pend@);
        let ghost before = cand_view(out@);
        proof {
            assert(all[i as int] == (c.0, c.1@));
            assert(rest[0] == all[i as int]);
            assert(rest.drop_first() =~= all.skip(i + 1));
        }
        let (score, mut row) = c;
        let ghost cv = (score, row@);
        let found = find_pending(&pend, &row.id);
        let mut hit = false;
        match found {
            Some(k) => {
                if pend[k].1 > row.timestamp {
                    let ghost pk = pv[k as int].1;
                    let (_, pts, pattrs) = pend.remove(k);
                    proof {
                        assert(pk == (pts, pattrs@));
                        assert(pend_pairs(pend@) =~= pv.remove(k as int));
                    }
                    row.attributes.merge_from(pattrs);
                    row.timestamp = pts;
                    hit = true;
                    proof {
                        assert(row@ == patched_row(cv.1, pk));
                    }
                }
            },
            None => {},
        }
        proof {
            if !hit {
                assert(row@ == cv.1);
            }
        }
        out.push((score, row));
        proof {
            assert(cand_view(out@) =~= before.push((cv.0, row@)));
            assert(before.push((cv.0, row@)) + overlay_pending(pend_pairs(pend@), all.skip(i + 1)) =~= before + (
            seq![(cv.0, row@)] + overlay_pending(pend_pairs(pend@), all.skip(i + 1))));
        }
    }
    proof {
        assert(all.skip(all.len() as int) =~= Seq::<(T, RowView)>::empty());
        assert(cand_view(out@) + Seq::<(T, RowView)>::empty() =~= cand_view(out@));
    }
    out
}

/// What a query does about attribute filters before it searches.
#[derive(Debug, Clone, Copy, PartialEq, Eq, Structural)]
pub enum FilterDecision {
    /// No filter was given: every document may match.
    Unfiltered,
    /// Filters were given and an inverted index exists: look them up there.
    UseIndex,
    /// Filters were given but no inverted index is built yet: the query fails.
    MissingIndex,
}

/// Decides how to treat `filter_count` filters, given whether the namespace
/// has an inverted index.
pub fn decide_filtering(filter_count: usize, has_inverted_index: bool) -> (d: FilterDecision)
    ensures
        d == (if filter_count == 0 {
            FilterDecision::Unfiltered
        } else if has_inverted_index {
            FilterDecision::UseIndex
        } else {
            FilterDecision::MissingIndex
        }),
{
    if filter_count == 0 {
        FilterDecision::Unfiltered
    } else if has_inverted_index {
        FilterDecision::UseIndex
    } else {
        FilterDecision::MissingIndex
    }
}

/// The error of a query that filters before an inverted index exists.
pub fn missing_index_message() -> (m: &'static str)
    ensures
        m@ == "Filtering requested but inverted index not yet built"@,
{
    "Filtering requested but inverted index not yet built"
}

/// What the inverted index's answer means for a query.
#[derive(Debug)]
pub enum FilterResult {
    /// No restriction.
    All,
    /// Only these documents may match.
    Only(Vec<DocumentId>),
    /// No document matches: the query answers nothing.
    Nothing,
}

/// Reads the inverted index's answer: no answer restricts nothing, an
/// empty list means no document matches, and a list restricts to it.
pub fn filter_result(found: Option<Vec<DocumentId>>) -> (r: FilterResult)
    ensures
        match found {
            None => r is All,
            Some(ids) => if ids@.len() == 0 {
                r is Nothing
            } else {
                r == FilterResult::Only(ids)
            },
        },
{
    match found {
        None => FilterResult::All,
        Some(ids) => {
            if ids.len() == 0 {
                FilterResult::Nothing
            } else {
                FilterResult::Only(ids)
            }
        },
    }
}

/// Keeps the rows whose documents the filters allow; with no filter result
/// every row is kept. Order is preserved.
pub open spec fn allowed_by(allowed: Option<Seq<DocId>>) -> spec_fn(RowView) -> bool {
    |r: RowView| match allowed {
        Some(ids) => ids.contains(r.id),
        None => true,
    }
}

pub open spec fn row_views(s: Seq<Row>) -> Seq<RowView> {
    s.map_values(|r: Row| r@)
}

/// Filtering log rows by the documents that the attribute filters allow
/// keeps a row exactly when its document is anywhere in the allowed list,
/// and with no allowed list keeps every row, in order.
pub proof fn allowed_rows_are_those_of_allowed_documents(rows: Seq<RowView>, allowed: Option<Seq<DocId>>)
    ensures
        forall|x: RowView| #[trigger] rows.filter(allowed_by(allowed)).contains(x) <==> rows.contains(x) && match allowed {
            Some(ids) => exists|k: int| 0 <= k < ids.len() && ids[k] == x.id,
            None => true,
        },
        allowed is None ==> rows.filter(allowed_by(allowed)) == rows,
{
    let p = allowed_by(allowed);
    assert forall|x: RowView| #[trigger] rows.filter(p).contains(x) <==> rows.contains(x) && match allowed {
        Some(ids) => exists|k: int| 0 <= k < ids.len() && ids[k] == x.id,
        None => true,
    } by {
        if rows.filter(p).contains(x) {
            rows.lemma_filter_contains_rev(p, x);
            let j = choose|j: int| 0 <= j < rows.filter(p).len() && rows.filter(p)[j] == x;
            rows.lemma_filter_pred(p, j);
        }
        if rows.contains(x) && p(x) {
            let i = choose|i: int| 0 <= i < rows.len() && rows[i] == x;
            rows.lemma_filter_contains(p, i);
        }
    }
    if allowed is None {
        lemma_filter_all(rows, p);
    }
}

proof fn lemma_filter_all(rows: Seq<RowView>, p: spec_fn(RowView) -> bool)
    requires
        forall|x: RowView| #[trigger] p(x),
    ensures
        rows.filter(p) == rows,
    decreases rows.len(),
{
    if rows.len() > 0 {
        lemma_filter_all(rows.drop_last(), p);
        rows.drop_last().lemma_filter_push(rows.last(), p);
        assert(rows.drop_last().push(rows.last()) =~= rows);
    } else {
        assert(rows.filter(p) =~= rows);
    }
}

/// Keeps the log rows that the attribute filters allow, in order.
pub fn allowed_rows(rows: Vec<Row>, allowed: &Option<Vec<DocumentId>>) -> (r: Vec<Row>)
    ensures
        row_views(r@) == row_views(rows@).filter(allowed_by(
            match allowed {
                Some(v) => Some(id_views(v@)),
                None => None,
            },
        )),
{
    let ghost all = row_views(rows@);
    let ghost pred = allowed_by(
        match allowed {
            Some(v) => Some(id_views(v@)),
            None => None,
        },
    );
    let mut out: Vec<Row> = Vec::new();
    for row in it: rows.into_iter()
        invariant
            all == row_views(it.seq()),
            pred == allowed_by(
                match allowed {
                    Some(v) => Some(id_views(v@)),
                    None => None,
                },
            ),
            row_views(out@) == all.take(it.index() as int).filter(pred),
    {
        let ghost i = it.index();
        let keep = match allowed {
            Some(ids) => contains_id(ids, &row.id),
            None => true,
        };
        proof {
            assert(all.take(i + 1) =~= all.take(i as int).push(all[i as int]));
            assert(all[i as int] == row@);
            all.take(i as int).lemma_filter_push(all[i as int], pred);
        }
        if keep {
            let ghost before = row_views(out@);
            let ghost rv = row@;
            out.push(row);
            proof {
                assert(row_views(out@) =~= before.push(rv));
            }
        }
    }
    proof {
        assert(all.take(all.len() as int) =~= all);
    }
    out
}

/// The key of a namespace's metadata object.
pub fn metadata_object_key() -> (k: &'static str)
    ensures
        k@ == "metadata/metadata.json"@,
{
    "metadata/metadata.json"
}

/// The cache key of a namespace's metadata: `metadata:{namespace}`.
pub fn metadata_cache_key(namespace: &str) -> (k: String)
    ensures
        k@ == "metadata:"@ + namespace@,
{
    String::from_str("metadata:").concat(namespace)
}

/// The cache key of a log file: `{namespace}/{key}`.
pub fn wal_cache_key(namespace: &str, key: &str) -> (k: String)
    ensures
        k@ == namespace@ + "/"@ + key@,
{
    let mut k = String::from_str(namespace);
    k.append("/");
    k.append(key);
    k
}

/// The cache key of a loaded vector index: `spfresh:{namespace}:{file}`.
pub fn spfresh_cache_key(namespace: &str, file: &str) -> (k: String)
    ensures
        k@ == "spfresh:"@ + namespace@ + ":"@ + file@,
{
    let mut k = String::from_str("spfresh:");
    k.append(namespace);
    k.append(":");
    k.append(file);
    k
}

/// The prefix of every cached vector index of a namespace:
/// `spfresh:{namespace}:`.
pub fn spfresh_cache_prefix(namespace: &str) -> (k: String)
    ensures
        k@ == "spfresh:"@ + namespace@ + ":"@,
{
    let mut k = String::from_str("spfresh:");
    k.append(namespace);
    k.append(":");
    k
}

/// The cache keys of deleted log files, in order.
pub fn deleted_file_cache_keys(namespace: &str, files: &Vec<String>) -> (r: Vec<String>)
    ensures
        texts(r@) == texts(files@).map_values(|f: Seq<char>| namespace@ + "/"@ + f),
{
    let mut r: Vec<String> = Vec::new();
    let mut i: usize = 0;
    while i < files.len()
        invariant
            i <= files@.len(),
            texts(r@) == texts(files@).take(i as int).map_values(|f: Seq<char>| namespace@ + "/"@ + f),
        decreases files@.len() - i,
    {
        let k = wal_cache_key(namespace, files[i].as_str());
        let ghost pre = texts(r@);
        r.push(k);
        proof {
            assert(texts(r@) =~= pre.push(namespace@ + "/"@ + files@[i as int]@));
            assert(texts(files@).take(i + 1).map_values(|f: Seq<char>| namespace@ + "/"@ + f) =~= texts(files@).take(
                i as int,
            ).map_values(|f: Seq<char>| namespace@ + "/"@ + f).push(namespace@ + "/"@ + files@[i as int]@));
        }
        i = i + 1;
    }
    assert(texts(files@).take(files@.len() as int) =~= texts(files@));
    r
}

/// The contents that were found, in the order of their slots.
pub open spec fn found_chunks(slots: Seq<Option<Vec<u8>>>) -> Seq<Seq<u8>>
    decreases slots.len(),
{
    if slots.len() == 0 {
        Seq::empty()
    } else {
        let r = found_chunks(slots.drop_last());
        match slots.last() {
            Some(c) => r.push(c@),
            None => r,
        }
    }
}

/// Assembles fetched log files in the order of the metadata's file list,
/// skipping files that were not found: replay depends on log order.
pub fn assemble_chunks(slots: Vec<Option<Vec<u8>>>) -> (r: Vec<Vec<u8>>)
    ensures
        r@.map_values(|c: Vec<u8>| c@) == found_chunks(slots@),
{
    let ghost all = slots@;
    let mut out: Vec<Vec<u8>> = Vec::new();
    for slot in it: slots.into_iter()
        invariant
            it.seq() == all,
            out@.map_values(|c: Vec<u8>| c@) == found_chunks(all.take(it.index() as int)),
    {
        let ghost j = it.index();
        let ghost pre = out@.map_values(|c: Vec<u8>| c@);
        proof {
            assert(all[j as int] == slot);
            assert(all.take(j + 1).drop_last() =~= all.take(j as int));
            assert(all.take(j + 1).last() == slot);
        }
        match slot {
            Some(c) => {
                let ghost cv = c@;
                out.push(c);
                proof {
                    assert(out@.map_values(|c: Vec<u8>| c@) =~= pre.push(cv));
                }
            },
            None => {},
        }
    }
    proof {
        assert(all.take(all.len() as int) =~= all);
    }
    out
}

/// What a metadata write with compare-and-swap does after one attempt.
#[derive(Debug, Clone, Copy, PartialEq, Eq, Structural)]
pub enum PersistAction {
    /// The write went through.
    Stored,
    /// Another writer got there first: merge this update on top of the
    /// stored metadata and try again.
    MergeAndRetry,
    /// The write failed for another reason.
    Fail,
}

/// The action after one conditional metadata write; `None` is success.
pub fn after_metadata_put(failure: Option<FailureKind>) -> (a: PersistAction)
    ensures
        a == match failure {
            None => PersistAction::Stored,
            Some(FailureKind::PreconditionFailed) => PersistAction::MergeAndRetry,
            Some(_) => PersistAction::Fail,
        },
{
    match failure {
        None => PersistAction::Stored,
        Some(FailureKind::PreconditionFailed) => PersistAction::MergeAndRetry,
        Some(_) => PersistAction::Fail,
    }
}

/// Whether another attempt is allowed after `attempts` of `max_retries`.
pub fn may_retry(attempts: usize, max_retries: usize) -> (b: bool)
    ensures
        b == (attempts < max_retries),
{
    attempts < max_retries
}

/// The failure when every attempt met a conflict.
pub fn retries_exhausted_message() -> (m: &'static str)
    ensures
        m@ == "Max retries exceeded for metadata persistence"@,
{
    "Max retries exceeded for metadata persistence"
}

} // verus!
