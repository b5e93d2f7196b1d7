//! The compactor's decisions: which namespaces are being compacted, which
//! log files one cycle takes, and how the metadata changes when a cycle
//! commits. Downloads, uploads and the retry loop run outside the library.
use vstd::prelude::*;
use crate::engine::{
    texts, opt_text, IndexState, IndexStatus, Metadata, MetadataView, Schema,
};
use crate::vectors::DistanceMetric;
use vstd::utf8::encode_utf8;
use vstd::string::StringExecFns;
use crate::candidates::cand_view;
use crate::client::row_views;
use crate::engine::{
    find_pending, first_pending, id_text, id_views, id_well_formed, patched_row, pend_pairs, tomb_pairs, DocId,
    DocumentId, PendingView, ReplayOutcome, Row, RowView,
};
use crate::spfresh::{op_views, DeltaOperation, OpView};

verus! {

/// A request to compact a namespace.
#[derive(Debug, Clone)]
pub struct CompactionRequest {
    pub namespace: String,
    pub forced: bool,
}

/// The request that an ordinary compaction trigger queues.
pub fn trigger_compaction(namespace: &str) -> (r: CompactionRequest)
    ensures
        r.namespace@ == namespace@,
        !r.forced,
{
    CompactionRequest { namespace: namespace.to_owned(), forced: false }
}

/// The request that a forced compaction trigger queues.
pub fn trigger_forced_compaction(namespace: &str) -> (r: CompactionRequest)
    ensures
        r.namespace@ == namespace@,
        r.forced,
{
    CompactionRequest { namespace: namespace.to_owned(), forced: true }
}

/// The namespaces whose compaction is running, each once.
#[derive(Debug)]
pub struct Compactor {
    processing: Vec<String>,
}

impl View for Compactor {
    type V = Set<Seq<char>>;

    closed spec fn view(&self) -> Set<Seq<char>> {
        texts(self.processing@).to_set()
    }
}

/// Claiming a namespace: whether the claim succeeds, and the set after it.
pub open spec fn claim(running: Set<Seq<char>>, ns: Seq<char>) -> (bool, Set<Seq<char>>) {
    (!running.contains(ns), running.insert(ns))
}

impl Compactor {
    /// Nothing is being compacted.
    pub fn new() -> (c: Compactor)
        ensures
            c@ == Set::<Seq<char>>::empty(),
    {
        let c = Compactor { processing: Vec::new() };
        assert(c@ =~= Set::<Seq<char>>::empty());
        c
    }

    fn position(&self, namespace: &str) -> (r: Option<usize>)
        ensures
            match r {
                Some(i) => i < self.processing@.len() && self.processing@[i as int]@ == namespace@,
                None => !self@.contains(namespace@),
            },
    {
        let ns = namespace.to_owned();
        let n = self.processing.len();
        let mut i: usize = 0;
        while i < n
            invariant
                n == self.processing@.len(),
                ns@ == namespace@,
                i <= n,
                forall|j: int| 0 <= j < i ==> self.processing@[j]@ != namespace@,
            decreases n - i,
        {
            if self.processing[i] == ns {
                return Some(i);
            }
            i = i + 1;
        }
        proof {
            if self@.contains(namespace@) {
                let k = choose|k: int| 0 <= k < texts(self.processing@).len() && texts(self.processing@)[k]
                    == namespace@;
                assert(self.processing@[k]@ == namespace@);
            }
        }
        None
    }

    /// Whether a compaction of the namespace is running.
    pub fn is_processing(&self, namespace: &str) -> (b: bool)
        ensures
            b == self@.contains(namespace@),
    {
        match self.position(namespace) {
            Some(i) => {
                assert(texts(self.processing@)[i as int] == namespace@);
                true
            },
            None => false,
        }
    }

    /// Claims the namespace for compaction. Fails when a compaction of it is
    /// already running; the namespace is marked as running either way.
    pub fn try_begin(&mut self, namespace: &str) -> (b: bool)
        ensures
            (b, final(self)@) == claim(old(self)@, namespace@),
    {
        if self.is_processing(namespace) {
            assert(old(self)@.insert(namespace@) =~= old(self)@);
            return false;
        }
        let ghost pre = texts(self.processing@);
        self.processing.push(namespace.to_owned());
        proof {
            assert(texts(self.processing@) =~= pre.push(namespace@));
            assert forall|y: Seq<char>| texts(self.processing@).to_set().contains(y)
                <==> pre.to_set().insert(namespace@).contains(y) by {
                let post = texts(self.processing@);
                if post.to_set().contains(y) {
                    let k = choose|k: int| 0 <= k < post.len() && post[k] == y;
                    if k < pre.len() {
                        assert(pre[k] == y);
                    }
                }
                if pre.to_set().contains(y) {
                    let k = choose|k: int| 0 <= k < pre.len() && pre[k] == y;
                    assert(post[k] == y);
                }
                if y == namespace@ {
                    assert(post[pre.len() as int] == y);
                }
            }
            assert(self@ =~= old(self)@.insert(namespace@));
        }
        true
    }

    /// Releases the namespace after its compaction ends.
    pub fn finish(&mut self, namespace: &str)
        ensures
            final(self)@ == old(self)@.remove(namespace@),
    {
        let ghost pre = texts(self.processing@);
        let ns = namespace.to_owned();
        let mut out: Vec<String> = Vec::new();
        let n = self.processing.len();
        let mut i: usize = 0;
        while i < n
            invariant
                n == self.processing@.len(),
                ns@ == namespace@,
                pre == texts(self.processing@),
                i <= n,
                forall|y: Seq<char>| texts(out@).to_set().contains(y) <==> (texts(self.processing@.take(i as int)).to_set().contains(y)
                    && y != namespace@),
            decreases n - i,
        {
            let ghost before = texts(out@);
            if self.processing[i] != ns {
                out.push(self.processing[i].clone());
            }
            proof {
                let t = texts(self.processing@.take(i + 1));
                assert(t =~= texts(self.processing@.take(i as int)).push(self.processing@[i as int]@));
                assert forall|y: Seq<char>| texts(out@).to_set().contains(y) <==> (t.to_set().contains(y)
                    && y != namespace@) by {
                    let tp = texts(self.processing@.take(i as int));
                    if texts(out@).to_set().contains(y) {
                        let k = choose|k: int| 0 <= k < texts(out@).len() && texts(out@)[k] == y;
                        if k < before.len() {
                            assert(before[k] == y);
                            assert(before.to_set().contains(y));
                            let m = choose|m: int| 0 <= m < tp.len() && tp[m] == y;
                            assert(t[m] == y);
                        } else {
                            assert(t[i as int] == y);
                        }
                    }
                    if t.to_set().contains(y) && y != namespace@ {
                        let k = choose|k: int| 0 <= k < t.len() && t[k] == y;
                        if k < i {
                            assert(tp[k] == y);
                            assert(tp.to_set().contains(y));
                            assert(before.to_set().contains(y));
                            let m = choose|m: int| 0 <= m < before.len() && before[m] == y;
                            assert(texts(out@)[m] == y);
                        } else {
                            assert(texts(out@)[texts(out@).len() - 1] == y);
                        }
                    }
                }
            }
            i = i + 1;
        }
        proof {
            assert(self.processing@.take(n as int) =~= self.processing@);
        }
        self.processing = out;
        proof {
            assert(self@ =~= old(self)@.remove(namespace@));
        }
    }
}

/// One compaction at a time per namespace: while a claim on a namespace is
/// held, claiming it again fails; after the release it succeeds again.
pub proof fn claims_exclude_each_other(running: Set<Seq<char>>, ns: Seq<char>)
    ensures
        !claim(claim(running, ns).1, ns).0,
        claim(claim(running, ns).1.remove(ns), ns).0,
{
}

/// A cycle is skipped, unless forced, when at most one log file is pending.
pub fn should_skip_compaction(metadata: &Metadata, force: bool) -> (b: bool)
    ensures
        b == (!force && metadata.wal_files@.len() <= 1),
{
    !force && metadata.wal_files.len() <= 1
}

/// Another cycle is due when enough log files remain after this one.
pub fn more_compaction_pending(metadata: &Metadata, wal_count_threshold: usize) -> (b: bool)
    ensures
        b == (metadata.wal_files@.len() >= wal_count_threshold),
{
    metadata.wal_files.len() >= wal_count_threshold
}

/// The log files that one compaction cycle takes, gathered one file at a
/// time: the keys taken (a missing file is taken without data), how many
/// files with data were taken, and their total size.
#[derive(Debug)]
pub struct WalBatchSelection {
    pub keys: Vec<String>,
    pub chunk_count: usize,
    pub total_bytes: u64,
}

impl WalBatchSelection {
    /// Nothing taken yet.
    pub fn new() -> (s: WalBatchSelection)
        ensures
            s.keys@.len() == 0,
            s.chunk_count == 0,
            s.total_bytes == 0,
    {
        WalBatchSelection { keys: Vec::new(), chunk_count: 0, total_bytes: 0 }
    }

    /// Offers the next log file: its key and its size, or `None` when the
    /// file is missing. Unless forced, a file that would push the batch past
    /// `max_bytes` ends the batch (returns `false`, nothing taken), except
    /// that the first file with data is always taken.
    pub fn offer(&mut self, key: String, size: Option<u64>, force: bool, max_bytes: u64) -> (go_on: bool)
        requires
            size matches Some(n) ==> old(self).total_bytes + n <= u64::MAX,
            old(self).chunk_count < usize::MAX,
        ensures
            match size {
                Some(n) => if !force && old(self).total_bytes + n > max_bytes && old(self).chunk_count > 0 {
                    &&& !go_on
                    &&& final(self).keys@ == old(self).keys@
                    &&& final(self).chunk_count == old(self).chunk_count
                    &&& final(self).total_bytes == old(self).total_bytes
                } else {
                    &&& go_on
                    &&& final(self).keys@ == old(self).keys@.push(key)
                    &&& final(self).chunk_count == old(self).chunk_count + 1
                    &&& final(self).total_bytes == old(self).total_bytes + n
                },
                None => {
                    &&& go_on
                    &&& final(self).keys@ == old(self).keys@.push(key)
                    &&& final(self).chunk_count == old(self).chunk_count
                    &&& final(self).total_bytes == old(self).total_bytes
                },
            },
    {
        match size {
            Some(n) => {
                let over_limit = self.total_bytes + n > max_bytes;
                if !force && over_limit && self.chunk_count > 0 {
                    return false;
                }
                self.total_bytes = self.total_bytes + n;
                self.chunk_count = self.chunk_count + 1;
                self.keys.push(key);
                true
            },
            None => {
                self.keys.push(key);
                true
            },
        }
    }
}

/// The texts of `s` that are not among `gone`, in order.
pub open spec fn without(s: Seq<Seq<char>>, gone: Seq<Seq<char>>) -> Seq<Seq<char>>
    decreases s.len(),
{
    if s.len() == 0 {
        Seq::empty()
    } else if gone.contains(s.last()) {
        without(s.drop_last(), gone)
    } else {
        without(s.drop_last(), gone).push(s.last())
    }
}

/// Appends the value when there is one.
pub open spec fn push_some(s: Seq<Seq<char>>, o: Option<Seq<char>>) -> Seq<Seq<char>> {
    match o {
        Some(x) => s.push(x),
        None => s,
    }
}

pub fn contains_text(list: &Vec<String>, x: &String) -> (b: bool)
    ensures
        b == texts(list@).contains(x@),
{
    let n = list.len();
    let mut i: usize = 0;
    while i < n
        invariant
            n == list@.len(),
            i <= n,
            forall|j: int| 0 <= j < i ==> list@[j]@ != x@,
        decreases n - i,
    {
        if list[i] == *x {
            assert(texts(list@)[i as int] == x@);
            return true;
        }
        i = i + 1;
    }
    proof {
        if texts(list@).contains(x@) {
            let k = choose|k: int| 0 <= k < texts(list@).len() && texts(list@)[k] == x@;
            assert(list@[k]@ == x@);
        }
    }
    false
}

/// The metadata after a compaction cycle commits:
/// - the compacted log files leave the pending list and wait for deletion;
/// - the unindexed byte count drops by their size (not below zero), and to
///   zero when no log file is pending;
/// - a new vector index replaces the old one, which waits for deletion, and
///   sets the indexed row count; a new inverted index likewise;
/// - the indexes are up to date, as of `now`.
pub fn apply_compaction(
    metadata: Metadata,
    compacted_keys: &Vec<String>,
    compacted_bytes: u64,
    ann_index_key: Option<String>,
    inverted_index_key: Option<String>,
    indexed_rows: u64,
    now: i64,
) -> (m: Metadata)
    ensures
        m@.wal_files == without(metadata@.wal_files, texts(compacted_keys@)),
        m@.deleted_files == push_some(
            push_some(
                metadata@.deleted_files + texts(compacted_keys@),
                if ann_index_key is Some { metadata@.ann_index_file } else { None },
            ),
            if inverted_index_key is Some { metadata@.inverted_index_file } else { None },
        ),
        m.unindexed_bytes == if m@.wal_files.len() == 0 {
            0
        } else if metadata.unindexed_bytes >= compacted_bytes {
            (metadata.unindexed_bytes - compacted_bytes) as u64
        } else {
            0
        },
        m@.ann_index_file == if ann_index_key is Some { opt_text(ann_index_key) } else { metadata@.ann_index_file },
        m.index.indexed_row_count == if ann_index_key is Some { indexed_rows } else { metadata.index.indexed_row_count },
        m@.inverted_index_file == if inverted_index_key is Some {
            opt_text(inverted_index_key)
        } else {
            metadata@.inverted_index_file
        },
        m.index.status == IndexStatus::UpToDate,
        m.updated_at == now,
        m.index.unindexed_bytes == metadata.index.unindexed_bytes,
        m.approx_row_count == metadata.approx_row_count,
        m.created_at == metadata.created_at,
        m.distance_metric == metadata.distance_metric,
        m.schema == metadata.schema,
        m.vector_dimensions == metadata.vector_dimensions,
{
    let Metadata {
        approx_row_count,
        index,
        created_at,
        updated_at: _,
        wal_files,
        deleted_files,
        unindexed_bytes,
        distance_metric,
        schema,
        vector_dimensions,
    } = metadata;
    let ghost gone = texts(compacted_keys@);
    // pending log files without the compacted ones
    let mut remaining: Vec<String> = Vec::new();
    let n = wal_files.len();
    let mut i: usize = 0;
    while i < n
        invariant
            n == wal_files@.len(),
            gone == texts(compacted_keys@),
            i <= n,
            texts(remaining@) == without(texts(wal_files@.take(i as int)), gone),
        decreases n - i,
    {
        proof {
            let t = texts(wal_files@.take(i + 1));
            assert(t.drop_last() =~= texts(wal_files@.take(i as int)));
            assert(t.last() == wal_files@[i as int]@);
        }
        if !contains_text(compacted_keys, &wal_files[i]) {
            let ghost before = texts(remaining@);
            remaining.push(wal_files[i].clone());
            proof {
                assert(texts(remaining@) =~= before.push(wal_files@[i as int]@));
            }
        }
        i = i + 1;
    }
    proof {
        assert(wal_files@.take(n as int) =~= wal_files@);
    }
    // compacted files wait for deletion
    let mut deleted = deleted_files;
    let ghost d0 = texts(deleted@);
    let mut j: usize = 0;
    while j < compacted_keys.len()
        invariant
            j <= compacted_keys@.len(),
            gone == texts(compacted_keys@),
            texts(deleted@) == d0 + gone.take(j as int),
        decreases compacted_keys@.len() - j,
    {
        let ghost before = texts(deleted@);
        deleted.push(compacted_keys[j].clone());
        proof {
            assert(texts(deleted@) =~= before.push(compacted_keys@[j as int]@));
            assert(gone.take(j + 1) =~= gone.take(j as int).push(compacted_keys@[j as int]@));
            assert(d0 + gone.take(j + 1) =~= (d0 + gone.take(j as int)).push(compacted_keys@[j as int]@));
        }
        j = j + 1;
    }
    proof {
        assert(gone.take(compacted_keys@.len() as int) =~= gone);
    }
    let mut unindexed = if unindexed_bytes >= compacted_bytes {
        unindexed_bytes - compacted_bytes
    } else {
        0
    };
    if remaining.len() == 0 {
        unindexed = 0;
    }
    let IndexState {
        status: _,
        unindexed_bytes: index_unindexed,
        ann_index_file,
        inverted_index_file,
        indexed_row_count,
    } = index;
    let mut ann = ann_index_file;
    let mut rows = indexed_row_count;
    if let Some(key) = ann_index_key {
        if let Some(old) = ann {
            let ghost before = texts(deleted@);
            let ghost ov = old@;
            deleted.push(old);
            proof {
                assert(texts(deleted@) =~= before.push(ov));
            }
        }
        ann = Some(key);
        rows = indexed_rows;
    }
    let mut inverted = inverted_index_file;
    if let Some(key) = inverted_index_key {
        if let Some(old) = inverted {
            let ghost before = texts(deleted@);
            let ghost ov = old@;
            deleted.push(old);
            proof {
                assert(texts(deleted@) =~= before.push(ov));
            }
        }
        inverted = Some(key);
    }
    Metadata {
        approx_row_count,
        index: IndexState {
            status: IndexStatus::UpToDate,
            unindexed_bytes: index_unindexed,
            ann_index_file: ann,
            inverted_index_file: inverted,
            indexed_row_count: rows,
        },
        created_at,
        updated_at: now,
        wal_files: remaining,
        deleted_files: deleted,
        unindexed_bytes: unindexed,
        distance_metric,
        schema,
        vector_dimensions,
    }
}

/// After cleanup, the files whose deletion failed remain scheduled.
pub fn finish_cleanup(metadata: &mut Metadata, failed: Vec<String>, now: i64)
    ensures
        *final(metadata) == (Metadata { deleted_files: failed, updated_at: now, ..*old(metadata) }),
{
    metadata.deleted_files = failed;
    metadata.updated_at = now;
}

/// Whether a key names a log file: its UTF-8 bytes start with `wal/`.
pub open spec fn is_wal_key(k: Seq<char>) -> bool {
    let b = encode_utf8(k);
    b.len() >= 4 && b[0] == 119 && b[1] == 97 && b[2] == 108 && b[3] == 47
}

/// Keeps the keys of log files, in order.
pub fn filter_wal_keys(files: Vec<String>) -> (r: Vec<String>)
    ensures
        texts(r@) == texts(files@).filter(|k: Seq<char>| is_wal_key(k)),
{
    let ghost all = texts(files@);
    let mut out: Vec<String> = Vec::new();
    let n = files.len();
    let mut i: usize = 0;
    while i < n
        invariant
            n == files@.len(),
            all == texts(files@),
            i <= n,
            texts(out@) == all.take(i as int).filter(|k: Seq<char>| is_wal_key(k)),
        decreases n - i,
    {
        let b = files[i].as_str().as_bytes();
        let keep = b.len() >= 4 && b[0] == 119 && b[1] == 97 && b[2] == 108 && b[3] == 47;
        proof {
            assert(all.take(i + 1).drop_last() =~= all.take(i as int));
            assert(all.take(i + 1).last() == files@[i as int]@);
            assert(keep == is_wal_key(files@[i as int]@));
            reveal(Seq::filter);
        }
        if keep {
            let ghost before = texts(out@);
            out.push(files[i].clone());
            proof {
                assert(texts(out@) =~= before.push(files@[i as int]@));
            }
        }
        i = i + 1;
    }
    proof {
        assert(all.take(n as int) =~= all);
    }
    out
}

/// The metadata of a namespace rebuilt from its log files at time `now`,
/// with no indexes.
pub fn fresh_metadata_at(wal_files: Vec<String>, now: i64) -> (m: Metadata)
    ensures
        m@ == (MetadataView {
            approx_row_count: 0,
            status: IndexStatus::Updating,
            index_unindexed_bytes: None,
            ann_index_file: None,
            inverted_index_file: None,
            indexed_row_count: 0,
            created_at: now,
            updated_at: now,
            wal_files: texts(wal_files@),
            deleted_files: Seq::empty(),
            unindexed_bytes: 0,
            distance_metric: DistanceMetric::CosineDistance,
            index_attributes: Seq::empty(),
            vector_dimensions: None,
        }),
{
    let m = Metadata {
        approx_row_count: 0,
        index: IndexState {
            status: IndexStatus::Updating,
            unindexed_bytes: None,
            ann_index_file: None,
            inverted_index_file: None,
            indexed_row_count: 0,
        },
        created_at: now,
        updated_at: now,
        wal_files,
        deleted_files: Vec::new(),
        unindexed_bytes: 0,
        distance_metric: DistanceMetric::CosineDistance,
        schema: Schema { index_attributes: Vec::new() },
        vector_dimensions: None,
    };
    assert(texts(m.deleted_files@) =~= Seq::<Seq<char>>::empty());
    assert(texts(m.schema.index_attributes@) =~= Seq::<Seq<char>>::empty());
    m
}

/// How a compaction cycle brings the vector index up to date.
#[derive(Debug, Clone, Copy, PartialEq, Eq, Structural)]
pub enum AnnIndexPlan {
    /// Insert the rows into the existing index (after rebuilding its
    /// document placement when that was lost).
    Extend { rebuild_placement: bool },
    /// The existing index has other dimensions: build a new one.
    Rebuild,
    /// No index yet: build one.
    Build,
    /// No index yet and too few rows to justify one: none is written.
    Skip,
}

/// The plan for the vector index, given the loaded index (its dimensions,
/// whether its document placement is empty, whether it has postings), the
/// dimensions of the new rows, how many rows there are, and whether the
/// cycle is forced. An index is only started from ten rows on, unless forced.
pub fn plan_ann_index(
    existing: Option<(usize, bool, bool)>,
    dimensions: usize,
    row_count: usize,
    force: bool,
) -> (p: AnnIndexPlan)
    ensures
        p == match existing {
            Some((d, placement_empty, has_postings)) => if d == dimensions {
                AnnIndexPlan::Extend { rebuild_placement: placement_empty && has_postings }
            } else {
                AnnIndexPlan::Rebuild
            },
            None => if row_count < 10 && !force {
                AnnIndexPlan::Skip
            } else {
                AnnIndexPlan::Build
            },
        },
{
    match existing {
        Some((d, placement_empty, has_postings)) => {
            if d == dimensions {
                AnnIndexPlan::Extend { rebuild_placement: placement_empty && has_postings }
            } else {
                AnnIndexPlan::Rebuild
            }
        },
        None => {
            if row_count < 10 && !force {
                AnnIndexPlan::Skip
            } else {
                AnnIndexPlan::Build
            }
        },
    }
}

/// What the sweeper does for a namespace that is not being compacted.
#[derive(Debug, Clone, Copy, PartialEq, Eq, Structural)]
pub struct SweepActions {
    /// Delete the files that wait for deletion.
    pub clean_up: bool,
    /// Queue a compaction.
    pub compact: bool,
}

/// The sweeper's decisions: clean up when files wait for deletion, and
/// queue a compaction when enough log files or unindexed bytes pile up.
pub fn sweep_actions(metadata: &Metadata, wal_count_threshold: usize, bytes_threshold: u64) -> (a: SweepActions)
    ensures
        a.clean_up == (metadata.deleted_files@.len() > 0),
        a.compact == (metadata.wal_files@.len() >= wal_count_threshold || metadata.unindexed_bytes
            >= bytes_threshold),
{
    SweepActions {
        clean_up: metadata.deleted_files.len() > 0,
        compact: metadata.wal_files.len() >= wal_count_threshold || metadata.unindexed_bytes >= bytes_threshold,
    }
}

/// The failure when every compaction commit met a conflict.
pub fn swap_retries_exhausted(namespace: &str) -> (m: String)
    ensures
        m@ == "Max retries exceeded for compaction metadata swap for "@ + namespace@,
{
    String::from_str("Max retries exceeded for compaction metadata swap for ").concat(namespace)
}

/// The failure when every cleanup commit met a conflict.
pub fn cleanup_retries_exhausted(namespace: &str) -> (m: String)
    ensures
        m@ == "Max retries exceeded for deleted-file cleanup for "@ + namespace@,
{
    String::from_str("Max retries exceeded for deleted-file cleanup for ").concat(namespace)
}

/// The changes that a compacted log makes to rows already in the vector
/// index, each given with its posting, in order: a row that the log deleted
/// after it was written leaves its posting (a delete); otherwise a row whose
/// document has a pending patch newer than the row is replaced by the
/// patched row (an insert, using the patch up); other rows are left alone.
pub open spec fn settle_indexed(
    deleted: Map<DocId, i64>,
    pend: Seq<PendingView>,
    indexed: Seq<(u32, RowView)>,
) -> Seq<(u32, OpView)>
    decreases indexed.len(),
{
    if indexed.len() == 0 {
        Seq::empty()
    } else {
        let p = indexed[0].0;
        let r = indexed[0].1;
        let k = first_pending(pend, r.id);
        if deleted.contains_key(r.id) && deleted[r.id] > r.timestamp {
            seq![(p, OpView::Delete(id_text(r.id)))] + settle_indexed(deleted, pend, indexed.drop_first())
        } else if k is Some && pend[k->0].1.0 > r.timestamp {
            seq![(p, OpView::Insert(patched_row(r, pend[k->0].1)))] + settle_indexed(
                deleted,
                pend.remove(k->0),
                indexed.drop_first(),
            )
        } else {
            settle_indexed(deleted, pend, indexed.drop_first())
        }
    }
}

/// Plans how a compacted log settles the rows already indexed: deletions
/// and pending patches of the log reach the vector index before the log
/// files go. The rows are those of the documents that the log deleted or
/// patched (see `touched_documents`), each with its posting. See
/// `settle_indexed`.
pub fn settle_indexed_rows(indexed: Vec<(u32, Row)>, replayed: ReplayOutcome) -> (ops: Vec<(u32, DeltaOperation)>)
    requires
        replayed.wf(),
        forall|i: int| 0 <= i < indexed@.len() ==> id_well_formed(#[trigger] indexed@[i].1.id@),
    ensures
        op_views(ops@) == settle_indexed(replayed@.deleted, pend_pairs(replayed.pending@), cand_view(indexed@)),
        forall|i: int| 0 <= i < ops@.len() ==> (#[trigger] ops@[i].1 matches DeltaOperation::Insert { row }
            ==> id_well_formed(row.id@)),
{
    let ghost all = cand_view(indexed@);
    let ghost deleted = replayed@.deleted;
    let ghost pend0 = pend_pairs(replayed.pending@);
    let ghost ids_ok = indexed@;
    let ReplayOutcome { rows: live, tombstones, pending } = replayed;
    let check = ReplayOutcome { rows: live, tombstones, pending: Vec::new() };
    proof {
        crate::keyed::lemma_map_empty(pend_pairs(check.pending@));
        assert(check@.deleted == deleted);
    }
    let mut pend = pending;
    let mut ops: Vec<(u32, DeltaOperation)> = Vec::new();
    proof {
        assert(all.skip(0) =~= all);
        assert(op_views(ops@) + settle_indexed(deleted, pend_pairs(pend@), all.skip(0)) =~= settle_indexed(
            deleted,
            pend0,
            all,
        ));
    }
    for c in it: indexed.into_iter()
        invariant
            all == cand_view(it.seq()),
            ids_ok == it.seq(),
            forall|i: int| 0 <= i < ids_ok.len() ==> id_well_formed(#[trigger] ids_ok[i].1.id@),
            check.wf(),
            check@.deleted == deleted,
            op_views(ops@) + settle_indexed(deleted, pend_pairs(pend@), all.skip(it.index() as int))
                == settle_indexed(deleted, pend0, all),
            forall|i: int| 0 <= i < ops@.len() ==> (#[trigger] ops@[i].1 matches DeltaOperation::Insert { row }
                ==> id_well_formed(row.id@)),
    {
        let ghost i = it.index();
        let ghost rest = all.skip(i as int);
        let ghost pv = pend_pairs(pend@);
        let ghost before = op_views(ops@);
        proof {
            assert(all[i as int] == (c.0, c.1@));
            assert(rest[0] == all[i as int]);
            assert(rest.drop_first() =~= all.skip(i + 1));
            assert(ids_ok[i as int] == c);
            assert(id_well_formed(c.1.id@));
        }
        let (posting, mut row) = c;
        let ghost rv = row@;
        if check.is_deleted_after(&row.id, row.timestamp) {
            let text = row.id.to_text();
            ops.push((posting, DeltaOperation::Delete { doc_id: text }));
            proof {
                assert(op_views(ops@) =~= before.push((posting, OpView::Delete(id_text(rv.id)))));
                assert(before.push((posting, OpView::Delete(id_text(rv.id)))) + settle_indexed(deleted, pv, all.skip(i + 1))
                    =~= before + (seq![(posting, OpView::Delete(id_text(rv.id)))] + settle_indexed(
                    deleted,
                    pv,
                    all.skip(i + 1),
                )));
            }
        } else {
            match find_pending(&pend, &row.id) {
                Some(k) => {
                    if pend[k].1 > row.timestamp {
                        let ghost pk = pv[k as int].1;
                        let (_, pts, pattrs) = pend.remove(k);
                        proof {
                            assert(pk == (pts, pattrs@));
                            assert(pend_pairs(pend@) =~= pv.remove(k as int));
                        }
                        row.attributes.merge_from(pattrs);
                        row.timestamp = pts;
                        let ghost nv = row@;
                        proof {
                            assert(nv == patched_row(rv, pk));
                        }
                        ops.push((posting, DeltaOperation::Insert { row }));
                        proof {
                            assert(op_views(ops@) =~= before.push((posting, OpView::Insert(nv))));
                            assert(before.push((posting, OpView::Insert(nv))) + settle_indexed(
                                deleted,
                                pend_pairs(pend@),
                                all.skip(i + 1),
                            ) =~= before + (seq![(posting, OpView::Insert(nv))] + settle_indexed(
                                deleted,
                                pend_pairs(pend@),
                                all.skip(i + 1),
                            )));
                        }
                    }
                },
                None => {},
            }
        }
    }
    proof {
        assert(all.skip(all.len() as int) =~= Seq::<(u32, RowView)>::empty());
        assert(op_views(ops@) + Seq::<(u32, OpView)>::empty() =~= op_views(ops@));
    }
    ops
}

/// The documents whose indexed rows a compacted log may change: those it
/// deleted, then those it patched while holding no live row of them.
pub fn touched_documents(replayed: &ReplayOutcome) -> (ids: Vec<DocumentId>)
    ensures
        id_views(ids@) == tomb_pairs(replayed.tombstones@).map_values(|p: (DocId, i64)| p.0) + pend_pairs(
            replayed.pending@,
        ).map_values(|p: PendingView| p.0),
{
    let mut ids: Vec<DocumentId> = Vec::new();
    let ghost tv = tomb_pairs(replayed.tombstones@).map_values(|p: (DocId, i64)| p.0);
    let ghost pv = pend_pairs(replayed.pending@).map_values(|p: PendingView| p.0);
    let mut i: usize = 0;
    while i < replayed.tombstones.len()
        invariant
            i <= replayed.tombstones@.len(),
            tv == tomb_pairs(replayed.tombstones@).map_values(|p: (DocId, i64)| p.0),
            id_views(ids@) == tv.take(i as int),
        decreases replayed.tombstones@.len() - i,
    {
        let ghost before = id_views(ids@);
        ids.push(replayed.tombstones[i].0.duplicate());
        proof {
            assert(id_views(ids@) =~= before.push(replayed.tombstones@[i as int].0@));
            assert(tv.take(i + 1) =~= tv.take(i as int).push(tv[i as int]));
        }
        i = i + 1;
    }
    proof {
        assert(tv.take(i as int) =~= tv);
    }
    let mut j: usize = 0;
    while j < replayed.pending.len()
        invariant
            j <= replayed.pending@.len(),
            tv.len() == replayed.tombstones@.len(),
            pv == pend_pairs(replayed.pending@).map_values(|p: PendingView| p.0),
            id_views(ids@) == tv + pv.take(j as int),
        decreases replayed.pending@.len() - j,
    {
        let ghost before = id_views(ids@);
        ids.push(replayed.pending[j].0.duplicate());
        proof {
            assert(id_views(ids@) =~= before.push(replayed.pending@[j as int].0@));
            assert(pv.take(j + 1) =~= pv.take(j as int).push(pv[j as int]));
            assert(tv + pv.take(j + 1) =~= (tv + pv.take(j as int)).push(pv[j as int]));
        }
        j = j + 1;
    }
    proof {
        assert(pv.take(j as int) =~= pv);
    }
    ids
}

/// Deletes survive compaction: every indexed row that the compacted log
/// deleted after the row was written leaves its posting in the settling
/// changes, whatever the pending patches.
pub proof fn settling_removes_rows_deleted_later(
    deleted: Map<DocId, i64>,
    pend: Seq<PendingView>,
    indexed: Seq<(u32, RowView)>,
    i: int,
)
    requires
        0 <= i < indexed.len(),
        deleted.contains_key(indexed[i].1.id),
        deleted[indexed[i].1.id] > indexed[i].1.timestamp,
    ensures
        settle_indexed(deleted, pend, indexed).contains((indexed[i].0, OpView::Delete(id_text(indexed[i].1.id)))),
    decreases indexed.len(),
{
    let x = (indexed[i].0, OpView::Delete(id_text(indexed[i].1.id)));
    let rest = indexed.drop_first();
    let r = indexed[0].1;
    let k = first_pending(pend, r.id);
    if i == 0 {
        let out = settle_indexed(deleted, pend, indexed);
        assert(out[0] == x);
    } else {
        assert(rest[i - 1] == indexed[i]);
        let pend2 = if !(deleted.contains_key(r.id) && deleted[r.id] > r.timestamp) && k is Some && pend[k->0].1.0
            > r.timestamp {
            pend.remove(k->0)
        } else {
            pend
        };
        settling_removes_rows_deleted_later(deleted, pend2, rest, i - 1);
        let tail = settle_indexed(deleted, pend2, rest);
        let j = choose|j: int| 0 <= j < tail.len() && tail[j] == x;
        let out = settle_indexed(deleted, pend, indexed);
        if deleted.contains_key(r.id) && deleted[r.id] > r.timestamp {
            assert(out[j + 1] == x);
        } else if k is Some && pend[k->0].1.0 > r.timestamp {
            assert(out[j + 1] == x);
        } else {
            assert(out[j] == x);
        }
    }
}

/// Whether a compaction cycle has index work: rows to index, or documents
/// that the log deleted or patched.
pub fn index_work_needed(row_count: usize, touched_count: usize) -> (b: bool)
    ensures
        b == (row_count > 0 || touched_count > 0),
{
    row_count > 0 || touched_count > 0
}

} // verus!
