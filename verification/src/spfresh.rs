//! The bookkeeping of the SPFresh vector index: its settings, the pending
//! changes to postings (delta operations) and what applying them does, the
//! estimate of a posting's size, and the balance rules of reassignment.
//! Distances, centroids and the k-means split work on floating-point
//! numbers and run outside the library; centroids are carried here as the
//! bits of their components.
use vstd::prelude::*;
use crate::engine::{id_text, id_well_formed, Row, RowView};
use crate::client::row_views;
use crate::keyed::{has_key, keys_unique, lemma_map_all, lemma_map_empty, lemma_map_push, lemma_map_remove, lemma_map_update, seq_to_map};

verus! {

/// The settings of an SPFresh index.
#[derive(Debug, Clone, Copy, PartialEq, Eq, Structural)]
pub struct SPFreshConfig {
    pub max_posting_size: usize,
    pub min_posting_size: usize,
    pub neighbor_fanout: usize,
    pub search_fanout: usize,
    pub random_seed: u64,
}

impl Default for SPFreshConfig {
    fn default() -> (c: SPFreshConfig)
        ensures
            c == (SPFreshConfig {
                max_posting_size: 1000,
                min_posting_size: 100,
                neighbor_fanout: 32,
                search_fanout: 4,
                random_seed: 42,
            }),
    {
        SPFreshConfig {
            max_posting_size: 1000,
            min_posting_size: 100,
            neighbor_fanout: 32,
            search_fanout: 4,
            random_seed: 42,
        }
    }
}

/// A pending change to a posting.
#[derive(Debug, Clone)]
pub enum DeltaOperation {
    Insert { row: Row },
    Delete { doc_id: String },
    UpdateCentroid { new_centroid: Vec<u32> },
}

/// The pending changes to one posting, in order.
#[derive(Debug, Clone)]
pub struct PostingDelta {
    pub posting_id: u32,
    pub operations: Vec<DeltaOperation>,
    pub version: u64,
    pub created_at: i64,
}

/// A posting: a cluster of rows around a centroid.
#[derive(Debug, Clone)]
pub struct Posting {
    pub id: u32,
    pub rows: Vec<Row>,
    pub centroid: Vec<u32>,
    pub version: u64,
    pub created_at: i64,
}

pub open spec fn is_insert(op: DeltaOperation) -> bool {
    op matches DeltaOperation::Insert { .. }
}

pub open spec fn is_delete(op: DeltaOperation) -> bool {
    op matches DeltaOperation::Delete { .. }
}

/// How many operations satisfy a kind.
pub open spec fn count_kind(ops: Seq<DeltaOperation>, inserts: bool) -> nat
    decreases ops.len(),
{
    if ops.len() == 0 {
        0
    } else {
        count_kind(ops.drop_last(), inserts) + if (inserts && is_insert(ops.last())) || (!inserts && is_delete(
            ops.last(),
        )) {
            1nat
        } else {
            0nat
        }
    }
}

proof fn lemma_count_kind_bound(ops: Seq<DeltaOperation>, inserts: bool)
    ensures
        count_kind(ops, inserts) <= ops.len(),
    decreases ops.len(),
{
    if ops.len() > 0 {
        lemma_count_kind_bound(ops.drop_last(), inserts);
    }
}

fn count_operations(ops: &Vec<DeltaOperation>, inserts: bool) -> (n: usize)
    ensures
        n == count_kind(ops@, inserts),
{
    let mut n: usize = 0;
    let mut i: usize = 0;
    while i < ops.len()
        invariant
            i <= ops@.len(),
            n == count_kind(ops@.take(i as int), inserts),
            n <= i,
        decreases ops@.len() - i,
    {
        let hit = match &ops[i] {
            DeltaOperation::Insert { .. } => inserts,
            DeltaOperation::Delete { .. } => !inserts,
            DeltaOperation::UpdateCentroid { .. } => false,
        };
        proof {
            assert(ops@.take(i + 1).drop_last() =~= ops@.take(i as int));
            assert(ops@.take(i + 1).last() == ops@[i as int]);
        }
        if hit {
            n = n + 1;
        }
        i = i + 1;
    }
    assert(ops@.take(ops@.len() as int) =~= ops@);
    n
}

/// The estimated number of rows in a posting: the cached posting's size
/// when it is cached; else, with pending changes, the midpoint of the size
/// limits plus the pending inserts minus the pending deletes (saturating);
/// else half the largest size.
pub open spec fn size_estimate(cached_rows: Option<usize>, delta: Option<Seq<DeltaOperation>>, c: SPFreshConfig) -> int {
    match cached_rows {
        Some(n) => n as int,
        None => match delta {
            Some(ops) => {
                let mid = (c.max_posting_size + c.min_posting_size) / 2;
                let up = if mid + count_kind(ops, true) > usize::MAX {
                    usize::MAX as int
                } else {
                    mid + count_kind(ops, true)
                };
                if up < count_kind(ops, false) {
                    0
                } else {
                    up - count_kind(ops, false)
                }
            },
            None => (c.max_posting_size / 2) as int,
        },
    }
}

/// Estimates a posting's size without loading it (see `size_estimate`).
pub fn posting_size_estimate(cached_rows: Option<usize>, delta: Option<&PostingDelta>, config: &SPFreshConfig) -> (n:
    usize)
    ensures
        n == size_estimate(
            cached_rows,
            match delta {
                Some(d) => Some(d.operations@),
                None => None,
            },
            *config,
        ),
{
    match cached_rows {
        Some(n) => n,
        None => match delta {
            Some(d) => {
                let inserts = count_operations(&d.operations, true);
                let deletes = count_operations(&d.operations, false);
                let a = config.max_posting_size;
                let b = config.min_posting_size;
                let mid = a / 2 + b / 2 + (a % 2 + b % 2) / 2;
                assert(mid == (a + b) / 2);
                let up = mid.saturating_add(inserts);
                up.saturating_sub(deletes)
            },
            None => config.max_posting_size / 2,
        },
    }
}

/// Whether moving a row keeps postings balanced: the target must be below
/// four fifths of the largest size, and the current posting must keep more
/// than one row above the smallest size.
pub fn reassignment_keeps_balance(current_size: usize, target_size: usize, config: &SPFreshConfig) -> (b: bool)
    requires
        config.max_posting_size * 8 <= usize::MAX,
        config.min_posting_size < usize::MAX,
    ensures
        b == (target_size < (config.max_posting_size * 8) / 10 && current_size > config.min_posting_size + 1),
{
    if target_size >= (config.max_posting_size * 8) / 10 {
        return false;
    }
    if current_size <= config.min_posting_size + 1 {
        return false;
    }
    true
}

/// Pending changes are applied once at least this many wait.
pub fn delta_flush_threshold() -> (n: usize)
    ensures
        n == 100,
{
    100
}

/// Whether enough changes wait to apply them.
pub fn should_flush_deltas(total_pending: usize) -> (b: bool)
    ensures
        b == (total_pending >= 100),
{
    total_pending >= delta_flush_threshold()
}

/// What becomes of a posting after its changes are applied.
#[derive(Debug, Clone, Copy, PartialEq, Eq, Structural)]
pub enum PostingFate {
    /// It holds no rows: it is removed.
    Remove,
    /// It holds more rows than allowed: it is split in two.
    Split,
    /// It is stored as it is.
    Save,
}

/// The fate of a posting with `rows` rows.
pub fn posting_fate(rows: usize, config: &SPFreshConfig) -> (f: PostingFate)
    ensures
        f == (if rows == 0 {
            PostingFate::Remove
        } else if rows > config.max_posting_size {
            PostingFate::Split
        } else {
            PostingFate::Save
        }),
{
    if rows == 0 {
        PostingFate::Remove
    } else if rows > config.max_posting_size {
        PostingFate::Split
    } else {
        PostingFate::Save
    }
}

/// What becomes of a posting after a document leaves it.
#[derive(Debug, Clone, Copy, PartialEq, Eq, Structural)]
pub enum ShrinkFate {
    /// It holds no rows: it is removed.
    Remove,
    /// It holds fewer rows than the minimum: it is merged into a neighbour.
    Merge,
    /// It is kept, with its centroid brought up to date.
    Keep,
}

/// The fate of a posting left with `rows` rows after a deletion.
pub fn fate_after_delete(rows: usize, config: &SPFreshConfig) -> (f: ShrinkFate)
    ensures
        f == (if rows == 0 {
            ShrinkFate::Remove
        } else if rows < config.min_posting_size {
            ShrinkFate::Merge
        } else {
            ShrinkFate::Keep
        }),
{
    if rows == 0 {
        ShrinkFate::Remove
    } else if rows < config.min_posting_size {
        ShrinkFate::Merge
    } else {
        ShrinkFate::Keep
    }
}

pub open spec fn doc_pairs(s: Seq<(String, u32)>) -> Seq<(Seq<char>, u32)> {
    s.map_values(|p: (String, u32)| (p.0@, p.1))
}

/// Which posting holds each document, by the document's printed id.
#[derive(Debug)]
pub struct DocPostings {
    entries: Vec<(String, u32)>,
}

impl DocPostings {
    #[verifier::type_invariant]
    closed spec fn docs_distinct(self) -> bool {
        keys_unique(doc_pairs(self.entries@))
    }
}

impl View for DocPostings {
    type V = Map<Seq<char>, u32>;

    closed spec fn view(&self) -> Map<Seq<char>, u32> {
        seq_to_map(doc_pairs(self.entries@))
    }
}

fn find_doc(entries: &Vec<(String, u32)>, doc: &String) -> (r: Option<usize>)
    ensures
        match r {
            Some(i) => i < entries@.len() && entries@[i as int].0@ == doc@,
            None => !has_key(doc_pairs(entries@), doc@),
        },
{
    let n = entries.len();
    let mut i: usize = 0;
    while i < n
        invariant
            n == entries@.len(),
            i <= n,
            forall|j: int| 0 <= j < i ==> entries@[j].0@ != doc@,
        decreases n - i,
    {
        if entries[i].0 == *doc {
            return Some(i);
        }
        i = i + 1;
    }
    assert forall|j: int| 0 <= j < doc_pairs(entries@).len() implies #[trigger] doc_pairs(entries@)[j].0 != doc@ by {
        assert(doc_pairs(entries@)[j].0 == entries@[j].0@);
    }
    None
}

impl DocPostings {
    /// No document is placed.
    pub fn new() -> (d: DocPostings)
        ensures
            d@ == Map::<Seq<char>, u32>::empty(),
    {
        let d = DocPostings { entries: Vec::new() };
        proof {
            lemma_map_empty(doc_pairs(d.entries@));
        }
        d
    }

    /// The posting holding a document.
    pub fn get(&self, doc: &String) -> (r: Option<u32>)
        ensures
            match r {
                Some(p) => self@.contains_key(doc@) && self@[doc@] == p,
                None => !self@.contains_key(doc@),
            },
    {
        proof {
            use_type_invariant(self);
            lemma_map_all(doc_pairs(self.entries@));
        }
        match find_doc(&self.entries, doc) {
            Some(i) => {
                proof {
                    assert(doc_pairs(self.entries@)[i as int].0 == doc@);
                }
                Some(self.entries[i].1)
            },
            None => None,
        }
    }

    /// Places a document in a posting.
    pub fn insert(&mut self, doc: String, posting: u32)
        ensures
            final(self)@ == old(self)@.insert(doc@, posting),
    {
        proof {
            use_type_invariant(&*self);
        }
        let ghost old_pairs = doc_pairs(self.entries@);
        let ghost dv = doc@;
        let mut entries: Vec<(String, u32)> = Vec::new();
        std::mem::swap(&mut entries, &mut self.entries);
        match find_doc(&entries, &doc) {
            Some(i) => {
                entries.set(i, (doc, posting));
                proof {
                    assert(doc_pairs(entries@) =~= old_pairs.update(i as int, (dv, posting)));
                    lemma_map_update(old_pairs, i as int, (dv, posting));
                }
            },
            None => {
                entries.push((doc, posting));
                proof {
                    assert(doc_pairs(entries@) =~= old_pairs.push((dv, posting)));
                    lemma_map_push(old_pairs, (dv, posting));
                }
            },
        }
        *self = DocPostings { entries };
    }

    /// The placements, each document once, in no particular order.
    pub fn entries(&self) -> (e: &Vec<(String, u32)>)
        ensures
            keys_unique(doc_pairs(e@)),
            seq_to_map(doc_pairs(e@)) == self@,
    {
        proof {
            use_type_invariant(self);
        }
        &self.entries
    }

    /// A copy with the same placements.
    pub fn duplicate(&self) -> (d: DocPostings)
        ensures
            d@ == self@,
    {
        proof {
            use_type_invariant(self);
        }
        let mut entries: Vec<(String, u32)> = Vec::new();
        let mut i: usize = 0;
        while i < self.entries.len()
            invariant
                i <= self.entries@.len(),
                doc_pairs(entries@) == doc_pairs(self.entries@).take(i as int),
            decreases self.entries@.len() - i,
        {
            let name = self.entries[i].0.clone();
            let ghost pre = doc_pairs(entries@);
            entries.push((name, self.entries[i].1));
            proof {
                assert(doc_pairs(entries@) =~= pre.push((self.entries@[i as int].0@, self.entries@[i as int].1)));
                assert(doc_pairs(self.entries@).take(i + 1) =~= doc_pairs(self.entries@).take(i as int).push(
                    doc_pairs(self.entries@)[i as int],
                ));
            }
            i = i + 1;
        }
        proof {
            assert(doc_pairs(self.entries@).take(self.entries@.len() as int) =~= doc_pairs(self.entries@));
        }
        DocPostings { entries }
    }

    /// How many documents are placed.
    pub fn len(&self) -> (n: usize)
        ensures
            n == self@.len(),
    {
        proof {
            use_type_invariant(self);
            crate::keyed::lemma_map_len(doc_pairs(self.entries@));
        }
        self.entries.len()
    }

    /// Forgets where a document is.
    pub fn remove(&mut self, doc: &String)
        ensures
            final(self)@ == old(self)@.remove(doc@),
    {
        proof {
            use_type_invariant(&*self);
        }
        let ghost old_pairs = doc_pairs(self.entries@);
        let mut entries: Vec<(String, u32)> = Vec::new();
        std::mem::swap(&mut entries, &mut self.entries);
        match find_doc(&entries, doc) {
            Some(i) => {
                let ghost pre = entries@;
                entries.remove(i);
                proof {
                    assert(doc_pairs(entries@) =~= old_pairs.remove(i as int));
                    lemma_map_remove(old_pairs, i as int);
                }
            },
            None => {
                proof {
                    lemma_map_all(old_pairs);
                    assert(seq_to_map(old_pairs).remove(doc@) =~= seq_to_map(old_pairs));
                }
            },
        }
        *self = DocPostings { entries };
    }
}

/// The state that applying changes to a posting works on: its rows, its
/// centroid, and where documents are placed.
pub struct DeltaState {
    pub rows: Seq<RowView>,
    pub centroid: Seq<u32>,
    pub docs: Map<Seq<char>, u32>,
}

/// The rows without those of a document (by printed id).
pub open spec fn without_doc(rows: Seq<RowView>, doc: Seq<char>) -> Seq<RowView> {
    rows.filter(|r: RowView| id_text(r.id) != doc)
}

/// The effect of one change on a posting `pid`: an insert replaces the
/// document's row and places the document here; a delete removes the
/// document's row and its placement; a centroid update sets the centroid.
pub open spec fn apply_op(st: DeltaState, op: DeltaOperation, pid: u32) -> DeltaState {
    match op {
        DeltaOperation::Insert { row } => DeltaState {
            rows: without_doc(st.rows, id_text(row.id@)).push(row@),
            docs: st.docs.insert(id_text(row.id@), pid),
            ..st
        },
        DeltaOperation::Delete { doc_id } => DeltaState {
            rows: without_doc(st.rows, doc_id@),
            docs: st.docs.remove(doc_id@),
            ..st
        },
        DeltaOperation::UpdateCentroid { new_centroid } => DeltaState { centroid: new_centroid@, ..st },
    }
}

/// The effect of changes applied in order.
pub open spec fn apply_ops(st: DeltaState, ops: Seq<DeltaOperation>, pid: u32) -> DeltaState
    decreases ops.len(),
{
    if ops.len() == 0 {
        st
    } else {
        apply_op(apply_ops(st, ops.drop_last(), pid), ops.last(), pid)
    }
}

/// Every id among the rows has the length its kind needs.
pub open spec fn rows_well_formed(rows: Seq<RowView>) -> bool {
    forall|i: int| 0 <= i < rows.len() ==> id_well_formed(#[trigger] rows[i].id)
}

/// Every inserted row's id has the length its kind needs.
pub open spec fn inserts_well_formed(ops: Seq<DeltaOperation>) -> bool {
    forall|i: int| 0 <= i < ops.len() ==> (#[trigger] ops[i] matches DeltaOperation::Insert { row } ==> id_well_formed(
        row.id@,
    ))
}

fn drop_doc(rows: Vec<Row>, doc: &String) -> (r: Vec<Row>)
    requires
        rows_well_formed(row_views(rows@)),
    ensures
        row_views(r@) == without_doc(row_views(rows@), doc@),
        rows_well_formed(row_views(r@)),
{
    let ghost all = row_views(rows@);
    let ghost pred = |r: RowView| id_text(r.id) != doc@;
    let mut out: Vec<Row> = Vec::new();
    for row in it: rows.into_iter()
        invariant
            all == row_views(it.seq()),
            rows_well_formed(all),
            pred == (|r: RowView| id_text(r.id) != doc@),
            row_views(out@) == all.take(it.index() as int).filter(pred),
            rows_well_formed(row_views(out@)),
    {
        let ghost i = it.index();
        proof {
            assert(all[i as int] == row@);
            assert(id_well_formed(all[i as int].id));
        }
        let text = row.id.to_text();
        let keep = !(text == *doc);
        proof {
            assert(all.take(i + 1) =~= all.take(i as int).push(all[i as int]));
            all.take(i as int).lemma_filter_push(all[i as int], pred);
        }
        if keep {
            let ghost before = row_views(out@);
            let ghost rv = row@;
            out.push(row);
            proof {
                assert(row_views(out@) =~= before.push(rv));
            }
        }
    }
    proof {
        assert(all.take(all.len() as int) =~= all);
    }
    out
}

/// Applies pending changes to a posting in order, keeping the placement of
/// documents up to date, and moves the posting to its next version.
pub fn apply_delta(posting: &mut Posting, operations: Vec<DeltaOperation>, docs: &mut DocPostings)
    requires
        rows_well_formed(row_views(old(posting).rows@)),
        inserts_well_formed(operations@),
        old(posting).version < u64::MAX,
    ensures
        (DeltaState { rows: row_views(final(posting).rows@), centroid: final(posting).centroid@, docs: final(docs)@ })
            == apply_ops(
            DeltaState { rows: row_views(old(posting).rows@), centroid: old(posting).centroid@, docs: old(docs)@ },
            operations@,
            old(posting).id,
        ),
        final(posting).id == old(posting).id,
        final(posting).version == old(posting).version + 1,
        final(posting).created_at == old(posting).created_at,
        rows_well_formed(row_views(final(posting).rows@)),
{
    let ghost start = DeltaState {
        rows: row_views(posting.rows@),
        centroid: posting.centroid@,
        docs: docs@,
    };
    let ghost all = operations@;
    let pid = posting.id;
    for op in it: operations.into_iter()
        invariant
            it.seq() == all,
            inserts_well_formed(all),
            pid == posting.id,
            pid == old(posting).id,
            posting.version == old(posting).version,
            posting.created_at == old(posting).created_at,
            posting.version < u64::MAX,
            rows_well_formed(row_views(posting.rows@)),
            (DeltaState { rows: row_views(posting.rows@), centroid: posting.centroid@, docs: docs@ }) == apply_ops(
                start,
                all.take(it.index() as int),
                pid,
            ),
    {
        let ghost k = it.index();
        let ghost pre = DeltaState { rows: row_views(posting.rows@), centroid: posting.centroid@, docs: docs@ };
        proof {
            assert(all[k as int] == op);
            assert(all.take(k + 1).drop_last() =~= all.take(k as int));
            assert(all.take(k + 1).last() == op);
        }
        match op {
            DeltaOperation::Insert { row } => {
                proof {
                    assert(id_well_formed(row.id@));
                }
                let text = row.id.to_text();
                let mut rows: Vec<Row> = Vec::new();
                std::mem::swap(&mut rows, &mut posting.rows);
                let mut kept = drop_doc(rows, &text);
                let ghost rv = row@;
                let ghost kv = row_views(kept@);
                kept.push(row);
                proof {
                    assert(row_views(kept@) =~= kv.push(rv));
                }
                posting.rows = kept;
                docs.insert(text, pid);
            },
            DeltaOperation::Delete { doc_id } => {
                let mut rows: Vec<Row> = Vec::new();
                std::mem::swap(&mut rows, &mut posting.rows);
                let kept = drop_doc(rows, &doc_id);
                posting.rows = kept;
                docs.remove(&doc_id);
            },
            DeltaOperation::UpdateCentroid { new_centroid } => {
                posting.centroid = new_centroid;
            },
        }
    }
    proof {
        assert(all.take(all.len() as int) =~= all);
    }
    posting.version = posting.version + 1;
}

/// The rows of one document (by printed id).
pub open spec fn rows_of(rows: Seq<RowView>, doc: Seq<char>) -> Seq<RowView> {
    rows.filter(|r: RowView| id_text(r.id) == doc)
}

proof fn lemma_without_doc_has_none(rows: Seq<RowView>, doc: Seq<char>)
    ensures
        rows_of(without_doc(rows, doc), doc) == Seq::<RowView>::empty(),
{
    let w = without_doc(rows, doc);
    let p = |r: RowView| id_text(r.id) != doc;
    let q = |r: RowView| id_text(r.id) == doc;
    assert forall|i: int| 0 <= i < w.len() implies !q(#[trigger] w[i]) by {
        rows.lemma_filter_pred(p, i);
    }
    w.lemma_all_neg_filter_empty(q);
}

/// After a change to a posting, an inserted document has exactly one row
/// there, the inserted one, and a deleted document has none; the placement
/// of the document follows.
pub proof fn delta_leaves_one_row_per_inserted_document(st: DeltaState, op: DeltaOperation, pid: u32)
    ensures
        match op {
            DeltaOperation::Insert { row } => rows_of(apply_op(st, op, pid).rows, id_text(row.id@)) == seq![row@]
                && apply_op(st, op, pid).docs[id_text(row.id@)] == pid,
            DeltaOperation::Delete { doc_id } => rows_of(apply_op(st, op, pid).rows, doc_id@) == Seq::<RowView>::empty()
                && !apply_op(st, op, pid).docs.contains_key(doc_id@),
            DeltaOperation::UpdateCentroid { .. } => apply_op(st, op, pid).rows == st.rows,
        },
{
    match op {
        DeltaOperation::Insert { row } => {
            let t = id_text(row.id@);
            let w = without_doc(st.rows, t);
            lemma_without_doc_has_none(st.rows, t);
            w.lemma_filter_push(row@, |r: RowView| id_text(r.id) == t);
            assert(rows_of(w.push(row@), t) =~= seq![row@]);
        },
        DeltaOperation::Delete { doc_id } => {
            lemma_without_doc_has_none(st.rows, doc_id@);
        },
        DeltaOperation::UpdateCentroid { .. } => {},
    }
}

/// A change to a posting, as seen in contracts.
pub enum OpView {
    Insert(RowView),
    Delete(Seq<char>),
    UpdateCentroid(Seq<u32>),
}

pub open spec fn op_view(op: DeltaOperation) -> OpView {
    match op {
        DeltaOperation::Insert { row } => OpView::Insert(row@),
        DeltaOperation::Delete { doc_id } => OpView::Delete(doc_id@),
        DeltaOperation::UpdateCentroid { new_centroid } => OpView::UpdateCentroid(new_centroid@),
    }
}

pub open spec fn op_views(s: Seq<(u32, DeltaOperation)>) -> Seq<(u32, OpView)> {
    s.map_values(|p: (u32, DeltaOperation)| (p.0, op_view(p.1)))
}

/// Placing the first `n` rows, each in its chosen posting, in order: a row
/// whose document is already placed first leaves its old posting (a delete
/// there), then enters the chosen posting (an insert there), and the
/// document's placement follows it. Gives the changes and the placements
/// after them.
pub open spec fn placements(
    docs: Map<Seq<char>, u32>,
    rows: Seq<RowView>,
    nearest: Seq<u32>,
    n: nat,
) -> (Seq<(u32, OpView)>, Map<Seq<char>, u32>)
    decreases n,
{
    if n == 0 {
        (Seq::empty(), docs)
    } else {
        let prev = placements(docs, rows, nearest, (n - 1) as nat);
        let row = rows[n - 1];
        let t = id_text(row.id);
        let p = nearest[n - 1];
        let ops = if prev.1.contains_key(t) {
            prev.0.push((prev.1[t], OpView::Delete(t)))
        } else {
            prev.0
        };
        (ops.push((p, OpView::Insert(row))), prev.1.insert(t, p))
    }
}

/// Plans the placement of new rows in the postings chosen for them
/// (`nearest[i]` for the row at `i`), updating where documents are placed:
/// see `placements`.
pub fn plan_placements(docs: &mut DocPostings, rows: Vec<Row>, nearest: &Vec<u32>) -> (ops: Vec<(u32, DeltaOperation)>)
    requires
        rows@.len() == nearest@.len(),
        rows_well_formed(row_views(rows@)),
    ensures
        op_views(ops@) == placements(old(docs)@, row_views(rows@), nearest@, rows@.len()).0,
        final(docs)@ == placements(old(docs)@, row_views(rows@), nearest@, rows@.len()).1,
        inserts_well_formed(ops@.map_values(|p: (u32, DeltaOperation)| p.1)),
{
    let ghost start = docs@;
    let ghost all = row_views(rows@);
    let ghost near = nearest@;
    let ghost total = rows@.len();
    let mut ops: Vec<(u32, DeltaOperation)> = Vec::new();
    let mut k: usize = 0;
    let count = nearest.len();
    for row in it: rows.into_iter()
        invariant
            k == it.index(),
            count == nearest@.len(),
            all == row_views(it.seq()),
            near == nearest@,
            near.len() == all.len(),
            total == all.len(),
            rows_well_formed(all),
            op_views(ops@) == placements(start, all, near, it.index() as nat).0,
            docs@ == placements(start, all, near, it.index() as nat).1,
            inserts_well_formed(ops@.map_values(|p: (u32, DeltaOperation)| p.1)),
    {
        let ghost i = it.index();
        proof {
            assert(all[i as int] == row@);
            assert(id_well_formed(all[i as int].id));
        }
        let p = nearest[k];
        let text = row.id.to_text();
        let ghost prev = placements(start, all, near, i as nat);
        let ghost t = text@;
        match docs.get(&text) {
            Some(old_p) => {
                let ghost before = ops@;
                ops.push((old_p, DeltaOperation::Delete { doc_id: text.clone() }));
                proof {
                    assert(op_views(ops@) =~= op_views(before).push((old_p, OpView::Delete(t))));
                    assert(ops@.map_values(|q: (u32, DeltaOperation)| q.1) =~= before.map_values(
                        |q: (u32, DeltaOperation)| q.1,
                    ).push(DeltaOperation::Delete { doc_id: text }));
                }
            },
            None => {},
        }
        docs.insert(text, p);
        let ghost before = ops@;
        let ghost rv = row@;
        let ghost rid = row.id@;
        ops.push((p, DeltaOperation::Insert { row }));
        proof {
            assert(op_views(ops@) =~= op_views(before).push((p, OpView::Insert(rv))));
            let ins = ops@[ops@.len() - 1].1;
            assert(ops@.map_values(|q: (u32, DeltaOperation)| q.1) =~= before.map_values(
                |q: (u32, DeltaOperation)| q.1,
            ).push(ins));
            assert(placements(start, all, near, (i + 1) as nat) == (if prev.1.contains_key(t) {
                prev.0.push((prev.1[t], OpView::Delete(t)))
            } else {
                prev.0
            }.push((p, OpView::Insert(rv))), prev.1.insert(t, p)));
        }
        k = k + 1;
    }
    ops
}

} // verus!
