//! What a replayed log promises, whatever order its files come in.
use vstd::prelude::*;
use crate::engine::{
    empty_state, join_pending, patched_row, replay, replay_step, AttributeValue, DocId, RecordView, ReplayState, RowView,
};

verus! {

/// The document a record is about.
pub open spec fn record_doc(r: RecordView) -> DocId {
    match r {
        RecordView::Upsert(row) => row.id,
        RecordView::Delete(id, _) => id,
        RecordView::Patch(id, _, _) => id,
    }
}

/// The records about one document, in log order.
pub open spec fn records_about(recs: Seq<RecordView>, d: DocId) -> Seq<RecordView>
    decreases recs.len(),
{
    if recs.len() == 0 {
        Seq::empty()
    } else if record_doc(recs.last()) == d {
        records_about(recs.drop_last(), d).push(recs.last())
    } else {
        records_about(recs.drop_last(), d)
    }
}

/// The newest time at which the log upserts the document.
pub open spec fn newest_upsert(recs: Seq<RecordView>, d: DocId) -> Option<i64>
    decreases recs.len(),
{
    if recs.len() == 0 {
        None
    } else {
        let prev = newest_upsert(recs.drop_last(), d);
        match recs.last() {
            RecordView::Upsert(row) => if row.id == d {
                match prev {
                    Some(u) => Some(if u >= row.timestamp { u } else { row.timestamp }),
                    None => Some(row.timestamp),
                }
            } else {
                prev
            },
            _ => prev,
        }
    }
}

/// The newest time at which the log deletes the document.
pub open spec fn newest_delete(recs: Seq<RecordView>, d: DocId) -> Option<i64>
    decreases recs.len(),
{
    if recs.len() == 0 {
        None
    } else {
        let prev = newest_delete(recs.drop_last(), d);
        match recs.last() {
            RecordView::Delete(id, t) => if id == d {
                match prev {
                    Some(u) => Some(if u >= t { u } else { t }),
                    None => Some(t),
                }
            } else {
                prev
            },
            _ => prev,
        }
    }
}

/// The log patches the document somewhere.
pub open spec fn patches_doc(recs: Seq<RecordView>, d: DocId) -> bool {
    exists|i: int| 0 <= i < recs.len() && is_patch_of(#[trigger] recs[i], d)
}

/// The record patches the document.
pub open spec fn is_patch_of(r: RecordView, d: DocId) -> bool {
    match r {
        RecordView::Patch(id, _, _) => id == d,
        _ => false,
    }
}

/// What the state says about one document: its row, if live, and its
/// newest deletion time, if any.
pub open spec fn doc_entry(st: ReplayState, d: DocId) -> (Option<RowView>, Option<i64>) {
    (
        if st.rows.contains_key(d) { Some(st.rows[d]) } else { None },
        if st.deleted.contains_key(d) { Some(st.deleted[d]) } else { None },
    )
}

proof fn lemma_step_other_doc(st: ReplayState, r: RecordView, d: DocId)
    requires
        record_doc(r) != d,
    ensures
        doc_entry(replay_step(st, r), d) == doc_entry(st, d),
{
}

proof fn lemma_step_depends_on_entry(st1: ReplayState, st2: ReplayState, r: RecordView, d: DocId)
    requires
        record_doc(r) == d,
        doc_entry(st1, d) == doc_entry(st2, d),
    ensures
        doc_entry(replay_step(st1, r), d) == doc_entry(replay_step(st2, r), d),
{
    let e = doc_entry(st1, d);
    assert(st1.rows.contains_key(d) == st2.rows.contains_key(d));
    assert(st1.deleted.contains_key(d) == st2.deleted.contains_key(d));
    if st1.rows.contains_key(d) {
        assert(st1.rows[d] == e.0.unwrap());
    }
    if st1.deleted.contains_key(d) {
        assert(st1.deleted[d] == e.1.unwrap());
    }
}

/// Per-document independence: what the replayed state says about a document
/// depends only on the log records about that document, in their order.
pub proof fn replay_depends_only_on_own_records(recs: Seq<RecordView>, d: DocId)
    ensures
        doc_entry(replay(recs), d) == doc_entry(replay(records_about(recs, d)), d),
    decreases recs.len(),
{
    if recs.len() > 0 {
        let prev = recs.drop_last();
        replay_depends_only_on_own_records(prev, d);
        let r = recs.last();
        if record_doc(r) == d {
            let f = records_about(prev, d);
            assert(records_about(recs, d) == f.push(r));
            assert(f.push(r).drop_last() =~= f);
            lemma_step_depends_on_entry(replay(prev), replay(f), r, d);
        } else {
            lemma_step_other_doc(replay(prev), r, d);
        }
    }
}

/// The deletion time that the replayed state records for a document is the
/// newest deletion of it in the log, whatever the order of the records.
pub proof fn replay_keeps_newest_tombstone(recs: Seq<RecordView>, d: DocId)
    ensures
        doc_entry(replay(recs), d).1 == newest_delete(recs, d),
    decreases recs.len(),
{
    if recs.len() > 0 {
        replay_keeps_newest_tombstone(recs.drop_last(), d);
    }
}

/// Some upsert in the log carries exactly this row.
pub open spec fn logged_upsert(recs: Seq<RecordView>, row: RowView) -> bool {
    exists|i: int| 0 <= i < recs.len() && #[trigger] recs[i] == RecordView::Upsert(row)
}

spec fn upsert_delete_inv(recs: Seq<RecordView>, d: DocId) -> bool {
    let st = replay(recs);
    let u = newest_upsert(recs, d);
    let t = newest_delete(recs, d);
    &&& st.deleted.contains_key(d) == (t is Some)
    &&& t is Some ==> st.deleted[d] == t->0
    &&& st.rows.contains_key(d) ==> {
        &&& u is Some
        &&& st.rows[d].timestamp == u->0
        &&& st.rows[d].id == d
        &&& (t is Some ==> u->0 >= t->0)
        &&& logged_upsert(recs, st.rows[d])
    }
    &&& !st.rows.contains_key(d) ==> (u is None || (t is Some && t->0 >= u->0))
}

proof fn lemma_upsert_delete_inv(recs: Seq<RecordView>, d: DocId)
    requires
        !patches_doc(recs, d),
    ensures
        upsert_delete_inv(recs, d),
    decreases recs.len(),
{
    if recs.len() > 0 {
        let prev = recs.drop_last();
        assert(!patches_doc(prev, d)) by {
            if patches_doc(prev, d) {
                let i = choose|i: int| 0 <= i < prev.len() && is_patch_of(#[trigger] prev[i], d);
                assert(recs[i] == prev[i]);
            }
        }
        lemma_upsert_delete_inv(prev, d);
        let r = recs.last();
        let st = replay(prev);
        assert(replay(recs) == replay_step(st, r));
        if st.rows.contains_key(d) {
            let w = st.rows[d];
            let i = choose|i: int| 0 <= i < prev.len() && #[trigger] prev[i] == RecordView::Upsert(w);
            assert(recs[i] == prev[i]);
        }
        match r {
            RecordView::Upsert(row) => {
                if row.id == d {
                    assert(recs[recs.len() - 1] == RecordView::Upsert(row));
                }
            },
            RecordView::Patch(id, ts, attrs) => {
                assert(recs[recs.len() - 1] == r);
                assert(id != d);
            },
            _ => {},
        }
    }
}

/// Newest write wins, whatever the order of the log files. For a document
/// that the log only upserts and deletes:
/// - its newest upsert beats every older deletion: the document is live
///   with the row of an upsert at that time;
/// - a deletion newer than every upsert removes it.
pub proof fn replay_newest_write_wins(recs: Seq<RecordView>, d: DocId)
    requires
        !patches_doc(recs, d),
    ensures
        ({
            let u = newest_upsert(recs, d);
            let t = newest_delete(recs, d);
            u is Some && (t is Some ==> u->0 > t->0) ==> {
                &&& replay(recs).rows.contains_key(d)
                &&& replay(recs).rows[d].timestamp == u->0
                &&& replay(recs).rows[d].id == d
                &&& logged_upsert(recs, replay(recs).rows[d])
            }
        }),
        ({
            let u = newest_upsert(recs, d);
            let t = newest_delete(recs, d);
            t is Some && (u is Some ==> t->0 > u->0) ==> !replay(recs).rows.contains_key(d)
        }),
{
    lemma_upsert_delete_inv(recs, d);
}

/// What replay makes of a document that the log never patches and never
/// upserts and deletes at one same newest time: the document is live exactly
/// when it has an upsert newer than every deletion, and then its row is an
/// upsert of the log at the newest upsert time; it is recorded as deleted
/// exactly when the log deletes it, at the newest deletion time.
pub proof fn replay_characterized(recs: Seq<RecordView>, d: DocId)
    requires
        !patches_doc(recs, d),
        newest_upsert(recs, d) is Some && newest_delete(recs, d) is Some ==> newest_upsert(recs, d)->0
            != newest_delete(recs, d)->0,
    ensures
        ({
            let u = newest_upsert(recs, d);
            let t = newest_delete(recs, d);
            let st = replay(recs);
            &&& st.rows.contains_key(d) <==> (u is Some && (t is None || u->0 > t->0))
            &&& st.rows.contains_key(d) ==> st.rows[d].id == d && st.rows[d].timestamp == u->0 && logged_upsert(
                recs,
                st.rows[d],
            )
            &&& st.deleted.contains_key(d) <==> t is Some
            &&& t is Some ==> st.deleted[d] == t->0
        }),
{
    lemma_upsert_delete_inv(recs, d);
}

/// A patch of a live row that is older than the patch, with no deletion of
/// the document after the patch, overwrites the attributes it names and
/// keeps every other attribute of the row; the row takes the patch's time
/// and keeps its id and vector; nothing else in the state changes.
pub proof fn patch_overwrites_named_attributes_only(
    st: ReplayState,
    id: DocId,
    ts: i64,
    attrs: Map<Seq<char>, AttributeValue>,
)
    requires
        st.rows.contains_key(id),
        ts > st.rows[id].timestamp,
        !(st.deleted.contains_key(id) && st.deleted[id] > ts),
    ensures
        ({
            let after = replay_step(st, RecordView::Patch(id, ts, attrs));
            let old = st.rows[id];
            let new = after.rows[id];
            &&& after.rows.contains_key(id)
            &&& new.id == old.id && new.vector == old.vector && new.timestamp == ts
            &&& forall|k: Seq<char>| #[trigger] new.attributes.contains_key(k) <==> (old.attributes.contains_key(k)
                || attrs.contains_key(k))
            &&& forall|k: Seq<char>| #[trigger] attrs.contains_key(k) ==> new.attributes[k] == attrs[k]
            &&& forall|k: Seq<char>|
                #![trigger old.attributes[k]]
                old.attributes.contains_key(k) && !attrs.contains_key(k) ==> new.attributes[k] == old.attributes[k]
            &&& forall|d: DocId| d != id ==> (#[trigger] after.rows.contains_key(d) == st.rows.contains_key(d))
            &&& forall|d: DocId| d != id && st.rows.contains_key(d) ==> #[trigger] after.rows[d] == st.rows[d]
            &&& after.deleted == st.deleted
            &&& after.pending == st.pending
        }),
{
}

/// A patch laid over a row (a pending patch at query time or at
/// compaction) overwrites the attributes it names, keeps every other
/// attribute, takes the patch's time, and keeps the row's id and vector.
pub proof fn patched_row_keeps_unnamed_attributes(r: RowView, p: (i64, Map<Seq<char>, AttributeValue>))
    ensures
        patched_row(r, p).id == r.id && patched_row(r, p).vector == r.vector && patched_row(r, p).timestamp == p.0,
        forall|k: Seq<char>| #[trigger] patched_row(r, p).attributes.contains_key(k) <==> (r.attributes.contains_key(k)
            || p.1.contains_key(k)),
        forall|k: Seq<char>| #[trigger] p.1.contains_key(k) ==> patched_row(r, p).attributes[k] == p.1[k],
        forall|k: Seq<char>|
            #![trigger r.attributes[k]]
            r.attributes.contains_key(k) && !p.1.contains_key(k) ==> patched_row(r, p).attributes[k] == r.attributes[k],
{
}

/// Joining two pending patches of a document keeps the newer time and every
/// attribute either sets; where both set one, the newer patch's value wins
/// (the later one at equal times).
pub proof fn joined_patches_keep_both(
    q: (i64, Map<Seq<char>, AttributeValue>),
    ts: i64,
    attrs: Map<Seq<char>, AttributeValue>,
)
    ensures
        ({
            let j = join_pending(Some(q), ts, attrs);
            &&& j.0 == if ts >= q.0 { ts } else { q.0 }
            &&& forall|k: Seq<char>| #[trigger] j.1.contains_key(k) <==> (q.1.contains_key(k) || attrs.contains_key(k))
            &&& forall|k: Seq<char>| #[trigger] attrs.contains_key(k) && (ts >= q.0 || !q.1.contains_key(k)) ==> j.1[k]
                == attrs[k]
            &&& forall|k: Seq<char>|
                #![trigger q.1[k]]
                q.1.contains_key(k) && (ts < q.0 || !attrs.contains_key(k)) ==> j.1[k] == q.1[k]
        }),
        join_pending(None, ts, attrs) == (ts, attrs),
{
}

/// A log that upserts each row in turn.
pub open spec fn upserts_of(rows: Seq<RowView>) -> Seq<RecordView> {
    rows.map_values(|r: RowView| RecordView::Upsert(r))
}

/// Replaying upserts of rows with distinct ids yields exactly those rows: the
/// rows that a replay keeps, written back as a log, replay to themselves.
pub proof fn replay_of_distinct_upserts(rows: Seq<RowView>)
    requires
        forall|i: int, j: int| 0 <= i < rows.len() && 0 <= j < rows.len() && i != j
            ==> #[trigger] rows[i].id != #[trigger] rows[j].id,
    ensures
        forall|i: int| 0 <= i < rows.len() ==> #[trigger] replay(
            upserts_of(rows),
        ).rows.contains_key(rows[i].id) && replay(upserts_of(rows)).rows[rows[i].id]
            == rows[i],
        forall|k: DocId| #[trigger] replay(upserts_of(rows)).rows.contains_key(k)
            ==> exists|i: int| 0 <= i < rows.len() && rows[i].id == k,
        replay(upserts_of(rows)).deleted.is_empty(),
    decreases rows.len(),
{
    let recs = upserts_of(rows);
    if rows.len() == 0 {
        assert(replay(recs) == empty_state());
        assert(empty_state().deleted =~= Map::<DocId, i64>::empty());
    } else {
        let prev = rows.drop_last();
        assert forall|i: int, j: int| 0 <= i < prev.len() && 0 <= j < prev.len() && i != j
            implies #[trigger] prev[i].id != #[trigger] prev[j].id by {
            assert(prev[i] == rows[i] && prev[j] == rows[j]);
        }
        replay_of_distinct_upserts(prev);
        let prev_recs = upserts_of(prev);
        assert(recs.drop_last() =~= prev_recs);
        let last = rows.last();
        assert(recs.last() == RecordView::Upsert(last));
        let st = replay(prev_recs);
        assert(!st.rows.contains_key(last.id)) by {
            if st.rows.contains_key(last.id) {
                let i = choose|i: int| 0 <= i < prev.len() && prev[i].id == last.id;
                assert(prev[i] == rows[i]);
                assert(rows[i].id != rows[rows.len() - 1].id);
            }
        }
        assert(!st.deleted.contains_key(last.id));
        assert(replay(recs) == replay_step(st, RecordView::Upsert(last)));
        assert forall|i: int| 0 <= i < rows.len() implies #[trigger] replay(recs).rows.contains_key(rows[i].id)
            && replay(recs).rows[rows[i].id] == rows[i] by {
            if i < rows.len() - 1 {
                assert(prev[i] == rows[i]);
                assert(rows[i].id != rows[rows.len() - 1].id);
                assert(st.rows.contains_key(prev[i].id) && st.rows[prev[i].id] == prev[i]);
            } else {
                assert(rows[i] == last);
            }
        }
        assert forall|k: DocId| #[trigger] replay(recs).rows.contains_key(k) implies exists|i: int|
            0 <= i < rows.len() && rows[i].id == k by {
            if k != last.id {
                let i = choose|i: int| 0 <= i < prev.len() && prev[i].id == k;
                assert(prev[i] == rows[i]);
            } else {
                assert(rows[rows.len() - 1].id == k);
            }
        }
    }
}

} // verus!
