//! What a query promises about deleted documents: the index candidates that
//! survive the log's deletions, merged with the log's live rows, never bring
//! back a document that the log deleted after every write of it.
use vstd::prelude::*;
use crate::candidates::{merge_by_id, sort_by_id};
use crate::client::{overlay_pending, survives_log};
use crate::engine::{first_pending, PendingView};
use crate::engine::{replay, DocId, RecordView, RowView};
use crate::keyed::{has_key, keys_unique, lemma_map_all, lemma_map_at, lemma_map_remove, seq_to_map};
use crate::engine::{patched_row, ReplayState};
use crate::merge_laws::{merge_keeps_newest_per_document, newest_of};
use crate::merge_laws::{cand_keyed, lemma_merge_members, lemma_sort_members};
use crate::replay_laws::{
    newest_delete, newest_upsert, patches_doc, replay_keeps_newest_tombstone, replay_newest_write_wins,
};

verus! {

/// Laying pending patches over candidates keeps each candidate's place and
/// document.
proof fn lemma_overlay_keeps_ids<T>(pend: Seq<PendingView>, cands: Seq<(T, RowView)>)
    ensures
        overlay_pending(pend, cands).len() == cands.len(),
        forall|i: int| 0 <= i < cands.len() ==> (#[trigger] overlay_pending(pend, cands)[i]).1.id == cands[i].1.id,
    decreases cands.len(),
{
    if cands.len() > 0 {
        let c = cands[0];
        let k = first_pending(pend, c.1.id);
        let rest = cands.drop_first();
        let pend2 = if k is Some && pend[k->0].1.0 > c.1.timestamp { pend.remove(k->0) } else { pend };
        lemma_overlay_keeps_ids(pend2, rest);
        let o = overlay_pending(pend, cands);
        assert forall|i: int| 0 <= i < cands.len() implies (#[trigger] o[i]).1.id == cands[i].1.id by {
            if i > 0 {
                assert(o[i] == overlay_pending(pend2, rest)[i - 1]);
                assert(rest[i - 1] == cands[i]);
            }
        }
    }
}

/// A deleted document stays gone. Suppose the log deletes a document after
/// every upsert of it and never patches it, every index row of the document
/// is older than that deletion, and the log candidates are live rows of the
/// replayed log. Then the merge of the index candidates that survive the
/// log's deletions, with any pending patches laid over them, with the log
/// candidates holds no candidate for the document.
pub proof fn deleted_document_stays_gone<T>(
    index: Seq<(T, RowView)>,
    wal: Seq<(T, RowView)>,
    recs: Seq<RecordView>,
    pend: Seq<PendingView>,
    d: DocId,
)
    requires
        forall|i: int| 0 <= i < wal.len() ==> replay(recs).rows.contains_key(#[trigger] wal[i].1.id),
        !patches_doc(recs, d),
        newest_delete(recs, d) is Some,
        newest_upsert(recs, d) is Some ==> newest_delete(recs, d)->0 > newest_upsert(recs, d)->0,
        forall|i: int| 0 <= i < index.len() && #[trigger] index[i].1.id == d
            ==> index[i].1.timestamp < newest_delete(recs, d)->0,
    ensures
        !seq_to_map(
            cand_keyed(
                merge_by_id(
                    sort_by_id(overlay_pending(pend, index.filter(survives_log::<T>(replay(recs))))),
                    sort_by_id(wal),
                ),
            ),
        ).contains_key(d),
{
    let st = replay(recs);
    let f0 = index.filter(survives_log::<T>(st));
    let f = overlay_pending(pend, f0);
    lemma_overlay_keeps_ids(pend, f0);
    let sf = sort_by_id(f);
    let sw = sort_by_id(wal);
    let m = merge_by_id(sf, sw);
    replay_keeps_newest_tombstone(recs, d);
    replay_newest_write_wins(recs, d);
    assert(st.deleted.contains_key(d) && st.deleted[d] == newest_delete(recs, d)->0);
    assert(!st.rows.contains_key(d));
    lemma_merge_members(sf, sw);
    lemma_sort_members(f);
    lemma_sort_members(wal);
    if has_key(cand_keyed(m), d) {
        let i = choose|i: int| 0 <= i < cand_keyed(m).len() && #[trigger] cand_keyed(m)[i].0 == d;
        let e = m[i];
        assert(cand_keyed(m)[i] == (e.1.id, e));
        if sf.contains(e) {
            let k = choose|k: int| 0 <= k < sf.len() && sf[k] == e;
            assert(f.contains(sf[k]));
            assert(f.contains(e));
            let j0 = choose|j: int| 0 <= j < f.len() && f[j] == e;
            let e0 = f0[j0];
            assert(e0.1.id == d);
            assert(f0.contains(e0));
            index.lemma_filter_pred(survives_log::<T>(st), j0);
            assert(survives_log::<T>(st)(e0));
            index.lemma_filter_contains_rev(survives_log::<T>(st), e0);
            assert(index.contains(e0));
            let q = choose|q: int| 0 <= q < index.len() && index[q] == e0;
            assert(index[q].1.id == d);
            assert(false);
        } else {
            assert(sw.contains(e));
            let k = choose|k: int| 0 <= k < sw.len() && sw[k] == e;
            assert(wal.contains(sw[k]));
            let q = choose|q: int| 0 <= q < wal.len() && wal[q] == e;
            assert(st.rows.contains_key(wal[q].1.id));
            assert(false);
        }
    }
}

proof fn lemma_keyed_drop_first<T>(s: Seq<(T, RowView)>)
    requires
        s.len() > 0,
        keys_unique(cand_keyed(s)),
    ensures
        keys_unique(cand_keyed(s.drop_first())),
        forall|i: int| 0 <= i < s.len() - 1 ==> (#[trigger] s.drop_first()[i]).1.id != s[0].1.id,
{
    let t = s.drop_first();
    assert forall|a: int, b: int| 0 <= a < t.len() && 0 <= b < t.len() && a != b implies #[trigger] cand_keyed(t)[a].0
        != #[trigger] cand_keyed(t)[b].0 by {
        assert(cand_keyed(t)[a] == cand_keyed(s)[a + 1]);
        assert(cand_keyed(t)[b] == cand_keyed(s)[b + 1]);
    }
    assert forall|i: int| 0 <= i < s.len() - 1 implies (#[trigger] s.drop_first()[i]).1.id != s[0].1.id by {
        assert(cand_keyed(s)[i + 1].0 != cand_keyed(s)[0].0);
    }
}

/// With distinct pending documents, the first pending patch of a listed
/// document is its only one.
proof fn lemma_first_pending_unique(pend: Seq<PendingView>, d: DocId)
    requires
        keys_unique(pend),
        has_key(pend, d),
    ensures
        first_pending(pend, d) is Some,
        0 <= first_pending(pend, d)->0 < pend.len(),
        pend[first_pending(pend, d)->0] == (d, seq_to_map(pend)[d]),
{
    reveal(first_pending);
    let k0 = choose|i: int| 0 <= i < pend.len() && #[trigger] pend[i].0 == d;
    assert forall|j: int| 0 <= j < k0 implies pend[j].0 != d by {
        assert(pend[j].0 != pend[k0].0);
    }
    let c = choose|i: int| 0 <= i < pend.len() && pend[i].0 == d && forall|j: int| 0 <= j < i ==> pend[j].0 != d;
    lemma_map_at(pend, c);
}

/// Laying distinct pending patches over candidates of distinct documents
/// patches a candidate with the pending patch of its document, when that
/// patch is newer than the candidate's row.
pub proof fn overlay_patches_each_candidate_by_its_document<T>(pend: Seq<PendingView>, cands: Seq<(T, RowView)>, i: int)
    requires
        keys_unique(cand_keyed(cands)),
        keys_unique(pend),
        0 <= i < cands.len(),
        has_key(pend, cands[i].1.id),
        seq_to_map(pend)[cands[i].1.id].0 > cands[i].1.timestamp,
    ensures
        overlay_pending(pend, cands)[i] == (cands[i].0, patched_row(cands[i].1, seq_to_map(pend)[cands[i].1.id])),
    decreases cands.len(),
{
    let c = cands[0];
    let d = cands[i].1.id;
    if i == 0 {
        lemma_first_pending_unique(pend, d);
    } else {
        lemma_keyed_drop_first(cands);
        let rest = cands.drop_first();
        assert(rest[i - 1] == cands[i]);
        let k = first_pending(pend, c.1.id);
        let pend2 = if k is Some && pend[k->0].1.0 > c.1.timestamp { pend.remove(k->0) } else { pend };
        if k is Some && pend[k->0].1.0 > c.1.timestamp {
            reveal(first_pending);
            let kk = k->0;
            assert(0 <= kk < pend.len() && pend[kk].0 == c.1.id);
            assert(c.1.id != d);
            lemma_map_remove(pend, kk);
            lemma_map_all(pend);
            lemma_map_all(pend2);
            assert(seq_to_map(pend2).contains_key(d));
        }
        overlay_patches_each_candidate_by_its_document(pend2, rest, i - 1);
        lemma_overlay_keeps_ids(pend2, rest);
        let head = if k is Some && pend[k->0].1.0 > c.1.timestamp {
            (c.0, patched_row(c.1, pend[k->0].1))
        } else {
            c
        };
        assert(overlay_pending(pend, cands) == seq![head] + overlay_pending(pend2, rest));
        assert(overlay_pending(pend, cands)[i] == overlay_pending(pend2, rest)[i - 1]);
    }
}

proof fn lemma_filter_keeps_unique<T>(s: Seq<(T, RowView)>, p: spec_fn((T, RowView)) -> bool)
    requires
        keys_unique(cand_keyed(s)),
    ensures
        keys_unique(cand_keyed(s.filter(p))),
    decreases s.len(),
{
    if s.len() > 0 {
        let t = s.drop_last();
        let x = s.last();
        assert(t.push(x) =~= s);
        assert forall|a: int, b: int| 0 <= a < t.len() && 0 <= b < t.len() && a != b implies #[trigger] cand_keyed(t)[a].0
            != #[trigger] cand_keyed(t)[b].0 by {
            assert(cand_keyed(t)[a] == cand_keyed(s)[a]);
            assert(cand_keyed(t)[b] == cand_keyed(s)[b]);
        }
        lemma_filter_keeps_unique(t, p);
        t.lemma_filter_push(x, p);
        if p(x) {
            let f = t.filter(p);
            let g = f.push(x);
            assert forall|a: int, b: int| 0 <= a < g.len() && 0 <= b < g.len() && a != b implies #[trigger] cand_keyed(g)[a].0
                != #[trigger] cand_keyed(g)[b].0 by {
                if a < f.len() && b < f.len() {
                    assert(cand_keyed(g)[a] == cand_keyed(f)[a]);
                    assert(cand_keyed(g)[b] == cand_keyed(f)[b]);
                } else {
                    let o = if a < f.len() { a } else { b };
                    t.lemma_filter_contains_rev(p, f[o]);
                    let q = choose|q: int| 0 <= q < t.len() && t[q] == f[o];
                    assert(cand_keyed(s)[q].0 != cand_keyed(s)[s.len() - 1].0);
                    assert(g[o] == f[o]);
                }
            }
        }
    }
}

/// A patch of a compacted document is seen at once. Suppose the index
/// candidates and the pending patches each name a document once, the log
/// holds no live row of the document (no log candidate names it), and the
/// document's index candidate survives the log's deletions and is older than
/// the document's pending patch. Then the query's merged result holds the
/// index candidate with the patch applied.
pub proof fn pending_patch_is_seen_at_once<T>(
    index: Seq<(T, RowView)>,
    wal: Seq<(T, RowView)>,
    st: ReplayState,
    pend: Seq<PendingView>,
    i: int,
)
    requires
        keys_unique(cand_keyed(index)),
        keys_unique(cand_keyed(wal)),
        keys_unique(pend),
        0 <= i < index.len(),
        survives_log::<T>(st)(index[i]),
        has_key(pend, index[i].1.id),
        seq_to_map(pend)[index[i].1.id].0 > index[i].1.timestamp,
        forall|j: int| 0 <= j < wal.len() ==> (#[trigger] wal[j]).1.id != index[i].1.id,
    ensures
        ({
            let m = seq_to_map(
                cand_keyed(
                    merge_by_id(sort_by_id(overlay_pending(pend, index.filter(survives_log::<T>(st)))), sort_by_id(wal)),
                ),
            );
            let d = index[i].1.id;
            m.contains_key(d) && m[d] == (index[i].0, patched_row(index[i].1, seq_to_map(pend)[d]))
        }),
{
    let d = index[i].1.id;
    let p = survives_log::<T>(st);
    let f0 = index.filter(p);
    lemma_filter_keeps_unique(index, p);
    index.lemma_filter_contains(p, i);
    let j = choose|j: int| 0 <= j < f0.len() && f0[j] == index[i];
    let f = overlay_pending(pend, f0);
    lemma_overlay_keeps_ids(pend, f0);
    overlay_patches_each_candidate_by_its_document(pend, f0, j);
    assert forall|a: int, b: int| 0 <= a < f.len() && 0 <= b < f.len() && a != b implies #[trigger] cand_keyed(f)[a].0
        != #[trigger] cand_keyed(f)[b].0 by {
        assert(cand_keyed(f)[a].0 == f[a].1.id);
        assert(cand_keyed(f0)[a].0 == f0[a].1.id);
        assert(cand_keyed(f)[b].0 == f[b].1.id);
        assert(cand_keyed(f0)[b].0 == f0[b].1.id);
    }
    merge_keeps_newest_per_document(f, wal);
    lemma_map_all(cand_keyed(f));
    lemma_map_all(cand_keyed(wal));
    assert(cand_keyed(f)[j] == (d, f[j]));
    assert(!has_key(cand_keyed(wal), d)) by {
        if has_key(cand_keyed(wal), d) {
            let q = choose|q: int| 0 <= q < cand_keyed(wal).len() && #[trigger] cand_keyed(wal)[q].0 == d;
            assert(cand_keyed(wal)[q].0 == wal[q].1.id);
        }
    }
    let mf = seq_to_map(cand_keyed(f));
    let mw = seq_to_map(cand_keyed(wal));
    assert(f0[j] == index[i]);
    assert(f[j].1.id == d);
    assert(cand_keyed(f)[j] == (d, f[j]));
    lemma_map_at(cand_keyed(f), j);
    assert(mf.contains_key(d) && mf[d] == f[j]);
    assert(!mw.contains_key(d));
    assert(newest_of(mf, mw).contains_key(d) && newest_of(mf, mw)[d] == f[j]);
    assert(f[j] == (index[i].0, patched_row(index[i].1, seq_to_map(pend)[d])));
}

} // verus!
