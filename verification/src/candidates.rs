//! The order of document ids, and the merge of index results with log
//! results by document id.
use vstd::prelude::*;
use crate::engine::{DocId, DocumentId, IdType, Row, RowView};

verus! {

/// The position of an id kind in the order of ids of equal bytes.
pub open spec fn type_rank(t: IdType) -> int {
    match t {
        IdType::Uuid => 0,
        IdType::String => 1,
        IdType::U64 => 2,
    }
}

/// Lexicographic order of byte strings: -1, 0 or 1.
pub open spec fn bytes_order(a: Seq<u8>, b: Seq<u8>) -> int
    decreases a.len(),
{
    if a.len() == 0 {
        if b.len() == 0 { 0 } else { -1 }
    } else if b.len() == 0 {
        1
    } else if a[0] < b[0] {
        -1
    } else if a[0] > b[0] {
        1
    } else {
        bytes_order(a.drop_first(), b.drop_first())
    }
}

/// The order of document ids: by bytes, then by kind. -1, 0 or 1.
pub open spec fn id_order(a: DocId, b: DocId) -> int {
    let c = bytes_order(a.0, b.0);
    if c != 0 {
        c
    } else if type_rank(a.1) < type_rank(b.1) {
        -1
    } else if type_rank(a.1) > type_rank(b.1) {
        1
    } else {
        0
    }
}

/// The lexicographic order of two byte strings: `-1`, `0` or `1`.
pub fn compare_bytes(x: &[u8], y: &[u8]) -> (c: i8)
    ensures
        c == bytes_order(x@, y@),
{
    let mut i: usize = 0;
    let mut c: i8 = 0;
    proof {
        assert(x@.skip(0) =~= x@);
        assert(y@.skip(0) =~= y@);
    }
    while c == 0 && i < x.len() && i < y.len()
        invariant
            i <= x@.len(),
            i <= y@.len(),
            c == 0 ==> bytes_order(x@, y@) == bytes_order(x@.skip(i as int), y@.skip(i as int)),
            c != 0 ==> c == bytes_order(x@, y@),
        decreases x@.len() - i + (if c == 0 { 1int } else { 0int }),
    {
        if x[i] < y[i] {
            c = -1;
        } else if x[i] > y[i] {
            c = 1;
        } else {
            assert(x@.skip(i as int).drop_first() =~= x@.skip(i + 1));
            assert(y@.skip(i as int).drop_first() =~= y@.skip(i + 1));
            i = i + 1;
        }
    }
    if c == 0 {
        if i == x.len() && i < y.len() {
            c = -1;
        } else if i < x.len() && i == y.len() {
            c = 1;
        }
    }
    c
}

/// The relative order of two ids: `-1`, `0` or `1`.
pub fn compare_ids(a: &DocumentId, b: &DocumentId) -> (c: i8)
    ensures
        c == id_order(a@, b@),
{
    let c = compare_bytes(a.bytes.as_slice(), b.bytes.as_slice());
    if c != 0 {
        return c;
    }
    let ra: u8 = match a.id_type {
        IdType::Uuid => 0,
        IdType::String => 1,
        IdType::U64 => 2,
    };
    let rb: u8 = match b.id_type {
        IdType::Uuid => 0,
        IdType::String => 1,
        IdType::U64 => 2,
    };
    if ra < rb {
        -1
    } else if ra > rb {
        1
    } else {
        0
    }
}

/// A candidate as seen in contracts: its score and its row.
pub open spec fn cand_view<T>(s: Seq<(T, Row)>) -> Seq<(T, RowView)> {
    s.map_values(|p: (T, Row)| (p.0, p.1@))
}

/// Inserts after every element whose id is not greater.
pub open spec fn insert_sorted<T>(s: Seq<(T, RowView)>, x: (T, RowView)) -> Seq<(T, RowView)>
    decreases s.len(),
{
    if s.len() == 0 {
        seq![x]
    } else if id_order(s.last().1.id, x.1.id) <= 0 {
        s.push(x)
    } else {
        insert_sorted(s.drop_last(), x).push(s.last())
    }
}

/// Stable sort by document id: equal ids keep their order.
pub open spec fn sort_by_id<T>(s: Seq<(T, RowView)>) -> Seq<(T, RowView)>
    decreases s.len(),
{
    if s.len() == 0 {
        Seq::empty()
    } else {
        insert_sorted(sort_by_id(s.drop_last()), s.last())
    }
}

/// Merges two id-sorted candidate lists. When the heads share an id, one
/// candidate stands for both: the log one unless the index one is strictly
/// newer.
pub open spec fn merge_by_id<T>(a: Seq<(T, RowView)>, b: Seq<(T, RowView)>) -> Seq<(T, RowView)>
    decreases a.len() + b.len(),
{
    if a.len() == 0 {
        b
    } else if b.len() == 0 {
        a
    } else {
        let c = id_order(a[0].1.id, b[0].1.id);
        if c < 0 {
            seq![a[0]] + merge_by_id(a.drop_first(), b)
        } else if c > 0 {
            seq![b[0]] + merge_by_id(a, b.drop_first())
        } else if b[0].1.timestamp >= a[0].1.timestamp {
            seq![b[0]] + merge_by_id(a.drop_first(), b.drop_first())
        } else {
            seq![a[0]] + merge_by_id(a.drop_first(), b.drop_first())
        }
    }
}

proof fn lemma_insert_at<T>(s: Seq<(T, RowView)>, x: (T, RowView), p: int)
    requires
        0 <= p <= s.len(),
        p == s.len() || id_order(s[p].1.id, x.1.id) > 0,
        forall|k: int| p < k < s.len() ==> id_order(#[trigger] s[k].1.id, x.1.id) > 0,
        p == 0 || id_order(s[p - 1].1.id, x.1.id) <= 0,
    ensures
        insert_sorted(s, x) == s.take(p).push(x) + s.skip(p),
    decreases s.len(),
{
    if s.len() == 0 {
        assert(s.take(p).push(x) + s.skip(p) =~= seq![x]);
    } else if p == s.len() {
        assert(s.take(p).push(x) + s.skip(p) =~= s.push(x));
    } else {
        let t = s.drop_last();
        assert forall|k: int| p < k < t.len() implies id_order(#[trigger] t[k].1.id, x.1.id) > 0 by {
            assert(t[k] == s[k]);
        }
        if p < t.len() {
            assert(t[p] == s[p]);
        }
        if p > 0 {
            assert(t[p - 1] == s[p - 1]);
        }
        lemma_insert_at(t, x, p);
        assert((t.take(p).push(x) + t.skip(p)).push(s.last()) =~= s.take(p).push(x) + s.skip(p));
    }
}

/// Sorts candidates by document id, keeping the order of equal ids.
pub fn sort_candidates<T>(v: Vec<(T, Row)>) -> (r: Vec<(T, Row)>)
    ensures
        cand_view(r@) == sort_by_id(cand_view(v@)),
{
    let ghost all = v@;
    let mut out: Vec<(T, Row)> = Vec::new();
    for x in it: v.into_iter()
        invariant
            it.seq() == all,
            cand_view(out@) == sort_by_id(cand_view(all.take(it.index() as int))),
    {
        let ghost j = it.index();
        let ghost pre = cand_view(out@);
        let mut p = out.len();
        while p > 0 && compare_ids(&out[p - 1].1.id, &x.1.id) > 0
            invariant
                p <= out@.len(),
                pre == cand_view(out@),
                forall|k: int| p <= k < out@.len() ==> id_order(#[trigger] pre[k].1.id, x.1@.id) > 0,
            decreases p,
        {
            p = p - 1;
        }
        proof {
            let xv = (x.0, x.1@);
            if p < pre.len() {
                assert(id_order(pre[p as int].1.id, xv.1.id) > 0);
            }
            if p > 0 {
                assert(pre[p - 1].1.id == out@[p - 1].1.id@);
            }
            lemma_insert_at(pre, xv, p as int);
            let s = cand_view(all.take(j + 1));
            assert(s.drop_last() =~= cand_view(all.take(j as int)));
            assert(s.last() == xv);
        }
        out.insert(p, x);
        proof {
            assert(cand_view(out@) =~= pre.take(p as int).push((x.0, x.1@)) + pre.skip(p as int));
        }
    }
    proof {
        assert(all.take(all.len() as int) =~= all);
    }
    out
}

proof fn lemma_reverse_drop_first<A>(s: Seq<A>)
    requires
        s.len() > 0,
    ensures
        s.drop_first().reverse() == s.reverse().drop_last(),
{
    let t = s.drop_first();
    if t.len() == 0 {
        assert(s.reverse().drop_last() =~= t.reverse());
    } else {
        assert forall|k: int| 0 <= k < t.len() implies #[trigger] t.reverse()[k] == s.reverse().drop_last()[k] by {
            assert(t.reverse()[k] == t[t.len() - 1 - k]);
            assert(s.reverse()[k] == s[s.len() - 1 - k]);
        }
        assert(t.reverse() =~= s.reverse().drop_last());
    }
}

/// The elements in the opposite order.
fn reversed<T>(v: Vec<T>) -> (r: Vec<T>)
    ensures
        r@ == v@.reverse(),
{
    let ghost orig = v@;
    let mut v = v;
    let mut r: Vec<T> = Vec::new();
    while v.len() > 0
        invariant
            v@ == orig.take(v@.len() as int),
            r@.len() + v@.len() == orig.len(),
            forall|k: int| 0 <= k < r@.len() ==> #[trigger] r@[k] == orig[orig.len() - 1 - k],
        decreases v@.len(),
    {
        let ghost n = v@.len();
        let x = v.pop().unwrap();
        proof {
            assert(x == orig[n - 1]);
        }
        r.push(x);
        proof {
            assert(v@ =~= orig.take(v@.len() as int));
        }
    }
    assert(r@ =~= orig.reverse());
    r
}

/// Merges index candidates and log candidates by document id. Both lists are
/// first sorted by id (stably); where both hold the same document, the log
/// candidate wins unless the index row is strictly newer. The result is
/// ordered by id.
pub fn merge_candidates<T>(index_candidates: Vec<(T, Row)>, wal_candidates: Vec<(T, Row)>) -> (merged: Vec<
    (T, Row),
>)
    ensures
        cand_view(merged@) == merge_by_id(
            sort_by_id(cand_view(index_candidates@)),
            sort_by_id(cand_view(wal_candidates@)),
        ),
{
    let a = sort_candidates(index_candidates);
    let b = sort_candidates(wal_candidates);
    let ghost av = cand_view(a@);
    let ghost bv = cand_view(b@);
    let mut ra = reversed(a);
    let mut rb = reversed(b);
    let mut out: Vec<(T, Row)> = Vec::new();
    let ghost mut ia: int = 0;
    let ghost mut ib: int = 0;
    proof {
        assert(av.skip(0) =~= av);
        assert(bv.skip(0) =~= bv);
        assert(cand_view(ra@) =~= av.skip(0).reverse());
        assert(cand_view(rb@) =~= bv.skip(0).reverse());
        assert(cand_view(out@) + merge_by_id(av, bv) =~= merge_by_id(av, bv));
    }
    while ra.len() > 0 && rb.len() > 0
        invariant
            0 <= ia <= av.len(),
            0 <= ib <= bv.len(),
            cand_view(ra@) == av.skip(ia).reverse(),
            cand_view(rb@) == bv.skip(ib).reverse(),
            cand_view(out@) + merge_by_id(av.skip(ia), bv.skip(ib)) == merge_by_id(av, bv),
        decreases ra@.len() + rb@.len(),
    {
        let ghost sa = av.skip(ia);
        let ghost sb = bv.skip(ib);
        let ghost pre = cand_view(out@);
        let la = ra.len() - 1;
        let lb = rb.len() - 1;
        proof {
            assert(cand_view(ra@).len() == ra@.len());
            assert(cand_view(rb@).len() == rb@.len());
            assert(sa.len() > 0 && sb.len() > 0);
            assert(sa.reverse()[la as int] == sa[0]);
            assert(sb.reverse()[lb as int] == sb[0]);
            assert(cand_view(ra@)[la as int] == sa[0]);
            assert(cand_view(rb@)[lb as int] == sb[0]);
            assert(sa.drop_first() =~= av.skip(ia + 1));
            assert(sb.drop_first() =~= bv.skip(ib + 1));
        }
        let c = compare_ids(&ra[la].1.id, &rb[lb].1.id);
        if c < 0 {
            let x = ra.pop().unwrap();
            out.push(x);
            proof {
                assert(cand_view(out@) =~= pre.push(sa[0]));
                assert(merge_by_id(sa, sb) == seq![sa[0]] + merge_by_id(sa.drop_first(), sb));
                assert(cand_view(out@) + merge_by_id(av.skip(ia + 1), sb) =~= pre + merge_by_id(sa, sb));
                lemma_reverse_drop_first(sa);
                assert(cand_view(ra@) =~= sa.reverse().drop_last());
                ia = ia + 1;
            }
        } else if c > 0 {
            let y = rb.pop().unwrap();
            out.push(y);
            proof {
                assert(cand_view(out@) =~= pre.push(sb[0]));
                assert(merge_by_id(sa, sb) == seq![sb[0]] + merge_by_id(sa, sb.drop_first()));
                assert(cand_view(out@) + merge_by_id(sa, bv.skip(ib + 1)) =~= pre + merge_by_id(sa, sb));
                lemma_reverse_drop_first(sb);
                assert(cand_view(rb@) =~= sb.reverse().drop_last());
                ib = ib + 1;
            }
        } else {
            let x = ra.pop().unwrap();
            let y = rb.pop().unwrap();
            let ghost chosen = if sb[0].1.timestamp >= sa[0].1.timestamp { sb[0] } else { sa[0] };
            if y.1.timestamp >= x.1.timestamp {
                out.push(y);
            } else {
                out.push(x);
            }
            proof {
                assert(cand_view(out@) =~= pre.push(chosen));
                assert(merge_by_id(sa, sb) == seq![chosen] + merge_by_id(sa.drop_first(), sb.drop_first()));
                assert(cand_view(out@) + merge_by_id(av.skip(ia + 1), bv.skip(ib + 1)) =~= pre + merge_by_id(
                    sa,
                    sb,
                ));
                lemma_reverse_drop_first(sa);
                lemma_reverse_drop_first(sb);
                assert(cand_view(ra@) =~= sa.reverse().drop_last());
                assert(cand_view(rb@) =~= sb.reverse().drop_last());
                ia = ia + 1;
                ib = ib + 1;
            }
        }
    }
    // One side is exhausted: the rest of the other side follows in order.
    proof {
        if ra@.len() == 0 {
            assert(av.skip(ia).len() == 0);
            assert(merge_by_id(av.skip(ia), bv.skip(ib)) == bv.skip(ib));
        } else {
            assert(bv.skip(ib).len() == 0);
            assert(merge_by_id(av.skip(ia), bv.skip(ib)) == av.skip(ia));
        }
    }
    let ghost rest = merge_by_id(av.skip(ia), bv.skip(ib));
    let ghost ra_left = ra@.len() > 0;
    let mut rest_rev = if ra.len() > 0 { ra } else { rb };
    proof {
        assert(cand_view(rest_rev@) =~= rest.reverse());
        assert(cand_view(out@) + rest == merge_by_id(av, bv));
    }
    let ghost mut k: int = 0;
    while rest_rev.len() > 0
        invariant
            0 <= k <= rest.len(),
            cand_view(rest_rev@) == rest.skip(k).reverse(),
            cand_view(out@) + rest.skip(k) == merge_by_id(av, bv),
        decreases rest_rev@.len(),
    {
        let ghost pre = cand_view(out@);
        proof {
            assert(cand_view(rest_rev@).len() == rest_rev@.len());
            assert(rest.skip(k).len() > 0);
            assert(rest.skip(k).reverse()[rest_rev@.len() - 1] == rest.skip(k)[0]);
            assert(cand_view(rest_rev@)[rest_rev@.len() - 1] == rest.skip(k)[0]);
        }
        let x = rest_rev.pop().unwrap();
        out.push(x);
        proof {
            assert(cand_view(out@) =~= pre.push(rest[k]));
            assert(cand_view(out@) + rest.skip(k + 1) =~= pre + rest.skip(k));
            lemma_reverse_drop_first(rest.skip(k));
            assert(rest.skip(k).drop_first() =~= rest.skip(k + 1));
            assert(cand_view(rest_rev@) =~= rest.skip(k).reverse().drop_last());
            k = k + 1;
        }
    }
    proof {
        assert(rest.skip(k).len() == 0);
        assert(cand_view(out@) =~= cand_view(out@) + rest.skip(k));
    }
    out
}

} // verus!
