//! What the merge of index results with log results promises: one candidate
//! per document, the newer row of a document winning, the log winning ties.
use vstd::prelude::*;
use crate::candidates::{bytes_order, id_order, insert_sorted, merge_by_id, sort_by_id, type_rank};
use crate::engine::{DocId, RowView};
use crate::keyed::{has_key, keys_unique, lemma_map_all, lemma_map_empty, lemma_map_push, seq_to_map};

verus! {

pub proof fn lemma_bytes_antisym(a: Seq<u8>, b: Seq<u8>)
    ensures
        bytes_order(a, b) == -bytes_order(b, a),
        -1 <= bytes_order(a, b) <= 1,
    decreases a.len(),
{
    if a.len() > 0 && b.len() > 0 && a[0] == b[0] {
        lemma_bytes_antisym(a.drop_first(), b.drop_first());
    }
}

pub proof fn lemma_bytes_zero(a: Seq<u8>, b: Seq<u8>)
    ensures
        bytes_order(a, b) == 0 <==> a == b,
    decreases a.len(),
{
    if a.len() > 0 && b.len() > 0 {
        lemma_bytes_zero(a.drop_first(), b.drop_first());
        if a == b {
            assert(a.drop_first() == b.drop_first());
        }
        if a[0] == b[0] && a.drop_first() == b.drop_first() {
            assert forall|i: int| 0 <= i < a.len() implies a[i] == b[i] by {
                if i > 0 {
                    assert(a[i] == a.drop_first()[i - 1]);
                    assert(b[i] == b.drop_first()[i - 1]);
                }
            }
            assert(a =~= b);
        }
    } else if a.len() == 0 && b.len() == 0 {
        assert(a =~= b);
    }
}

pub proof fn lemma_bytes_trans(a: Seq<u8>, b: Seq<u8>, c: Seq<u8>)
    requires
        bytes_order(a, b) <= 0,
        bytes_order(b, c) <= 0,
    ensures
        bytes_order(a, c) <= 0,
    decreases a.len(),
{
    if a.len() > 0 && b.len() > 0 && c.len() > 0 && a[0] == b[0] && b[0] == c[0] {
        lemma_bytes_trans(a.drop_first(), b.drop_first(), c.drop_first());
    }
}

/// The order of ids is a total order.
pub proof fn lemma_id_order_props(a: DocId, b: DocId)
    ensures
        id_order(a, b) == -id_order(b, a),
        id_order(a, b) == 0 <==> a == b,
        -1 <= id_order(a, b) <= 1,
{
    lemma_bytes_antisym(a.0, b.0);
    lemma_bytes_zero(a.0, b.0);
    if type_rank(a.1) == type_rank(b.1) {
        assert(a.1 == b.1);
    }
}

pub proof fn lemma_id_order_trans(a: DocId, b: DocId, c: DocId)
    requires
        id_order(a, b) <= 0,
        id_order(b, c) <= 0,
    ensures
        id_order(a, c) <= 0,
        (id_order(a, b) < 0 || id_order(b, c) < 0) ==> id_order(a, c) < 0,
{
    lemma_id_order_props(a, b);
    lemma_id_order_props(b, c);
    lemma_id_order_props(a, c);
    lemma_bytes_antisym(a.0, b.0);
    lemma_bytes_antisym(b.0, c.0);
    lemma_bytes_zero(a.0, b.0);
    lemma_bytes_zero(b.0, c.0);
    lemma_bytes_zero(a.0, c.0);
    if bytes_order(a.0, b.0) <= 0 && bytes_order(b.0, c.0) <= 0 {
        lemma_bytes_trans(a.0, b.0, c.0);
    }
}

/// Candidates keyed by their document id.
pub open spec fn cand_keyed<T>(s: Seq<(T, RowView)>) -> Seq<(DocId, (T, RowView))> {
    s.map_values(|p: (T, RowView)| (p.1.id, p))
}

/// One candidate per document of either side: a document on both sides
/// keeps the log candidate unless the index row is strictly newer.
pub open spec fn newest_of<T>(index: Map<DocId, (T, RowView)>, wal: Map<DocId, (T, RowView)>) -> Map<
    DocId,
    (T, RowView),
> {
    Map::new(
        |k: DocId| index.contains_key(k) || wal.contains_key(k),
        |k: DocId|
            if index.contains_key(k) && wal.contains_key(k) {
                if wal[k].1.timestamp >= index[k].1.timestamp {
                    wal[k]
                } else {
                    index[k]
                }
            } else if wal.contains_key(k) {
                wal[k]
            } else {
                index[k]
            },
    )
}

/// Ids never decrease along the sequence.
pub open spec fn sorted_by_id<T>(s: Seq<(T, RowView)>) -> bool {
    forall|i: int, j: int| 0 <= i < j < s.len() ==> id_order(#[trigger] s[i].1.id, #[trigger] s[j].1.id) <= 0
}

/// Ids strictly increase along the sequence.
pub open spec fn strictly_sorted_by_id<T>(s: Seq<(T, RowView)>) -> bool {
    forall|i: int, j: int| 0 <= i < j < s.len() ==> id_order(#[trigger] s[i].1.id, #[trigger] s[j].1.id) < 0
}

proof fn lemma_insert_members<T>(s: Seq<(T, RowView)>, x: (T, RowView))
    ensures
        insert_sorted(s, x).len() == s.len() + 1,
        forall|i: int| 0 <= i < insert_sorted(s, x).len() ==> #[trigger] insert_sorted(s, x)[i] == x
            || s.contains(insert_sorted(s, x)[i]),
    decreases s.len(),
{
    if s.len() > 0 && id_order(s.last().1.id, x.1.id) > 0 {
        let t = s.drop_last();
        lemma_insert_members(t, x);
        let r = insert_sorted(s, x);
        assert forall|i: int| 0 <= i < r.len() implies #[trigger] r[i] == x || s.contains(r[i]) by {
            if i < r.len() - 1 {
                let e = insert_sorted(t, x)[i];
                assert(r[i] == e);
                if e != x {
                    let j = choose|j: int| 0 <= j < t.len() && t[j] == e;
                    assert(s[j] == t[j]);
                }
            } else {
                assert(s[s.len() - 1] == s.last());
            }
        }
    } else if s.len() > 0 {
        let r = insert_sorted(s, x);
        assert forall|i: int| 0 <= i < r.len() implies #[trigger] r[i] == x || s.contains(r[i]) by {
            if i < s.len() {
                assert(r[i] == s[i]);
            }
        }
    }
}

proof fn lemma_insert_sorted_sorted<T>(s: Seq<(T, RowView)>, x: (T, RowView))
    requires
        sorted_by_id(s),
    ensures
        sorted_by_id(insert_sorted(s, x)),
    decreases s.len(),
{
    let r = insert_sorted(s, x);
    if s.len() == 0 {
    } else if id_order(s.last().1.id, x.1.id) <= 0 {
        assert forall|i: int, j: int| 0 <= i < j < r.len() implies id_order(#[trigger] r[i].1.id, #[trigger] r[j].1.id)
            <= 0 by {
            if j == s.len() {
                if i < s.len() - 1 {
                    assert(id_order(s[i].1.id, s[s.len() - 1].1.id) <= 0);
                    lemma_id_order_trans(s[i].1.id, s.last().1.id, x.1.id);
                }
            } else {
                assert(r[i] == s[i] && r[j] == s[j]);
            }
        }
    } else {
        let t = s.drop_last();
        assert forall|i: int, j: int| 0 <= i < j < t.len() implies id_order(#[trigger] t[i].1.id, #[trigger] t[j].1.id)
            <= 0 by {
            assert(t[i] == s[i] && t[j] == s[j]);
        }
        lemma_insert_sorted_sorted(t, x);
        lemma_insert_members(t, x);
        let m = insert_sorted(t, x);
        lemma_id_order_props(s.last().1.id, x.1.id);
        assert forall|i: int, j: int| 0 <= i < j < r.len() implies id_order(#[trigger] r[i].1.id, #[trigger] r[j].1.id)
            <= 0 by {
            if j == r.len() - 1 {
                let e = m[i];
                assert(r[i] == e);
                assert(r[j] == s.last());
                if e != x {
                    let k = choose|k: int| 0 <= k < t.len() && t[k] == e;
                    assert(s[k] == e);
                    assert(id_order(s[k].1.id, s[s.len() - 1].1.id) <= 0);
                }
            } else {
                assert(r[i] == m[i] && r[j] == m[j]);
            }
        }
    }
}

proof fn lemma_sort_sorted<T>(s: Seq<(T, RowView)>)
    ensures
        sorted_by_id(sort_by_id(s)),
        sort_by_id(s).len() == s.len(),
    decreases s.len(),
{
    if s.len() > 0 {
        lemma_sort_sorted(s.drop_last());
        lemma_insert_sorted_sorted(sort_by_id(s.drop_last()), s.last());
        lemma_insert_members(sort_by_id(s.drop_last()), s.last());
    }
}

/// Sorting keeps the candidates it was given.
pub(crate) proof fn lemma_sort_members<T>(s: Seq<(T, RowView)>)
    ensures
        forall|i: int| 0 <= i < sort_by_id(s).len() ==> s.contains(#[trigger] sort_by_id(s)[i]),
    decreases s.len(),
{
    if s.len() > 0 {
        let t = s.drop_last();
        lemma_sort_members(t);
        lemma_insert_members(sort_by_id(t), s.last());
        assert forall|i: int| 0 <= i < sort_by_id(s).len() implies s.contains(#[trigger] sort_by_id(s)[i]) by {
            let e = sort_by_id(s)[i];
            if e == s.last() {
                assert(s[s.len() - 1] == e);
            } else {
                let k = choose|k: int| 0 <= k < sort_by_id(t).len() && sort_by_id(t)[k] == e;
                let m = choose|m: int| 0 <= m < t.len() && t[m] == sort_by_id(t)[k];
                assert(s[m] == e);
            }
        }
    }
}

proof fn lemma_keyed_push<T>(s: Seq<(T, RowView)>, x: (T, RowView))
    ensures
        cand_keyed(s.push(x)) == cand_keyed(s).push((x.1.id, x)),
{
    assert(cand_keyed(s.push(x)) =~= cand_keyed(s).push((x.1.id, x)));
}

proof fn lemma_insert_sorted_map<T>(s: Seq<(T, RowView)>, x: (T, RowView))
    requires
        keys_unique(cand_keyed(s)),
        !has_key(cand_keyed(s), x.1.id),
    ensures
        keys_unique(cand_keyed(insert_sorted(s, x))),
        seq_to_map(cand_keyed(insert_sorted(s, x))) == seq_to_map(cand_keyed(s)).insert(x.1.id, x),
    decreases s.len(),
{
    if s.len() == 0 || id_order(s.last().1.id, x.1.id) <= 0 {
        if s.len() == 0 {
            assert(insert_sorted(s, x) =~= s.push(x));
        }
        lemma_keyed_push(s, x);
        lemma_map_push(cand_keyed(s), (x.1.id, x));
    } else {
        let t = s.drop_last();
        let ks = cand_keyed(s);
        let kt = cand_keyed(t);
        assert(ks =~= kt.push((s.last().1.id, s.last())));
        assert forall|i: int, j: int| 0 <= i < kt.len() && 0 <= j < kt.len() && i != j implies #[trigger] kt[i].0
            != #[trigger] kt[j].0 by {
            assert(kt[i] == ks[i] && kt[j] == ks[j]);
        }
        assert(!has_key(kt, x.1.id)) by {
            if has_key(kt, x.1.id) {
                let i = choose|i: int| 0 <= i < kt.len() && #[trigger] kt[i].0 == x.1.id;
                assert(ks[i] == kt[i]);
            }
        }
        lemma_insert_sorted_map(t, x);
        let m = insert_sorted(t, x);
        let km = cand_keyed(m);
        let last = s.last();
        assert(!has_key(km, last.1.id)) by {
            lemma_map_all(km);
            if has_key(km, last.1.id) {
                assert(seq_to_map(km).contains_key(last.1.id));
                assert(last.1.id != x.1.id) by {
                    assert(ks[s.len() - 1].0 == last.1.id);
                }
                assert(seq_to_map(kt).contains_key(last.1.id));
                lemma_map_all(kt);
                let i = choose|i: int| 0 <= i < kt.len() && #[trigger] kt[i].0 == last.1.id;
                assert(ks[i] == kt[i]);
                assert(ks[s.len() - 1].0 == last.1.id);
            }
        }
        lemma_keyed_push(m, last);
        lemma_map_push(km, (last.1.id, last));
        assert(!has_key(kt, last.1.id)) by {
            if has_key(kt, last.1.id) {
                let i = choose|i: int| 0 <= i < kt.len() && #[trigger] kt[i].0 == last.1.id;
                assert(ks[i] == kt[i]);
                assert(ks[s.len() - 1].0 == last.1.id);
            }
        }
        lemma_map_push(kt, (last.1.id, last));
        assert(seq_to_map(ks) == seq_to_map(kt).insert(last.1.id, last));
        assert(last.1.id != x.1.id) by {
            assert(ks[s.len() - 1].0 == last.1.id);
        }
        assert(seq_to_map(kt).insert(x.1.id, x).insert(last.1.id, last) =~= seq_to_map(kt).insert(
            last.1.id,
            last,
        ).insert(x.1.id, x));
    }
}

proof fn lemma_sort_map<T>(s: Seq<(T, RowView)>)
    requires
        keys_unique(cand_keyed(s)),
    ensures
        keys_unique(cand_keyed(sort_by_id(s))),
        seq_to_map(cand_keyed(sort_by_id(s))) == seq_to_map(cand_keyed(s)),
    decreases s.len(),
{
    if s.len() == 0 {
        lemma_map_empty(cand_keyed(s));
        lemma_map_empty(cand_keyed(sort_by_id(s)));
    } else {
        let t = s.drop_last();
        let ks = cand_keyed(s);
        let kt = cand_keyed(t);
        assert(ks =~= kt.push((s.last().1.id, s.last())));
        assert forall|i: int, j: int| 0 <= i < kt.len() && 0 <= j < kt.len() && i != j implies #[trigger] kt[i].0
            != #[trigger] kt[j].0 by {
            assert(kt[i] == ks[i] && kt[j] == ks[j]);
        }
        assert(!has_key(kt, s.last().1.id)) by {
            if has_key(kt, s.last().1.id) {
                let i = choose|i: int| 0 <= i < kt.len() && #[trigger] kt[i].0 == s.last().1.id;
                assert(ks[i] == kt[i]);
                assert(ks[s.len() - 1].0 == s.last().1.id);
            }
        }
        lemma_sort_map(t);
        lemma_map_all(kt);
        lemma_map_all(cand_keyed(sort_by_id(t)));
        assert(!has_key(cand_keyed(sort_by_id(t)), s.last().1.id)) by {
            if has_key(cand_keyed(sort_by_id(t)), s.last().1.id) {
                assert(seq_to_map(cand_keyed(sort_by_id(t))).contains_key(s.last().1.id));
            }
        }
        lemma_insert_sorted_map(sort_by_id(t), s.last());
        lemma_map_push(kt, (s.last().1.id, s.last()));
    }
}

pub(crate) proof fn lemma_merge_members<T>(a: Seq<(T, RowView)>, b: Seq<(T, RowView)>)
    ensures
        forall|i: int| 0 <= i < merge_by_id(a, b).len() ==> a.contains(#[trigger] merge_by_id(a, b)[i])
            || b.contains(merge_by_id(a, b)[i]),
    decreases a.len() + b.len(),
{
    let r = merge_by_id(a, b);
    if a.len() == 0 || b.len() == 0 {
        assert forall|i: int| 0 <= i < r.len() implies a.contains(#[trigger] r[i]) || b.contains(r[i]) by {
            if a.len() == 0 {
                assert(b[i] == r[i]);
            } else {
                assert(a[i] == r[i]);
            }
        }
    } else {
        let c = id_order(a[0].1.id, b[0].1.id);
        let a1 = a.drop_first();
        let b1 = b.drop_first();
        let rest = if c < 0 {
            merge_by_id(a1, b)
        } else if c > 0 {
            merge_by_id(a, b1)
        } else {
            merge_by_id(a1, b1)
        };
        if c < 0 {
            lemma_merge_members(a1, b);
        } else if c > 0 {
            lemma_merge_members(a, b1);
        } else {
            lemma_merge_members(a1, b1);
        }
        assert forall|i: int| 0 <= i < r.len() implies a.contains(#[trigger] r[i]) || b.contains(r[i]) by {
            if i == 0 {
                assert(a[0] == r[0] || b[0] == r[0]);
            } else {
                let e = rest[i - 1];
                assert(r[i] == e);
                if a1.contains(e) {
                    let j = choose|j: int| 0 <= j < a1.len() && a1[j] == e;
                    assert(a[j + 1] == e);
                }
                if b1.contains(e) {
                    let j = choose|j: int| 0 <= j < b1.len() && b1[j] == e;
                    assert(b[j + 1] == e);
                }
            }
        }
    }
}

proof fn lemma_strict_unique<T>(s: Seq<(T, RowView)>)
    requires
        strictly_sorted_by_id(s),
    ensures
        keys_unique(cand_keyed(s)),
{
    let k = cand_keyed(s);
    assert forall|i: int, j: int| 0 <= i < k.len() && 0 <= j < k.len() && i != j implies #[trigger] k[i].0
        != #[trigger] k[j].0 by {
        if i < j {
            assert(id_order(s[i].1.id, s[j].1.id) < 0);
        } else {
            assert(id_order(s[j].1.id, s[i].1.id) < 0);
        }
        lemma_id_order_props(s[i].1.id, s[j].1.id);
    }
}

proof fn lemma_map_prepend<T>(s: Seq<(T, RowView)>, x: (T, RowView))
    requires
        keys_unique(cand_keyed(s)),
        forall|i: int| 0 <= i < s.len() ==> #[trigger] s[i].1.id != x.1.id,
    ensures
        keys_unique(cand_keyed(seq![x] + s)),
        seq_to_map(cand_keyed(seq![x] + s)) == seq_to_map(cand_keyed(s)).insert(x.1.id, x),
{
    let t = seq![x] + s;
    let kt = cand_keyed(t);
    let ks = cand_keyed(s);
    assert forall|i: int| 0 <= i < kt.len() implies #[trigger] kt[i] == if i == 0 { (x.1.id, x) } else { ks[i - 1] } by {}
    assert forall|i: int, j: int| 0 <= i < kt.len() && 0 <= j < kt.len() && i != j implies #[trigger] kt[i].0
        != #[trigger] kt[j].0 by {
        if i > 0 && j > 0 {
            assert(ks[i - 1].0 != ks[j - 1].0);
        } else if i == 0 {
            assert(s[j - 1].1.id != x.1.id);
        } else {
            assert(s[i - 1].1.id != x.1.id);
        }
    }
    lemma_map_all(kt);
    lemma_map_all(ks);
    assert forall|k: DocId| #[trigger] seq_to_map(kt).contains_key(k) == seq_to_map(ks).insert(x.1.id, x).contains_key(k)
        by {
        if has_key(kt, k) && k != x.1.id {
            let i = choose|i: int| 0 <= i < kt.len() && #[trigger] kt[i].0 == k;
            assert(ks[i - 1].0 == k);
        }
        if has_key(ks, k) {
            let i = choose|i: int| 0 <= i < ks.len() && #[trigger] ks[i].0 == k;
            assert(kt[i + 1].0 == k);
        }
        if k == x.1.id {
            assert(kt[0].0 == k);
        }
    }
    assert forall|k: DocId| #[trigger] seq_to_map(kt).contains_key(k) implies seq_to_map(kt)[k] == seq_to_map(ks).insert(
        x.1.id,
        x,
    )[k] by {
        let i = choose|i: int| 0 <= i < kt.len() && #[trigger] kt[i].0 == k;
        if i > 0 {
            assert(ks[i - 1] == kt[i]);
        }
    }
    assert(seq_to_map(kt) =~= seq_to_map(ks).insert(x.1.id, x));
}

proof fn lemma_keyed_tail<T>(s: Seq<(T, RowView)>)
    requires
        s.len() > 0,
        strictly_sorted_by_id(s),
    ensures
        strictly_sorted_by_id(s.drop_first()),
        keys_unique(cand_keyed(s)),
        keys_unique(cand_keyed(s.drop_first())),
        seq_to_map(cand_keyed(s)) == seq_to_map(cand_keyed(s.drop_first())).insert(s[0].1.id, s[0]),
        forall|i: int| 0 <= i < s.drop_first().len() ==> id_order(s[0].1.id, #[trigger] s.drop_first()[i].1.id)
            < 0,
{
    let t = s.drop_first();
    assert forall|i: int, j: int| 0 <= i < j < t.len() implies id_order(#[trigger] t[i].1.id, #[trigger] t[j].1.id)
        < 0 by {
        assert(t[i] == s[i + 1] && t[j] == s[j + 1]);
    }
    assert forall|i: int| 0 <= i < t.len() implies id_order(s[0].1.id, #[trigger] t[i].1.id) < 0 by {
        assert(t[i] == s[i + 1]);
    }
    lemma_strict_unique(s);
    lemma_strict_unique(t);
    assert forall|i: int| 0 <= i < t.len() implies #[trigger] t[i].1.id != s[0].1.id by {
        assert(id_order(s[0].1.id, t[i].1.id) < 0);
        lemma_id_order_props(s[0].1.id, t[i].1.id);
    }
    lemma_map_prepend(t, s[0]);
    assert(seq![s[0]] + t =~= s);
}

proof fn lemma_merge_sorted_map<T>(a: Seq<(T, RowView)>, b: Seq<(T, RowView)>)
    requires
        strictly_sorted_by_id(a),
        strictly_sorted_by_id(b),
    ensures
        strictly_sorted_by_id(merge_by_id(a, b)),
        keys_unique(cand_keyed(merge_by_id(a, b))),
        seq_to_map(cand_keyed(merge_by_id(a, b))) == newest_of(
            seq_to_map(cand_keyed(a)),
            seq_to_map(cand_keyed(b)),
        ),
    decreases a.len() + b.len(),
{
    let r = merge_by_id(a, b);
    lemma_strict_unique(a);
    lemma_strict_unique(b);
    let ma = seq_to_map(cand_keyed(a));
    let mb = seq_to_map(cand_keyed(b));
    if a.len() == 0 || b.len() == 0 {
        lemma_strict_unique(r);
        if a.len() == 0 {
            lemma_map_empty(cand_keyed(a));
            assert(newest_of(ma, mb) =~= mb);
        } else {
            lemma_map_empty(cand_keyed(b));
            assert(newest_of(ma, mb) =~= ma);
        }
    } else {
        let c = id_order(a[0].1.id, b[0].1.id);
        let a1 = a.drop_first();
        let b1 = b.drop_first();
        lemma_keyed_tail(a);
        lemma_keyed_tail(b);
        lemma_id_order_props(a[0].1.id, b[0].1.id);
        let head = if c < 0 {
            a[0]
        } else if c > 0 {
            b[0]
        } else if b[0].1.timestamp >= a[0].1.timestamp {
            b[0]
        } else {
            a[0]
        };
        let (x, y) = if c < 0 {
            (a1, b)
        } else if c > 0 {
            (a, b1)
        } else {
            (a1, b1)
        };
        lemma_merge_sorted_map(x, y);
        lemma_merge_members(x, y);
        let rest = merge_by_id(x, y);
        assert(r == seq![head] + rest);
        // every candidate after the head has a greater id
        assert forall|i: int| 0 <= i < rest.len() implies id_order(head.1.id, #[trigger] rest[i].1.id) < 0 by {
            let e = rest[i];
            if x.contains(e) {
                let j = choose|j: int| 0 <= j < x.len() && x[j] == e;
                if c < 0 {
                    assert(a1[j] == e);
                } else if c > 0 {
                    assert(a[j] == e);
                    lemma_id_order_props(a[0].1.id, a[j].1.id);
                    if j > 0 {
                        assert(id_order(a[0].1.id, a[j].1.id) < 0);
                    }
                    lemma_id_order_trans(b[0].1.id, a[0].1.id, a[j].1.id);
                } else {
                    assert(a1[j] == e);
                    assert(a[0].1.id == b[0].1.id);
                }
            } else {
                let j = choose|j: int| 0 <= j < y.len() && y[j] == e;
                if c < 0 {
                    assert(b[j] == e);
                    lemma_id_order_props(b[0].1.id, b[j].1.id);
                    if j > 0 {
                        assert(id_order(b[0].1.id, b[j].1.id) < 0);
                    }
                    lemma_id_order_trans(a[0].1.id, b[0].1.id, b[j].1.id);
                } else if c > 0 {
                    assert(b1[j] == e);
                } else {
                    assert(b1[j] == e);
                    assert(a[0].1.id == b[0].1.id);
                }
            }
        }
        assert forall|i: int, j: int| 0 <= i < j < r.len() implies id_order(#[trigger] r[i].1.id, #[trigger] r[j].1.id)
            < 0 by {
            if i == 0 {
                assert(r[j] == rest[j - 1]);
            } else {
                assert(r[i] == rest[i - 1] && r[j] == rest[j - 1]);
            }
        }
        lemma_strict_unique(r);
        assert forall|i: int| 0 <= i < rest.len() implies #[trigger] rest[i].1.id != head.1.id by {
            assert(id_order(head.1.id, rest[i].1.id) < 0);
            lemma_id_order_props(head.1.id, rest[i].1.id);
        }
        lemma_strict_unique(rest);
        lemma_map_prepend(rest, head);
        let mx = seq_to_map(cand_keyed(x));
        let my = seq_to_map(cand_keyed(y));
        lemma_map_all(cand_keyed(a1));
        lemma_map_all(cand_keyed(b1));
        lemma_map_all(cand_keyed(a));
        lemma_map_all(cand_keyed(b));
        if c < 0 {
            assert(!mb.contains_key(a[0].1.id)) by {
                if mb.contains_key(a[0].1.id) {
                    let j = choose|j: int| 0 <= j < cand_keyed(b).len() && #[trigger] cand_keyed(b)[j].0 == a[0].1.id;
                    assert(b[j].1.id == a[0].1.id);
                    if j > 0 {
                        assert(id_order(b[0].1.id, b[j].1.id) < 0);
                        lemma_id_order_props(b[0].1.id, b[j].1.id);
                    }
                }
            }
            assert(newest_of(ma, mb) =~= newest_of(mx, my).insert(head.1.id, head));
        } else if c > 0 {
            assert(!ma.contains_key(b[0].1.id)) by {
                if ma.contains_key(b[0].1.id) {
                    let j = choose|j: int| 0 <= j < cand_keyed(a).len() && #[trigger] cand_keyed(a)[j].0 == b[0].1.id;
                    assert(a[j].1.id == b[0].1.id);
                    if j > 0 {
                        assert(id_order(a[0].1.id, a[j].1.id) < 0);
                        lemma_id_order_props(a[0].1.id, a[j].1.id);
                    }
                }
            }
            assert(newest_of(ma, mb) =~= newest_of(mx, my).insert(head.1.id, head));
        } else {
            assert(a[0].1.id == b[0].1.id);
            assert(!mx.contains_key(a[0].1.id)) by {
                if mx.contains_key(a[0].1.id) {
                    let j = choose|j: int| 0 <= j < cand_keyed(a1).len() && #[trigger] cand_keyed(a1)[j].0 == a[0].1.id;
                    assert(id_order(a[0].1.id, a1[j].1.id) < 0);
                    lemma_id_order_props(a[0].1.id, a1[j].1.id);
                }
            }
            assert(!my.contains_key(b[0].1.id)) by {
                if my.contains_key(b[0].1.id) {
                    let j = choose|j: int| 0 <= j < cand_keyed(b1).len() && #[trigger] cand_keyed(b1)[j].0 == b[0].1.id;
                    assert(id_order(b[0].1.id, b1[j].1.id) < 0);
                    lemma_id_order_props(b[0].1.id, b1[j].1.id);
                }
            }
            assert(newest_of(ma, mb) =~= newest_of(mx, my).insert(head.1.id, head));
        }
    }
}

/// Newest wins per document, the log winning ties: when neither the index
/// candidates nor the log candidates repeat a document, the merge holds one
/// candidate per document of either side, in increasing id order; a
/// document on both sides keeps the log candidate unless the index row is
/// strictly newer.
pub proof fn merge_keeps_newest_per_document<T>(index: Seq<(T, RowView)>, wal: Seq<(T, RowView)>)
    requires
        keys_unique(cand_keyed(index)),
        keys_unique(cand_keyed(wal)),
    ensures
        strictly_sorted_by_id(merge_by_id(sort_by_id(index), sort_by_id(wal))),
        keys_unique(cand_keyed(merge_by_id(sort_by_id(index), sort_by_id(wal)))),
        seq_to_map(cand_keyed(merge_by_id(sort_by_id(index), sort_by_id(wal)))) == newest_of(
            seq_to_map(cand_keyed(index)),
            seq_to_map(cand_keyed(wal)),
        ),
{
    lemma_sort_sorted(index);
    lemma_sort_sorted(wal);
    lemma_sort_map(index);
    lemma_sort_map(wal);
    let si = sort_by_id(index);
    let sw = sort_by_id(wal);
    assert forall|i: int, j: int| 0 <= i < j < si.len() implies id_order(#[trigger] si[i].1.id, #[trigger] si[j].1.id)
        < 0 by {
        assert(cand_keyed(si)[i].0 != cand_keyed(si)[j].0);
        lemma_id_order_props(si[i].1.id, si[j].1.id);
    }
    assert forall|i: int, j: int| 0 <= i < j < sw.len() implies id_order(#[trigger] sw[i].1.id, #[trigger] sw[j].1.id)
        < 0 by {
        assert(cand_keyed(sw)[i].0 != cand_keyed(sw)[j].0);
        lemma_id_order_props(sw[i].1.id, sw[j].1.id);
    }
    lemma_merge_sorted_map(si, sw);
}

} // verus!
