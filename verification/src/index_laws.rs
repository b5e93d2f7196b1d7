//! What a built inverted index means: which documents it files under which
//! keys, and what a filter over it returns.
use vstd::prelude::*;
use crate::engine::{AttributeValue, DocId, Row};
use crate::inverted_index::{
    canonical_text, row_keys_of, add_posting, file_keys, file_rows, indexes_field, lemma_sort_ids_members, matches_all, postings_of, sort_ids,
    IndexKey, RowKeys,
};

verus! {

/// Some row of the document has an indexed attribute with this name and key
/// text.
pub open spec fn row_carries(rows: Seq<RowKeys>, attributes: Seq<Seq<char>>, k: IndexKey, d: DocId) -> bool {
    exists|r: int, j: int|
        0 <= r < rows.len() && 0 <= j < rows[r].1.len() && (#[trigger] rows[r]).0 == d && #[trigger] rows[r].1[j] == k
            && indexes_field(attributes, k.0)
}

/// The index that rows build: filed row after row, then sorted.
pub open spec fn built_index(rows: Seq<RowKeys>, attributes: Seq<Seq<char>>) -> Map<IndexKey, Seq<DocId>> {
    file_rows(rows, attributes).map_values(|s: Seq<DocId>| sort_ids(s))
}

proof fn lemma_add_posting_contains(m: Map<IndexKey, Seq<DocId>>, key: IndexKey, id: DocId, k: IndexKey, d: DocId)
    ensures
        postings_of(add_posting(m, key, id), k).contains(d) <==> (postings_of(m, k).contains(d) || (k == key && d
            == id)),
{
    if k == key {
        let old_s = postings_of(m, k);
        let new_s = old_s.push(id);
        if m.contains_key(k) {
            assert(postings_of(add_posting(m, key, id), k) == new_s);
        } else {
            assert(postings_of(add_posting(m, key, id), k) =~= new_s);
        }
        if new_s.contains(d) {
            let i = choose|i: int| 0 <= i < new_s.len() && new_s[i] == d;
            if i < old_s.len() {
                assert(old_s[i] == d);
            }
        }
        if old_s.contains(d) {
            let i = choose|i: int| 0 <= i < old_s.len() && old_s[i] == d;
            assert(new_s[i] == d);
        }
        if d == id {
            assert(new_s[old_s.len() as int] == d);
        }
    }
}

proof fn lemma_file_keys_contains(
    m: Map<IndexKey, Seq<DocId>>,
    id: DocId,
    keys: Seq<(Seq<char>, Seq<char>)>,
    attributes: Seq<Seq<char>>,
    k: IndexKey,
    d: DocId,
)
    ensures
        postings_of(file_keys(m, id, keys, attributes), k).contains(d) <==> (postings_of(m, k).contains(d) || (d == id
            && keys.contains(k) && indexes_field(attributes, k.0))),
    decreases keys.len(),
{
    if keys.len() > 0 {
        let t = keys.drop_last();
        lemma_file_keys_contains(m, id, t, attributes, k, d);
        let m1 = file_keys(m, id, t, attributes);
        if indexes_field(attributes, keys.last().0) {
            lemma_add_posting_contains(m1, keys.last(), id, k, d);
        }
        assert forall|x: IndexKey| keys.contains(x) <==> (t.contains(x) || x == keys.last()) by {
            if keys.contains(x) {
                let i = choose|i: int| 0 <= i < keys.len() && keys[i] == x;
                if i < t.len() {
                    assert(t[i] == x);
                }
            }
            if t.contains(x) {
                let i = choose|i: int| 0 <= i < t.len() && t[i] == x;
                assert(keys[i] == x);
            }
            if x == keys.last() {
                assert(keys[keys.len() - 1] == x);
            }
        }
    }
}

proof fn lemma_file_rows_contains(rows: Seq<RowKeys>, attributes: Seq<Seq<char>>, k: IndexKey, d: DocId)
    ensures
        postings_of(file_rows(rows, attributes), k).contains(d) <==> row_carries(rows, attributes, k, d),
    decreases rows.len(),
{
    if rows.len() == 0 {
        assert(postings_of(file_rows(rows, attributes), k) =~= Seq::<DocId>::empty());
    } else {
        let t = rows.drop_last();
        let last = rows.last();
        lemma_file_rows_contains(t, attributes, k, d);
        lemma_file_keys_contains(file_rows(t, attributes), last.0, last.1, attributes, k, d);
        if row_carries(rows, attributes, k, d) {
            let (r, j) = choose|r: int, j: int|
                0 <= r < rows.len() && 0 <= j < rows[r].1.len() && (#[trigger] rows[r]).0 == d && #[trigger] rows[r].1[j]
                    == k && indexes_field(attributes, k.0);
            if r < t.len() {
                assert(t[r] == rows[r]);
                assert(row_carries(t, attributes, k, d));
            } else {
                assert(last.1[j] == k);
                assert(last.1.contains(k));
            }
        }
        if row_carries(t, attributes, k, d) {
            let (r, j) = choose|r: int, j: int|
                0 <= r < t.len() && 0 <= j < t[r].1.len() && (#[trigger] t[r]).0 == d && #[trigger] t[r].1[j] == k
                    && indexes_field(attributes, k.0);
            assert(rows[r] == t[r]);
            assert(rows[r].1[j] == k);
        }
        if d == last.0 && last.1.contains(k) && indexes_field(attributes, k.0) {
            let j = choose|j: int| 0 <= j < last.1.len() && last.1[j] == k;
            assert(rows[rows.len() - 1] == last);
            assert(rows[rows.len() - 1].1[j] == k);
        }
    }
}

/// A built index files a document under an attribute name and value text
/// exactly when some row of that document has the attribute indexed with
/// that value.
pub proof fn built_index_files_carrying_rows(rows: Seq<RowKeys>, attributes: Seq<Seq<char>>, k: IndexKey, d: DocId)
    ensures
        postings_of(built_index(rows, attributes), k).contains(d) <==> row_carries(rows, attributes, k, d),
{
    let m = file_rows(rows, attributes);
    lemma_file_rows_contains(rows, attributes, k, d);
    lemma_sort_ids_members(postings_of(m, k));
    if m.contains_key(k) {
        assert(postings_of(built_index(rows, attributes), k) == sort_ids(m[k]));
    } else {
        assert(postings_of(built_index(rows, attributes), k) =~= Seq::<DocId>::empty());
        assert(postings_of(m, k) =~= Seq::<DocId>::empty());
    }
}

/// Filtering a built index by attribute name and value pairs finds exactly
/// the documents that carry every pair in some row.
pub proof fn filter_finds_documents_carrying_every_pair(
    rows: Seq<RowKeys>,
    attributes: Seq<Seq<char>>,
    keys: Seq<IndexKey>,
    d: DocId,
)
    ensures
        matches_all(built_index(rows, attributes), keys, d) <==> forall|i: int|
            0 <= i < keys.len() ==> #[trigger] row_carries(rows, attributes, keys[i], d),
{
    assert forall|i: int| 0 <= i < keys.len() implies postings_of(built_index(rows, attributes), keys[i]).contains(d)
        == row_carries(rows, attributes, keys[i], d) by {
        built_index_files_carrying_rows(rows, attributes, keys[i], d);
    }
}

/// A built index finds each row by its own attributes: for rows filed as
/// `build_from_rows` files them, a row's indexed attribute whose value has a
/// key text files the row's document under that name and text, so a filter
/// on that pair finds the document.
pub proof fn built_index_finds_rows_by_their_values<F: Fn(&AttributeValue) -> String>(
    float_key: F,
    rows: Seq<Row>,
    attributes: Seq<Seq<char>>,
    rk: Seq<RowKeys>,
    r: int,
    j: int,
)
    requires
        rk.len() == rows.len(),
        forall|x: int| 0 <= x < rows.len() ==> row_keys_of(float_key, attributes, rows[x], #[trigger] rk[x]),
        0 <= r < rows.len(),
        0 <= j < rows[r].attributes.spec_entries().len(),
        indexes_field(attributes, rows[r].attributes.spec_entries()[j].0@),
        canonical_text(rows[r].attributes.spec_entries()[j].1) is Some,
    ensures
        ({
            let e = rows[r].attributes.spec_entries()[j];
            let k = (e.0@, canonical_text(e.1)->0);
            &&& postings_of(built_index(rk, attributes), k).contains(rows[r].id@)
            &&& matches_all(built_index(rk, attributes), seq![k], rows[r].id@)
        }),
{
    let e = rows[r].attributes.spec_entries()[j];
    let k = (e.0@, canonical_text(e.1)->0);
    assert(row_keys_of(float_key, attributes, rows[r], rk[r]));
    assert(rk[r].1[j] == k);
    assert(row_carries(rk, attributes, k, rows[r].id@));
    built_index_files_carrying_rows(rk, attributes, k, rows[r].id@);
    assert(seq![k][0] == k);
}

} // verus!
