//! Sequences of key/value pairs with distinct keys, read as finite maps.
//!
//! Several structures of the library keep their entries in a `Vec` of pairs
//! (or of records that carry their own key); this module gives such a
//! sequence its map meaning and proves how the map changes when an entry is
//! appended, replaced or removed.
use vstd::prelude::*;

verus! {

/// No key occurs twice.
pub open spec fn keys_unique<K, V>(s: Seq<(K, V)>) -> bool {
    forall|i: int, j: int|
        0 <= i < s.len() && 0 <= j < s.len() && i != j ==> #[trigger] s[i].0 != #[trigger] s[j].0
}

/// Some entry carries the key.
pub open spec fn has_key<K, V>(s: Seq<(K, V)>, k: K) -> bool {
    exists|i: int| 0 <= i < s.len() && #[trigger] s[i].0 == k
}

/// An index of an entry with the key (meaningful when `has_key`).
pub open spec fn key_index<K, V>(s: Seq<(K, V)>, k: K) -> int {
    choose|i: int| 0 <= i < s.len() && #[trigger] s[i].0 == k
}

/// The map that a sequence of entries with distinct keys stands for.
pub open spec fn seq_to_map<K, V>(s: Seq<(K, V)>) -> Map<K, V> {
    Map::new(|k: K| has_key(s, k), |k: K| s[key_index(s, k)].1)
}

pub proof fn lemma_map_at<K, V>(s: Seq<(K, V)>, i: int)
    requires
        keys_unique(s),
        0 <= i < s.len(),
    ensures
        seq_to_map(s).contains_key(s[i].0),
        seq_to_map(s)[s[i].0] == s[i].1,
{
    assert(has_key(s, s[i].0));
    let j = key_index(s, s[i].0);
    assert(s[j].0 == s[i].0);
}

pub proof fn lemma_map_all<K, V>(s: Seq<(K, V)>)
    requires
        keys_unique(s),
    ensures
        forall|i: int|
            0 <= i < s.len() ==> #[trigger] seq_to_map(s).contains_key(s[i].0)
                && seq_to_map(s)[s[i].0] == s[i].1,
        forall|k: K| #[trigger] seq_to_map(s).contains_key(k) <==> has_key(s, k),
{
    assert forall|i: int| 0 <= i < s.len() implies #[trigger] seq_to_map(s).contains_key(s[i].0)
        && seq_to_map(s)[s[i].0] == s[i].1 by {
        lemma_map_at(s, i);
    }
}

pub proof fn lemma_map_empty<K, V>(s: Seq<(K, V)>)
    requires
        s.len() == 0,
    ensures
        keys_unique(s),
        seq_to_map(s) == Map::<K, V>::empty(),
{
    assert(seq_to_map(s) =~= Map::<K, V>::empty());
}

pub proof fn lemma_map_push<K, V>(s: Seq<(K, V)>, p: (K, V))
    requires
        keys_unique(s),
        !has_key(s, p.0),
    ensures
        keys_unique(s.push(p)),
        seq_to_map(s.push(p)) == seq_to_map(s).insert(p.0, p.1),
{
    let t = s.push(p);
    assert forall|i: int, j: int|
        0 <= i < t.len() && 0 <= j < t.len() && i != j implies #[trigger] t[i].0 != #[trigger] t[j].0 by {
        if i < s.len() && j < s.len() {
            assert(t[i] == s[i] && t[j] == s[j]);
        } else if i < s.len() {
            assert(t[i] == s[i]);
        } else {
            assert(t[j] == s[j]);
        }
    }
    lemma_map_all(s);
    lemma_map_all(t);
    assert forall|k: K| has_key(t, k) <==> (has_key(s, k) || k == p.0) by {
        if has_key(s, k) {
            let i = choose|i: int| 0 <= i < s.len() && #[trigger] s[i].0 == k;
            assert(t[i] == s[i]);
        }
        if has_key(t, k) && k != p.0 {
            let i = choose|i: int| 0 <= i < t.len() && #[trigger] t[i].0 == k;
            assert(t[i] == s[i]);
        }
        if k == p.0 {
            assert(t[s.len() as int] == p);
        }
    }
    assert forall|k: K| #[trigger] seq_to_map(t).contains_key(k) implies seq_to_map(t)[k]
        == seq_to_map(s).insert(p.0, p.1)[k] by {
        if k == p.0 {
            assert(t[s.len() as int] == p);
        } else {
            let i = choose|i: int| 0 <= i < t.len() && #[trigger] t[i].0 == k;
            assert(t[i] == s[i]);
        }
    }
    assert(seq_to_map(t) =~= seq_to_map(s).insert(p.0, p.1));
}

pub proof fn lemma_map_update<K, V>(s: Seq<(K, V)>, i: int, p: (K, V))
    requires
        keys_unique(s),
        0 <= i < s.len(),
        s[i].0 == p.0,
    ensures
        keys_unique(s.update(i, p)),
        seq_to_map(s.update(i, p)) == seq_to_map(s).insert(p.0, p.1),
{
    let t = s.update(i, p);
    assert forall|a: int, b: int|
        0 <= a < t.len() && 0 <= b < t.len() && a != b implies #[trigger] t[a].0 != #[trigger] t[b].0 by {
        assert(t[a].0 == s[a].0 && t[b].0 == s[b].0);
    }
    lemma_map_all(s);
    lemma_map_all(t);
    assert forall|k: K| has_key(t, k) <==> has_key(s, k) by {
        if has_key(s, k) {
            let j = choose|j: int| 0 <= j < s.len() && #[trigger] s[j].0 == k;
            assert(t[j].0 == s[j].0);
        }
        if has_key(t, k) {
            let j = choose|j: int| 0 <= j < t.len() && #[trigger] t[j].0 == k;
            assert(t[j].0 == s[j].0);
        }
    }
    assert forall|k: K| #[trigger] seq_to_map(t).contains_key(k) implies seq_to_map(t)[k]
        == seq_to_map(s).insert(p.0, p.1)[k] by {
        let j = choose|j: int| 0 <= j < t.len() && #[trigger] t[j].0 == k;
        if j != i {
            assert(t[j] == s[j]);
        }
    }
    assert(seq_to_map(t) =~= seq_to_map(s).insert(p.0, p.1));
}

pub proof fn lemma_map_remove<K, V>(s: Seq<(K, V)>, i: int)
    requires
        keys_unique(s),
        0 <= i < s.len(),
    ensures
        keys_unique(s.remove(i)),
        seq_to_map(s.remove(i)) == seq_to_map(s).remove(s[i].0),
{
    let t = s.remove(i);
    assert forall|a: int| 0 <= a < t.len() implies #[trigger] t[a] == s[if a < i { a } else { a + 1 }] by {}
    assert forall|a: int, b: int|
        0 <= a < t.len() && 0 <= b < t.len() && a != b implies #[trigger] t[a].0 != #[trigger] t[b].0 by {
        let a2 = if a < i { a } else { a + 1 };
        let b2 = if b < i { b } else { b + 1 };
        assert(t[a] == s[a2] && t[b] == s[b2]);
    }
    lemma_map_all(s);
    lemma_map_all(t);
    assert forall|k: K| has_key(t, k) <==> (has_key(s, k) && k != s[i].0) by {
        if has_key(s, k) && k != s[i].0 {
            let j = choose|j: int| 0 <= j < s.len() && #[trigger] s[j].0 == k;
            let j2 = if j < i { j } else { j - 1 };
            assert(t[j2] == s[j]);
        }
        if has_key(t, k) {
            let j = choose|j: int| 0 <= j < t.len() && #[trigger] t[j].0 == k;
            let j2 = if j < i { j } else { j + 1 };
            assert(t[j] == s[j2]);
        }
    }
    assert forall|k: K| #[trigger] seq_to_map(t).contains_key(k) implies seq_to_map(t)[k]
        == seq_to_map(s).remove(s[i].0)[k] by {
        let j = choose|j: int| 0 <= j < t.len() && #[trigger] t[j].0 == k;
        let j2 = if j < i { j } else { j + 1 };
        assert(t[j] == s[j2]);
    }
    assert(seq_to_map(t) =~= seq_to_map(s).remove(s[i].0));
}

/// A sequence with distinct keys stands for a map with as many entries.
pub proof fn lemma_map_len<K, V>(s: Seq<(K, V)>)
    requires
        keys_unique(s),
    ensures
        seq_to_map(s).len() == s.len(),
        seq_to_map(s).dom().finite(),
    decreases s.len(),
{
    if s.len() == 0 {
        lemma_map_empty(s);
    } else {
        let t = s.drop_last();
        assert forall|i: int, j: int|
            0 <= i < t.len() && 0 <= j < t.len() && i != j implies #[trigger] t[i].0 != #[trigger] t[j].0 by {
            assert(t[i] == s[i] && t[j] == s[j]);
        }
        assert forall|i: int| 0 <= i < t.len() implies #[trigger] t[i].0 != s.last().0 by {
            assert(t[i] == s[i]);
        }
        lemma_map_len(t);
        lemma_map_push(t, s.last());
        assert(t.push(s.last()) =~= s);
    }
}

} // verus!
