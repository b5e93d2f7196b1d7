//! The inverted index used for attribute filtering: for each attribute name
//! and value text, the documents that hold that value.
use vstd::prelude::*;
use vstd::string::StringExecFns;
use crate::engine::{contains_id, id_views, texts, uuid_bytes, AttributeValue, DocId, DocumentId, Row};
use crate::candidates::{compare_ids, id_order};
use crate::compactor::contains_text;
use crate::keyed::{has_key, keys_unique, lemma_map_all, lemma_map_at, lemma_map_empty, lemma_map_push, lemma_map_update, seq_to_map};
use crate::api::{JsonNumber, JsonValue};
use crate::format::{decimal, signed_decimal, u64_to_decimal, i64_to_decimal, uuid_bytes_text, uuid_text};

verus! {

/// Items separated by `, `.
pub open spec fn join_texts(items: Seq<Seq<char>>) -> Seq<char>
    decreases items.len(),
{
    if items.len() == 0 {
        Seq::empty()
    } else if items.len() == 1 {
        items[0]
    } else {
        join_texts(items.drop_last()) + ", "@ + items.last()
    }
}

/// A list as `Debug` prints it: `[a, b, c]`.
pub open spec fn list_text(items: Seq<Seq<char>>) -> Seq<char> {
    "["@ + join_texts(items) + "]"@
}

pub open spec fn bool_text(b: bool) -> Seq<char> {
    if b {
        "true"@
    } else {
        "false"@
    }
}

/// The text that `Debug` gives a string: quoted, with escapes.
pub uninterp spec fn debug_str_text(s: Seq<char>) -> Seq<char>;

/// `format!("{:?}", s)` on a string slice: the string in double quotes with
/// quotes, backslashes and control characters escaped. The escaped text is
/// named, not stated.
#[verifier::external_body]
fn debug_str(s: &str) -> (r: String)
    ensures
        r@ == debug_str_text(s@),
{
    format!("{:?}", s)
}

/// The index key of an attribute value: the text under which documents with
/// that value are found. Strings stand for themselves; numbers, booleans,
/// UUIDs and times print as usual; null is `null`; arrays print as their
/// variant and list (as `Debug` prints them). Values holding floating-point
/// numbers have no key here (`None`): their text is made outside.
pub open spec fn canonical_text(v: AttributeValue) -> Option<Seq<char>> {
    match v {
        AttributeValue::String(s) => Some(s@),
        AttributeValue::Int(i) => Some(signed_decimal(i as int)),
        AttributeValue::Uint(u) => Some(decimal(u as nat)),
        AttributeValue::Float(_) => None,
        AttributeValue::Bool(b) => Some(bool_text(b)),
        AttributeValue::Uuid(u) => Some(uuid_text(uuid_bytes(u))),
        AttributeValue::DateTime(t) => Some(signed_decimal(t as int)),
        AttributeValue::Null => Some("null"@),
        AttributeValue::EmptyArray => Some("EmptyArray"@),
        AttributeValue::StringArray(v) => Some(
            "StringArray"@ + "("@ + list_text(texts(v@).map_values(|s: Seq<char>| debug_str_text(s))) + ")"@,
        ),
        AttributeValue::IntArray(v) => Some(
            "IntArray"@ + "("@ + list_text(v@.map_values(|x: i64| signed_decimal(x as int))) + ")"@,
        ),
        AttributeValue::UintArray(v) => Some(
            "UintArray"@ + "("@ + list_text(v@.map_values(|x: u64| decimal(x as nat))) + ")"@,
        ),
        AttributeValue::FloatArray(_) => None,
        AttributeValue::BoolArray(v) => Some(
            "BoolArray"@ + "("@ + list_text(v@.map_values(|x: bool| bool_text(x))) + ")"@,
        ),
        AttributeValue::UuidArray(v) => Some(
            "UuidArray"@ + "("@ + list_text(v@.map_values(|x: u128| uuid_text(uuid_bytes(x)))) + ")"@,
        ),
        AttributeValue::DateTimeArray(v) => Some(
            "DateTimeArray"@ + "("@ + list_text(v@.map_values(|x: i64| signed_decimal(x as int))) + ")"@,
        ),
    }
}

/// Appends `[` the parts joined by `, ` `]`.
fn append_list(s: &mut String, parts: &Vec<String>)
    ensures
        final(s)@ == old(s)@ + list_text(texts(parts@)),
{
    s.append("[");
    let ghost start = s@;
    let mut i: usize = 0;
    while i < parts.len()
        invariant
            i <= parts@.len(),
            s@ == start + join_texts(texts(parts@).take(i as int)),
        decreases parts@.len() - i,
    {
        let ghost pre = texts(parts@).take(i as int);
        if i > 0 {
            s.append(", ");
        }
        s.append(parts[i].as_str());
        proof {
            let post = texts(parts@).take(i + 1);
            assert(post.drop_last() =~= pre);
            assert(post.last() == parts@[i as int]@);
            if i == 0 {
                assert(post =~= seq![parts@[0]@]);
            }
        }
        i = i + 1;
    }
    assert(texts(parts@).take(parts@.len() as int) =~= texts(parts@));
    s.append("]");
}

fn bool_string(b: bool) -> (s: String)
    ensures
        s@ == bool_text(b),
{
    if b {
        String::from_str("true")
    } else {
        String::from_str("false")
    }
}

fn int_texts(v: &Vec<i64>) -> (r: Vec<String>)
    ensures
        texts(r@) == v@.map_values(|x: i64| signed_decimal(x as int)),
{
    let mut r: Vec<String> = Vec::new();
    let mut i: usize = 0;
    while i < v.len()
        invariant
            i <= v@.len(),
            texts(r@) == v@.take(i as int).map_values(|x: i64| signed_decimal(x as int)),
        decreases v@.len() - i,
    {
        let t = i64_to_decimal(v[i]);
        let ghost pre = texts(r@);
        r.push(t);
        proof {
            assert(texts(r@) =~= pre.push(signed_decimal(v@[i as int] as int)));
            assert(v@.take(i + 1).map_values(|x: i64| signed_decimal(x as int)) =~= v@.take(i as int).map_values(
                |x: i64| signed_decimal(x as int),
            ).push(signed_decimal(v@[i as int] as int)));
        }
        i = i + 1;
    }
    assert(v@.take(v@.len() as int) =~= v@);
    r
}

fn uint_texts(v: &Vec<u64>) -> (r: Vec<String>)
    ensures
        texts(r@) == v@.map_values(|x: u64| decimal(x as nat)),
{
    let mut r: Vec<String> = Vec::new();
    let mut i: usize = 0;
    while i < v.len()
        invariant
            i <= v@.len(),
            texts(r@) == v@.take(i as int).map_values(|x: u64| decimal(x as nat)),
        decreases v@.len() - i,
    {
        let t = u64_to_decimal(v[i]);
        let ghost pre = texts(r@);
        r.push(t);
        proof {
            assert(texts(r@) =~= pre.push(decimal(v@[i as int] as nat)));
            assert(v@.take(i + 1).map_values(|x: u64| decimal(x as nat)) =~= v@.take(i as int).map_values(
                |x: u64| decimal(x as nat),
            ).push(decimal(v@[i as int] as nat)));
        }
        i = i + 1;
    }
    assert(v@.take(v@.len() as int) =~= v@);
    r
}

fn bool_texts(v: &Vec<bool>) -> (r: Vec<String>)
    ensures
        texts(r@) == v@.map_values(|x: bool| bool_text(x)),
{
    let mut r: Vec<String> = Vec::new();
    let mut i: usize = 0;
    while i < v.len()
        invariant
            i <= v@.len(),
            texts(r@) == v@.take(i as int).map_values(|x: bool| bool_text(x)),
        decreases v@.len() - i,
    {
        let t = bool_string(v[i]);
        let ghost pre = texts(r@);
        r.push(t);
        proof {
            assert(texts(r@) =~= pre.push(bool_text(v@[i as int])));
            assert(v@.take(i + 1).map_values(|x: bool| bool_text(x)) =~= v@.take(i as int).map_values(
                |x: bool| bool_text(x),
            ).push(bool_text(v@[i as int])));
        }
        i = i + 1;
    }
    assert(v@.take(v@.len() as int) =~= v@);
    r
}

/// The hyphenated text of a UUID value.
pub fn uuid_value_text(u: u128) -> (s: String)
    ensures
        s@ == uuid_text(uuid_bytes(u)),
{
    let mut bytes: Vec<u8> = Vec::new();
    let mut i: u128 = 0;
    while i < 16
        invariant
            i <= 16,
            bytes@.len() == i,
            forall|j: int| 0 <= j < i ==> #[trigger] bytes@[j] == uuid_bytes(u)[j],
        decreases 16 - i,
    {
        bytes.push(((u >> (120 - 8 * i)) & 0xff) as u8);
        i = i + 1;
    }
    assert(bytes@ =~= uuid_bytes(u));
    uuid_bytes_text(bytes.as_slice())
}

fn uuid_texts(v: &Vec<u128>) -> (r: Vec<String>)
    ensures
        texts(r@) == v@.map_values(|x: u128| uuid_text(uuid_bytes(x))),
{
    let mut r: Vec<String> = Vec::new();
    let mut i: usize = 0;
    while i < v.len()
        invariant
            i <= v@.len(),
            texts(r@) == v@.take(i as int).map_values(|x: u128| uuid_text(uuid_bytes(x))),
        decreases v@.len() - i,
    {
        let t = uuid_value_text(v[i]);
        let ghost pre = texts(r@);
        r.push(t);
        proof {
            assert(texts(r@) =~= pre.push(uuid_text(uuid_bytes(v@[i as int]))));
            assert(v@.take(i + 1).map_values(|x: u128| uuid_text(uuid_bytes(x))) =~= v@.take(i as int).map_values(
                |x: u128| uuid_text(uuid_bytes(x)),
            ).push(uuid_text(uuid_bytes(v@[i as int]))));
        }
        i = i + 1;
    }
    assert(v@.take(v@.len() as int) =~= v@);
    r
}

fn quoted_texts(v: &Vec<String>) -> (r: Vec<String>)
    ensures
        texts(r@) == texts(v@).map_values(|s: Seq<char>| debug_str_text(s)),
{
    let mut r: Vec<String> = Vec::new();
    let mut i: usize = 0;
    while i < v.len()
        invariant
            i <= v@.len(),
            texts(r@) == texts(v@).take(i as int).map_values(|s: Seq<char>| debug_str_text(s)),
        decreases v@.len() - i,
    {
        let t = debug_str(v[i].as_str());
        let ghost pre = texts(r@);
        r.push(t);
        proof {
            assert(texts(r@) =~= pre.push(debug_str_text(v@[i as int]@)));
            assert(texts(v@).take(i + 1).map_values(|s: Seq<char>| debug_str_text(s)) =~= texts(v@).take(
                i as int,
            ).map_values(|s: Seq<char>| debug_str_text(s)).push(debug_str_text(v@[i as int]@)));
        }
        i = i + 1;
    }
    assert(texts(v@).take(v@.len() as int) =~= texts(v@));
    r
}

fn variant_list(name: &str, parts: &Vec<String>) -> (s: String)
    ensures
        s@ == name@ + "("@ + list_text(texts(parts@)) + ")"@,
{
    let mut s = String::from_str(name);
    s.append("(");
    append_list(&mut s, parts);
    s.append(")");
    s
}

/// The key text of a JSON filter value: a string stands for itself, an
/// integer prints in decimal, a boolean as `true` or `false`, null as
/// `null`. Floating-point numbers, arrays and objects print as JSON, which
/// is done outside (`None` here).
pub open spec fn json_key_text(j: JsonValue) -> Option<Seq<char>> {
    match j {
        JsonValue::String(s) => Some(s@),
        JsonValue::Number(n) => match n.as_i64 {
            Some(i) => Some(signed_decimal(i as int)),
            None => match n.as_u64 {
                Some(u) => Some(decimal(u as nat)),
                None => None,
            },
        },
        JsonValue::Bool(b) => Some(bool_text(b)),
        JsonValue::Null => Some("null"@),
        _ => None,
    }
}

/// The index key of an attribute value (see `canonical_text`); `None` for a
/// value that holds floating-point numbers.
pub fn canonicalize_value(value: &AttributeValue) -> (r: Option<String>)
    ensures
        match r {
            Some(s) => canonical_text(*value) == Some(s@),
            None => canonical_text(*value) is None,
        },
{
    match value {
        AttributeValue::String(s) => Some(s.clone()),
        AttributeValue::Int(i) => Some(i64_to_decimal(*i)),
        AttributeValue::Uint(u) => Some(u64_to_decimal(*u)),
        AttributeValue::Float(_) => None,
        AttributeValue::Bool(b) => Some(bool_string(*b)),
        AttributeValue::Uuid(u) => Some(uuid_value_text(*u)),
        AttributeValue::DateTime(t) => Some(i64_to_decimal(*t)),
        AttributeValue::Null => Some(String::from_str("null")),
        AttributeValue::EmptyArray => Some(String::from_str("EmptyArray")),
        AttributeValue::StringArray(v) => Some(variant_list("StringArray", &quoted_texts(v))),
        AttributeValue::IntArray(v) => Some(variant_list("IntArray", &int_texts(v))),
        AttributeValue::UintArray(v) => Some(variant_list("UintArray", &uint_texts(v))),
        AttributeValue::FloatArray(_) => None,
        AttributeValue::BoolArray(v) => Some(variant_list("BoolArray", &bool_texts(v))),
        AttributeValue::UuidArray(v) => Some(variant_list("UuidArray", &uuid_texts(v))),
        AttributeValue::DateTimeArray(v) => Some(variant_list("DateTimeArray", &int_texts(v))),
    }
}

/// An index key: an attribute name and the text of a value.
pub type IndexKey = (Seq<char>, Seq<char>);

/// The documents filed under one attribute name and value text.
#[derive(Debug)]
pub struct IndexEntry {
    pub field: String,
    pub value: String,
    pub ids: Vec<DocumentId>,
}

pub open spec fn entry_pairs(s: Seq<IndexEntry>) -> Seq<(IndexKey, Seq<DocId>)> {
    s.map_values(|e: IndexEntry| ((e.field@, e.value@), id_views(e.ids@)))
}

/// Attribute name and value text to the documents holding that value.
/// Each name and value text has one entry.
#[derive(Debug)]
pub struct InvertedIndex {
    entries: Vec<IndexEntry>,
}

impl InvertedIndex {
    #[verifier::type_invariant]
    closed spec fn keys_distinct(self) -> bool {
        keys_unique(entry_pairs(self.entries@))
    }
}

impl View for InvertedIndex {
    type V = Map<IndexKey, Seq<DocId>>;

    closed spec fn view(&self) -> Map<IndexKey, Seq<DocId>> {
        seq_to_map(entry_pairs(self.entries@))
    }
}

/// Files a document under a key, after the documents already there.
pub open spec fn add_posting(m: Map<IndexKey, Seq<DocId>>, k: IndexKey, id: DocId) -> Map<IndexKey, Seq<DocId>> {
    m.insert(
        k,
        if m.contains_key(k) {
            m[k].push(id)
        } else {
            seq![id]
        },
    )
}

/// The documents filed under a key; none when the key is absent.
pub open spec fn postings_of(m: Map<IndexKey, Seq<DocId>>, k: IndexKey) -> Seq<DocId> {
    if m.contains_key(k) {
        m[k]
    } else {
        Seq::empty()
    }
}

fn find_entry(entries: &Vec<IndexEntry>, field: &String, value: &String) -> (r: Option<usize>)
    ensures
        match r {
            Some(i) => i < entries@.len() && entries@[i as int].field@ == field@ && entries@[i as int].value@
                == value@,
            None => !has_key(entry_pairs(entries@), (field@, value@)),
        },
{
    let n = entries.len();
    let mut i: usize = 0;
    while i < n
        invariant
            n == entries@.len(),
            i <= n,
            forall|j: int| 0 <= j < i ==> (entries@[j].field@, entries@[j].value@) != (field@, value@),
        decreases n - i,
    {
        if entries[i].field == *field && entries[i].value == *value {
            return Some(i);
        }
        i = i + 1;
    }
    assert forall|j: int| 0 <= j < entry_pairs(entries@).len() implies #[trigger] entry_pairs(entries@)[j].0 != (
    field@, value@) by {
        assert(entry_pairs(entries@)[j].0 == (entries@[j].field@, entries@[j].value@));
    }
    None
}

/// Inserts after every id that is not greater.
pub open spec fn insert_id(s: Seq<DocId>, x: DocId) -> Seq<DocId>
    decreases s.len(),
{
    if s.len() == 0 {
        seq![x]
    } else if id_order(s.last(), x) <= 0 {
        s.push(x)
    } else {
        insert_id(s.drop_last(), x).push(s.last())
    }
}

/// Ids in increasing order (insertion sort).
pub open spec fn sort_ids(s: Seq<DocId>) -> Seq<DocId>
    decreases s.len(),
{
    if s.len() == 0 {
        Seq::empty()
    } else {
        insert_id(sort_ids(s.drop_last()), s.last())
    }
}

proof fn lemma_insert_id_at(s: Seq<DocId>, x: DocId, p: int)
    requires
        0 <= p <= s.len(),
        p == s.len() || id_order(s[p], x) > 0,
        forall|k: int| p < k < s.len() ==> id_order(#[trigger] s[k], x) > 0,
        p == 0 || id_order(s[p - 1], x) <= 0,
    ensures
        insert_id(s, x) == s.take(p).push(x) + s.skip(p),
    decreases s.len(),
{
    if s.len() == 0 {
        assert(s.take(p).push(x) + s.skip(p) =~= seq![x]);
    } else if p == s.len() {
        assert(s.take(p).push(x) + s.skip(p) =~= s.push(x));
    } else {
        let t = s.drop_last();
        assert forall|k: int| p < k < t.len() implies id_order(#[trigger] t[k], x) > 0 by {
            assert(t[k] == s[k]);
        }
        if p < t.len() {
            assert(t[p] == s[p]);
        }
        if p > 0 {
            assert(t[p - 1] == s[p - 1]);
        }
        lemma_insert_id_at(t, x, p);
        assert((t.take(p).push(x) + t.skip(p)).push(s.last()) =~= s.take(p).push(x) + s.skip(p));
    }
}

/// Sorting keeps exactly the ids that were there, as many of them.
pub proof fn lemma_sort_ids_members(s: Seq<DocId>)
    ensures
        sort_ids(s).len() == s.len(),
        forall|x: DocId| sort_ids(s).contains(x) <==> s.contains(x),
    decreases s.len(),
{
    if s.len() > 0 {
        let t = s.drop_last();
        lemma_sort_ids_members(t);
        lemma_insert_id_members(sort_ids(t), s.last());
        assert forall|x: DocId| s.contains(x) <==> (t.contains(x) || x == s.last()) by {
            if s.contains(x) {
                let i = choose|i: int| 0 <= i < s.len() && s[i] == x;
                if i < t.len() {
                    assert(t[i] == x);
                }
            }
            if t.contains(x) {
                let i = choose|i: int| 0 <= i < t.len() && t[i] == x;
                assert(s[i] == x);
            }
            if x == s.last() {
                assert(s[s.len() - 1] == x);
            }
        }
    }
}

proof fn lemma_insert_id_members(s: Seq<DocId>, x: DocId)
    ensures
        insert_id(s, x).len() == s.len() + 1,
        forall|y: DocId| insert_id(s, x).contains(y) <==> (s.contains(y) || y == x),
    decreases s.len(),
{
    if s.len() == 0 {
        assert(insert_id(s, x) =~= seq![x]);
        assert(insert_id(s, x)[0] == x);
    } else if id_order(s.last(), x) <= 0 {
        assert forall|y: DocId| s.push(x).contains(y) <==> (s.contains(y) || y == x) by {
            if s.push(x).contains(y) {
                let i = choose|i: int| 0 <= i < s.len() + 1 && s.push(x)[i] == y;
                if i < s.len() {
                    assert(s[i] == y);
                }
            }
            if s.contains(y) {
                let i = choose|i: int| 0 <= i < s.len() && s[i] == y;
                assert(s.push(x)[i] == y);
            }
            if y == x {
                assert(s.push(x)[s.len() as int] == y);
            }
        }
    } else {
        let t = s.drop_last();
        lemma_insert_id_members(t, x);
        let u = insert_id(t, x);
        assert(forall|y: DocId| u.contains(y) <==> (t.contains(y) || y == x));
        assert forall|y: DocId| u.push(s.last()).contains(y) <==> (s.contains(y) || y == x) by {
            if u.push(s.last()).contains(y) {
                let i = choose|i: int| 0 <= i < u.len() + 1 && u.push(s.last())[i] == y;
                if i < u.len() {
                    assert(u[i] == y);
                    assert(u.contains(y));
                    if t.contains(y) {
                        let k = choose|k: int| 0 <= k < t.len() && t[k] == y;
                        assert(s[k] == y);
                    }
                } else {
                    assert(s[s.len() - 1] == y);
                }
            }
            if s.contains(y) {
                let i = choose|i: int| 0 <= i < s.len() && s[i] == y;
                if i < t.len() {
                    assert(t[i] == y);
                    assert(t.contains(y));
                    assert(u.contains(y));
                    let k = choose|k: int| 0 <= k < u.len() && u[k] == y;
                    assert(u.push(s.last())[k] == y);
                } else {
                    assert(u.push(s.last())[u.len() as int] == y);
                }
            }
            if y == x {
                assert(u.contains(y));
                let k = choose|k: int| 0 <= k < u.len() && u[k] == y;
                assert(u.push(s.last())[k] == y);
            }
        }
    }
}

/// Sorts ids into increasing order.
fn sort_id_list(v: Vec<DocumentId>) -> (r: Vec<DocumentId>)
    ensures
        id_views(r@) == sort_ids(id_views(v@)),
{
    let ghost all = v@;
    let mut out: Vec<DocumentId> = Vec::new();
    for x in it: v.into_iter()
        invariant
            it.seq() == all,
            id_views(out@) == sort_ids(id_views(all.take(it.index() as int))),
    {
        let ghost j = it.index();
        let ghost pre = id_views(out@);
        let mut p = out.len();
        while p > 0 && compare_ids(&out[p - 1], &x) > 0
            invariant
                p <= out@.len(),
                pre == id_views(out@),
                forall|k: int| p <= k < out@.len() ==> id_order(#[trigger] pre[k], x@) > 0,
            decreases p,
        {
            p = p - 1;
        }
        proof {
            if p < pre.len() {
                assert(id_order(pre[p as int], x@) > 0);
            }
            if p > 0 {
                assert(pre[p - 1] == out@[p - 1]@);
            }
            lemma_insert_id_at(pre, x@, p as int);
            let s = id_views(all.take(j + 1));
            assert(s.drop_last() =~= id_views(all.take(j as int)));
            assert(s.last() == x@);
        }
        let ghost xv = x@;
        out.insert(p, x);
        proof {
            assert(id_views(out@) =~= pre.take(p as int).push(xv) + pre.skip(p as int));
        }
    }
    proof {
        assert(all.take(all.len() as int) =~= all);
    }
    out
}

impl InvertedIndex {
    /// The key text of a JSON filter value (see `json_key_text`).
    pub fn canonicalize_json_value(value: &JsonValue) -> (r: Option<String>)
        ensures
            match r {
                Some(s) => json_key_text(*value) == Some(s@),
                None => json_key_text(*value) is None,
            },
    {
        match value {
            JsonValue::String(s) => Some(s.clone()),
            JsonValue::Number(n) => match n.as_i64 {
                Some(i) => Some(i64_to_decimal(i)),
                None => match n.as_u64 {
                    Some(u) => Some(u64_to_decimal(u)),
                    None => None,
                },
            },
            JsonValue::Bool(b) => {
                proof {
                    reveal_strlit("true");
                    reveal_strlit("false");
                }
                if *b {
                    Some(String::from_str("true"))
                } else {
                    Some(String::from_str("false"))
                }
            },
            JsonValue::Null => {
                proof {
                    reveal_strlit("null");
                }
                Some(String::from_str("null"))
            },
            _ => None,
        }
    }

    /// An index with no entries.
    pub fn new() -> (idx: InvertedIndex)
        ensures
            idx@ == Map::<IndexKey, Seq<DocId>>::empty(),
    {
        let idx = InvertedIndex { entries: Vec::new() };
        proof {
            lemma_map_empty(entry_pairs(idx.entries@));
        }
        idx
    }

    /// An index made of entries, when no name and value text occurs twice.
    pub fn from_entries(entries: Vec<IndexEntry>) -> (r: Option<InvertedIndex>)
        ensures
            match r {
                Some(idx) => keys_unique(entry_pairs(entries@)) && idx@ == seq_to_map(entry_pairs(entries@)),
                None => !keys_unique(entry_pairs(entries@)),
            },
    {
        let n = entries.len();
        let mut i: usize = 0;
        while i < n
            invariant
                n == entries@.len(),
                i <= n,
                forall|a: int, b: int|
                    0 <= a < i && 0 <= b < n && a != b ==> #[trigger] entry_pairs(entries@)[a].0
                        != #[trigger] entry_pairs(entries@)[b].0,
            decreases n - i,
        {
            let mut j: usize = 0;
            while j < n
                invariant
                    n == entries@.len(),
                    i < n,
                    j <= n,
                    forall|b: int|
                        0 <= b < j && b != i ==> entry_pairs(entries@)[i as int].0 != #[trigger] entry_pairs(
                            entries@,
                        )[b].0,
                decreases n - j,
            {
                proof {
                    assert(entry_pairs(entries@)[i as int].0 == (entries@[i as int].field@, entries@[i as int].value@));
                    assert(entry_pairs(entries@)[j as int].0 == (entries@[j as int].field@, entries@[j as int].value@));
                }
                if j != i && entries[i].field == entries[j].field && entries[i].value == entries[j].value {
                    return None;
                }
                j = j + 1;
            }
            i = i + 1;
        }
        let idx = InvertedIndex { entries };
        Some(idx)
    }

    /// The entries, each name and value text once, in no particular order.
    pub fn entries(&self) -> (e: &Vec<IndexEntry>)
        ensures
            keys_unique(entry_pairs(e@)),
            seq_to_map(entry_pairs(e@)) == self@,
    {
        proof {
            use_type_invariant(self);
        }
        &self.entries
    }

    /// Files a document under an attribute name and value text, after the
    /// documents already filed there.
    pub fn add(&mut self, field: String, value: String, id: DocumentId)
        ensures
            final(self)@ == add_posting(old(self)@, (field@, value@), id@),
    {
        proof {
            use_type_invariant(&*self);
        }
        let ghost old_pairs = entry_pairs(self.entries@);
        let ghost k = (field@, value@);
        let ghost idv = id@;
        let mut entries: Vec<IndexEntry> = Vec::new();
        std::mem::swap(&mut entries, &mut self.entries);
        match find_entry(&entries, &field, &value) {
            Some(i) => {
                let ghost before = id_views(entries@[i as int].ids@);
                entries[i].ids.push(id);
                proof {
                    lemma_map_at(old_pairs, i as int);
                    assert(old_pairs[i as int].0 == k);
                    assert(id_views(entries@[i as int].ids@) =~= before.push(idv));
                    assert(entry_pairs(entries@) =~= old_pairs.update(i as int, (k, before.push(idv))));
                    lemma_map_update(old_pairs, i as int, (k, before.push(idv)));
                }
            },
            None => {
                let mut ids: Vec<DocumentId> = Vec::new();
                ids.push(id);
                let e = IndexEntry { field, value, ids };
                proof {
                    assert(id_views(e.ids@) =~= seq![idv]);
                    lemma_map_all(old_pairs);
                }
                entries.push(e);
                proof {
                    assert(entry_pairs(entries@) =~= old_pairs.push((k, seq![idv])));
                    lemma_map_push(old_pairs, (k, seq![idv]));
                }
            },
        }
        *self = InvertedIndex { entries };
    }

    /// Puts the documents under every key into increasing id order.
    pub fn sort_postings(&mut self)
        ensures
            final(self)@ == old(self)@.map_values(|s: Seq<DocId>| sort_ids(s)),
    {
        proof {
            use_type_invariant(&*self);
        }
        let ghost old_pairs = entry_pairs(self.entries@);
        let mut entries: Vec<IndexEntry> = Vec::new();
        std::mem::swap(&mut entries, &mut self.entries);
        let mut out: Vec<IndexEntry> = Vec::new();
        for e in it: entries.into_iter()
            invariant
                entry_pairs(it.seq()) == old_pairs,
                out@.len() == it.index(),
                forall|j: int|
                    0 <= j < it.index() ==> #[trigger] entry_pairs(out@)[j] == (old_pairs[j].0, sort_ids(
                        old_pairs[j].1,
                    )),
        {
            let ghost j = it.index();
            proof {
                assert(entry_pairs(it.seq())[j as int] == old_pairs[j as int]);
            }
            let IndexEntry { field, value, ids } = e;
            let sorted = sort_id_list(ids);
            let ne = IndexEntry { field, value, ids: sorted };
            let ghost before = out@;
            out.push(ne);
            proof {
                assert forall|k: int| 0 <= k < j + 1 implies #[trigger] entry_pairs(out@)[k] == (
                old_pairs[k].0, sort_ids(old_pairs[k].1)) by {
                    if k < j {
                        assert(out@[k] == before[k]);
                        assert(entry_pairs(before)[k] == entry_pairs(out@)[k]);
                    }
                }
            }
        }
        proof {
            let np = entry_pairs(out@);
            assert(np.len() == old_pairs.len());
            assert forall|a: int, b: int| 0 <= a < np.len() && 0 <= b < np.len() && a != b implies #[trigger] np[a].0
                != #[trigger] np[b].0 by {
                assert(np[a].0 == old_pairs[a].0 && np[b].0 == old_pairs[b].0);
            }
            lemma_map_all(old_pairs);
            lemma_map_all(np);
            assert forall|k: IndexKey| has_key(np, k) <==> has_key(old_pairs, k) by {
                if has_key(np, k) {
                    let a = choose|a: int| 0 <= a < np.len() && #[trigger] np[a].0 == k;
                    assert(old_pairs[a].0 == k);
                }
                if has_key(old_pairs, k) {
                    let a = choose|a: int| 0 <= a < old_pairs.len() && #[trigger] old_pairs[a].0 == k;
                    assert(np[a].0 == k);
                }
            }
            assert forall|k: IndexKey| #[trigger] seq_to_map(np).contains_key(k) implies seq_to_map(np)[k]
                == seq_to_map(old_pairs).map_values(|s: Seq<DocId>| sort_ids(s))[k] by {
                let a = choose|a: int| 0 <= a < np.len() && #[trigger] np[a].0 == k;
                assert(np[a] == (old_pairs[a].0, sort_ids(old_pairs[a].1)));
            }
            assert(seq_to_map(np) =~= seq_to_map(old_pairs).map_values(|s: Seq<DocId>| sort_ids(s)));
        }
        *self = InvertedIndex { entries: out };
    }

    /// The documents filed under an attribute name and value text.
    pub fn postings(&self, field: &String, value: &String) -> (r: Option<&Vec<DocumentId>>)
        ensures
            match r {
                Some(v) => self@.contains_key((field@, value@)) && id_views(v@) == self@[(field@, value@)],
                None => !self@.contains_key((field@, value@)),
            },
    {
        proof {
            use_type_invariant(self);
            lemma_map_all(entry_pairs(self.entries@));
        }
        match find_entry(&self.entries, field, value) {
            Some(i) => {
                proof {
                    assert(entry_pairs(self.entries@)[i as int].0 == (field@, value@));
                }
                Some(&self.entries[i].ids)
            },
            None => None,
        }
    }
}

/// The index keys that a list of filters names.
pub open spec fn filter_keys(f: Seq<(String, String)>) -> Seq<IndexKey> {
    f.map_values(|p: (String, String)| (p.0@, p.1@))
}

/// A document is filed under every key of the filters.
pub open spec fn matches_all(m: Map<IndexKey, Seq<DocId>>, keys: Seq<IndexKey>, d: DocId) -> bool {
    forall|i: int| 0 <= i < keys.len() ==> #[trigger] postings_of(m, keys[i]).contains(d)
}

/// A document is filed under every key of the filters from `from` on.
pub open spec fn matches_from(m: Map<IndexKey, Seq<DocId>>, keys: Seq<IndexKey>, from: int, d: DocId) -> bool {
    forall|i: int| from <= i < keys.len() ==> #[trigger] postings_of(m, keys[i]).contains(d)
}

impl InvertedIndex {
    fn filed_under(&self, field: &String, value: &String, id: &DocumentId) -> (b: bool)
        ensures
            b == postings_of(self@, (field@, value@)).contains(id@),
    {
        match self.postings(field, value) {
            Some(ids) => contains_id(ids, id),
            None => false,
        }
    }

    fn filed_under_all_from(&self, filters: &Vec<(String, String)>, from: usize, id: &DocumentId) -> (b: bool)
        ensures
            b == matches_from(self@, filter_keys(filters@), from as int, id@),
    {
        let ghost keys = filter_keys(filters@);
        let n = filters.len();
        let mut i: usize = from;
        while i < n
            invariant
                n == filters@.len(),
                keys == filter_keys(filters@),
                from <= i || n <= i,
                forall|k: int| from <= k < i && k < n ==> #[trigger] postings_of(self@, keys[k]).contains(id@),
            decreases n - i,
        {
            let ok = self.filed_under(&filters[i].0, &filters[i].1, id);
            proof {
                assert(keys[i as int] == (filters@[i as int].0@, filters@[i as int].1@));
            }
            if !ok {
                return false;
            }
            i = i + 1;
        }
        true
    }

    /// The documents filed under every (name, value text) pair of the
    /// filters, each once; `None` when there are no filters.
    pub fn filter(&self, filters: &Vec<(String, String)>) -> (r: Option<Vec<DocumentId>>)
        ensures
            filters@.len() == 0 <==> r is None,
            match r {
                Some(v) => id_views(v@).no_duplicates() && forall|d: DocId| #[trigger]
                    id_views(v@).contains(d) <==> matches_all(self@, filter_keys(filters@), d),
                None => true,
            },
    {
        if filters.len() == 0 {
            return None;
        }
        let ghost keys = filter_keys(filters@);
        proof {
            assert(keys[0] == (filters@[0].0@, filters@[0].1@));
            assert forall|d: DocId| matches_all(self@, keys, d) <==> (postings_of(self@, keys[0]).contains(d)
                && matches_from(self@, keys, 1, d)) by {
                if postings_of(self@, keys[0]).contains(d) && matches_from(self@, keys, 1, d) {
                    assert forall|i: int| 0 <= i < keys.len() implies #[trigger] postings_of(self@, keys[i]).contains(d) by {
                        if i > 0 {
                            assert(postings_of(self@, keys[i]).contains(d));
                        }
                    }
                }
            }
        }
        let mut out: Vec<DocumentId> = Vec::new();
        match self.postings(&filters[0].0, &filters[0].1) {
            None => {
                proof {
                    assert(id_views(out@) =~= Seq::<DocId>::empty());
                }
            },
            Some(ids) => {
                let ghost first = id_views(ids@);
                let mut j: usize = 0;
                while j < ids.len()
                    invariant
                        j <= ids@.len(),
                        first == id_views(ids@),
                        first == postings_of(self@, keys[0]),
                        keys == filter_keys(filters@),
                        id_views(out@).no_duplicates(),
                        forall|d: DocId| #[trigger]
                            id_views(out@).contains(d) <==> (first.take(j as int).contains(d) && matches_from(
                                self@,
                                keys,
                                1,
                                d,
                            )),
                    decreases ids@.len() - j,
                {
                    let id = &ids[j];
                    let ghost pre = id_views(out@);
                    let seen = contains_id(&out, id);
                    let keep = !seen && self.filed_under_all_from(filters, 1, id);
                    proof {
                        assert(first.take(j + 1) =~= first.take(j as int).push(id@));
                        let t1 = first.take(j + 1);
                        let t0 = first.take(j as int);
                        assert forall|d: DocId| t1.contains(d) <==> (t0.contains(d) || d == id@) by {
                            if t1.contains(d) {
                                let k = choose|k: int| 0 <= k < t1.len() && t1[k] == d;
                                if k < t0.len() {
                                    assert(t0[k] == d);
                                }
                            }
                            if t0.contains(d) {
                                let k = choose|k: int| 0 <= k < t0.len() && t0[k] == d;
                                assert(t1[k] == d);
                            }
                            if d == id@ {
                                assert(t1[j as int] == d);
                            }
                        }
                    }
                    if keep {
                        let dup = id.duplicate();
                        out.push(dup);
                        proof {
                            let post = id_views(out@);
                            assert(post =~= pre.push(id@));
                            assert forall|d: DocId| #[trigger] post.contains(d) <==> (pre.contains(d) || d == id@) by {
                                if post.contains(d) {
                                    let k = choose|k: int| 0 <= k < post.len() && post[k] == d;
                                    if k < pre.len() {
                                        assert(pre[k] == d);
                                    }
                                }
                                if pre.contains(d) {
                                    let k = choose|k: int| 0 <= k < pre.len() && pre[k] == d;
                                    assert(post[k] == d);
                                }
                                if d == id@ {
                                    assert(post[pre.len() as int] == d);
                                }
                            }
                            assert forall|a: int, b: int| 0 <= a < post.len() && 0 <= b < post.len() && a != b
                                implies post[a] != post[b] by {
                                if a < pre.len() && b < pre.len() {
                                } else if a < pre.len() {
                                    assert(pre.contains(post[a]));
                                } else if b < pre.len() {
                                    assert(pre.contains(post[b]));
                                }
                            }
                        }
                    }
                    j = j + 1;
                }
                proof {
                    assert(first.take(ids@.len() as int) =~= first);
                }
            },
        }
        Some(out)
    }
}

/// The names and key texts of one row's attribute entries, in entry order,
/// with the row's document.
pub type RowKeys = (DocId, Seq<(Seq<char>, Seq<char>)>);

/// Whether an attribute is indexed: every attribute when the schema names
/// none, else the named ones.
pub open spec fn indexes_field(attributes: Seq<Seq<char>>, f: Seq<char>) -> bool {
    attributes.len() == 0 || attributes.contains(f)
}

/// Files a document under the indexed keys of one row, in order.
pub open spec fn file_keys(
    m: Map<IndexKey, Seq<DocId>>,
    id: DocId,
    keys: Seq<(Seq<char>, Seq<char>)>,
    attributes: Seq<Seq<char>>,
) -> Map<IndexKey, Seq<DocId>>
    decreases keys.len(),
{
    if keys.len() == 0 {
        m
    } else {
        let m1 = file_keys(m, id, keys.drop_last(), attributes);
        if indexes_field(attributes, keys.last().0) {
            add_posting(m1, keys.last(), id)
        } else {
            m1
        }
    }
}

/// Files the documents of rows in order, each under its row's indexed keys.
pub open spec fn file_rows(rows: Seq<RowKeys>, attributes: Seq<Seq<char>>) -> Map<IndexKey, Seq<DocId>>
    decreases rows.len(),
{
    if rows.len() == 0 {
        Map::empty()
    } else {
        file_keys(file_rows(rows.drop_last(), attributes), rows.last().0, rows.last().1, attributes)
    }
}

/// The key text of an attribute value: its canonical text, or for a value
/// holding floating-point numbers, a text that `float_key` returns for it.
pub open spec fn key_of<F: Fn(&AttributeValue) -> String>(float_key: F, v: AttributeValue, t: Seq<char>) -> bool {
    match canonical_text(v) {
        Some(c) => t == c,
        None => exists|s: String| s@ == t && #[trigger] call_ensures(float_key, (&v,), s),
    }
}

/// `rk` gives a row's document and, for each attribute entry of the row in
/// order, its name and (when indexed) its key text.
pub open spec fn row_keys_of<F: Fn(&AttributeValue) -> String>(
    float_key: F,
    attributes: Seq<Seq<char>>,
    row: Row,
    rk: RowKeys,
) -> bool {
    let es = row.attributes.spec_entries();
    &&& rk.0 == row.id@
    &&& rk.1.len() == es.len()
    &&& forall|j: int|
        0 <= j < es.len() ==> (#[trigger] rk.1[j]).0 == es[j].0@ && (indexes_field(attributes, es[j].0@) ==> key_of(
            float_key,
            es[j].1,
            rk.1[j].1,
        ))
}

impl InvertedIndex {
    /// Builds the index of rows: every indexed attribute of every row files
    /// the row's document under the attribute name and the value's key text,
    /// row after row; then the documents under each key are sorted by id.
    /// With no attribute names given, every attribute is indexed. Key texts
    /// of values holding floating-point numbers come from `float_key`.
    pub fn build_from_rows<F: Fn(&AttributeValue) -> String>(
        rows: &Vec<Row>,
        attributes: &Vec<String>,
        float_key: F,
    ) -> (idx: InvertedIndex)
        requires
            forall|v: &AttributeValue| call_requires(float_key, (v,)),
        ensures
            exists|rk: Seq<RowKeys>|
                {
                    &&& rk.len() == rows@.len()
                    &&& forall|r: int|
                        0 <= r < rows@.len() ==> row_keys_of(float_key, texts(attributes@), rows@[r], #[trigger] rk[r])
                    &&& idx@ == file_rows(rk, texts(attributes@)).map_values(|s: Seq<DocId>| sort_ids(s))
                },
    {
        let ghost attrs = texts(attributes@);
        let mut idx = InvertedIndex::new();
        let ghost mut rk: Seq<RowKeys> = Seq::empty();
        let mut i: usize = 0;
        while i < rows.len()
            invariant
                i <= rows@.len(),
                attrs == texts(attributes@),
                forall|v: &AttributeValue| call_requires(float_key, (v,)),
                rk.len() == i,
                forall|r: int| 0 <= r < i ==> row_keys_of(float_key, attrs, rows@[r], #[trigger] rk[r]),
                idx@ == file_rows(rk, attrs),
            decreases rows@.len() - i,
        {
            let row = &rows[i];
            let es = row.attributes.entries();
            let ghost base = idx@;
            let ghost mut ks: Seq<(Seq<char>, Seq<char>)> = Seq::empty();
            let mut j: usize = 0;
            while j < es.len()
                invariant
                    j <= es@.len(),
                    es@ == row.attributes.spec_entries(),
                    attrs == texts(attributes@),
                    forall|v: &AttributeValue| call_requires(float_key, (v,)),
                    ks.len() == j,
                    forall|jj: int|
                        0 <= jj < j ==> (#[trigger] ks[jj]).0 == es@[jj].0@ && (indexes_field(attrs, es@[jj].0@)
                            ==> key_of(float_key, es@[jj].1, ks[jj].1)),
                    idx@ == file_keys(base, row.id@, ks, attrs),
                decreases es@.len() - j,
            {
                let name = &es[j].0;
                let value = &es[j].1;
                let indexed = attributes.len() == 0 || contains_text(attributes, name);
                let ghost pre = ks;
                if indexed {
                    let key: String = match canonicalize_value(value) {
                        Some(t) => t,
                        None => {
                            let t = float_key(value);
                            proof {
                                assert(call_ensures(float_key, (value,), t));
                            }
                            t
                        },
                    };
                    proof {
                        ks = ks.push((name@, key@));
                    }
                    idx.add(name.clone(), key, row.id.duplicate());
                } else {
                    proof {
                        ks = ks.push((name@, Seq::empty()));
                    }
                }
                proof {
                    assert(ks.drop_last() =~= pre);
                    assert(indexed == indexes_field(attrs, name@));
                    assert forall|jj: int| 0 <= jj < j + 1 implies (#[trigger] ks[jj]).0 == es@[jj].0@ && (
                    indexes_field(attrs, es@[jj].0@) ==> key_of(float_key, es@[jj].1, ks[jj].1)) by {
                        if jj < j {
                            assert(ks[jj] == pre[jj]);
                        }
                    }
                }
                j = j + 1;
            }
            proof {
                let nrk = rk.push((row.id@, ks));
                assert(nrk.drop_last() =~= rk);
                assert forall|r: int| 0 <= r < i + 1 implies row_keys_of(float_key, attrs, rows@[r], #[trigger] nrk[r]) by {
                    if r < i {
                        assert(nrk[r] == rk[r]);
                    } else {
                        assert(nrk[r] == (row.id@, ks));
                        assert(rows@[r] == *row);
                    }
                }
                rk = nrk;
            }
            i = i + 1;
        }
        idx.sort_postings();
        idx
    }
}

} // verus!
