//! Documents, rows, write-ahead-log records and the replay of a log into the
//! current state of a namespace.
use vstd::prelude::*;
use crate::vectors::DistanceMetric;
use crate::keyed::{
    has_key, keys_unique, lemma_map_all, lemma_map_at, lemma_map_empty, lemma_map_len, lemma_map_push, lemma_map_remove,
    lemma_map_update, seq_to_map,
};
use vstd::string::StrSliceExecFns;
use vstd::utf8::{decode_utf8, encode_utf8, encode_utf8_decode_utf8, encode_utf8_valid_utf8, valid_utf8};
use crate::format::{decimal, u64_to_decimal, uuid_bytes_text, uuid_text};

verus! {

/// How the bytes of a document id are to be read.
#[derive(Debug, Clone, Copy, PartialEq, Eq, Hash, PartialOrd, Ord, Structural)]
pub enum IdType {
    Uuid,
    String,
    U64,
}

/// A document identifier: raw bytes plus how to read them.
#[derive(Debug, Clone, PartialEq, Eq, Hash, PartialOrd, Ord)]
pub struct DocumentId {
    pub bytes: Vec<u8>,
    pub id_type: IdType,
}

/// The abstract value of a document id.
pub type DocId = (Seq<u8>, IdType);

impl View for DocumentId {
    type V = DocId;

    open spec fn view(&self) -> DocId {
        (self.bytes@, self.id_type)
    }
}

/// The little-endian bytes of an unsigned 64-bit integer.
pub open spec fn le_bytes(v: u64) -> Seq<u8> {
    seq![
        (v & 0xff) as u8,
        ((v >> 8u64) & 0xff) as u8,
        ((v >> 16u64) & 0xff) as u8,
        ((v >> 24u64) & 0xff) as u8,
        ((v >> 32u64) & 0xff) as u8,
        ((v >> 40u64) & 0xff) as u8,
        ((v >> 48u64) & 0xff) as u8,
        ((v >> 56u64) & 0xff) as u8,
    ]
}

/// The big-endian bytes of a 128-bit UUID value.
pub open spec fn uuid_bytes(v: u128) -> Seq<u8> {
    Seq::new(16, |i: int| ((v >> ((120 - 8 * i) as u128)) & 0xff) as u8)
}

/// The number that eight little-endian bytes encode.
pub open spec fn le_decode(b: Seq<u8>) -> u64 {
    (b[0] as u64) | ((b[1] as u64) << 8u64) | ((b[2] as u64) << 16u64) | ((b[3] as u64) << 24u64) | ((b[4] as u64)
        << 32u64) | ((b[5] as u64) << 40u64) | ((b[6] as u64) << 48u64) | ((b[7] as u64) << 56u64)
}

/// The text that `String::from_utf8_lossy` makes of a byte string.
pub uninterp spec fn utf8_lossy_text(b: Seq<u8>) -> Seq<char>;

/// `String::from_utf8_lossy` (made owned): the bytes read as UTF-8, with each
/// invalid sequence replaced by U+FFFD. Valid UTF-8 is decoded unchanged; the
/// text made of invalid input is named, not stated.
#[verifier::external_body]
fn utf8_lossy(bytes: &[u8]) -> (s: String)
    ensures
        s@ == utf8_lossy_text(bytes@),
        valid_utf8(bytes@) ==> s@ == decode_utf8(bytes@),
{
    String::from_utf8_lossy(bytes).into_owned()
}

/// The bytes of an id have the length its kind needs: sixteen for a UUID,
/// eight for a number.
pub open spec fn id_well_formed(id: DocId) -> bool {
    match id.1 {
        IdType::Uuid => id.0.len() == 16,
        IdType::U64 => id.0.len() == 8,
        IdType::String => true,
    }
}

/// The printed form of an id: a UUID hyphenated, a number in decimal, a
/// string as its text (invalid UTF-8 replaced).
pub open spec fn id_text(id: DocId) -> Seq<char> {
    match id.1 {
        IdType::Uuid => uuid_text(id.0),
        IdType::U64 => decimal(le_decode(id.0) as nat),
        IdType::String => if valid_utf8(id.0) {
            decode_utf8(id.0)
        } else {
            utf8_lossy_text(id.0)
        },
    }
}

/// The number that `le_bytes` encodes is the number itself.
pub proof fn lemma_le_roundtrip(v: u64)
    ensures
        le_decode(le_bytes(v)) == v,
{
    let b = le_bytes(v);
    assert(((v & 0xff) as u8 as u64) | ((((v >> 8u64) & 0xff) as u8 as u64) << 8u64) | ((((v >> 16u64) & 0xff) as u8
        as u64) << 16u64) | ((((v >> 24u64) & 0xff) as u8 as u64) << 24u64) | ((((v >> 32u64) & 0xff) as u8 as u64)
        << 32u64) | ((((v >> 40u64) & 0xff) as u8 as u64) << 40u64) | ((((v >> 48u64) & 0xff) as u8 as u64)
        << 48u64) | ((((v >> 56u64) & 0xff) as u8 as u64) << 56u64) == v) by (bit_vector);
}

/// Ids print as they were made: an id made from a text prints as that text,
/// one made from a number as the number in decimal, and one made from a UUID
/// as the UUID's hyphenated text. Each of them is well formed.
pub proof fn ids_print_as_made(t: Seq<char>, v: u64, u: u128)
    ensures
        id_well_formed((encode_utf8(t), IdType::String)),
        id_text((encode_utf8(t), IdType::String)) == t,
        id_well_formed((le_bytes(v), IdType::U64)),
        id_text((le_bytes(v), IdType::U64)) == decimal(v as nat),
        id_well_formed((uuid_bytes(u), IdType::Uuid)),
        id_text((uuid_bytes(u), IdType::Uuid)) == uuid_text(uuid_bytes(u)),
{
    encode_utf8_valid_utf8(t);
    encode_utf8_decode_utf8(t);
    lemma_le_roundtrip(v);
}

impl DocumentId {
    /// A string id: the UTF-8 bytes of the text.
    pub fn from_text(value: &str) -> (id: DocumentId)
        ensures
            id@ == (encode_utf8(value@), IdType::String),
    {
        DocumentId { bytes: value.as_bytes_vec(), id_type: IdType::String }
    }

    /// A string id taken from an owned string.
    pub fn from_string(value: String) -> (id: DocumentId)
        ensures
            id@ == (encode_utf8(value@), IdType::String),
    {
        Self::from_text(value.as_str())
    }

    /// An integer id: the eight little-endian bytes of the number.
    pub fn from_u64(value: u64) -> (id: DocumentId)
        ensures
            id@ == (le_bytes(value), IdType::U64),
    {
        let mut bytes: Vec<u8> = Vec::new();
        bytes.push((value & 0xff) as u8);
        bytes.push(((value >> 8u64) & 0xff) as u8);
        bytes.push(((value >> 16u64) & 0xff) as u8);
        bytes.push(((value >> 24u64) & 0xff) as u8);
        bytes.push(((value >> 32u64) & 0xff) as u8);
        bytes.push(((value >> 40u64) & 0xff) as u8);
        bytes.push(((value >> 48u64) & 0xff) as u8);
        bytes.push(((value >> 56u64) & 0xff) as u8);
        assert(bytes@ =~= le_bytes(value));
        DocumentId { bytes, id_type: IdType::U64 }
    }

    /// A UUID id: the sixteen bytes of the UUID, most significant first.
    pub fn from_uuid(value: u128) -> (id: DocumentId)
        ensures
            id@ == (uuid_bytes(value), IdType::Uuid),
    {
        let mut bytes: Vec<u8> = Vec::new();
        let mut i: u128 = 0;
        while i < 16
            invariant
                i <= 16,
                bytes@.len() == i,
                forall|j: int| 0 <= j < i ==> #[trigger] bytes@[j] == uuid_bytes(value)[j],
            decreases 16 - i,
        {
            bytes.push(((value >> (120 - 8 * i)) & 0xff) as u8);
            i = i + 1;
        }
        assert(bytes@ =~= uuid_bytes(value));
        DocumentId { bytes, id_type: IdType::Uuid }
    }

    /// Whether the id's bytes have the length its kind needs.
    pub fn is_well_formed(&self) -> (b: bool)
        ensures
            b == id_well_formed(self@),
    {
        match self.id_type {
            IdType::Uuid => self.bytes.len() == 16,
            IdType::U64 => self.bytes.len() == 8,
            IdType::String => true,
        }
    }

    /// The printed form of the id.
    pub fn to_text(&self) -> (s: String)
        requires
            id_well_formed(self@),
        ensures
            s@ == id_text(self@),
    {
        match self.id_type {
            IdType::Uuid => uuid_bytes_text(self.bytes.as_slice()),
            IdType::U64 => {
                let b = self.bytes.as_slice();
                let v: u64 = (b[0] as u64) | ((b[1] as u64) << 8u64) | ((b[2] as u64) << 16u64) | ((b[3] as u64)
                    << 24u64) | ((b[4] as u64) << 32u64) | ((b[5] as u64) << 40u64) | ((b[6] as u64) << 48u64) | ((
                b[7] as u64) << 56u64);
                u64_to_decimal(v)
            },
            IdType::String => utf8_lossy(self.bytes.as_slice()),
        }
    }

    /// A copy with the same value.
    pub fn duplicate(&self) -> (id: DocumentId)
        ensures
            id@ == self@,
    {
        let bytes = self.bytes.clone();
        assert(bytes@ =~= self.bytes@);
        DocumentId { bytes, id_type: self.id_type }
    }

    /// Whether two ids are the same document.
    pub fn same_as(&self, other: &DocumentId) -> (same: bool)
        ensures
            same == (self@ == other@),
    {
        if self.id_type != other.id_type {
            return false;
        }
        let n = self.bytes.len();
        if n != other.bytes.len() {
            return false;
        }
        let mut i: usize = 0;
        while i < n
            invariant
                n == self.bytes@.len(),
                n == other.bytes@.len(),
                i <= n,
                forall|j: int| 0 <= j < i ==> self.bytes@[j] == other.bytes@[j],
            decreases n - i,
        {
            if self.bytes[i] != other.bytes[i] {
                return false;
            }
            i = i + 1;
        }
        assert(self.bytes@ =~= other.bytes@);
        true
    }
}

/// An attribute value. Floating-point values are kept as their IEEE-754 bit
/// patterns and UUIDs as their 128-bit value.
#[derive(Debug, Clone)]
pub enum AttributeValue {
    String(String),
    Int(i64),
    Uint(u64),
    Float(u64),
    Bool(bool),
    Uuid(u128),
    DateTime(i64),
    Null,
    EmptyArray,
    StringArray(Vec<String>),
    IntArray(Vec<i64>),
    UintArray(Vec<u64>),
    FloatArray(Vec<u64>),
    BoolArray(Vec<bool>),
    UuidArray(Vec<u128>),
    DateTimeArray(Vec<i64>),
}

/// The abstract value of an attribute value: strings as their text, lists as
/// sequences.
pub enum AttrView {
    String(Seq<char>),
    Int(i64),
    Uint(u64),
    Float(u64),
    Bool(bool),
    Uuid(u128),
    DateTime(i64),
    Null,
    EmptyArray,
    StringArray(Seq<Seq<char>>),
    IntArray(Seq<i64>),
    UintArray(Seq<u64>),
    FloatArray(Seq<u64>),
    BoolArray(Seq<bool>),
    UuidArray(Seq<u128>),
    DateTimeArray(Seq<i64>),
}

pub open spec fn attr_view(v: AttributeValue) -> AttrView {
    match v {
        AttributeValue::String(s) => AttrView::String(s@),
        AttributeValue::Int(i) => AttrView::Int(i),
        AttributeValue::Uint(u) => AttrView::Uint(u),
        AttributeValue::Float(f) => AttrView::Float(f),
        AttributeValue::Bool(b) => AttrView::Bool(b),
        AttributeValue::Uuid(u) => AttrView::Uuid(u),
        AttributeValue::DateTime(t) => AttrView::DateTime(t),
        AttributeValue::Null => AttrView::Null,
        AttributeValue::EmptyArray => AttrView::EmptyArray,
        AttributeValue::StringArray(v) => AttrView::StringArray(texts(v@)),
        AttributeValue::IntArray(v) => AttrView::IntArray(v@),
        AttributeValue::UintArray(v) => AttrView::UintArray(v@),
        AttributeValue::FloatArray(v) => AttrView::FloatArray(v@),
        AttributeValue::BoolArray(v) => AttrView::BoolArray(v@),
        AttributeValue::UuidArray(v) => AttrView::UuidArray(v@),
        AttributeValue::DateTimeArray(v) => AttrView::DateTimeArray(v@),
    }
}

/// The entries of an attribute map, keyed by the text of the name.
pub open spec fn attr_pairs(s: Seq<(String, AttributeValue)>) -> Seq<(Seq<char>, AttributeValue)> {
    s.map_values(|p: (String, AttributeValue)| (p.0@, p.1))
}

/// The map after setting each name of the pairs to its value, in order.
pub open spec fn insert_pairs(m: Map<Seq<char>, AttributeValue>, pairs: Seq<(Seq<char>, AttributeValue)>) -> Map<
    Seq<char>,
    AttributeValue,
>
    decreases pairs.len(),
{
    if pairs.len() == 0 {
        m
    } else {
        insert_pairs(m, pairs.drop_last()).insert(pairs.last().0, pairs.last().1)
    }
}

/// Attribute name to value, with at most one value per name.
#[derive(Debug)]
pub struct Attributes {
    entries: Vec<(String, AttributeValue)>,
}

impl Attributes {
    #[verifier::type_invariant]
    closed spec fn names_distinct(self) -> bool {
        keys_unique(attr_pairs(self.entries@))
    }

    /// The entries, in no particular order.
    pub closed spec fn spec_entries(self) -> Seq<(String, AttributeValue)> {
        self.entries@
    }
}

impl View for Attributes {
    type V = Map<Seq<char>, AttributeValue>;

    closed spec fn view(&self) -> Map<Seq<char>, AttributeValue> {
        seq_to_map(attr_pairs(self.entries@))
    }
}

/// Finds the position of a name among attribute entries.
fn find_attr(entries: &Vec<(String, AttributeValue)>, key: &String) -> (r: Option<usize>)
    ensures
        match r {
            Some(i) => i < entries@.len() && entries@[i as int].0@ == key@,
            None => !has_key(attr_pairs(entries@), key@),
        },
{
    let n = entries.len();
    let mut i: usize = 0;
    while i < n
        invariant
            n == entries@.len(),
            i <= n,
            forall|j: int| 0 <= j < i ==> entries@[j].0@ != key@,
        decreases n - i,
    {
        if entries[i].0 == *key {
            return Some(i);
        }
        i = i + 1;
    }
    assert forall|j: int| 0 <= j < attr_pairs(entries@).len() implies #[trigger] attr_pairs(entries@)[j].0 != key@ by {
        assert(attr_pairs(entries@)[j].0 == entries@[j].0@);
    }
    None
}

impl Attributes {
    /// No attributes.
    pub fn new() -> (a: Attributes)
        ensures
            a@ == Map::<Seq<char>, AttributeValue>::empty(),
            a.spec_entries().len() == 0,
    {
        let a = Attributes { entries: Vec::new() };
        proof {
            lemma_map_empty(attr_pairs(a.entries@));
        }
        a
    }

    /// Sets the value of a name, replacing any earlier value.
    pub fn insert(&mut self, key: String, value: AttributeValue)
        ensures
            final(self)@ == old(self)@.insert(key@, value),
    {
        proof {
            use_type_invariant(&*self);
        }
        let ghost old_pairs = attr_pairs(self.entries@);
        let ghost key_view = key@;
        let mut entries: Vec<(String, AttributeValue)> = Vec::new();
        std::mem::swap(&mut entries, &mut self.entries);
        match find_attr(&entries, &key) {
            Some(i) => {
                entries.set(i, (key, value));
                proof {
                    assert(attr_pairs(entries@) =~= old_pairs.update(i as int, (key_view, value)));
                    lemma_map_update(old_pairs, i as int, (key_view, value));
                }
            },
            None => {
                entries.push((key, value));
                proof {
                    assert(attr_pairs(entries@) =~= old_pairs.push((key_view, value)));
                    lemma_map_push(old_pairs, (key_view, value));
                }
            },
        }
        *self = Attributes { entries };
    }

    /// Builds the map from name/value pairs; a later pair for the same name
    /// replaces an earlier one.
    pub fn from_pairs(pairs: Vec<(String, AttributeValue)>) -> (a: Attributes)
        ensures
            a@ == insert_pairs(Map::empty(), attr_pairs(pairs@)),
    {
        let mut a = Attributes::new();
        let ghost all = pairs@;
        for p in it: pairs.into_iter()
            invariant
                it.seq() == all,
                a@ == insert_pairs(Map::empty(), attr_pairs(all.take(it.index() as int))),
        {
            let ghost j = it.index();
            proof {
                let pre = attr_pairs(all.take(j as int));
                assert(it.seq()[j as int] == p);
                assert(attr_pairs(all.take(j + 1)) =~= pre.push((p.0@, p.1)));
                assert(attr_pairs(all.take(j + 1)).drop_last() =~= pre);
            }
            a.insert(p.0, p.1);
        }
        proof {
            assert(all.take(all.len() as int) =~= all);
        }
        a
    }

    /// The value of a name, if it has one.
    pub fn get(&self, key: &String) -> (r: Option<&AttributeValue>)
        ensures
            match r {
                Some(v) => self@.contains_key(key@) && self@[key@] == *v,
                None => !self@.contains_key(key@),
            },
    {
        proof {
            use_type_invariant(self);
            lemma_map_all(attr_pairs(self.entries@));
        }
        match find_attr(&self.entries, key) {
            Some(i) => {
                proof {
                    assert(attr_pairs(self.entries@)[i as int].0 == key@);
                }
                Some(&self.entries[i].1)
            },
            None => None,
        }
    }

    /// How many names carry a value.
    pub fn len(&self) -> (n: usize)
        ensures
            n == self@.len(),
    {
        proof {
            use_type_invariant(self);
        }
        let n = self.entries.len();
        proof {
            let s = attr_pairs(self.entries@);
            lemma_map_all(s);
            lemma_map_len(s);
        }
        n
    }

    /// The name/value pairs, each name once, in no particular order.
    pub fn entries(&self) -> (e: &Vec<(String, AttributeValue)>)
        ensures
            keys_unique(attr_pairs(e@)),
            seq_to_map(attr_pairs(e@)) == self@,
            e@ == self.spec_entries(),
    {
        proof {
            use_type_invariant(self);
        }
        &self.entries
    }

    /// Sets every name of `other` to its value there, keeping the others.
    pub fn merge_from(&mut self, other: Attributes)
        ensures
            final(self)@ == old(self)@.union_prefer_right(other@),
    {
        proof {
            use_type_invariant(&other);
        }
        let ghost all = other.entries@;
        let ghost start = self@;
        let Attributes { entries } = other;
        for p in it: entries.into_iter()
            invariant
                it.seq() == all,
                keys_unique(attr_pairs(all)),
                self@ == start.union_prefer_right(seq_to_map(attr_pairs(all.take(it.index() as int)))),
        {
            let ghost j = it.index();
            proof {
                let pre = attr_pairs(all.take(j as int));
                assert(attr_pairs(all.take(j + 1)) =~= pre.push((p.0@, p.1)));
                assert forall|x: int, y: int| 0 <= x < pre.len() && 0 <= y < pre.len() && x != y
                    implies #[trigger] pre[x].0 != #[trigger] pre[y].0 by {
                    assert(pre[x] == attr_pairs(all)[x] && pre[y] == attr_pairs(all)[y]);
                }
                assert(it.seq()[j as int] == p);
                assert(attr_pairs(all)[j as int] == (p.0@, p.1));
                assert forall|x: int| 0 <= x < pre.len() implies #[trigger] pre[x].0 != p.0@ by {
                    assert(pre[x] == attr_pairs(all)[x]);
                    assert(attr_pairs(all)[x].0 != attr_pairs(all)[j as int].0);
                }
                lemma_map_push(pre, (p.0@, p.1));
                assert(start.union_prefer_right(seq_to_map(pre)).insert(p.0@, p.1) =~= start.union_prefer_right(
                    seq_to_map(pre).insert(p.0@, p.1)));
            }
            self.insert(p.0, p.1);
        }
        proof {
            assert(all.take(all.len() as int) =~= all);
        }
    }
}


/// A copy of a list of plain values.
fn copy_list<T: Copy>(v: &Vec<T>) -> (r: Vec<T>)
    ensures
        r@ == v@,
{
    let mut r: Vec<T> = Vec::new();
    let mut i: usize = 0;
    while i < v.len()
        invariant
            i <= v@.len(),
            r@ == v@.take(i as int),
        decreases v@.len() - i,
    {
        r.push(v[i]);
        proof {
            assert(v@.take(i + 1) =~= v@.take(i as int).push(v@[i as int]));
        }
        i = i + 1;
    }
    proof {
        assert(v@.take(v@.len() as int) =~= v@);
    }
    r
}

/// A copy of a list of strings.
fn copy_texts(v: &Vec<String>) -> (r: Vec<String>)
    ensures
        texts(r@) == texts(v@),
{
    let mut r: Vec<String> = Vec::new();
    let mut i: usize = 0;
    while i < v.len()
        invariant
            i <= v@.len(),
            texts(r@) == texts(v@).take(i as int),
        decreases v@.len() - i,
    {
        let ghost pre = texts(r@);
        r.push(v[i].clone());
        proof {
            assert(texts(r@) =~= pre.push(v@[i as int]@));
            assert(texts(v@).take(i + 1) =~= texts(v@).take(i as int).push(v@[i as int]@));
        }
        i = i + 1;
    }
    proof {
        assert(texts(v@).take(v@.len() as int) =~= texts(v@));
    }
    r
}

impl AttributeValue {
    /// A copy of the value: the same kind holding the same value.
    pub fn duplicate(&self) -> (v: AttributeValue)
        ensures
            attr_view(v) == attr_view(*self),
    {
        match self {
            AttributeValue::String(s) => AttributeValue::String(s.clone()),
            AttributeValue::Int(i) => AttributeValue::Int(*i),
            AttributeValue::Uint(u) => AttributeValue::Uint(*u),
            AttributeValue::Float(f) => AttributeValue::Float(*f),
            AttributeValue::Bool(b) => AttributeValue::Bool(*b),
            AttributeValue::Uuid(u) => AttributeValue::Uuid(*u),
            AttributeValue::DateTime(t) => AttributeValue::DateTime(*t),
            AttributeValue::Null => AttributeValue::Null,
            AttributeValue::EmptyArray => AttributeValue::EmptyArray,
            AttributeValue::StringArray(v) => AttributeValue::StringArray(copy_texts(v)),
            AttributeValue::IntArray(v) => AttributeValue::IntArray(copy_list(v)),
            AttributeValue::UintArray(v) => AttributeValue::UintArray(copy_list(v)),
            AttributeValue::FloatArray(v) => AttributeValue::FloatArray(copy_list(v)),
            AttributeValue::BoolArray(v) => AttributeValue::BoolArray(copy_list(v)),
            AttributeValue::UuidArray(v) => AttributeValue::UuidArray(copy_list(v)),
            AttributeValue::DateTimeArray(v) => AttributeValue::DateTimeArray(copy_list(v)),
        }
    }
}

impl Clone for Attributes {
    /// A copy with the same names, each holding the same value.
    fn clone(&self) -> (c: Self)
        ensures
            c@.dom() == self@.dom(),
            forall|k: Seq<char>| #[trigger] self@.contains_key(k) ==> attr_view(c@[k]) == attr_view(self@[k]),
    {
        proof {
            use_type_invariant(self);
        }
        let ghost pairs = attr_pairs(self.entries@);
        let mut c = Attributes::new();
        let n = self.entries.len();
        let mut i: usize = 0;
        while i < n
            invariant
                n == self.entries@.len(),
                i <= n,
                pairs == attr_pairs(self.entries@),
                keys_unique(pairs),
                forall|k: Seq<char>| #[trigger] c@.contains_key(k) <==> exists|j: int| 0 <= j < i && pairs[j].0 == k,
                forall|j: int| 0 <= j < i ==> attr_view(c@[#[trigger] pairs[j].0]) == attr_view(pairs[j].1),
            decreases n - i,
        {
            let key = self.entries[i].0.clone();
            let value = self.entries[i].1.duplicate();
            let ghost before = c@;
            proof {
                assert(pairs[i as int] == (self.entries@[i as int].0@, self.entries@[i as int].1));
            }
            c.insert(key, value);
            proof {
                assert forall|j: int| 0 <= j < i + 1 implies attr_view(c@[#[trigger] pairs[j].0]) == attr_view(pairs[j].1) by {
                    if j < i {
                        assert(pairs[j].0 != pairs[i as int].0);
                    }
                }
                assert forall|k: Seq<char>| #[trigger] c@.contains_key(k) <==> exists|j: int| 0 <= j < i + 1 && pairs[j].0
                    == k by {
                    if c@.contains_key(k) && k != pairs[i as int].0 {
                        assert(before.contains_key(k));
                    }
                    if k == pairs[i as int].0 {
                        assert(pairs[i as int].0 == k);
                    }
                }
            }
            i = i + 1;
        }
        proof {
            lemma_map_all(pairs);
            assert forall|k: Seq<char>| #[trigger] self@.contains_key(k) implies attr_view(c@[k]) == attr_view(self@[k]) by {
                let j = choose|j: int| 0 <= j < pairs.len() && #[trigger] pairs[j].0 == k;
                assert(self@[pairs[j].0] == pairs[j].1);
            }
            assert forall|k: Seq<char>| c@.dom().contains(k) <==> self@.dom().contains(k) by {
                if c@.contains_key(k) {
                    let j = choose|j: int| 0 <= j < i && pairs[j].0 == k;
                    assert(has_key(pairs, k));
                }
            }
            assert(c@.dom() =~= self@.dom());
        }
        c
    }
}

/// A stored document: its id, its vector (each component an IEEE-754 `f32`
/// bit pattern), its attributes, and the time of its last write.
#[derive(Debug, Clone)]
pub struct Row {
    pub id: DocumentId,
    pub vector: Vec<u32>,
    pub attributes: Attributes,
    pub timestamp: i64,
}

/// The abstract value of a row.
pub struct RowView {
    pub id: DocId,
    pub vector: Seq<u32>,
    pub attributes: Map<Seq<char>, AttributeValue>,
    pub timestamp: i64,
}

impl View for Row {
    type V = RowView;

    open spec fn view(&self) -> RowView {
        RowView {
            id: self.id@,
            vector: self.vector@,
            attributes: self.attributes@,
            timestamp: self.timestamp,
        }
    }
}

impl Row {
    pub fn new(id: DocumentId, vector: Vec<u32>, attributes: Attributes, timestamp: i64) -> (r: Row)
        ensures
            r.id == id,
            r.vector == vector,
            r.attributes == attributes,
            r.timestamp == timestamp,
    {
        Row { id, vector, attributes, timestamp }
    }
}

/// One entry of the write-ahead log.
#[derive(Debug, Clone)]
pub enum WalRecord {
    /// Writes a whole row.
    Upsert(Row),
    /// Removes a document as of a time.
    Delete { id: DocumentId, timestamp: i64 },
    /// Overwrites some attributes of a document as of a time.
    Patch { id: DocumentId, timestamp: i64, attributes: Attributes },
}

/// The abstract value of a log record.
pub enum RecordView {
    Upsert(RowView),
    Delete(DocId, i64),
    Patch(DocId, i64, Map<Seq<char>, AttributeValue>),
}

impl View for WalRecord {
    type V = RecordView;

    open spec fn view(&self) -> RecordView {
        match self {
            WalRecord::Upsert(row) => RecordView::Upsert(row@),
            WalRecord::Delete { id, timestamp } => RecordView::Delete(id@, *timestamp),
            WalRecord::Patch { id, timestamp, attributes } => RecordView::Patch(id@, *timestamp, attributes@),
        }
    }
}

/// What a replayed log says: the live documents, for each document ever
/// deleted the time of its newest deletion, and the pending patches: for a
/// document that the log patches while holding no live row of it (its row
/// is in the indexes), the time of its newest such patch and the attributes
/// they set.
pub struct ReplayState {
    pub rows: Map<DocId, RowView>,
    pub deleted: Map<DocId, i64>,
    pub pending: Map<DocId, (i64, Map<Seq<char>, AttributeValue>)>,
}

pub open spec fn empty_state() -> ReplayState {
    ReplayState { rows: Map::empty(), deleted: Map::empty(), pending: Map::empty() }
}

/// A pending patch joined with a newer or older one: the newer time, and the
/// attributes of both, those of the newer patch (the later one at equal
/// times) winning.
pub open spec fn join_pending(
    p: Option<(i64, Map<Seq<char>, AttributeValue>)>,
    ts: i64,
    attrs: Map<Seq<char>, AttributeValue>,
) -> (i64, Map<Seq<char>, AttributeValue>) {
    match p {
        None => (ts, attrs),
        Some(q) => if ts >= q.0 {
            (ts, q.1.union_prefer_right(attrs))
        } else {
            (q.0, attrs.union_prefer_right(q.1))
        },
    }
}

/// A deletion newer than `ts` is recorded for the document.
pub open spec fn deleted_after(st: ReplayState, id: DocId, ts: i64) -> bool {
    st.deleted.contains_key(id) && st.deleted[id] > ts
}

/// The effect of one log record.
/// - An upsert is dropped when a newer deletion is known, and otherwise
///   replaces the current row unless that row is newer.
/// - A deletion records its time (keeping the newest) and removes the row
///   unless the row is newer.
/// - A patch applies only to a live row that is strictly older and not
///   deleted after the patch; it overwrites the named attributes and moves the
///   row's time forward. A patch of a document with no live row, not deleted
///   after it, becomes pending (joined with an earlier pending patch).
/// - A deletion also drops a pending patch that is not newer than it.
pub open spec fn replay_step(st: ReplayState, r: RecordView) -> ReplayState {
    match r {
        RecordView::Upsert(row) => {
            if !deleted_after(st, row.id, row.timestamp) && (!st.rows.contains_key(row.id)
                || row.timestamp >= st.rows[row.id].timestamp) {
                ReplayState { rows: st.rows.insert(row.id, row), ..st }
            } else {
                st
            }
        },
        RecordView::Delete(id, ts) => ReplayState {
            rows: if st.rows.contains_key(id) && ts >= st.rows[id].timestamp {
                st.rows.remove(id)
            } else {
                st.rows
            },
            deleted: if !st.deleted.contains_key(id) || ts >= st.deleted[id] {
                st.deleted.insert(id, ts)
            } else {
                st.deleted
            },
            pending: if st.pending.contains_key(id) && ts >= st.pending[id].0 {
                st.pending.remove(id)
            } else {
                st.pending
            },
        },
        RecordView::Patch(id, ts, attrs) => {
            if !deleted_after(st, id, ts) && st.rows.contains_key(id) && ts > st.rows[id].timestamp {
                let old = st.rows[id];
                ReplayState {
                    rows: st.rows.insert(
                        id,
                        RowView {
                            id: old.id,
                            vector: old.vector,
                            attributes: old.attributes.union_prefer_right(attrs),
                            timestamp: ts,
                        },
                    ),
                    ..st
                }
            } else if !deleted_after(st, id, ts) && !st.rows.contains_key(id) {
                ReplayState {
                    pending: st.pending.insert(
                        id,
                        join_pending(if st.pending.contains_key(id) { Some(st.pending[id]) } else { None }, ts, attrs),
                    ),
                    ..st
                }
            } else {
                st
            }
        },
    }
}

/// Applies records in log order, starting from a state.
pub open spec fn replay_from(st: ReplayState, recs: Seq<RecordView>) -> ReplayState
    decreases recs.len(),
{
    if recs.len() == 0 {
        st
    } else {
        replay_step(replay_from(st, recs.drop_last()), recs.last())
    }
}

/// The state that a log describes.
pub open spec fn replay(recs: Seq<RecordView>) -> ReplayState {
    replay_from(empty_state(), recs)
}

pub open spec fn records_view(s: Seq<WalRecord>) -> Seq<RecordView> {
    s.map_values(|r: WalRecord| r@)
}

pub open spec fn chunks_view(cs: Seq<Vec<WalRecord>>) -> Seq<Seq<RecordView>> {
    cs.map_values(|c: Vec<WalRecord>| records_view(c@))
}

/// The records of several log files, file after file.
pub open spec fn concat_chunks(cs: Seq<Seq<RecordView>>) -> Seq<RecordView>
    decreases cs.len(),
{
    if cs.len() == 0 {
        Seq::empty()
    } else {
        concat_chunks(cs.drop_last()) + cs.last()
    }
}

pub open spec fn row_pairs(s: Seq<Row>) -> Seq<(DocId, RowView)> {
    s.map_values(|r: Row| (r.id@, r@))
}

pub open spec fn tomb_pairs(s: Seq<(DocumentId, i64)>) -> Seq<(DocId, i64)> {
    s.map_values(|p: (DocumentId, i64)| (p.0@, p.1))
}

pub open spec fn pend_pairs(s: Seq<(DocumentId, i64, Attributes)>) -> Seq<(DocId, (i64, Map<Seq<char>, AttributeValue>))> {
    s.map_values(|p: (DocumentId, i64, Attributes)| (p.0@, (p.1, p.2@)))
}

/// A pending patch as seen in contracts: its document, its time and the
/// attributes it sets.
pub type PendingView = (DocId, (i64, Map<Seq<char>, AttributeValue>));

/// The position of the first pending patch of a document, if any.
#[verifier::opaque]
pub open spec fn first_pending(pend: Seq<PendingView>, id: DocId) -> Option<int> {
    if has_key(pend, id) {
        Some(choose|i: int| 0 <= i < pend.len() && pend[i].0 == id && forall|j: int| 0 <= j < i ==> pend[j].0 != id)
    } else {
        None
    }
}

/// A row with a patch applied: the patch's attributes overwrite, and the
/// row takes the patch's time.
pub open spec fn patched_row(r: RowView, p: (i64, Map<Seq<char>, AttributeValue>)) -> RowView {
    RowView { attributes: r.attributes.union_prefer_right(p.1), timestamp: p.0, ..r }
}

/// Finds the position of the first pending patch of a document.
pub fn find_pending(pending: &Vec<(DocumentId, i64, Attributes)>, id: &DocumentId) -> (r: Option<usize>)
    ensures
        match r {
            Some(i) => i < pending@.len() && pending@[i as int].0@ == id@,
            None => !has_key(pend_pairs(pending@), id@),
        },
        r matches Some(i) ==> first_pending(pend_pairs(pending@), id@) == Some(i as int),
        r is None ==> first_pending(pend_pairs(pending@), id@) is None,
{
    let n = pending.len();
    let mut i: usize = 0;
    while i < n
        invariant
            n == pending@.len(),
            i <= n,
            forall|j: int| 0 <= j < i ==> pending@[j].0@ != id@,
        decreases n - i,
    {
        if pending[i].0.same_as(id) {
            proof {
                reveal(first_pending);
                let pp = pend_pairs(pending@);
                assert(pp[i as int].0 == id@);
                assert(has_key(pp, id@));
                assert forall|j: int| 0 <= j < i implies #[trigger] pp[j].0 != id@ by {
                    assert(pp[j].0 == pending@[j].0@);
                }
                let c = choose|c: int| 0 <= c < pp.len() && pp[c].0 == id@ && forall|j: int| 0 <= j < c ==> pp[j].0 != id@;
                if c < i {
                    assert(pp[c].0 == pending@[c].0@);
                } else if c > i {
                    assert(pp[i as int].0 != id@);
                }
            }
            return Some(i);
        }
        i = i + 1;
    }
    assert forall|j: int| 0 <= j < pend_pairs(pending@).len() implies #[trigger] pend_pairs(pending@)[j].0 != id@ by {
        assert(pend_pairs(pending@)[j].0 == pending@[j].0@);
    }
    proof {
        reveal(first_pending);
    }
    None
}

/// Finds the position of the row of a document.
pub fn find_row(rows: &Vec<Row>, id: &DocumentId) -> (r: Option<usize>)
    ensures
        match r {
            Some(i) => i < rows@.len() && rows@[i as int].id@ == id@,
            None => !has_key(row_pairs(rows@), id@),
        },
{
    let n = rows.len();
    let mut i: usize = 0;
    while i < n
        invariant
            n == rows@.len(),
            i <= n,
            forall|j: int| 0 <= j < i ==> rows@[j].id@ != id@,
        decreases n - i,
    {
        if rows[i].id.same_as(id) {
            return Some(i);
        }
        i = i + 1;
    }
    assert forall|j: int| 0 <= j < row_pairs(rows@).len() implies #[trigger] row_pairs(rows@)[j].0 != id@ by {
        assert(row_pairs(rows@)[j].0 == rows@[j].id@);
    }
    None
}

/// Finds the position of the tombstone of a document.
pub fn find_tombstone(tombs: &Vec<(DocumentId, i64)>, id: &DocumentId) -> (r: Option<usize>)
    ensures
        match r {
            Some(i) => i < tombs@.len() && tombs@[i as int].0@ == id@,
            None => !has_key(tomb_pairs(tombs@), id@),
        },
{
    let n = tombs.len();
    let mut i: usize = 0;
    while i < n
        invariant
            n == tombs@.len(),
            i <= n,
            forall|j: int| 0 <= j < i ==> tombs@[j].0@ != id@,
        decreases n - i,
    {
        if tombs[i].0.same_as(id) {
            return Some(i);
        }
        i = i + 1;
    }
    assert forall|j: int| 0 <= j < tomb_pairs(tombs@).len() implies #[trigger] tomb_pairs(tombs@)[j].0 != id@ by {
        assert(tomb_pairs(tombs@)[j].0 == tombs@[j].0@);
    }
    None
}

/// The result of replaying a log: the live rows, each document once, the
/// newest deletion time of each deleted document, and the pending patches
/// (time and attributes), each document once.
#[derive(Debug)]
pub struct ReplayOutcome {
    pub rows: Vec<Row>,
    pub tombstones: Vec<(DocumentId, i64)>,
    pub pending: Vec<(DocumentId, i64, Attributes)>,
}

impl ReplayOutcome {
    /// Each document occurs once among the rows, once among the tombstones
    /// and once among the pending patches.
    pub open spec fn wf(&self) -> bool {
        keys_unique(row_pairs(self.rows@)) && keys_unique(tomb_pairs(self.tombstones@)) && keys_unique(
            pend_pairs(self.pending@),
        )
    }
}

impl View for ReplayOutcome {
    type V = ReplayState;

    open spec fn view(&self) -> ReplayState {
        ReplayState {
            rows: seq_to_map(row_pairs(self.rows@)),
            deleted: seq_to_map(tomb_pairs(self.tombstones@)),
            pending: seq_to_map(pend_pairs(self.pending@)),
        }
    }
}

impl ReplayOutcome {
    /// Nothing replayed yet.
    pub fn new() -> (o: ReplayOutcome)
        ensures
            o.wf(),
            o@ == empty_state(),
    {
        let o = ReplayOutcome { rows: Vec::new(), tombstones: Vec::new(), pending: Vec::new() };
        proof {
            lemma_map_empty(row_pairs(o.rows@));
            lemma_map_empty(tomb_pairs(o.tombstones@));
            lemma_map_empty(pend_pairs(o.pending@));
        }
        o
    }

    /// Whether a deletion newer than `ts` is recorded for the document.
    pub fn is_deleted_after(&self, id: &DocumentId, ts: i64) -> (b: bool)
        requires
            self.wf(),
        ensures
            b == deleted_after(self@, id@, ts),
    {
        let ghost tp = tomb_pairs(self.tombstones@);
        proof {
            lemma_map_all(tp);
        }
        match find_tombstone(&self.tombstones, id) {
            Some(k) => {
                proof {
                    assert(tp[k as int] == (id@, self.tombstones@[k as int].1));
                    lemma_map_at(tp, k as int);
                }
                self.tombstones[k].1 > ts
            },
            None => {
                assert(!seq_to_map(tp).contains_key(id@));
                false
            },
        }
    }

    /// Drops the pending patch of a document when it is not newer than `ts`.
    fn drop_pending(&mut self, id: &DocumentId, ts: i64)
        requires
            old(self).wf(),
        ensures
            final(self).wf(),
            final(self).rows == old(self).rows,
            final(self).tombstones == old(self).tombstones,
            final(self)@.pending == if old(self)@.pending.contains_key(id@) && ts >= old(self)@.pending[id@].0 {
                old(self)@.pending.remove(id@)
            } else {
                old(self)@.pending
            },
    {
        let ghost pp = pend_pairs(self.pending@);
        proof {
            lemma_map_all(pp);
        }
        match find_pending(&self.pending, id) {
            Some(k) => {
                proof {
                    assert(pp[k as int] == (id@, (self.pending@[k as int].1, self.pending@[k as int].2@)));
                    lemma_map_at(pp, k as int);
                }
                if ts >= self.pending[k].1 {
                    self.pending.remove(k);
                    proof {
                        assert(pend_pairs(self.pending@) =~= pp.remove(k as int));
                        lemma_map_remove(pp, k as int);
                    }
                }
            },
            None => {
                assert(!seq_to_map(pp).contains_key(id@));
            },
        }
    }

    /// Records a patch of a document with no live row as pending, joined
    /// with the document's earlier pending patch.
    fn add_pending(&mut self, id: DocumentId, ts: i64, attributes: Attributes)
        requires
            old(self).wf(),
        ensures
            final(self).wf(),
            final(self).rows == old(self).rows,
            final(self).tombstones == old(self).tombstones,
            final(self)@.pending == old(self)@.pending.insert(
                id@,
                join_pending(
                    if old(self)@.pending.contains_key(id@) { Some(old(self)@.pending[id@]) } else { None },
                    ts,
                    attributes@,
                ),
            ),
    {
        let ghost pp = pend_pairs(self.pending@);
        let ghost av = attributes@;
        proof {
            lemma_map_all(pp);
        }
        match find_pending(&self.pending, &id) {
            Some(k) => {
                proof {
                    assert(pp[k as int] == (id@, (self.pending@[k as int].1, self.pending@[k as int].2@)));
                    lemma_map_at(pp, k as int);
                }
                let ghost old_entry = (self.pending@[k as int].1, self.pending@[k as int].2@);
                let entry = &mut self.pending[k];
                if ts >= entry.1 {
                    entry.2.merge_from(attributes);
                    entry.1 = ts;
                } else {
                    let mut older = attributes;
                    std::mem::swap(&mut older, &mut entry.2);
                    entry.2.merge_from(older);
                }
                proof {
                    let nv = join_pending(Some(old_entry), ts, av);
                    assert(pend_pairs(self.pending@) =~= pp.update(k as int, (id@, nv)));
                    lemma_map_update(pp, k as int, (id@, nv));
                }
            },
            None => {
                assert(!seq_to_map(pp).contains_key(id@));
                let ghost nv = (id@, (ts, av));
                self.pending.push((id, ts, attributes));
                proof {
                    assert(pend_pairs(self.pending@) =~= pp.push(nv));
                    lemma_map_push(pp, nv);
                }
            },
        }
    }

    /// Applies one log record.
    pub fn apply(&mut self, rec: WalRecord)
        requires
            old(self).wf(),
        ensures
            final(self).wf(),
            final(self)@ == replay_step(old(self)@, rec@),
    {
        let ghost pre = self@;
        let ghost recv = rec@;
        let ghost rp = row_pairs(self.rows@);
        let ghost tp = tomb_pairs(self.tombstones@);
        let ghost pp = pend_pairs(self.pending@);
        proof {
            lemma_map_all(rp);
            lemma_map_all(tp);
            lemma_map_all(pp);
        }
        match rec {
            WalRecord::Upsert(row) => {
                let ts = row.timestamp;
                if !self.is_deleted_after(&row.id, ts) {
                    match find_row(&self.rows, &row.id) {
                        Some(i) => {
                            proof {
                                assert(rp[i as int] == (row.id@, self.rows@[i as int]@));
                                lemma_map_at(rp, i as int);
                            }
                            if ts >= self.rows[i].timestamp {
                                let ghost rv = (row.id@, row@);
                                self.rows.set(i, row);
                                proof {
                                    assert(row_pairs(self.rows@) =~= rp.update(i as int, rv));
                                    lemma_map_update(rp, i as int, rv);
                                }
                            }
                        },
                        None => {
                            assert(!seq_to_map(rp).contains_key(row.id@));
                            let ghost rv = (row.id@, row@);
                            self.rows.push(row);
                            proof {
                                assert(row_pairs(self.rows@) =~= rp.push(rv));
                                lemma_map_push(rp, rv);
                            }
                        },
                    }
                }
            },
            WalRecord::Delete { id, timestamp } => {
                let ts = timestamp;
                match find_tombstone(&self.tombstones, &id) {
                    Some(k) => {
                        proof {
                            assert(tp[k as int] == (id@, self.tombstones@[k as int].1));
                            lemma_map_at(tp, k as int);
                        }
                        if ts >= self.tombstones[k].1 {
                            self.tombstones.set(k, (id.duplicate(), ts));
                            proof {
                                assert(tomb_pairs(self.tombstones@) =~= tp.update(k as int, (id@, ts)));
                                lemma_map_update(tp, k as int, (id@, ts));
                            }
                        }
                    },
                    None => {
                        assert(!seq_to_map(tp).contains_key(id@));
                        self.tombstones.push((id.duplicate(), ts));
                        proof {
                            assert(tomb_pairs(self.tombstones@) =~= tp.push((id@, ts)));
                            lemma_map_push(tp, (id@, ts));
                        }
                    },
                }
                self.drop_pending(&id, ts);
                match find_row(&self.rows, &id) {
                    Some(i) => {
                        proof {
                            assert(rp[i as int] == (id@, self.rows@[i as int]@));
                            lemma_map_at(rp, i as int);
                        }
                        if ts >= self.rows[i].timestamp {
                            self.rows.remove(i);
                            proof {
                                assert(row_pairs(self.rows@) =~= rp.remove(i as int));
                                lemma_map_remove(rp, i as int);
                            }
                        }
                    },
                    None => {
                        assert(!seq_to_map(rp).contains_key(id@));
                    },
                }
            },
            WalRecord::Patch { id, timestamp, attributes } => {
                let ts = timestamp;
                if !self.is_deleted_after(&id, ts) {
                    match find_row(&self.rows, &id) {
                        Some(i) => {
                            proof {
                                assert(rp[i as int] == (id@, self.rows@[i as int]@));
                                lemma_map_at(rp, i as int);
                            }
                            if ts > self.rows[i].timestamp {
                                let ghost old_row = self.rows@[i as int];
                                let row = &mut self.rows[i];
                                row.attributes.merge_from(attributes);
                                row.timestamp = ts;
                                proof {
                                    let nv = RowView {
                                        id: old_row.id@,
                                        vector: old_row.vector@,
                                        attributes: old_row.attributes@.union_prefer_right(attributes@),
                                        timestamp: ts,
                                    };
                                    assert(self.rows@[i as int]@ == nv);
                                    assert(row_pairs(self.rows@) =~= rp.update(i as int, (id@, nv)));
                                    lemma_map_update(rp, i as int, (id@, nv));
                                }
                            }
                        },
                        None => {
                            assert(!seq_to_map(rp).contains_key(id@));
                            self.add_pending(id, ts, attributes);
                        },
                    }
                }
            },
        }
        proof {
            assert(self@.rows =~= replay_step(pre, recv).rows);
            assert(self@.deleted =~= replay_step(pre, recv).deleted);
            assert(self@.pending =~= replay_step(pre, recv).pending);
        }
    }
}

/// Replays log files in order into the live rows and the deletion times.
/// The files are read by the caller; each is given here as its records.
pub fn replay_wal_with_tombstones(chunks: Vec<Vec<WalRecord>>) -> (out: ReplayOutcome)
    ensures
        out.wf(),
        out@ == replay(concat_chunks(chunks_view(chunks@))),
{
    let mut out = ReplayOutcome::new();
    let ghost all = chunks@;
    for chunk in it: chunks.into_iter()
        invariant
            it.seq() == all,
            out.wf(),
            out@ == replay(concat_chunks(chunks_view(all.take(it.index() as int)))),
    {
        let ghost i = it.index();
        let ghost prefix = concat_chunks(chunks_view(all.take(i as int)));
        let ghost recs = chunk@;
        proof {
            assert(prefix + records_view(recs.take(0)) =~= prefix);
        }
        for rec in it2: chunk.into_iter()
            invariant
                it2.seq() == recs,
                out.wf(),
                out@ == replay(prefix + records_view(recs.take(it2.index() as int))),
        {
            let ghost j = it2.index();
            proof {
                let s = prefix + records_view(recs.take(j + 1));
                assert(s.drop_last() =~= prefix + records_view(recs.take(j as int)));
                assert(s.last() == rec@);
            }
            out.apply(rec);
        }
        proof {
            assert(recs.take(recs.len() as int) =~= recs);
            let cs = chunks_view(all.take(i + 1));
            assert(cs.drop_last() =~= chunks_view(all.take(i as int)));
            assert(cs.last() == records_view(recs));
        }
    }
    proof {
        assert(all.take(all.len() as int) =~= all);
    }
    out
}

/// Replays log files and keeps only the live rows.
pub fn replay_wal(chunks: Vec<Vec<WalRecord>>) -> (rows: Vec<Row>)
    ensures
        keys_unique(row_pairs(rows@)),
        seq_to_map(row_pairs(rows@)) == replay(concat_chunks(chunks_view(chunks@))).rows,
{
    let out = replay_wal_with_tombstones(chunks);
    out.rows
}


/// A namespace, named by its id.
#[derive(Debug, Clone, PartialEq, Eq, Hash)]
pub struct Namespace {
    pub id: String,
}

/// Which attributes are indexed for filtering; none named means all.
/// Each name is listed once.
#[derive(Debug, Clone, Default)]
pub struct Schema {
    pub index_attributes: Vec<String>,
}

/// Whether the indexes reflect every write.
#[derive(Debug, Clone, Copy, PartialEq, Eq, Structural)]
pub enum IndexStatus {
    Updating,
    UpToDate,
}

/// The state of a namespace's indexes.
#[derive(Debug, Clone)]
pub struct IndexState {
    pub status: IndexStatus,
    pub unindexed_bytes: Option<u64>,
    pub ann_index_file: Option<String>,
    pub inverted_index_file: Option<String>,
    pub indexed_row_count: u64,
}

/// The per-namespace metadata object: counters, the log files not yet
/// compacted, the files waiting for deletion, and the index state.
#[derive(Debug, Clone)]
pub struct Metadata {
    pub approx_row_count: u64,
    pub index: IndexState,
    pub created_at: i64,
    pub updated_at: i64,
    pub wal_files: Vec<String>,
    pub deleted_files: Vec<String>,
    pub unindexed_bytes: u64,
    pub distance_metric: DistanceMetric,
    pub schema: Schema,
    pub vector_dimensions: Option<usize>,
}

pub open spec fn opt_text(o: Option<String>) -> Option<Seq<char>> {
    match o {
        Some(s) => Some(s@),
        None => None,
    }
}

pub open spec fn texts(s: Seq<String>) -> Seq<Seq<char>> {
    s.map_values(|x: String| x@)
}

/// The abstract value of the metadata object.
pub struct MetadataView {
    pub approx_row_count: u64,
    pub status: IndexStatus,
    pub index_unindexed_bytes: Option<u64>,
    pub ann_index_file: Option<Seq<char>>,
    pub inverted_index_file: Option<Seq<char>>,
    pub indexed_row_count: u64,
    pub created_at: i64,
    pub updated_at: i64,
    pub wal_files: Seq<Seq<char>>,
    pub deleted_files: Seq<Seq<char>>,
    pub unindexed_bytes: u64,
    pub distance_metric: DistanceMetric,
    pub index_attributes: Seq<Seq<char>>,
    pub vector_dimensions: Option<usize>,
}

impl View for Metadata {
    type V = MetadataView;

    open spec fn view(&self) -> MetadataView {
        MetadataView {
            approx_row_count: self.approx_row_count,
            status: self.index.status,
            index_unindexed_bytes: self.index.unindexed_bytes,
            ann_index_file: opt_text(self.index.ann_index_file),
            inverted_index_file: opt_text(self.index.inverted_index_file),
            indexed_row_count: self.index.indexed_row_count,
            created_at: self.created_at,
            updated_at: self.updated_at,
            wal_files: texts(self.wal_files@),
            deleted_files: texts(self.deleted_files@),
            unindexed_bytes: self.unindexed_bytes,
            distance_metric: self.distance_metric,
            index_attributes: texts(self.schema.index_attributes@),
            vector_dimensions: self.vector_dimensions,
        }
    }
}

pub open spec fn id_views(s: Seq<DocumentId>) -> Seq<DocId> {
    s.map_values(|d: DocumentId| d@)
}

/// Whether a list of ids holds a document.
pub fn contains_id(ids: &Vec<DocumentId>, id: &DocumentId) -> (b: bool)
    ensures
        b == id_views(ids@).contains(id@),
{
    let n = ids.len();
    let mut i: usize = 0;
    while i < n
        invariant
            n == ids@.len(),
            i <= n,
            forall|j: int| 0 <= j < i ==> ids@[j]@ != id@,
        decreases n - i,
    {
        if ids[i].same_as(id) {
            assert(id_views(ids@)[i as int] == id@);
            return true;
        }
        i = i + 1;
    }
    assert forall|j: int| 0 <= j < id_views(ids@).len() implies #[trigger] id_views(ids@)[j] != id@ by {
        assert(id_views(ids@)[j] == ids@[j]@);
    }
    false
}

} // verus!
