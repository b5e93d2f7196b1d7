//! Namespace validation and the naming of stored objects.
use vstd::prelude::*;
use vstd::string::StringSliceAdditionalSpecFns;
use crate::client::{compare_texts, text_order};
use crate::engine::{texts, IndexState, IndexStatus, Metadata, MetadataView, Namespace, Schema};
use crate::store::FailureKind;
use crate::vectors::DistanceMetric;

verus! {

/// Why a namespace name was refused.
#[derive(Debug, Clone, Copy, PartialEq, Eq, Structural)]
pub enum NamespaceError {
    Empty,
    BadLength,
    Uppercase,
    EdgeHyphen,
    ConsecutiveHyphens,
    InvalidCharacter,
}

impl NamespaceError {
    /// The human-readable message for this refusal.
    pub fn message(&self) -> (m: &'static str)
        ensures
            m@ == namespace_error_text(*self),
    {
        match self {
            NamespaceError::Empty => "namespace cannot be empty!",
            NamespaceError::BadLength => "namespace must be between 3 and 63 characters",
            NamespaceError::Uppercase => "namespace must be lowercase",
            NamespaceError::EdgeHyphen => "namespace cannot start or end with a hyphen",
            NamespaceError::ConsecutiveHyphens => "namespace cannot contain consecutive hyphens",
            NamespaceError::InvalidCharacter => "namespace may only contain lowercase letters, digits, or hyphens",
        }
    }
}

/// The message text of each refusal.
pub open spec fn namespace_error_text(e: NamespaceError) -> Seq<char> {
    match e {
        NamespaceError::Empty => "namespace cannot be empty!"@,
        NamespaceError::BadLength => "namespace must be between 3 and 63 characters"@,
        NamespaceError::Uppercase => "namespace must be lowercase"@,
        NamespaceError::EdgeHyphen => "namespace cannot start or end with a hyphen"@,
        NamespaceError::ConsecutiveHyphens => "namespace cannot contain consecutive hyphens"@,
        NamespaceError::InvalidCharacter => "namespace may only contain lowercase letters, digits, or hyphens"@,
    }
}

pub open spec fn is_upper_byte(c: u8) -> bool {
    65 <= c <= 90
}

/// Lowercase ASCII letter, ASCII digit, or hyphen.
pub open spec fn is_namespace_byte(c: u8) -> bool {
    (97 <= c <= 122) || (48 <= c <= 57) || c == 45
}

pub open spec fn has_upper(b: Seq<u8>) -> bool {
    exists|i: int| 0 <= i < b.len() && is_upper_byte(#[trigger] b[i])
}

pub open spec fn has_double_hyphen(b: Seq<u8>) -> bool {
    exists|i: int| 0 <= i < b.len() - 1 && #[trigger] b[i] == 45 && b[i + 1] == 45
}

pub open spec fn has_foreign_byte(b: Seq<u8>) -> bool {
    exists|i: int| 0 <= i < b.len() && !is_namespace_byte(#[trigger] b[i])
}

/// The first rule that the UTF-8 bytes of a namespace name break, if any.
/// ASCII letters, digits and the hyphen are single bytes in UTF-8 and no other
/// character's encoding contains such a byte, so checking bytes is the same
/// as checking characters.
pub open spec fn namespace_violation(b: Seq<u8>) -> Option<NamespaceError> {
    if b.len() == 0 {
        Some(NamespaceError::Empty)
    } else if !(3 <= b.len() <= 63) {
        Some(NamespaceError::BadLength)
    } else if has_upper(b) {
        Some(NamespaceError::Uppercase)
    } else if b[0] == 45 || b[b.len() - 1] == 45 {
        Some(NamespaceError::EdgeHyphen)
    } else if has_double_hyphen(b) {
        Some(NamespaceError::ConsecutiveHyphens)
    } else if has_foreign_byte(b) {
        Some(NamespaceError::InvalidCharacter)
    } else {
        None
    }
}

/// The names a bucket can take: 3 to 63 bytes, each a lowercase ASCII
/// letter (`a` to `z`), an ASCII digit (`0` to `9`) or a hyphen, with no
/// hyphen first, last, or next to another. Exactly these names pass
/// validation (and `sanitize_namespace` returns them unchanged); every
/// other name is refused with some error.
pub proof fn valid_names_are_exactly_the_bucket_names(b: Seq<u8>)
    ensures
        namespace_violation(b) is None <==> {
            &&& 3 <= b.len() <= 63
            &&& forall|i: int| 0 <= i < b.len() ==> {
                let c = #[trigger] b[i];
                ('a' as u8 <= c <= 'z' as u8) || ('0' as u8 <= c <= '9' as u8) || c == '-' as u8
            }
            &&& b[0] != '-' as u8
            &&& b[b.len() - 1] != '-' as u8
            &&& forall|i: int| 0 <= i < b.len() - 1 ==> !(#[trigger] b[i] == '-' as u8 && b[i + 1] == '-' as u8)
        },
{
    if 3 <= b.len() <= 63 && forall|i: int| 0 <= i < b.len() ==> {
        let c = #[trigger] b[i];
        ('a' as u8 <= c <= 'z' as u8) || ('0' as u8 <= c <= '9' as u8) || c == '-' as u8
    } {
        assert forall|i: int| 0 <= i < b.len() implies !is_upper_byte(#[trigger] b[i]) && is_namespace_byte(b[i]) by {
            let c = b[i];
            assert(('a' as u8 <= c <= 'z' as u8) || ('0' as u8 <= c <= '9' as u8) || c == '-' as u8);
        }
    }
    if namespace_violation(b) is None {
        assert forall|i: int| 0 <= i < b.len() implies {
            let c = #[trigger] b[i];
            ('a' as u8 <= c <= 'z' as u8) || ('0' as u8 <= c <= '9' as u8) || c == '-' as u8
        } by {
            assert(is_namespace_byte(b[i]));
        }
    }
}

/// Checks that a namespace name can name a bucket: 3 to 63 bytes, lowercase
/// letters, digits and single inner hyphens only. Returns the name unchanged.
#[verifier::loop_isolation(false)]
pub fn sanitize_namespace(raw: &str) -> (res: Result<String, NamespaceError>)
    ensures
        match namespace_violation(raw.spec_bytes()) {
            None => res matches Ok(s) && s@ == raw@,
            Some(e) => res == Err::<String, NamespaceError>(e),
        },
{
    let b = raw.as_bytes();
    let n = b.len();
    if n == 0 {
        return Err(NamespaceError::Empty);
    }
    if n < 3 || n > 63 {
        return Err(NamespaceError::BadLength);
    }
    let mut i: usize = 0;
    while i < n
        invariant
            n == b@.len(),
            i <= n,
            forall|j: int| 0 <= j < i ==> !is_upper_byte(#[trigger] b@[j]),
        decreases n - i,
    {
        if b[i] >= 65 && b[i] <= 90 {
            assert(is_upper_byte(b@[i as int]));
            return Err(NamespaceError::Uppercase);
        }
        i = i + 1;
    }
    if b[0] == 45 || b[n - 1] == 45 {
        return Err(NamespaceError::EdgeHyphen);
    }
    let mut i: usize = 0;
    while i + 1 < n
        invariant
            n == b@.len(),
            n >= 3,
            i + 1 <= n,
            forall|j: int| 0 <= j < i ==> !(#[trigger] b@[j] == 45 && b@[j + 1] == 45),
        decreases n - i,
    {
        if b[i] == 45 && b[i + 1] == 45 {
            assert(b@[i as int] == 45 && b@[i + 1] == 45);
            return Err(NamespaceError::ConsecutiveHyphens);
        }
        i = i + 1;
    }
    let mut i: usize = 0;
    while i < n
        invariant
            n == b@.len(),
            i <= n,
            forall|j: int| 0 <= j < i ==> is_namespace_byte(#[trigger] b@[j]),
        decreases n - i,
    {
        let c = b[i];
        if !((c >= 97 && c <= 122) || (c >= 48 && c <= 57) || c == 45) {
            assert(!is_namespace_byte(b@[i as int]));
            return Err(NamespaceError::InvalidCharacter);
        }
        i = i + 1;
    }
    Ok(raw.to_owned())
}

/// Inserts after every text that is not greater.
pub open spec fn insert_text(s: Seq<Seq<char>>, x: Seq<char>) -> Seq<Seq<char>>
    decreases s.len(),
{
    if s.len() == 0 {
        seq![x]
    } else if text_order(s.last(), x) <= 0 {
        s.push(x)
    } else {
        insert_text(s.drop_last(), x).push(s.last())
    }
}

/// Texts in increasing byte order (insertion sort; equal texts keep their
/// order).
pub open spec fn sort_texts(s: Seq<Seq<char>>) -> Seq<Seq<char>>
    decreases s.len(),
{
    if s.len() == 0 {
        Seq::empty()
    } else {
        insert_text(sort_texts(s.drop_last()), s.last())
    }
}

proof fn lemma_insert_text_at(s: Seq<Seq<char>>, x: Seq<char>, p: int)
    requires
        0 <= p <= s.len(),
        p == s.len() || text_order(s[p], x) > 0,
        forall|k: int| p < k < s.len() ==> text_order(#[trigger] s[k], x) > 0,
        p == 0 || text_order(s[p - 1], x) <= 0,
    ensures
        insert_text(s, x) == s.take(p).push(x) + s.skip(p),
    decreases s.len(),
{
    if s.len() == 0 {
        assert(s.take(p).push(x) + s.skip(p) =~= seq![x]);
    } else if p == s.len() {
        assert(s.take(p).push(x) + s.skip(p) =~= s.push(x));
    } else {
        let t = s.drop_last();
        assert forall|k: int| p < k < t.len() implies text_order(#[trigger] t[k], x) > 0 by {
            assert(t[k] == s[k]);
        }
        if p < t.len() {
            assert(t[p] == s[p]);
        }
        if p > 0 {
            assert(t[p - 1] == s[p - 1]);
        }
        lemma_insert_text_at(t, x, p);
        assert((t.take(p).push(x) + t.skip(p)).push(s.last()) =~= s.take(p).push(x) + s.skip(p));
    }
}

/// Sorts keys into increasing byte order.
pub fn sort_keys(v: Vec<String>) -> (r: Vec<String>)
    ensures
        texts(r@) == sort_texts(texts(v@)),
{
    let ghost all = v@;
    let mut out: Vec<String> = Vec::new();
    for x in it: v.into_iter()
        invariant
            it.seq() == all,
            texts(out@) == sort_texts(texts(all.take(it.index() as int))),
    {
        let ghost j = it.index();
        let ghost pre = texts(out@);
        let mut p = out.len();
        while p > 0 && compare_texts(&out[p - 1], &x) > 0
            invariant
                p <= out@.len(),
                pre == texts(out@),
                forall|k: int| p <= k < out@.len() ==> text_order(#[trigger] pre[k], x@) > 0,
            decreases p,
        {
            p = p - 1;
        }
        proof {
            if p < pre.len() {
                assert(text_order(pre[p as int], x@) > 0);
            }
            if p > 0 {
                assert(pre[p - 1] == out@[p - 1]@);
            }
            lemma_insert_text_at(pre, x@, p as int);
            let s = texts(all.take(j + 1));
            assert(s.drop_last() =~= texts(all.take(j as int)));
            assert(s.last() == x@);
        }
        let ghost xv = x@;
        out.insert(p, x);
        proof {
            assert(texts(out@) =~= pre.take(p as int).push(xv) + pre.skip(p as int));
        }
    }
    proof {
        assert(all.take(all.len() as int) =~= all);
    }
    out
}

/// The files of a namespace that compaction lists: its log files and its
/// index files, together in increasing key order (keys carry ULIDs, so this
/// is time order within each kind).
pub fn combine_listings(wal_files: Vec<String>, index_files: Vec<String>) -> (r: Vec<String>)
    ensures
        texts(r@) == sort_texts(texts(wal_files@) + texts(index_files@)),
{
    let mut all = wal_files;
    let ghost a = texts(all@);
    let mut more = index_files;
    let ghost b = texts(more@);
    all.append(&mut more);
    assert(texts(all@) =~= a + b);
    sort_keys(all)
}

/// The namespaces named by bucket names, in order.
pub fn namespaces_from_names(names: Vec<String>) -> (r: Vec<Namespace>)
    ensures
        r@.map_values(|n: Namespace| n.id@) == texts(names@),
{
    let ghost all = names@;
    let mut out: Vec<Namespace> = Vec::new();
    for name in it: names.into_iter()
        invariant
            it.seq() == all,
            out@.map_values(|n: Namespace| n.id@) == texts(all.take(it.index() as int)),
    {
        let ghost j = it.index();
        let ghost pre = out@.map_values(|n: Namespace| n.id@);
        let ghost nv = name@;
        out.push(Namespace { id: name });
        proof {
            assert(out@.map_values(|n: Namespace| n.id@) =~= pre.push(nv));
            assert(texts(all.take(j + 1)) =~= texts(all.take(j as int)).push(nv));
        }
    }
    proof {
        assert(all.take(all.len() as int) =~= all);
    }
    out
}

/// The metadata a new namespace starts with at time `now`: no rows, no log
/// files, indexes up to date, cosine distance, no schema and no dimensions.
pub fn initial_metadata_at(now: i64) -> (m: Metadata)
    ensures
        m@ == (MetadataView {
            approx_row_count: 0,
            status: IndexStatus::UpToDate,
            index_unindexed_bytes: None,
            ann_index_file: None,
            inverted_index_file: None,
            indexed_row_count: 0,
            created_at: now,
            updated_at: now,
            wal_files: Seq::empty(),
            deleted_files: Seq::empty(),
            unindexed_bytes: 0,
            distance_metric: DistanceMetric::CosineDistance,
            index_attributes: Seq::empty(),
            vector_dimensions: None,
        }),
{
    let m = Metadata {
        approx_row_count: 0,
        index: IndexState {
            status: IndexStatus::UpToDate,
            unindexed_bytes: None,
            ann_index_file: None,
            inverted_index_file: None,
            indexed_row_count: 0,
        },
        created_at: now,
        updated_at: now,
        wal_files: Vec::new(),
        deleted_files: Vec::new(),
        unindexed_bytes: 0,
        distance_metric: DistanceMetric::default_metric(),
        schema: Schema { index_attributes: Vec::new() },
        vector_dimensions: None,
    };
    assert(texts(m.wal_files@) =~= Seq::<Seq<char>>::empty());
    assert(texts(m.deleted_files@) =~= Seq::<Seq<char>>::empty());
    assert(texts(m.schema.index_attributes@) =~= Seq::<Seq<char>>::empty());
    m
}

/// A write that may create a key failed because the bucket is missing: the
/// namespace is provisioned and the write is tried once more.
pub fn provision_and_retry(failure: FailureKind) -> (b: bool)
    ensures
        b == (failure == FailureKind::BucketMissing),
{
    match failure {
        FailureKind::BucketMissing => true,
        _ => false,
    }
}

/// Creating a namespace's metadata file found one already there: the
/// existing file is left untouched and creation counts as done.
pub fn metadata_already_present(failure: FailureKind) -> (b: bool)
    ensures
        b == (failure == FailureKind::PreconditionFailed),
{
    match failure {
        FailureKind::PreconditionFailed => true,
        _ => false,
    }
}

} // verus!
