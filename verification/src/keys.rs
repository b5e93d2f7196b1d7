//! Object keys for new log files, index files and postings.
use vstd::prelude::*;
use vstd::string::StringExecFns;

verus! {

/// A character of Crockford's base-32 alphabet, as ULIDs print them.
pub open spec fn is_crockford_char(c: char) -> bool {
    ('0' <= c <= '9') || ('A' <= c <= 'H') || c == 'J' || c == 'K' || c == 'M' || c == 'N'
        || ('P' <= c <= 'T') || ('V' <= c <= 'Z')
}

/// The text of a ULID: 26 characters of Crockford's base-32 alphabet.
pub open spec fn is_ulid_text(t: Seq<char>) -> bool {
    t.len() == 26 && forall|i: int| 0 <= i < t.len() ==> is_crockford_char(#[trigger] t[i])
}

/// `ulid::Ulid::new` followed by `Ulid::to_string`: a fresh ULID from the
/// current time and random bits, printed as 26 characters of Crockford's
/// base-32 alphabet. Which ULID comes back is not stated.
#[verifier::external_body]
fn new_ulid_text() -> (t: String)
    ensures
        is_ulid_text(t@),
{
    ulid::Ulid::new().to_string()
}

/// A key made of a prefix and a ULID's text.
pub fn prefixed_key(prefix: &str, ulid: &str) -> (k: String)
    ensures
        k@ == prefix@ + ulid@,
{
    String::from_str(prefix).concat(ulid)
}

/// A prefix followed by a fresh ULID.
fn prefixed_ulid(prefix: &str) -> (k: String)
    ensures
        k@.len() == prefix@.len() + 26,
        k@.subrange(0, prefix@.len() as int) == prefix@,
        is_ulid_text(k@.subrange(prefix@.len() as int, k@.len() as int)),
{
    let u = new_ulid_text();
    let k = prefixed_key(prefix, u.as_str());
    assert(k@.subrange(0, prefix@.len() as int) =~= prefix@);
    assert(k@.subrange(prefix@.len() as int, k@.len() as int) =~= u@);
    k
}

/// The key of a new log file: `wal/` and a fresh ULID.
pub fn new_wal_key() -> (k: String)
    ensures
        k@.subrange(0, 4) == "wal/"@,
        k@.len() == 30,
        is_ulid_text(k@.subrange(4, 30)),
{
    proof {
        reveal_strlit("wal/");
    }
    prefixed_ulid("wal/")
}

/// The key of a new inverted index: `index/inverted_` and a fresh ULID.
pub fn new_inverted_index_key() -> (k: String)
    ensures
        k@.subrange(0, 15) == "index/inverted_"@,
        k@.len() == 41,
        is_ulid_text(k@.subrange(15, 41)),
{
    proof {
        reveal_strlit("index/inverted_");
    }
    prefixed_ulid("index/inverted_")
}

/// The key of a new vector index: `index/spfresh_metadata_` and a fresh ULID.
pub fn new_spfresh_index_key() -> (k: String)
    ensures
        k@.subrange(0, 23) == "index/spfresh_metadata_"@,
        k@.len() == 49,
        is_ulid_text(k@.subrange(23, 49)),
{
    proof {
        reveal_strlit("index/spfresh_metadata_");
    }
    prefixed_ulid("index/spfresh_metadata_")
}

/// The key of a new posting: `postings/posting_` and a fresh ULID.
pub fn new_posting_key() -> (k: String)
    ensures
        k@.subrange(0, 17) == "postings/posting_"@,
        k@.len() == 43,
        is_ulid_text(k@.subrange(17, 43)),
{
    proof {
        reveal_strlit("postings/posting_");
    }
    prefixed_ulid("postings/posting_")
}

} // verus!
