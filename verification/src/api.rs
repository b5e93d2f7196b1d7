//! The HTTP API's models and decisions: error statuses and messages, request
//! validation, the conversion of request bodies into rows and log records,
//! and the shape of responses.
use vstd::prelude::*;
use vstd::string::{StringExecFns, StringSliceAdditionalSpecFns};
use crate::client::{DimensionMismatch, DistanceMetricConflict};
use crate::compactor::{trigger_compaction, trigger_forced_compaction, CompactionRequest};
use crate::engine::{
    attr_view, le_bytes, texts, AttrView, AttributeValue, Attributes, DocId, DocumentId, IdType, IndexStatus, Metadata,
    Namespace, Row, WalRecord,
};
use crate::format::{decimal, usize_to_decimal};
use crate::s3client::{namespace_error_text, namespace_violation, sanitize_namespace};
use crate::vectors::DistanceMetric;
use crate::engine::uuid_bytes;
use crate::format::uuid_text;
use crate::inverted_index::uuid_value_text;
use vstd::utf8::encode_utf8;

verus! {

/// An error answer: an HTTP status and a message safe to show the client.
#[derive(Debug)]
pub struct ApiError {
    pub status: u16,
    pub message: String,
}

impl ApiError {
    /// A 400 answer.
    pub fn bad_request(message: String) -> (e: ApiError)
        ensures
            e.status == 400,
            e.message == message,
    {
        ApiError { status: 400, message }
    }

    /// A 409 answer.
    pub fn conflict(message: String) -> (e: ApiError)
        ensures
            e.status == 409,
            e.message == message,
    {
        ApiError { status: 409, message }
    }

    /// A 500 answer.
    pub fn internal(message: String) -> (e: ApiError)
        ensures
            e.status == 500,
            e.message == message,
    {
        ApiError { status: 500, message }
    }
}

/// How an engine operation failed, as far as the API distinguishes it.
#[derive(Debug)]
pub enum EngineFailure {
    DimensionMismatch(DimensionMismatch),
    DistanceMetricConflict(DistanceMetricConflict),
    Other(String),
}

impl ApiError {
    /// The answer to an engine failure: a dimension mismatch is the client's
    /// mistake (400), a metric conflict clashes with stored data (409), and
    /// anything else is a server error (500). The message is the failure's.
    pub fn from_failure(failure: EngineFailure) -> (e: ApiError)
        ensures
            match failure {
                EngineFailure::DimensionMismatch(m) => e.status == 400 && e.message@ == "Vector dimension mismatch: namespace '"@
                    + m.namespace@ + "' expects "@ + decimal(m.expected as nat) + " dimensions, got "@ + decimal(
                    m.actual as nat,
                ),
                EngineFailure::DistanceMetricConflict(c) => e.status == 409 && e.message@
                    == "namespace already uses "@ + crate::vectors::metric_name(c.existing) + ", cannot change to "@
                    + crate::vectors::metric_name(c.requested),
                EngineFailure::Other(text) => e.status == 500 && e.message == text,
            },
    {
        match failure {
            EngineFailure::DimensionMismatch(m) => ApiError::bad_request(m.message()),
            EngineFailure::DistanceMetricConflict(c) => ApiError::conflict(c.message()),
            EngineFailure::Other(text) => ApiError::internal(text),
        }
    }
}

/// Validates a namespace taken from a request path; a refused name is a 400
/// answer with the refusal's message.
pub fn validated_namespace(raw: &str) -> (r: Result<String, ApiError>)
    ensures
        match namespace_violation(raw.spec_bytes()) {
            None => r matches Ok(s) && s@ == raw@,
            Some(v) => r matches Err(e) && e.status == 400 && e.message@ == namespace_error_text(v),
        },
{
    match sanitize_namespace(raw) {
        Ok(s) => Ok(s),
        Err(v) => Err(ApiError::bad_request(String::from_str(v.message()))),
    }
}

/// The answer listing namespaces.
#[derive(Debug)]
pub struct NamespaceList {
    pub namespaces: Vec<String>,
    pub count: usize,
}

impl NamespaceList {
    /// The names of the namespaces, in order, and how many there are.
    pub fn from_namespaces(namespaces: Vec<Namespace>) -> (l: NamespaceList)
        ensures
            texts(l.namespaces@) == namespaces@.map_values(|n: Namespace| n.id@),
            l.count == namespaces@.len(),
    {
        let ghost all = namespaces@;
        let count = namespaces.len();
        let mut names: Vec<String> = Vec::new();
        for n in it: namespaces.into_iter()
            invariant
                it.seq() == all,
                texts(names@) == all.take(it.index() as int).map_values(|n: Namespace| n.id@),
        {
            let ghost j = it.index();
            let ghost pre = texts(names@);
            let ghost idv = n.id@;
            names.push(n.id);
            proof {
                assert(texts(names@) =~= pre.push(idv));
                assert(all.take(j + 1).map_values(|n: Namespace| n.id@) =~= all.take(j as int).map_values(
                    |n: Namespace| n.id@,
                ).push(idv));
            }
        }
        proof {
            assert(all.take(all.len() as int) =~= all);
        }
        NamespaceList { namespaces: names, count }
    }
}

/// The client's view of a namespace's metadata; log file keys, deleted files
/// and index file keys stay inside.
#[derive(Debug)]
pub struct MetadataResponse {
    pub namespace: String,
    pub approx_row_count: u64,
    pub vector_dimensions: Option<usize>,
    pub distance_metric: DistanceMetric,
    pub index_status: IndexStatus,
    pub indexed_row_count: u64,
    pub pending_wal_files: usize,
    pub unindexed_bytes: u64,
    pub created_at: i64,
    pub updated_at: i64,
}

impl MetadataResponse {
    /// The view of the metadata of a namespace.
    pub fn new(namespace: String, metadata: &Metadata) -> (r: MetadataResponse)
        ensures
            r.namespace == namespace,
            r.approx_row_count == metadata.approx_row_count,
            r.vector_dimensions == metadata.vector_dimensions,
            r.distance_metric == metadata.distance_metric,
            r.index_status == metadata.index.status,
            r.indexed_row_count == metadata.index.indexed_row_count,
            r.pending_wal_files == metadata.wal_files@.len(),
            r.unindexed_bytes == metadata.unindexed_bytes,
            r.created_at == metadata.created_at,
            r.updated_at == metadata.updated_at,
    {
        MetadataResponse {
            namespace,
            approx_row_count: metadata.approx_row_count,
            vector_dimensions: metadata.vector_dimensions,
            distance_metric: metadata.distance_metric,
            index_status: metadata.index.status,
            indexed_row_count: metadata.index.indexed_row_count,
            pending_wal_files: metadata.wal_files.len(),
            unindexed_bytes: metadata.unindexed_bytes,
            created_at: metadata.created_at,
            updated_at: metadata.updated_at,
        }
    }
}

/// The query string of a compaction request; without `force` it is an
/// ordinary compaction.
#[derive(Debug)]
pub struct CompactionParams {
    pub force: bool,
}

impl Default for CompactionParams {
    fn default() -> (p: CompactionParams)
        ensures
            !p.force,
    {
        CompactionParams { force: false }
    }
}

/// The answer to a queued compaction (202): queued, not yet done.
#[derive(Debug)]
pub struct CompactionQueued {
    pub namespace: String,
    pub forced: bool,
}

/// Queues a compaction of a namespace from a request: the namespace is
/// validated, and the request is forced exactly when `force` is set.
pub fn queue_compaction(raw: &str, params: &CompactionParams) -> (r: Result<
    (CompactionRequest, CompactionQueued),
    ApiError,
>)
    ensures
        match namespace_violation(raw.spec_bytes()) {
            None => r matches Ok((req, q)) && req.namespace@ == raw@ && req.forced == params.force && q.namespace@
                == raw@ && q.forced == params.force,
            Some(v) => r matches Err(e) && e.status == 400 && e.message@ == namespace_error_text(v),
        },
{
    let namespace = match validated_namespace(raw) {
        Ok(n) => n,
        Err(e) => return Err(e),
    };
    let req = if params.force {
        trigger_forced_compaction(namespace.as_str())
    } else {
        trigger_compaction(namespace.as_str())
    };
    Ok((req, CompactionQueued { namespace, forced: params.force }))
}

/// A document id as requests send it: a JSON string or an unsigned integer.
#[derive(Debug)]
pub enum DocumentIdInput {
    String(String),
    Number(u64),
}

/// The id that a request's id stands for.
pub open spec fn input_id(i: DocumentIdInput) -> DocId {
    match i {
        DocumentIdInput::String(s) => (encode_utf8(s@), IdType::String),
        DocumentIdInput::Number(n) => (le_bytes(n), IdType::U64),
    }
}

impl DocumentIdInput {
    /// The document id: a string id for a string, an integer id for a number.
    pub fn into_document_id(self) -> (id: DocumentId)
        ensures
            id@ == input_id(self),
    {
        match self {
            DocumentIdInput::String(s) => DocumentId::from_string(s),
            DocumentIdInput::Number(n) => DocumentId::from_u64(n),
        }
    }
}

/// The answer to an upsert: how many rows were written.
#[derive(Debug)]
pub struct UpsertResponse {
    pub upserted: usize,
}

/// The record deletes the document at the time.
pub open spec fn deletes(r: WalRecord, id: DocId, ts: i64) -> bool {
    match r {
        WalRecord::Delete { id: x, timestamp: t } => x@ == id && t == ts,
        _ => false,
    }
}

/// The body of a delete request.
#[derive(Debug)]
pub struct DeleteRequest {
    pub ids: Vec<DocumentIdInput>,
}

impl DeleteRequest {
    /// One deletion record per id, in order, all stamped with `timestamp`.
    pub fn into_records(self, timestamp: i64) -> (r: Vec<WalRecord>)
        ensures
            r@.len() == self.ids@.len(),
            forall|i: int|
                0 <= i < r@.len() ==> deletes(#[trigger] r@[i], input_id(self.ids@[i]), timestamp),
    {
        let ghost all = self.ids@;
        let mut out: Vec<WalRecord> = Vec::new();
        for input in it: self.ids.into_iter()
            invariant
                it.seq() == all,
                out@.len() == it.index(),
                forall|i: int|
                    0 <= i < out@.len() ==> deletes(#[trigger] out@[i], input_id(all[i]), timestamp),
        {
            let ghost j = it.index();
            let ghost iv = input_id(input);
            proof {
                assert(all[j as int] == input);
            }
            let id = input.into_document_id();
            let ghost pre = out@;
            out.push(WalRecord::Delete { id, timestamp });
            proof {
                assert forall|i: int| 0 <= i < out@.len() implies deletes(#[trigger] out@[i], input_id(all[i]), timestamp) by {
                    if i < j {
                        assert(out@[i] == pre[i]);
                    }
                }
            }
        }
        out
    }
}

/// The answer to a delete: how many deletion records were written (not how
/// many documents matched).
#[derive(Debug)]
pub struct DeleteResponse {
    pub deleted: usize,
}

/// The answer to a patch: how many patch records were written (not how many
/// documents matched).
#[derive(Debug)]
pub struct PatchResponse {
    pub patched: usize,
}

/// How many results a query returns when it does not say.
pub fn default_top_k() -> (k: usize)
    ensures
        k == 10,
{
    10
}

/// The refusal of a query request, if any: an empty query vector, or a
/// `top_k` outside `1..=max_top_k`.
pub open spec fn query_refusal(vector_len: nat, top_k: nat, max_top_k: nat) -> Option<Seq<char>> {
    if vector_len == 0 {
        Some("query vector cannot be empty"@)
    } else if top_k == 0 || top_k > max_top_k {
        Some("top_k must be between 1 and "@ + decimal(max_top_k))
    } else {
        None
    }
}

/// Checks a query request; a refusal is a 400 answer.
pub fn check_query(vector_len: usize, top_k: usize, max_top_k: usize) -> (r: Result<(), ApiError>)
    ensures
        match query_refusal(vector_len as nat, top_k as nat, max_top_k as nat) {
            None => r is Ok,
            Some(m) => r matches Err(e) && e.status == 400 && e.message@ == m,
        },
{
    if vector_len == 0 {
        return Err(ApiError::bad_request(String::from_str("query vector cannot be empty")));
    }
    if top_k == 0 || top_k > max_top_k {
        let mut m = String::from_str("top_k must be between 1 and ");
        let d = usize_to_decimal(max_top_k);
        m.append(d.as_str());
        return Err(ApiError::bad_request(m));
    }
    Ok(())
}

/// Refuses a write request that carries nothing: `rows cannot be empty` for
/// upserts and patches, `ids cannot be empty` for deletes (400).
pub fn check_not_empty(count: usize, is_delete: bool) -> (r: Result<(), ApiError>)
    ensures
        count > 0 <==> r is Ok,
        count == 0 ==> (r matches Err(e) && e.status == 400 && e.message@ == (if is_delete {
            "ids cannot be empty"@
        } else {
            "rows cannot be empty"@
        })),
{
    if count > 0 {
        Ok(())
    } else if is_delete {
        Err(ApiError::bad_request(String::from_str("ids cannot be empty")))
    } else {
        Err(ApiError::bad_request(String::from_str("rows cannot be empty")))
    }
}

/// A JSON number as the parser reports it: as a signed 64-bit integer when
/// it is one, as an unsigned 64-bit integer when it is one, and the bits of
/// its value as a double when it has one.
#[derive(Debug)]
pub struct JsonNumber {
    pub as_i64: Option<i64>,
    pub as_u64: Option<u64>,
    pub as_f64_bits: Option<u64>,
}

/// A JSON value of a request body, as far as attribute conversion reads it;
/// of an object only its kind matters.
#[derive(Debug)]
pub enum JsonValue {
    Null,
    Bool(bool),
    Number(JsonNumber),
    String(String),
    Array(Vec<JsonValue>),
    Object,
}

/// A number becomes a signed integer when it is one, else an unsigned
/// integer when it is one, else a double (zero when it has none).
pub open spec fn number_attr(n: JsonNumber) -> AttrView {
    match n.as_i64 {
        Some(i) => AttrView::Int(i),
        None => match n.as_u64 {
            Some(u) => AttrView::Uint(u),
            None => AttrView::Float(
                match n.as_f64_bits {
                    Some(b) => b,
                    None => 0,
                },
            ),
        },
    }
}

pub open spec fn is_json_string(j: JsonValue) -> bool {
    j matches JsonValue::String(_)
}

pub open spec fn is_json_bool(j: JsonValue) -> bool {
    j matches JsonValue::Bool(_)
}

pub open spec fn is_json_number(j: JsonValue) -> bool {
    j matches JsonValue::Number(_)
}

pub open spec fn is_json_int(j: JsonValue) -> bool {
    j matches JsonValue::Number(n) && n.as_i64 is Some
}

pub open spec fn string_of(j: JsonValue) -> Seq<char> {
    match j {
        JsonValue::String(s) => s@,
        _ => Seq::empty(),
    }
}

pub open spec fn bool_of(j: JsonValue) -> bool {
    match j {
        JsonValue::Bool(b) => b,
        _ => false,
    }
}

pub open spec fn int_of(j: JsonValue) -> i64 {
    match j {
        JsonValue::Number(n) => match n.as_i64 {
            Some(i) => i,
            None => 0,
        },
        _ => 0,
    }
}

/// The double bits of the numbers that have them, in order.
pub open spec fn float_bits_of(items: Seq<JsonValue>) -> Seq<u64>
    decreases items.len(),
{
    if items.len() == 0 {
        Seq::empty()
    } else {
        let r = float_bits_of(items.drop_last());
        match items.last() {
            JsonValue::Number(n) => match n.as_f64_bits {
                Some(b) => r.push(b),
                None => r,
            },
            _ => r,
        }
    }
}

/// An array becomes a list of one kind, chosen by its first element:
/// strings, booleans, or numbers (integers when all are, else doubles).
/// An empty array is `EmptyArray`; an element of another kind is refused.
pub open spec fn array_attr(items: Seq<JsonValue>) -> Result<AttrView, Seq<char>> {
    if items.len() == 0 {
        Ok(AttrView::EmptyArray)
    } else {
        match items[0] {
            JsonValue::String(_) => if forall|i: int| 0 <= i < items.len() ==> is_json_string(#[trigger] items[i]) {
                Ok(AttrView::StringArray(items.map_values(|j: JsonValue| string_of(j))))
            } else {
                Err("mixed-type arrays are not supported"@)
            },
            JsonValue::Bool(_) => if forall|i: int| 0 <= i < items.len() ==> is_json_bool(#[trigger] items[i]) {
                Ok(AttrView::BoolArray(items.map_values(|j: JsonValue| bool_of(j))))
            } else {
                Err("mixed-type arrays are not supported"@)
            },
            JsonValue::Number(_) => if forall|i: int| 0 <= i < items.len() ==> is_json_number(#[trigger] items[i]) {
                if forall|i: int| 0 <= i < items.len() ==> is_json_int(#[trigger] items[i]) {
                    Ok(AttrView::IntArray(items.map_values(|j: JsonValue| int_of(j))))
                } else {
                    Ok(AttrView::FloatArray(float_bits_of(items)))
                }
            } else {
                Err("mixed-type arrays are not supported"@)
            },
            _ => Err("array elements must be strings, booleans, or numbers"@),
        }
    }
}

/// The attribute value of a JSON value, or why it has none.
pub open spec fn json_attr(v: JsonValue) -> Result<AttrView, Seq<char>> {
    match v {
        JsonValue::String(s) => Ok(AttrView::String(s@)),
        JsonValue::Bool(b) => Ok(AttrView::Bool(b)),
        JsonValue::Null => Ok(AttrView::Null),
        JsonValue::Number(n) => Ok(number_attr(n)),
        JsonValue::Array(items) => array_attr(items@),
        JsonValue::Object => Err("nested objects are not supported"@),
    }
}

fn number_to_attribute(n: &JsonNumber) -> (a: AttributeValue)
    ensures
        attr_view(a) == number_attr(*n),
{
    match n.as_i64 {
        Some(i) => AttributeValue::Int(i),
        None => match n.as_u64 {
            Some(u) => AttributeValue::Uint(u),
            None => AttributeValue::Float(
                match n.as_f64_bits {
                    Some(b) => b,
                    None => 0,
                },
            ),
        },
    }
}

fn mixed_refusal() -> (s: String)
    ensures
        s@ == "mixed-type arrays are not supported"@,
{
    String::from_str("mixed-type arrays are not supported")
}

fn string_array(items: Vec<JsonValue>) -> (r: Result<AttributeValue, String>)
    requires
        items@.len() > 0,
        is_json_string(items@[0]),
    ensures
        match r {
            Ok(a) => array_attr(items@) == Ok::<AttrView, Seq<char>>(attr_view(a)),
            Err(e) => array_attr(items@) == Err::<AttrView, Seq<char>>(e@),
        },
{
    let ghost all = items@;
    let mut out: Vec<String> = Vec::new();
    for j in it: items.into_iter()
        invariant
            it.seq() == all,
            all.len() > 0,
            is_json_string(all[0]),
            forall|i: int| 0 <= i < it.index() ==> is_json_string(#[trigger] all[i]),
            texts(out@) == all.take(it.index() as int).map_values(|j: JsonValue| string_of(j)),
    {
        let ghost k = it.index();
        proof {
            assert(all[k as int] == j);
        }
        match j {
            JsonValue::String(s) => {
                let ghost pre = texts(out@);
                let ghost sv = s@;
                out.push(s);
                proof {
                    assert(texts(out@) =~= pre.push(sv));
                    assert(all.take(k + 1).map_values(|j: JsonValue| string_of(j)) =~= all.take(k as int).map_values(
                        |j: JsonValue| string_of(j),
                    ).push(sv));
                }
            },
            _ => {
                proof {
                    assert(!is_json_string(all[k as int]));
                }
                return Err(mixed_refusal());
            },
        }
    }
    proof {
        assert(all.take(all.len() as int) =~= all);
    }
    Ok(AttributeValue::StringArray(out))
}

fn bool_array(items: Vec<JsonValue>) -> (r: Result<AttributeValue, String>)
    requires
        items@.len() > 0,
        is_json_bool(items@[0]),
    ensures
        match r {
            Ok(a) => array_attr(items@) == Ok::<AttrView, Seq<char>>(attr_view(a)),
            Err(e) => array_attr(items@) == Err::<AttrView, Seq<char>>(e@),
        },
{
    let ghost all = items@;
    let mut out: Vec<bool> = Vec::new();
    for j in it: items.into_iter()
        invariant
            it.seq() == all,
            all.len() > 0,
            is_json_bool(all[0]),
            forall|i: int| 0 <= i < it.index() ==> is_json_bool(#[trigger] all[i]),
            out@ == all.take(it.index() as int).map_values(|j: JsonValue| bool_of(j)),
    {
        let ghost k = it.index();
        proof {
            assert(all[k as int] == j);
        }
        match j {
            JsonValue::Bool(b) => {
                out.push(b);
                proof {
                    assert(all.take(k + 1).map_values(|j: JsonValue| bool_of(j)) =~= all.take(k as int).map_values(
                        |j: JsonValue| bool_of(j),
                    ).push(b));
                }
            },
            _ => {
                proof {
                    assert(!is_json_bool(all[k as int]));
                }
                return Err(mixed_refusal());
            },
        }
    }
    proof {
        assert(all.take(all.len() as int) =~= all);
    }
    Ok(AttributeValue::BoolArray(out))
}

fn number_array(items: Vec<JsonValue>) -> (r: Result<AttributeValue, String>)
    requires
        items@.len() > 0,
        is_json_number(items@[0]),
    ensures
        match r {
            Ok(a) => array_attr(items@) == Ok::<AttrView, Seq<char>>(attr_view(a)),
            Err(e) => array_attr(items@) == Err::<AttrView, Seq<char>>(e@),
        },
{
    let ghost all = items@;
    let n = items.len();
    let mut i: usize = 0;
    let mut all_ints = true;
    while i < n
        invariant
            n == all.len(),
            all == items@,
            n > 0,
            is_json_number(all[0]),
            i <= n,
            forall|k: int| 0 <= k < i ==> is_json_number(#[trigger] all[k]),
            all_ints == forall|k: int| 0 <= k < i ==> is_json_int(#[trigger] all[k]),
        decreases n - i,
    {
        match &items[i] {
            JsonValue::Number(num) => {
                if num.as_i64.is_none() {
                    all_ints = false;
                }
            },
            _ => {
                proof {
                    assert(!is_json_number(all[i as int]));
                }
                return Err(mixed_refusal());
            },
        }
        proof {
            assert(all[i as int] == items@[i as int]);
        }
        i = i + 1;
    }
    if all_ints {
        let mut out: Vec<i64> = Vec::new();
        for j in it: items.into_iter()
            invariant
                it.seq() == all,
                forall|k: int| 0 <= k < all.len() ==> is_json_int(#[trigger] all[k]),
                out@ == all.take(it.index() as int).map_values(|j: JsonValue| int_of(j)),
        {
            let ghost k = it.index();
            proof {
                assert(all[k as int] == j);
                assert(is_json_int(all[k as int]));
            }
            let v: i64 = match j {
                JsonValue::Number(num) => match num.as_i64 {
                    Some(x) => x,
                    None => 0,
                },
                _ => 0,
            };
            out.push(v);
            proof {
                assert(all.take(k + 1).map_values(|j: JsonValue| int_of(j)) =~= all.take(k as int).map_values(
                    |j: JsonValue| int_of(j),
                ).push(v));
            }
        }
        proof {
            assert(all.take(all.len() as int) =~= all);
        }
        Ok(AttributeValue::IntArray(out))
    } else {
        let mut out: Vec<u64> = Vec::new();
        for j in it: items.into_iter()
            invariant
                it.seq() == all,
                out@ == float_bits_of(all.take(it.index() as int)),
        {
            let ghost k = it.index();
            proof {
                assert(all[k as int] == j);
                assert(all.take(k + 1).drop_last() =~= all.take(k as int));
                assert(all.take(k + 1).last() == j);
            }
            match j {
                JsonValue::Number(num) => match num.as_f64_bits {
                    Some(b) => out.push(b),
                    None => {},
                },
                _ => {},
            }
        }
        proof {
            assert(all.take(all.len() as int) =~= all);
        }
        Ok(AttributeValue::FloatArray(out))
    }
}

/// Converts an array into a list attribute (see `array_attr`).
fn array_to_attribute(items: Vec<JsonValue>) -> (r: Result<AttributeValue, String>)
    ensures
        match r {
            Ok(a) => array_attr(items@) == Ok::<AttrView, Seq<char>>(attr_view(a)),
            Err(e) => array_attr(items@) == Err::<AttrView, Seq<char>>(e@),
        },
{
    if items.len() == 0 {
        return Ok(AttributeValue::EmptyArray);
    }
    let kind: u8 = match &items[0] {
        JsonValue::String(_) => 0,
        JsonValue::Bool(_) => 1,
        JsonValue::Number(_) => 2,
        _ => 3,
    };
    if kind == 0 {
        string_array(items)
    } else if kind == 1 {
        bool_array(items)
    } else if kind == 2 {
        number_array(items)
    } else {
        Err(String::from_str("array elements must be strings, booleans, or numbers"))
    }
}

/// Converts a JSON value into an attribute value (see `json_attr`).
pub fn json_to_attribute(value: JsonValue) -> (r: Result<AttributeValue, String>)
    ensures
        match r {
            Ok(a) => json_attr(value) == Ok::<AttrView, Seq<char>>(attr_view(a)),
            Err(e) => json_attr(value) == Err::<AttrView, Seq<char>>(e@),
        },
{
    match value {
        JsonValue::String(s) => Ok(AttributeValue::String(s)),
        JsonValue::Bool(b) => Ok(AttributeValue::Bool(b)),
        JsonValue::Null => Ok(AttributeValue::Null),
        JsonValue::Number(n) => Ok(number_to_attribute(&n)),
        JsonValue::Array(items) => array_to_attribute(items),
        JsonValue::Object => Err(String::from_str("nested objects are not supported")),
    }
}

/// The message of a refused attribute.
pub open spec fn refusal_text(k: Seq<char>, e: Seq<char>) -> Seq<char> {
    "invalid value for attribute '"@ + k + "': "@ + e
}

/// The refusal of the first attribute, in order, that has no value.
pub open spec fn first_refusal(pairs: Seq<(String, JsonValue)>) -> Option<Seq<char>>
    decreases pairs.len(),
{
    if pairs.len() == 0 {
        None
    } else {
        match json_attr(pairs[0].1) {
            Err(e) => Some(refusal_text(pairs[0].0@, e)),
            Ok(_) => first_refusal(pairs.drop_first()),
        }
    }
}

/// The attributes hold exactly the names of the pairs, each with the value
/// of its last pair.
pub open spec fn converted_from(pairs: Seq<(String, JsonValue)>, m: Map<Seq<char>, AttributeValue>) -> bool {
    &&& forall|k: Seq<char>| #[trigger] m.contains_key(k) <==> exists|i: int| 0 <= i < pairs.len() && (#[trigger] pairs[i]).0@ == k
    &&& forall|i: int|
        0 <= i < pairs.len() && (forall|j: int| i < j < pairs.len() ==> (#[trigger] pairs[j]).0@ != pairs[i].0@)
            ==> json_attr((#[trigger] pairs[i]).1) == Ok::<AttrView, Seq<char>>(attr_view(m[pairs[i].0@]))
}

/// Converts request attributes into row attributes; the first attribute
/// without a value refuses the whole conversion, naming the attribute.
pub fn convert_attributes(pairs: Vec<(String, JsonValue)>) -> (r: Result<Attributes, String>)
    ensures
        match first_refusal(pairs@) {
            Some(m) => r matches Err(e) && e@ == m,
            None => r matches Ok(a) && converted_from(pairs@, a@),
        },
{
    let ghost all = pairs@;
    let mut a = Attributes::new();
    proof {
        assert(all.skip(0) =~= all);
        assert(converted_from(all.take(0), a@));
    }
    for p in it: pairs.into_iter()
        invariant
            it.seq() == all,
            first_refusal(all) == first_refusal(all.skip(it.index() as int)),
            converted_from(all.take(it.index() as int), a@),
    {
        let ghost k = it.index();
        let ghost pre = a@;
        proof {
            assert(all[k as int] == p);
            assert(all.skip(k as int)[0] == p);
            assert(all.skip(k as int).drop_first() =~= all.skip(k + 1));
        }
        let (name, value) = p;
        let ghost nv = name@;
        let ghost jv = value;
        match json_to_attribute(value) {
            Err(e) => {
                let mut m = String::from_str("invalid value for attribute '");
                m.append(name.as_str());
                m.append("': ");
                m.append(e.as_str());
                return Err(m);
            },
            Ok(v) => {
                a.insert(name, v);
                proof {
                    let t = all.take(k + 1);
                    let t0 = all.take(k as int);
                    assert(t =~= t0.push((all[k as int].0, jv)));
                    assert forall|x: Seq<char>| #[trigger] a@.contains_key(x) <==> exists|i: int|
                        0 <= i < t.len() && (#[trigger] t[i]).0@ == x by {
                        if a@.contains_key(x) && x != nv {
                            assert(pre.contains_key(x));
                            let i = choose|i: int| 0 <= i < t0.len() && (#[trigger] t0[i]).0@ == x;
                            assert(t[i] == t0[i]);
                        }
                        if x == nv {
                            assert(t[k as int].0@ == x);
                        }
                        if exists|i: int| 0 <= i < t.len() && (#[trigger] t[i]).0@ == x {
                            let i = choose|i: int| 0 <= i < t.len() && (#[trigger] t[i]).0@ == x;
                            if i < k {
                                assert(t0[i] == t[i]);
                                assert(pre.contains_key(x));
                            }
                        }
                    }
                    assert forall|i: int|
                        0 <= i < t.len() && (forall|j: int| i < j < t.len() ==> (#[trigger] t[j]).0@ != t[i].0@)
                            implies json_attr((#[trigger] t[i]).1) == Ok::<AttrView, Seq<char>>(
                        attr_view(a@[t[i].0@]),
                    ) by {
                        if i < k {
                            assert(t[i] == t0[i]);
                            assert(t[k as int].0@ != t[i].0@);
                            assert forall|j: int| i < j < t0.len() implies (#[trigger] t0[j]).0@ != t0[i].0@ by {
                                assert(t[j] == t0[j]);
                            }
                        }
                    }
                }
            },
        }
    }
    proof {
        assert(all.take(all.len() as int) =~= all);
        assert(all.skip(all.len() as int) =~= Seq::<(String, JsonValue)>::empty());
    }
    Ok(a)
}

/// A row of an upsert request; the vector is given as the bits of its
/// single-precision components.
#[derive(Debug)]
pub struct UpsertRow {
    pub id: DocumentIdInput,
    pub vector: Vec<u32>,
    pub attributes: Vec<(String, JsonValue)>,
}

impl UpsertRow {
    /// The row to write, stamped with `timestamp`; refused when an attribute
    /// value has an unsupported shape.
    pub fn into_row(self, timestamp: i64) -> (r: Result<Row, String>)
        ensures
            match first_refusal(self.attributes@) {
                Some(m) => r matches Err(e) && e@ == m,
                None => r matches Ok(row) && row.id@ == input_id(self.id) && row.vector@ == self.vector@
                    && row.timestamp == timestamp && converted_from(self.attributes@, row.attributes@),
            },
    {
        let UpsertRow { id, vector, attributes } = self;
        let attributes = match convert_attributes(attributes) {
            Ok(a) => a,
            Err(e) => return Err(e),
        };
        Ok(Row::new(id.into_document_id(), vector, attributes, timestamp))
    }
}

/// A row of a patch request.
#[derive(Debug)]
pub struct PatchRow {
    pub id: DocumentIdInput,
    pub attributes: Vec<(String, JsonValue)>,
}

impl PatchRow {
    /// The patch record to write, stamped with `timestamp`; refused when an
    /// attribute value has an unsupported shape.
    pub fn into_record(self, timestamp: i64) -> (r: Result<WalRecord, String>)
        ensures
            match first_refusal(self.attributes@) {
                Some(m) => r matches Err(e) && e@ == m,
                None => r matches Ok(WalRecord::Patch { id, timestamp: t, attributes }) && id@ == input_id(self.id)
                    && t == timestamp && converted_from(self.attributes@, attributes@),
            },
    {
        let PatchRow { id, attributes } = self;
        let attributes = match convert_attributes(attributes) {
            Ok(a) => a,
            Err(e) => return Err(e),
        };
        Ok(WalRecord::Patch { id: id.into_document_id(), timestamp, attributes })
    }
}


/// A signed integer written as a JSON number.
pub open spec fn int_number(i: i64) -> JsonNumber {
    JsonNumber { as_i64: Some(i), as_u64: if i >= 0 { Some(i as u64) } else { None }, as_f64_bits: None }
}

/// An unsigned integer written as a JSON number.
pub open spec fn uint_number(u: u64) -> JsonNumber {
    JsonNumber { as_i64: if u <= i64::MAX { Some(u as i64) } else { None }, as_u64: Some(u), as_f64_bits: None }
}

/// A double (by its bits) written as a JSON number.
pub open spec fn float_number(b: u64) -> JsonNumber {
    JsonNumber { as_i64: None, as_u64: None, as_f64_bits: Some(b) }
}

/// The JSON value is a string with this text.
pub open spec fn json_text_is(j: JsonValue, t: Seq<char>) -> bool {
    j matches JsonValue::String(s) && s@ == t
}

/// The JSON value is this number.
pub open spec fn json_number_is(j: JsonValue, n: JsonNumber) -> bool {
    j matches JsonValue::Number(m) && m == n
}

/// `j` is how an attribute value is written in a response: strings and
/// UUIDs (hyphenated) as strings, integers and times as integers, doubles
/// by their bits, booleans and null as themselves, lists as arrays of their
/// elements so written.
pub open spec fn json_of_attr(a: AttributeValue, j: JsonValue) -> bool {
    match a {
        AttributeValue::String(s) => json_text_is(j, s@),
        AttributeValue::Int(i) => json_number_is(j, int_number(i)),
        AttributeValue::Uint(u) => json_number_is(j, uint_number(u)),
        AttributeValue::Float(b) => json_number_is(j, float_number(b)),
        AttributeValue::Bool(b) => j == JsonValue::Bool(b),
        AttributeValue::Uuid(u) => json_text_is(j, uuid_text(uuid_bytes(u))),
        AttributeValue::DateTime(t) => json_number_is(j, int_number(t)),
        AttributeValue::Null => j is Null,
        AttributeValue::EmptyArray => j matches JsonValue::Array(items) && items@.len() == 0,
        AttributeValue::StringArray(v) => j matches JsonValue::Array(items) && items@.len() == v@.len() && forall|k: int|
            0 <= k < v@.len() ==> json_text_is(#[trigger] items@[k], v@[k]@),
        AttributeValue::IntArray(v) => j matches JsonValue::Array(items) && items@.len() == v@.len() && forall|k: int|
            0 <= k < v@.len() ==> json_number_is(#[trigger] items@[k], int_number(v@[k])),
        AttributeValue::UintArray(v) => j matches JsonValue::Array(items) && items@.len() == v@.len() && forall|k: int|
            0 <= k < v@.len() ==> json_number_is(#[trigger] items@[k], uint_number(v@[k])),
        AttributeValue::FloatArray(v) => j matches JsonValue::Array(items) && items@.len() == v@.len() && forall|k: int|
            0 <= k < v@.len() ==> json_number_is(#[trigger] items@[k], float_number(v@[k])),
        AttributeValue::BoolArray(v) => j matches JsonValue::Array(items) && items@.len() == v@.len() && forall|k: int|
            0 <= k < v@.len() ==> #[trigger] items@[k] == JsonValue::Bool(v@[k]),
        AttributeValue::UuidArray(v) => j matches JsonValue::Array(items) && items@.len() == v@.len() && forall|k: int|
            0 <= k < v@.len() ==> json_text_is(#[trigger] items@[k], uuid_text(uuid_bytes(v@[k]))),
        AttributeValue::DateTimeArray(v) => j matches JsonValue::Array(items) && items@.len() == v@.len()
            && forall|k: int| 0 <= k < v@.len() ==> json_number_is(#[trigger] items@[k], int_number(v@[k])),
    }
}

fn int_json(i: i64) -> (n: JsonNumber)
    ensures
        n == int_number(i),
{
    JsonNumber { as_i64: Some(i), as_u64: if i >= 0 { Some(i as u64) } else { None }, as_f64_bits: None }
}

fn uint_json(u: u64) -> (n: JsonNumber)
    ensures
        n == uint_number(u),
{
    JsonNumber {
        as_i64: if u <= i64::MAX as u64 { Some(u as i64) } else { None },
        as_u64: Some(u),
        as_f64_bits: None,
    }
}

/// Strings as JSON strings.
fn strings_json(v: &Vec<String>) -> (items: Vec<JsonValue>)
    ensures
        items@.len() == v@.len(),
        forall|k: int| 0 <= k < v@.len() ==> json_text_is(#[trigger] items@[k], v@[k]@),
{
    let mut items: Vec<JsonValue> = Vec::new();
    let mut i: usize = 0;
    while i < v.len()
        invariant
            i <= v@.len(),
            items@.len() == i,
            forall|k: int| 0 <= k < i ==> json_text_is(#[trigger] items@[k], v@[k]@),
        decreases v@.len() - i,
    {
        items.push(JsonValue::String(v[i].clone()));
        i = i + 1;
    }
    items
}

/// Signed integers as JSON numbers.
fn ints_json(v: &Vec<i64>) -> (items: Vec<JsonValue>)
    ensures
        items@.len() == v@.len(),
        forall|k: int| 0 <= k < v@.len() ==> json_number_is(#[trigger] items@[k], int_number(v@[k])),
{
    let mut items: Vec<JsonValue> = Vec::new();
    let mut i: usize = 0;
    while i < v.len()
        invariant
            i <= v@.len(),
            items@.len() == i,
            forall|k: int| 0 <= k < i ==> json_number_is(#[trigger] items@[k], int_number(v@[k])),
        decreases v@.len() - i,
    {
        items.push(JsonValue::Number(int_json(v[i])));
        i = i + 1;
    }
    items
}

/// Unsigned integers as JSON numbers.
fn uints_json(v: &Vec<u64>) -> (items: Vec<JsonValue>)
    ensures
        items@.len() == v@.len(),
        forall|k: int| 0 <= k < v@.len() ==> json_number_is(#[trigger] items@[k], uint_number(v@[k])),
{
    let mut items: Vec<JsonValue> = Vec::new();
    let mut i: usize = 0;
    while i < v.len()
        invariant
            i <= v@.len(),
            items@.len() == i,
            forall|k: int| 0 <= k < i ==> json_number_is(#[trigger] items@[k], uint_number(v@[k])),
        decreases v@.len() - i,
    {
        items.push(JsonValue::Number(uint_json(v[i])));
        i = i + 1;
    }
    items
}

/// Doubles (by their bits) as JSON numbers.
fn floats_json(v: &Vec<u64>) -> (items: Vec<JsonValue>)
    ensures
        items@.len() == v@.len(),
        forall|k: int| 0 <= k < v@.len() ==> json_number_is(#[trigger] items@[k], float_number(v@[k])),
{
    let mut items: Vec<JsonValue> = Vec::new();
    let mut i: usize = 0;
    while i < v.len()
        invariant
            i <= v@.len(),
            items@.len() == i,
            forall|k: int| 0 <= k < i ==> json_number_is(#[trigger] items@[k], float_number(v@[k])),
        decreases v@.len() - i,
    {
        items.push(JsonValue::Number(JsonNumber { as_i64: None, as_u64: None, as_f64_bits: Some(v[i]) }));
        i = i + 1;
    }
    items
}

/// Booleans as JSON booleans.
fn bools_json(v: &Vec<bool>) -> (items: Vec<JsonValue>)
    ensures
        items@.len() == v@.len(),
        forall|k: int| 0 <= k < v@.len() ==> #[trigger] items@[k] == JsonValue::Bool(v@[k]),
{
    let mut items: Vec<JsonValue> = Vec::new();
    let mut i: usize = 0;
    while i < v.len()
        invariant
            i <= v@.len(),
            items@.len() == i,
            forall|k: int| 0 <= k < i ==> #[trigger] items@[k] == JsonValue::Bool(v@[k]),
        decreases v@.len() - i,
    {
        items.push(JsonValue::Bool(v[i]));
        i = i + 1;
    }
    items
}

/// UUIDs as their hyphenated text.
fn uuids_json(v: &Vec<u128>) -> (items: Vec<JsonValue>)
    ensures
        items@.len() == v@.len(),
        forall|k: int| 0 <= k < v@.len() ==> json_text_is(#[trigger] items@[k], uuid_text(uuid_bytes(v@[k]))),
{
    let mut items: Vec<JsonValue> = Vec::new();
    let mut i: usize = 0;
    while i < v.len()
        invariant
            i <= v@.len(),
            items@.len() == i,
            forall|k: int| 0 <= k < i ==> json_text_is(#[trigger] items@[k], uuid_text(uuid_bytes(v@[k]))),
        decreases v@.len() - i,
    {
        items.push(JsonValue::String(uuid_value_text(v[i])));
        i = i + 1;
    }
    items
}

/// How an attribute value is written in a response (see `json_of_attr`).
pub fn attribute_to_json(value: &AttributeValue) -> (j: JsonValue)
    ensures
        json_of_attr(*value, j),
{
    match value {
        AttributeValue::String(s) => JsonValue::String(s.clone()),
        AttributeValue::Int(i) => JsonValue::Number(int_json(*i)),
        AttributeValue::Uint(u) => JsonValue::Number(uint_json(*u)),
        AttributeValue::Float(b) => JsonValue::Number(JsonNumber { as_i64: None, as_u64: None, as_f64_bits: Some(*b) }),
        AttributeValue::Bool(b) => JsonValue::Bool(*b),
        AttributeValue::Uuid(u) => JsonValue::String(uuid_value_text(*u)),
        AttributeValue::DateTime(t) => JsonValue::Number(int_json(*t)),
        AttributeValue::Null => JsonValue::Null,
        AttributeValue::EmptyArray => JsonValue::Array(Vec::new()),
        AttributeValue::StringArray(v) => JsonValue::Array(strings_json(v)),
        AttributeValue::IntArray(v) => JsonValue::Array(ints_json(v)),
        AttributeValue::UintArray(v) => JsonValue::Array(uints_json(v)),
        AttributeValue::FloatArray(v) => JsonValue::Array(floats_json(v)),
        AttributeValue::BoolArray(v) => JsonValue::Array(bools_json(v)),
        AttributeValue::UuidArray(v) => JsonValue::Array(uuids_json(v)),
        AttributeValue::DateTimeArray(v) => JsonValue::Array(ints_json(v)),
    }
}

/// The attribute values that come back unchanged from their JSON form:
/// strings, signed integers, booleans, null, the empty list, and non-empty
/// lists of strings, signed integers or booleans. (Unsigned integers that
/// fit a signed one come back signed, times come back as integers, UUIDs
/// as strings, and doubles are outside the library.)
pub open spec fn survives_json(a: AttributeValue) -> bool {
    match a {
        AttributeValue::String(_) | AttributeValue::Int(_) | AttributeValue::Bool(_) | AttributeValue::Null
        | AttributeValue::EmptyArray => true,
        AttributeValue::StringArray(v) => v@.len() > 0,
        AttributeValue::IntArray(v) => v@.len() > 0,
        AttributeValue::BoolArray(v) => v@.len() > 0,
        _ => false,
    }
}

/// Writing an attribute value as JSON and reading it back gives the value
/// again, for the values that `survives_json` names.
pub proof fn json_round_trip(a: AttributeValue, j: JsonValue)
    requires
        json_of_attr(a, j),
        survives_json(a),
    ensures
        json_attr(j) == Ok::<AttrView, Seq<char>>(attr_view(a)),
{
    match a {
        AttributeValue::StringArray(v) => {
            let items = j->Array_0@;
            assert forall|i: int| 0 <= i < items.len() implies is_json_string(#[trigger] items[i]) by {
                assert(json_text_is(items[i], v@[i]@));
            }
            assert(json_text_is(items[0], v@[0]@));
            let mapped = items.map_values(|x: JsonValue| string_of(x));
            assert forall|i: int| 0 <= i < items.len() implies #[trigger] mapped[i] == texts(v@)[i] by {
                assert(json_text_is(items[i], v@[i]@));
            }
            assert(mapped =~= texts(v@));
        },
        AttributeValue::IntArray(v) => {
            let items = j->Array_0@;
            assert forall|i: int| 0 <= i < items.len() implies is_json_number(#[trigger] items[i]) && is_json_int(items[i]) by {
                assert(json_number_is(items[i], int_number(v@[i])));
            }
            assert(json_number_is(items[0], int_number(v@[0])));
            let mapped = items.map_values(|x: JsonValue| int_of(x));
            assert forall|i: int| 0 <= i < items.len() implies #[trigger] mapped[i] == v@[i] by {
                assert(json_number_is(items[i], int_number(v@[i])));
            }
            assert(mapped =~= v@);
        },
        AttributeValue::BoolArray(v) => {
            let items = j->Array_0@;
            assert forall|i: int| 0 <= i < items.len() implies is_json_bool(#[trigger] items[i]) by {
                assert(items[i] == JsonValue::Bool(v@[i]));
            }
            assert(items[0] == JsonValue::Bool(v@[0]));
            let mapped = items.map_values(|x: JsonValue| bool_of(x));
            assert forall|i: int| 0 <= i < items.len() implies #[trigger] mapped[i] == v@[i] by {
                assert(items[i] == JsonValue::Bool(v@[i]));
            }
            assert(mapped =~= v@);
        },
        _ => {},
    }
}

} // verus!
