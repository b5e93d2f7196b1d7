//! Batching of log writes: writes to a namespace gather in a batch until it
//! holds enough requests, enough bytes, or has waited long enough; then the
//! whole batch becomes one log file. The timer, the upload and the replies
//! to the writers run outside; the library decides what gathers and what is
//! flushed. Times are milliseconds of a monotonic clock.
use vstd::prelude::*;
use vstd::string::StringExecFns;
use crate::config::BatchingConfig;
use crate::engine::{records_view, RecordView, WalRecord};
use crate::keyed::{has_key, keys_unique, lemma_map_all, lemma_map_at, lemma_map_empty, lemma_map_push, lemma_map_update, seq_to_map};

verus! {

/// When a batch is flushed.
#[derive(Debug, Clone, Copy)]
pub struct BatchConfig {
    pub max_batch_size: usize,
    pub max_batch_time_ms: u64,
    pub max_batch_bytes: usize,
}

impl BatchConfig {
    /// The batching settings of the configuration.
    pub fn from_system_config(c: &BatchingConfig) -> (b: BatchConfig)
        ensures
            b.max_batch_size == c.max_batch_size,
            b.max_batch_time_ms == c.max_batch_time_ms,
            b.max_batch_bytes == c.max_batch_bytes,
    {
        BatchConfig {
            max_batch_size: c.max_batch_size,
            max_batch_time_ms: c.max_batch_time_ms,
            max_batch_bytes: c.max_batch_bytes,
        }
    }

    /// How often waiting batches are checked: a tenth of the batch time.
    pub fn check_interval_ms(&self) -> (ms: u64)
        ensures
            ms == self.max_batch_time_ms / 10,
    {
        self.max_batch_time_ms / 10
    }

    /// The settings used at shutdown: every waiting batch is due at once.
    pub fn for_shutdown(&self) -> (b: BatchConfig)
        ensures
            b == (BatchConfig { max_batch_time_ms: 0, ..*self }),
    {
        BatchConfig { max_batch_time_ms: 0, ..*self }
    }
}

/// The estimated size of a write: a kilobyte per record.
pub fn estimated_size(record_count: usize) -> (s: usize)
    requires
        record_count * 1024 <= usize::MAX,
    ensures
        s == record_count * 1024,
{
    record_count * 1024
}

/// A write waiting in a batch: its records and how to answer its writer.
#[derive(Debug)]
pub struct PendingWrite<T> {
    pub records: Vec<WalRecord>,
    pub reply: T,
}

/// The abstract value of a batch: the waiting writes in submission order,
/// when the batch was started, and the estimated bytes.
pub struct BatchView<T> {
    pub writes: Seq<(Seq<RecordView>, T)>,
    pub created_at_ms: u64,
    pub bytes: nat,
}

/// The writes waiting for one namespace.
#[derive(Debug)]
pub struct WriteBatch<T> {
    requests: Vec<PendingWrite<T>>,
    created_at_ms: u64,
    bytes: usize,
}

pub open spec fn write_views<T>(s: Seq<PendingWrite<T>>) -> Seq<(Seq<RecordView>, T)> {
    s.map_values(|w: PendingWrite<T>| (records_view(w.records@), w.reply))
}

impl<T> View for WriteBatch<T> {
    type V = BatchView<T>;

    closed spec fn view(&self) -> BatchView<T> {
        BatchView { writes: write_views(self.requests@), created_at_ms: self.created_at_ms, bytes: self.bytes as nat }
    }
}

/// An empty batch started at `now`.
pub open spec fn fresh_batch<T>(now_ms: u64) -> BatchView<T> {
    BatchView { writes: Seq::empty(), created_at_ms: now_ms, bytes: 0 }
}

/// How long a batch has waited at `now`; never negative.
pub open spec fn batch_age(b_created: u64, now_ms: u64) -> u64 {
    if now_ms >= b_created {
        (now_ms - b_created) as u64
    } else {
        0
    }
}

/// A batch is due when it holds enough writes, has waited long enough, or
/// holds enough bytes.
pub open spec fn batch_due<T>(b: BatchView<T>, c: BatchConfig, now_ms: u64) -> bool {
    b.writes.len() >= c.max_batch_size || batch_age(b.created_at_ms, now_ms) >= c.max_batch_time_ms || b.bytes
        >= c.max_batch_bytes
}

/// The records of writes, write after write.
pub open spec fn batch_records<T>(ws: Seq<(Seq<RecordView>, T)>) -> Seq<RecordView>
    decreases ws.len(),
{
    if ws.len() == 0 {
        Seq::empty()
    } else {
        batch_records(ws.drop_last()) + ws.last().0
    }
}

impl<T> WriteBatch<T> {
    /// An empty batch started at `now_ms`.
    pub fn new(now_ms: u64) -> (b: WriteBatch<T>)
        ensures
            b@ == fresh_batch::<T>(now_ms),
    {
        let b = WriteBatch { requests: Vec::new(), created_at_ms: now_ms, bytes: 0 };
        assert(write_views(b.requests@) =~= Seq::<(Seq<RecordView>, T)>::empty());
        b
    }

    /// Adds a write with its estimated size.
    pub fn add_request(&mut self, request: PendingWrite<T>, estimated_size: usize)
        requires
            old(self)@.bytes + estimated_size <= usize::MAX,
        ensures
            final(self)@ == (BatchView {
                writes: old(self)@.writes.push((records_view(request.records@), request.reply)),
                bytes: (old(self)@.bytes + estimated_size) as nat,
                ..old(self)@
            }),
    {
        let ghost w = (records_view(request.records@), request.reply);
        let ghost pre = write_views(self.requests@);
        self.bytes = self.bytes + estimated_size;
        self.requests.push(request);
        assert(write_views(self.requests@) =~= pre.push(w));
    }

    /// No write is waiting.
    pub fn is_empty(&self) -> (b: bool)
        ensures
            b == (self@.writes.len() == 0),
    {
        self.requests.len() == 0
    }

    /// How many writes are waiting.
    pub fn len(&self) -> (n: usize)
        ensures
            n == self@.writes.len(),
    {
        self.requests.len()
    }

    /// The estimated bytes waiting.
    pub fn bytes(&self) -> (n: usize)
        ensures
            n == self@.bytes,
    {
        self.bytes
    }

    /// How long the batch has waited at `now_ms`.
    pub fn age_ms(&self, now_ms: u64) -> (a: u64)
        ensures
            a == batch_age(self@.created_at_ms, now_ms),
    {
        if now_ms >= self.created_at_ms {
            now_ms - self.created_at_ms
        } else {
            0
        }
    }

    /// Whether the batch is due at `now_ms`.
    pub fn should_flush(&self, config: &BatchConfig, now_ms: u64) -> (b: bool)
        ensures
            b == batch_due(self@, *config, now_ms),
    {
        self.requests.len() >= config.max_batch_size || self.age_ms(now_ms) >= config.max_batch_time_ms || self.bytes
            >= config.max_batch_bytes
    }

    /// Takes the waiting writes out, leaving an empty batch started at `now_ms`.
    pub fn take(&mut self, now_ms: u64) -> (b: WriteBatch<T>)
        ensures
            b@ == old(self)@,
            final(self)@ == fresh_batch::<T>(now_ms),
    {
        let mut fresh = WriteBatch::new(now_ms);
        std::mem::swap(&mut fresh, self);
        fresh
    }

    /// The records of all waiting writes, write after write, and the replies
    /// of the writes in the same order.
    pub fn into_parts(self) -> (r: (Vec<WalRecord>, Vec<T>))
        ensures
            records_view(r.0@) == batch_records(self@.writes),
            r.1@ == self@.writes.map_values(|w: (Seq<RecordView>, T)| w.1),
    {
        let ghost ws = write_views(self.requests@);
        let ghost all = self.requests@;
        let mut records: Vec<WalRecord> = Vec::new();
        let mut replies: Vec<T> = Vec::new();
        for w in it: self.requests.into_iter()
            invariant
                it.seq() == all,
                ws == write_views(all),
                records_view(records@) == batch_records(ws.take(it.index() as int)),
                replies@ == ws.take(it.index() as int).map_values(|w: (Seq<RecordView>, T)| w.1),
        {
            let ghost k = it.index();
            let ghost wv = (records_view(w.records@), w.reply);
            proof {
                assert(all[k as int] == w);
                assert(ws[k as int] == wv);
                assert(ws.take(k + 1).drop_last() =~= ws.take(k as int));
                assert(ws.take(k + 1).last() == wv);
            }
            let PendingWrite { records: recs, reply } = w;
            let ghost base = records_view(records@);
            let ghost rs = recs@;
            for rec in it2: recs.into_iter()
                invariant
                    it2.seq() == rs,
                    records_view(records@) == base + records_view(rs.take(it2.index() as int)),
            {
                let ghost m = it2.index();
                let ghost pre = records_view(records@);
                records.push(rec);
                proof {
                    assert(rs[m as int] == rec);
                    assert(records_view(records@) =~= pre.push(rec@));
                    assert(records_view(rs.take(m + 1)) =~= records_view(rs.take(m as int)).push(rec@));
                    assert(base + records_view(rs.take(m + 1)) =~= (base + records_view(rs.take(m as int))).push(
                        rec@,
                    ));
                }
            }
            proof {
                assert(rs.take(rs.len() as int) =~= rs);
            }
            replies.push(reply);
            proof {
                assert(ws.take(k + 1).map_values(|w: (Seq<RecordView>, T)| w.1) =~= ws.take(k as int).map_values(
                    |w: (Seq<RecordView>, T)| w.1,
                ).push(wv.1));
            }
        }
        proof {
            assert(ws.take(ws.len() as int) =~= ws);
        }
        (records, replies)
    }
}

/// The answer a writer gets when its batch could not be written.
pub fn batch_failure_message(namespace: &str, error: &str) -> (s: String)
    ensures
        s@ == "Failed to write WAL batch for namespace '"@ + namespace@ + "': "@ + error@,
{
    let mut s = String::from_str("Failed to write WAL batch for namespace '");
    s.append(namespace);
    s.append("': ");
    s.append(error);
    s
}

pub open spec fn batch_pairs<T>(s: Seq<(String, WriteBatch<T>)>) -> Seq<(Seq<char>, BatchView<T>)> {
    s.map_values(|p: (String, WriteBatch<T>)| (p.0@, p.1@))
}

/// A batch holds writes and is due.
pub open spec fn flushable<T>(b: BatchView<T>, c: BatchConfig, now_ms: u64) -> bool {
    b.writes.len() > 0 && batch_due(b, c, now_ms)
}

/// The batches after the due ones were taken at `now_ms`.
pub open spec fn after_flush<T>(m: Map<Seq<char>, BatchView<T>>, c: BatchConfig, now_ms: u64) -> Map<
    Seq<char>,
    BatchView<T>,
> {
    Map::new(
        |k: Seq<char>| m.contains_key(k),
        |k: Seq<char>|
            if flushable(m[k], c, now_ms) {
                fresh_batch::<T>(now_ms)
            } else {
                m[k]
            },
    )
}

/// The batch of a namespace after a write joined it (a new batch started
/// at `now_ms` when the namespace had none).
pub open spec fn joined<T>(
    m: Map<Seq<char>, BatchView<T>>,
    ns: Seq<char>,
    records: Seq<RecordView>,
    reply: T,
    size: nat,
    now_ms: u64,
) -> BatchView<T> {
    let b0 = if m.contains_key(ns) {
        m[ns]
    } else {
        fresh_batch::<T>(now_ms)
    };
    BatchView { writes: b0.writes.push((records, reply)), bytes: b0.bytes + size, ..b0 }
}

/// The waiting batches of all namespaces, one per namespace.
#[derive(Debug)]
pub struct WalBatcher<T> {
    config: BatchConfig,
    batches: Vec<(String, WriteBatch<T>)>,
}

impl<T> WalBatcher<T> {
    /// Namespaces are distinct, and no stored batch holds more bytes than
    /// the limit (a batch that reaches it is flushed at once).
    #[verifier::type_invariant]
    closed spec fn batches_well_kept(self) -> bool {
        &&& keys_unique(batch_pairs(self.batches@))
        &&& forall|i: int| 0 <= i < self.batches@.len() ==> (#[trigger] self.batches@[i]).1@.bytes <= self.config.max_batch_bytes
    }

    /// The settings the batcher was made with.
    pub closed spec fn config(self) -> BatchConfig {
        self.config
    }
}

impl<T> View for WalBatcher<T> {
    type V = Map<Seq<char>, BatchView<T>>;

    closed spec fn view(&self) -> Map<Seq<char>, BatchView<T>> {
        seq_to_map(batch_pairs(self.batches@))
    }
}

fn find_batch<T>(batches: &Vec<(String, WriteBatch<T>)>, namespace: &String) -> (r: Option<usize>)
    ensures
        match r {
            Some(i) => i < batches@.len() && batches@[i as int].0@ == namespace@,
            None => !has_key(batch_pairs(batches@), namespace@),
        },
{
    let n = batches.len();
    let mut i: usize = 0;
    while i < n
        invariant
            n == batches@.len(),
            i <= n,
            forall|j: int| 0 <= j < i ==> batches@[j].0@ != namespace@,
        decreases n - i,
    {
        if batches[i].0 == *namespace {
            return Some(i);
        }
        i = i + 1;
    }
    assert forall|j: int| 0 <= j < batch_pairs(batches@).len() implies #[trigger] batch_pairs(batches@)[j].0
        != namespace@ by {
        assert(batch_pairs(batches@)[j].0 == batches@[j].0@);
    }
    None
}

impl<T> WalBatcher<T> {
    /// A batcher with no waiting writes.
    pub fn new(config: BatchConfig) -> (b: WalBatcher<T>)
        ensures
            b@ == Map::<Seq<char>, BatchView<T>>::empty(),
            b.config() == config,
    {
        let b = WalBatcher { config, batches: Vec::new() };
        proof {
            lemma_map_empty(batch_pairs(b.batches@));
        }
        b
    }

    /// Adds a write to its namespace's batch (started at `now_ms` if there
    /// is none). When the batch is then due, it is taken out whole to be
    /// flushed, and an empty batch started at `now_ms` takes its place.
    pub fn submit_write(&mut self, namespace: &str, records: Vec<WalRecord>, reply: T, now_ms: u64) -> (r: Option<
        WriteBatch<T>,
    >)
        requires
            records@.len() * 1024 + old(self).config().max_batch_bytes <= usize::MAX,
        ensures
            final(self).config() == old(self).config(),
            ({
                let b1 = joined(old(self)@, namespace@, records_view(records@), reply, records@.len() * 1024, now_ms);
                if batch_due(b1, old(self).config(), now_ms) {
                    r matches Some(b) && b@ == b1 && final(self)@ == old(self)@.insert(namespace@, fresh_batch::<T>(now_ms))
                } else {
                    r is None && final(self)@ == old(self)@.insert(namespace@, b1)
                }
            }),
    {
        proof {
            use_type_invariant(&*self);
        }
        let config = self.config;
        let ghost old_pairs = batch_pairs(self.batches@);
        let ghost old_map = seq_to_map(old_pairs);
        let ghost rv = records_view(records@);
        let ghost b1 = joined(old_map, namespace@, rv, reply, records@.len() * 1024, now_ms);
        let mut batches: Vec<(String, WriteBatch<T>)> = Vec::new();
        std::mem::swap(&mut batches, &mut self.batches);
        let key = namespace.to_owned();
        let size = estimated_size(records.len());
        let i: usize = match find_batch(&batches, &key) {
            Some(i) => {
                proof {
                    lemma_map_at(old_pairs, i as int);
                }
                i
            },
            None => {
                let fresh = WriteBatch::new(now_ms);
                let ghost fv = fresh@;
                batches.push((key.clone(), fresh));
                proof {
                    assert(batch_pairs(batches@) =~= old_pairs.push((namespace@, fv)));
                    lemma_map_push(old_pairs, (namespace@, fv));
                }
                batches.len() - 1
            },
        };
        let ghost mid_pairs = batch_pairs(batches@);
        proof {
            lemma_map_at(mid_pairs, i as int);
            assert(batches@[i as int].1@ == if old_map.contains_key(namespace@) { old_map[namespace@] } else { fresh_batch::<T>(now_ms) });
            assert(batches@[i as int].1@.bytes <= config.max_batch_bytes);
        }
        batches[i].1.add_request(PendingWrite { records, reply }, size);
        let due = batches[i].1.should_flush(&config, now_ms);
        let out = if due {
            Some(batches[i].1.take(now_ms))
        } else {
            None
        };
        proof {
            let new_b = batches@[i as int].1@;
            assert(batch_pairs(batches@) =~= mid_pairs.update(i as int, (namespace@, new_b)));
            lemma_map_update(mid_pairs, i as int, (namespace@, new_b));
            assert forall|j: int| 0 <= j < batches@.len() implies (#[trigger] batches@[j]).1@.bytes <= config.max_batch_bytes by {
                if j != i {
                    assert(batch_pairs(batches@)[j] == mid_pairs[j]);
                }
            }
            assert(seq_to_map(mid_pairs).insert(namespace@, new_b) =~= old_map.insert(namespace@, new_b));
        }
        *self = WalBatcher { config, batches };
        out
    }

    /// Takes out every batch that holds writes and is due at `now_ms` under
    /// `config`, with its namespace; an empty batch started at `now_ms` takes
    /// the place of each. The other batches stay as they are.
    pub fn take_due(&mut self, config: &BatchConfig, now_ms: u64) -> (r: Vec<(String, WriteBatch<T>)>)
        ensures
            final(self).config() == old(self).config(),
            final(self)@ == after_flush(old(self)@, *config, now_ms),
            keys_unique(batch_pairs(r@)),
            forall|a: int|
                0 <= a < r@.len() ==> old(self)@.contains_key((#[trigger] r@[a]).0@) && flushable(
                    old(self)@[r@[a].0@],
                    *config,
                    now_ms,
                ) && r@[a].1@ == old(self)@[r@[a].0@],
            forall|k: Seq<char>|
                old(self)@.contains_key(k) && flushable(#[trigger] old(self)@[k], *config, now_ms) ==> has_key(
                    batch_pairs(r@),
                    k,
                ),
    {
        proof {
            use_type_invariant(&*self);
        }
        let own = self.config;
        let ghost old_pairs = batch_pairs(self.batches@);
        let ghost old_map = seq_to_map(old_pairs);
        let mut batches: Vec<(String, WriteBatch<T>)> = Vec::new();
        std::mem::swap(&mut batches, &mut self.batches);
        let mut out: Vec<(String, WriteBatch<T>)> = Vec::new();
        let ghost mut src: Seq<int> = Seq::empty();
        let n = batches.len();
        let mut j: usize = 0;
        while j < n
            invariant
                n == batches@.len(),
                n == old_pairs.len(),
                j <= n,
                keys_unique(old_pairs),
                forall|i: int| 0 <= i < n ==> (#[trigger] batches@[i]).0@ == old_pairs[i].0,
                forall|i: int| 0 <= i < n ==> old_pairs[i].1.bytes <= own.max_batch_bytes,
                forall|i: int|
                    0 <= i < j ==> (#[trigger] batches@[i]).1@ == if flushable(old_pairs[i].1, *config, now_ms) {
                        fresh_batch::<T>(now_ms)
                    } else {
                        old_pairs[i].1
                    },
                forall|i: int| j <= i < n ==> (#[trigger] batches@[i]).1@ == old_pairs[i].1,
                src.len() == out@.len(),
                forall|a: int, b: int| 0 <= a < b < src.len() ==> #[trigger] src[a] < #[trigger] src[b],
                forall|a: int|
                    0 <= a < src.len() ==> 0 <= #[trigger] src[a] < j && flushable(old_pairs[src[a]].1, *config, now_ms)
                        && batch_pairs(out@)[a] == old_pairs[src[a]],
                forall|i: int|
                    0 <= i < j && flushable(#[trigger] old_pairs[i].1, *config, now_ms) ==> exists|a: int|
                        0 <= a < src.len() && src[a] == i,
            decreases n - j,
        {
            let take_it = !batches[j].1.is_empty() && batches[j].1.should_flush(config, now_ms);
            proof {
                assert(batches@[j as int].1@ == old_pairs[j as int].1);
                assert(take_it == flushable(old_pairs[j as int].1, *config, now_ms));
            }
            if take_it {
                let name = batches[j].0.clone();
                let ghost before = batches@;
                let b = batches[j].1.take(now_ms);
                let ghost pre_out = out@;
                out.push((name, b));
                let ghost src0 = src;
                proof {
                    src = src.push(j as int);
                    assert forall|i: int| 0 <= i < n implies (#[trigger] batches@[i]).0@ == old_pairs[i].0 by {
                        if i != j {
                            assert(batches@[i] == before[i]);
                        }
                    }
                    assert forall|a: int| 0 <= a < src.len() implies 0 <= #[trigger] src[a] < j + 1 && flushable(
                        old_pairs[src[a]].1,
                        *config,
                        now_ms,
                    ) && batch_pairs(out@)[a] == old_pairs[src[a]] by {
                        if a < pre_out.len() {
                            assert(out@[a] == pre_out[a]);
                        }
                    }
                    assert forall|i: int| 0 <= i < j + 1 && flushable(#[trigger] old_pairs[i].1, *config, now_ms)
                        implies exists|a: int| 0 <= a < src.len() && src[a] == i by {
                        if i == j {
                            assert(src[src.len() - 1] == i);
                        } else {
                            let a = choose|a: int| 0 <= a < src0.len() && src0[a] == i;
                            assert(src[a] == src0[a]);
                        }
                    }
                    assert forall|i: int| 0 <= i < j + 1 implies (#[trigger] batches@[i]).1@ == if flushable(
                        old_pairs[i].1,
                        *config,
                        now_ms,
                    ) {
                        fresh_batch::<T>(now_ms)
                    } else {
                        old_pairs[i].1
                    } by {
                        if i < j {
                            assert(batches@[i] == before[i]);
                        }
                    }
                    assert forall|i: int| j + 1 <= i < n implies (#[trigger] batches@[i]).1@ == old_pairs[i].1 by {
                        assert(batches@[i] == before[i]);
                    }
                }
            } else {
                proof {
                    assert forall|i: int| 0 <= i < j + 1 && flushable(#[trigger] old_pairs[i].1, *config, now_ms)
                        implies exists|a: int| 0 <= a < src.len() && src[a] == i by {
                    }
                }
            }
            j = j + 1;
        }
        proof {
            let np = batch_pairs(batches@);
            assert forall|a: int, b: int| 0 <= a < np.len() && 0 <= b < np.len() && a != b implies #[trigger] np[a].0
                != #[trigger] np[b].0 by {
                assert(np[a].0 == old_pairs[a].0 && np[b].0 == old_pairs[b].0);
            }
            lemma_map_all(old_pairs);
            lemma_map_all(np);
            assert forall|k: Seq<char>| has_key(np, k) <==> has_key(old_pairs, k) by {
                if has_key(np, k) {
                    let a = choose|a: int| 0 <= a < np.len() && #[trigger] np[a].0 == k;
                    assert(old_pairs[a].0 == k);
                }
                if has_key(old_pairs, k) {
                    let a = choose|a: int| 0 <= a < old_pairs.len() && #[trigger] old_pairs[a].0 == k;
                    assert(np[a].0 == k);
                }
            }
            assert forall|k: Seq<char>| #[trigger] seq_to_map(np).contains_key(k) implies seq_to_map(np)[k]
                == after_flush(old_map, *config, now_ms)[k] by {
                let a = choose|a: int| 0 <= a < np.len() && #[trigger] np[a].0 == k;
                assert(old_pairs[a].0 == k);
                lemma_map_at(old_pairs, a);
            }
            assert(seq_to_map(np) =~= after_flush(old_map, *config, now_ms));
            assert forall|i: int| 0 <= i < batches@.len() implies (#[trigger] batches@[i]).1@.bytes <= own.max_batch_bytes by {
            }
            let op = batch_pairs(out@);
            assert forall|a: int, b: int| 0 <= a < op.len() && 0 <= b < op.len() && a != b implies #[trigger] op[a].0
                != #[trigger] op[b].0 by {
                if a < b {
                    assert(src[a] < src[b]);
                } else {
                    assert(src[b] < src[a]);
                }
            }
            assert forall|a: int| 0 <= a < out@.len() implies old_map.contains_key((#[trigger] out@[a]).0@) && flushable(
                old_map[out@[a].0@],
                *config,
                now_ms,
            ) && out@[a].1@ == old_map[out@[a].0@] by {
                assert(op[a] == old_pairs[src[a]]);
                lemma_map_at(old_pairs, src[a]);
            }
            assert forall|k: Seq<char>| old_map.contains_key(k) && flushable(#[trigger] old_map[k], *config, now_ms)
                implies has_key(op, k) by {
                let i = choose|i: int| 0 <= i < old_pairs.len() && #[trigger] old_pairs[i].0 == k;
                lemma_map_at(old_pairs, i);
                assert(flushable(old_pairs[i].1, *config, now_ms));
                let a = choose|a: int| 0 <= a < src.len() && src[a] == i;
                assert(op[a] == old_pairs[i]);
            }
        }
        *self = WalBatcher { config: own, batches };
        out
    }
}

/// Taking the due batches leaves none that is due at the same moment under
/// the same settings.
pub proof fn nothing_due_after_taking<T>(m: Map<Seq<char>, BatchView<T>>, c: BatchConfig, now_ms: u64, k: Seq<char>)
    requires
        after_flush(m, c, now_ms).contains_key(k),
    ensures
        !flushable(after_flush(m, c, now_ms)[k], c, now_ms),
{
}

/// A write joins its namespace's batch at the end, so a batch hands its
/// writes to the log file in the order they were submitted.
pub proof fn writes_keep_submission_order<T>(
    m: Map<Seq<char>, BatchView<T>>,
    ns: Seq<char>,
    records: Seq<RecordView>,
    reply: T,
    size: nat,
    now_ms: u64,
)
    requires
        m.contains_key(ns),
    ensures
        batch_records(joined(m, ns, records, reply, size, now_ms).writes) == batch_records(m[ns].writes) + records,
{
    let w = joined(m, ns, records, reply, size, now_ms).writes;
    assert(w.drop_last() =~= m[ns].writes);
}

} // verus!
