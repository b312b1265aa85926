//! The browser backend: an in-memory queue that is the source of truth,
//! mirrored on a best-effort basis into a durable key-value store.
//!
//! The store never talks to the durable layer itself. Every write or delete
//! that the durable layer should see is appended to a list of pending
//! operations, which the runtime drains with `take_pending` and carries out
//! without waiting for the result.
use vstd::prelude::*;
use vstd::utf8::encode_utf8;

use crate::event::{identified_by_any, identifies, StoredEvent, Equivalent};
use crate::json::{
    batch_text, decodable_count, decode_record, encode_value, frame_batch, json_string, quote_json,
    texts_of,
};
use crate::DataResult;

verus! {

/// The smallest per-fetch byte budget a store accepts.
pub const MIN_FETCH_SIZE: usize = 100;

/// The number of distinct record keys: keys are `u32` values.
pub const KEY_SPACE: u64 = 4294967296;

/// Configuration of a browser store, fixed at construction.
pub struct WebConfig {
    /// Identifies the writer; stamped into every batch.
    pub write_key: String,
    /// Name of the durable database; different stores use different names.
    pub database_name: String,
    /// Largest number of records kept; older ones are evicted first.
    pub max_items: usize,
    /// Default byte budget of one fetch.
    pub max_fetch_size: usize,
}

impl Clone for WebConfig {
    fn clone(&self) -> (r: Self)
        ensures
            r == *self,
    {
        WebConfig {
            write_key: self.write_key.clone(),
            database_name: self.database_name.clone(),
            max_items: self.max_items,
            max_fetch_size: self.max_fetch_size,
        }
    }
}

/// Why a configuration was rejected.
#[derive(Debug, Clone, Copy, PartialEq, Eq, Structural)]
pub enum ConfigError {
    /// `max_fetch_size` is below `MIN_FETCH_SIZE`.
    FetchSizeTooSmall,
    /// `max_items` is zero.
    NoCapacity,
}

/// Why an append was refused.
#[derive(Debug, Clone, Copy, PartialEq, Eq, Structural)]
pub enum StoreError {
    /// Every record key has been handed out.
    KeysExhausted,
}

/// Whether the durable layer is in use.
#[derive(Debug, Clone, Copy, PartialEq, Eq, Structural)]
pub enum PersistenceState {
    /// The durable layer is open: records survive a restart.
    Persisted,
    /// The durable layer is unavailable: records live in memory only.
    MemoryOnly,
}

/// A write or delete that the durable layer should carry out.
#[derive(Debug)]
pub enum DurableOp {
    /// Store `value` under `key`.
    Write { key: u32, value: String },
    /// Delete the record stored under `key`.
    Delete { key: u32 },
}

/// The records of a fetch, with the writer's key.
#[derive(Debug)]
pub struct Batch {
    /// The JSON texts of the records, oldest first.
    pub batch: Vec<String>,
    /// The configured writer key.
    pub write_key: String,
}

impl Batch {
    /// The batch as a JSON object: the records under `batch`, the time
    /// `sent_at` under `sentAt` and the writer key under `writeKey`.
    pub fn to_json(&self, sent_at: &str) -> (r: String)
        ensures
            r@ == batch_text(
                texts_of(self.batch@),
                json_string(sent_at@),
                json_string(self.write_key@),
            ),
    {
        let sent = match quote_json(sent_at) {
            Ok(t) => t,
            Err(_) => unreached(),
        };
        let key = match quote_json(self.write_key.as_str()) {
            Ok(t) => t,
            Err(_) => unreached(),
        };
        frame_batch(&self.batch, sent.as_str(), key.as_str())
    }
}

/// Whether `config` is accepted by a store.
pub open spec fn config_ok(config: WebConfig) -> bool {
    config.max_items >= 1 && config.max_fetch_size >= MIN_FETCH_SIZE
}

/// The error a configuration is rejected with, checked in this order.
pub open spec fn config_error(config: WebConfig) -> ConfigError {
    if config.max_fetch_size < MIN_FETCH_SIZE {
        ConfigError::FetchSizeTooSmall
    } else {
        ConfigError::NoCapacity
    }
}

/// The deletes that drop the keyed records of `items` from the durable layer,
/// in order.
pub open spec fn deletes_of(items: Seq<StoredEvent>) -> Seq<DurableOp>
    decreases items.len(),
{
    if items.len() == 0 {
        seq![]
    } else {
        let rest = deletes_of(items.drop_last());
        match items.last().idb_key {
            Some(k) => rest.push(DurableOp::Delete { key: k }),
            None => rest,
        }
    }
}

/// What is recorded for the durable layer: everything when it is in use,
/// nothing otherwise.
pub open spec fn recorded(state: PersistenceState, ops: Seq<DurableOp>) -> Seq<DurableOp> {
    if state == PersistenceState::Persisted {
        ops
    } else {
        seq![]
    }
}

/// The newest `max` records of `items`.
pub open spec fn keep_last(items: Seq<StoredEvent>, max: nat) -> Seq<StoredEvent> {
    if items.len() > max {
        items.subrange(items.len() - max, items.len() as int)
    } else {
        items
    }
}

/// The records that `keep_last` drops.
pub open spec fn evicted(items: Seq<StoredEvent>, max: nat) -> Seq<StoredEvent> {
    if items.len() > max {
        items.subrange(0, items.len() - max)
    } else {
        seq![]
    }
}

/// Keys strictly increase along the keyed records of `items`: the order in
/// which the durable layer returns records.
pub open spec fn keys_increasing(items: Seq<StoredEvent>) -> bool {
    forall|i: int, j: int|
        0 <= i < j < items.len() && (#[trigger] items[i]).idb_key is Some
            && (#[trigger] items[j]).idb_key is Some ==> items[i].idb_key->0
            < items[j].idb_key->0
}

/// Every key of `items` lies below `k`.
pub open spec fn keys_below(items: Seq<StoredEvent>, k: nat) -> bool {
    forall|i: int|
        0 <= i < items.len() && (#[trigger] items[i]).idb_key is Some ==> items[i].idb_key->0 < k
}

/// Keys strictly increase along the keyed records of `items`, and all lie
/// below `next`.
pub open spec fn keys_ordered(items: Seq<StoredEvent>, next: nat) -> bool {
    keys_increasing(items) && keys_below(items, next)
}

/// A run of the oldest or newest records keeps its keys below a bound and
/// in increasing order.
proof fn lemma_keys_subrange(s: Seq<StoredEvent>, next: nat, a: int, b: int)
    requires
        0 <= a <= b <= s.len(),
        keys_below(s, next),
    ensures
        keys_below(s.subrange(a, b), next),
        keys_increasing(s) ==> keys_increasing(s.subrange(a, b)),
{
    let t = s.subrange(a, b);
    assert forall|i: int| 0 <= i < t.len() && (#[trigger] t[i]).idb_key is Some implies t[i].idb_key->0
        < next by {
        assert(t[i] == s[a + i]);
    }
    if keys_increasing(s) {
        assert forall|i: int, j: int|
            0 <= i < j < t.len() && (#[trigger] t[i]).idb_key is Some
                && (#[trigger] t[j]).idb_key is Some implies t[i].idb_key->0 < t[j].idb_key->0 by {
            assert(t[i] == s[a + i]);
            assert(t[j] == s[a + j]);
        }
    }
}

/// Appending a record whose key, if any, lies below `next2` keeps every key
/// below `next2`, where `next <= next2`.
proof fn lemma_keys_below_push(s: Seq<StoredEvent>, next: nat, e: StoredEvent, next2: nat)
    requires
        keys_below(s, next),
        next <= next2,
        e.idb_key is Some ==> e.idb_key->0 < next2,
    ensures
        keys_below(s.push(e), next2),
{
    let t = s.push(e);
    assert forall|i: int| 0 <= i < t.len() && (#[trigger] t[i]).idb_key is Some implies t[i].idb_key->0
        < next2 by {
        if i < s.len() {
            assert(t[i] == s[i]);
        }
    }
}

/// The byte size of a record: the UTF-8 length of its JSON text.
pub open spec fn item_size(e: StoredEvent) -> nat {
    encode_utf8(e.value@).len()
}

/// How many records a fetch takes from the head of `items`: as many as fit,
/// one by one, into `budget` bytes, and at most `limit`.
pub open spec fn fetch_len(items: Seq<StoredEvent>, limit: nat, budget: nat) -> nat
    decreases items.len(),
{
    if items.len() == 0 || limit == 0 || item_size(items[0]) > budget {
        0
    } else {
        1 + fetch_len(
            items.drop_first(),
            (limit - 1) as nat,
            (budget - item_size(items[0])) as nat,
        )
    }
}

/// The item limit of a fetch: the count asked for, or the whole queue.
pub open spec fn count_limit(count: Option<usize>, len: nat) -> nat {
    match count {
        Some(c) => c as nat,
        None => len,
    }
}

/// The byte budget of a fetch: the one asked for, or the configured default.
pub open spec fn byte_budget(max_bytes: Option<usize>, default: usize) -> nat {
    match max_bytes {
        Some(b) => b as nat,
        None => default as nat,
    }
}

/// The JSON texts of `items`, in order.
pub open spec fn values_of(items: Seq<StoredEvent>) -> Seq<String> {
    items.map_values(|e: StoredEvent| e.value)
}

/// A fetch takes no more records than the queue holds or the limit allows.
pub proof fn lemma_fetch_len_bounds(items: Seq<StoredEvent>, limit: nat, budget: nat)
    ensures
        fetch_len(items, limit, budget) <= items.len(),
        fetch_len(items, limit, budget) <= limit,
    decreases items.len(),
{
    if items.len() > 0 && limit > 0 && item_size(items[0]) <= budget {
        lemma_fetch_len_bounds(
            items.drop_first(),
            (limit - 1) as nat,
            (budget - item_size(items[0])) as nat,
        );
    }
}

/// The records of `items` that no token of `tokens` identifies, in order.
pub open spec fn survivors(items: Seq<StoredEvent>, tokens: Seq<StoredEvent>) -> Seq<StoredEvent>
    decreases items.len(),
{
    if items.len() == 0 {
        seq![]
    } else {
        let rest = survivors(items.drop_last(), tokens);
        if identified_by_any(tokens, items.last()) {
            rest
        } else {
            rest.push(items.last())
        }
    }
}

/// The records of `items` that some token of `tokens` identifies, in order.
pub open spec fn matched(items: Seq<StoredEvent>, tokens: Seq<StoredEvent>) -> Seq<StoredEvent>
    decreases items.len(),
{
    if items.len() == 0 {
        seq![]
    } else {
        let rest = matched(items.drop_last(), tokens);
        if identified_by_any(tokens, items.last()) {
            rest.push(items.last())
        } else {
            rest
        }
    }
}

/// Whether some token of `tokens` identifies `item`.
pub fn identified_by(tokens: &[StoredEvent], item: &StoredEvent) -> (r: bool)
    ensures
        r == identified_by_any(tokens@, *item),
{
    let mut i: usize = 0;
    while i < tokens.len()
        invariant
            i <= tokens@.len(),
            forall|j: int| 0 <= j < i ==> !identifies(#[trigger] tokens@[j], *item),
        decreases tokens@.len() - i,
    {
        if tokens[i].equals(item) {
            return true;
        }
        i = i + 1;
    }
    false
}

/// The next key after hydrating `recs`, starting from the next key `next`:
/// one past the highest key seen, or `next` if that is higher.
pub open spec fn hydrate_next(recs: Seq<StoredEvent>, next: nat) -> nat
    decreases recs.len(),
{
    if recs.len() == 0 {
        next
    } else {
        let n = hydrate_next(recs.drop_last(), next);
        match recs.last().idb_key {
            Some(k) => if k as nat + 1 > n {
                k as nat + 1
            } else {
                n
            },
            None => n,
        }
    }
}

/// Appending a record whose key, if any, lies in `[next, next2)` keeps the
/// keys ordered below `next2`.
proof fn lemma_keys_ordered_push(s: Seq<StoredEvent>, next: nat, e: StoredEvent, next2: nat)
    requires
        keys_ordered(s, next),
        next <= next2,
        e.idb_key is Some ==> next <= e.idb_key->0 < next2,
    ensures
        keys_ordered(s.push(e), next2),
{
    let t = s.push(e);
    assert forall|i: int| 0 <= i < t.len() && (#[trigger] t[i]).idb_key is Some
        implies t[i].idb_key->0 < next2 by {
        if i < s.len() {
            assert(t[i] == s[i]);
        }
    }
    assert forall|i: int, j: int|
        0 <= i < j < t.len() && (#[trigger] t[i]).idb_key is Some
            && (#[trigger] t[j]).idb_key is Some implies t[i].idb_key->0 < t[j].idb_key->0 by {
        assert(t[i] == s[i]);
        if j < s.len() {
            assert(t[j] == s[j]);
        }
    }
}

/// The deletes of a single record.
pub proof fn lemma_deletes_one(e: StoredEvent)
    ensures
        deletes_of(seq![e]) == match e.idb_key {
            Some(k) => seq![DurableOp::Delete { key: k }],
            None => Seq::<DurableOp>::empty(),
        },
{
    assert(seq![e].drop_last() =~= Seq::<StoredEvent>::empty());
    assert(deletes_of(Seq::<StoredEvent>::empty()) =~= Seq::<DurableOp>::empty());
    assert(seq![e].last() == e);
    if let Some(k) = e.idb_key {
        assert(Seq::<DurableOp>::empty().push(DurableOp::Delete { key: k }) =~= seq![
            DurableOp::Delete { key: k },
        ]);
    }
}

/// The deletes of a record appended to `s` follow those of `s`.
pub proof fn lemma_deletes_push(s: Seq<StoredEvent>, e: StoredEvent)
    ensures
        deletes_of(s.push(e)) == deletes_of(s) + deletes_of(seq![e]),
{
    lemma_deletes_one(e);
    assert(s.push(e).drop_last() =~= s);
    assert(s.push(e).last() == e);
    if let Some(k) = e.idb_key {
        assert(deletes_of(s).push(DurableOp::Delete { key: k }) =~= deletes_of(s) + seq![
            DurableOp::Delete { key: k },
        ]);
    } else {
        assert(deletes_of(s) =~= deletes_of(s) + Seq::<DurableOp>::empty());
    }
}

/// What appending the JSON text `value` to `pre` gives: `post` and the
/// result `r`. Once the keys are used up the append is refused and nothing
/// changes; otherwise the record goes to the tail under the next key, the
/// oldest records beyond the capacity are evicted, and the deletes of the
/// evicted records and then the write of the new one are recorded.
pub open spec fn appended(
    pre: WebStore,
    post: WebStore,
    value: String,
    r: Result<(), StoreError>,
) -> bool {
    &&& post.spec_config() == pre.spec_config()
    &&& post.spec_state() == pre.spec_state()
    &&& pre.spec_next_key() >= KEY_SPACE ==> {
        &&& r == Err::<(), StoreError>(StoreError::KeysExhausted)
        &&& post@ == pre@
        &&& post.pending_ops() == pre.pending_ops()
        &&& post.spec_next_key() == pre.spec_next_key()
    }
    &&& pre.spec_next_key() < KEY_SPACE ==> {
        let key = pre.spec_next_key() as u32;
        let grown = pre@.push(StoredEvent { idb_key: Some(key), value });
        &&& r == Ok::<(), StoreError>(())
        &&& post@ == keep_last(grown, pre.capacity())
        &&& post.pending_ops() == pre.pending_ops() + recorded(
            pre.spec_state(),
            deletes_of(evicted(grown, pre.capacity())).push(DurableOp::Write { key, value }),
        )
        &&& post.spec_next_key() == pre.spec_next_key() + 1
    }
}

/// What a fetch on the queue `items` of a store configured by `config`
/// returns: `None` when no record is taken, otherwise the JSON texts of the
/// records taken, the writer key and one token per record, in order.
pub open spec fn fetched(
    items: Seq<StoredEvent>,
    config: WebConfig,
    count: Option<usize>,
    max_bytes: Option<usize>,
    r: Option<DataResult<Batch>>,
) -> bool {
    let n = fetch_len(
        items,
        count_limit(count, items.len()),
        byte_budget(max_bytes, config.max_fetch_size),
    );
    &&& r is None <==> n == 0
    &&& r is Some ==> {
        let d = r->0;
        &&& d.data is Some
        &&& d.removable is Some
        &&& d.data->0.batch@ == values_of(items.take(n as int))
        &&& d.data->0.write_key == config.write_key
        &&& d.removable->0@ == items.take(n as int)
    }
}

/// A bounded FIFO of JSON records with identity tokens, mirrored into a
/// durable layer through pending operations.
pub struct WebStore {
    config: WebConfig,
    items: std::collections::VecDeque<StoredEvent>,
    next_key: u64,
    persistence_state: PersistenceState,
    pending: Vec<DurableOp>,
}

impl View for WebStore {
    type V = Seq<StoredEvent>;

    closed spec fn view(&self) -> Seq<StoredEvent> {
        self.items@
    }
}

impl WebStore {
    /// The configuration the store was built with.
    pub closed spec fn spec_config(&self) -> WebConfig {
        self.config
    }

    /// The largest number of records kept.
    pub open spec fn capacity(&self) -> nat {
        self.spec_config().max_items as nat
    }

    /// The key the next appended record gets, or `KEY_SPACE` once all are used.
    pub closed spec fn spec_next_key(&self) -> nat {
        self.next_key as nat
    }

    /// Whether the keys of the queue increase from head to tail. Appends,
    /// evictions, removals and resets keep this; hydration keeps it when the
    /// records come back in key order.
    pub open spec fn ordered(&self) -> bool {
        keys_increasing(self@)
    }

    /// The persistence state chosen at construction.
    pub closed spec fn spec_state(&self) -> PersistenceState {
        self.persistence_state
    }

    /// The durable operations not yet handed to the runtime.
    pub closed spec fn pending_ops(&self) -> Seq<DurableOp> {
        self.pending@
    }

    /// The store's invariant but for the length bound, which holds again
    /// once an operation has evicted.
    closed spec fn inv(&self) -> bool {
        &&& config_ok(self.config)
        &&& self.next_key <= KEY_SPACE
        &&& keys_below(self.items@, self.next_key as nat)
        &&& (self.persistence_state == PersistenceState::MemoryOnly ==> self.pending@.len() == 0)
    }

    /// The store's invariant.
    pub closed spec fn wf(&self) -> bool {
        &&& self.inv()
        &&& self.items@.len() <= self.config.max_items
    }

    /// What the invariant says of the queue: its configuration is accepted,
    /// it holds no more records than the capacity, and its keys lie below the
    /// next key, which lies within the key space.
    pub proof fn lemma_wf(&self)
        requires
            self.wf(),
        ensures
            config_ok(self.spec_config()),
            self@.len() <= self.capacity(),
            self.spec_next_key() <= KEY_SPACE,
            keys_below(self@, self.spec_next_key()),
            self.spec_state() == PersistenceState::MemoryOnly ==> self.pending_ops().len() == 0,
    {
    }

    /// Checks a configuration: the fetch budget first, then the capacity.
    pub fn check_config(config: &WebConfig) -> (r: Result<(), ConfigError>)
        ensures
            r is Ok <==> config_ok(*config),
            r is Err ==> r->Err_0 == config_error(*config),
    {
        if config.max_fetch_size < MIN_FETCH_SIZE {
            Err(ConfigError::FetchSizeTooSmall)
        } else if config.max_items == 0 {
            Err(ConfigError::NoCapacity)
        } else {
            Ok(())
        }
    }

    /// An empty store with the given configuration, in the given persistence
    /// state; rejects a configuration with no capacity or too small a fetch
    /// budget.
    pub fn new(config: WebConfig, state: PersistenceState) -> (r: Result<WebStore, ConfigError>)
        ensures
            r is Ok <==> config_ok(config),
            r is Err ==> r->Err_0 == config_error(config),
            r is Ok ==> {
                let s = r->Ok_0;
                &&& s.wf()
                &&& s@ == Seq::<StoredEvent>::empty()
                &&& s.spec_config() == config
                &&& s.spec_state() == state
                &&& s.spec_next_key() == 0
                &&& s.ordered()
                &&& s.pending_ops() == Seq::<DurableOp>::empty()
            },
    {
        match Self::check_config(&config) {
            Err(e) => Err(e),
            Ok(()) => Ok(
                WebStore {
                    config,
                    items: std::collections::VecDeque::new(),
                    next_key: 0,
                    persistence_state: state,
                    pending: Vec::new(),
                },
            ),
        }
    }

    /// The persistence state chosen at construction.
    pub fn persistence_state(&self) -> (r: PersistenceState)
        ensures
            r == self.spec_state(),
    {
        self.persistence_state
    }

    /// Whether the durable layer is in use.
    pub fn is_persisted(&self) -> (r: bool)
        ensures
            r == (self.spec_state() == PersistenceState::Persisted),
    {
        match self.persistence_state {
            PersistenceState::Persisted => true,
            PersistenceState::MemoryOnly => false,
        }
    }

    /// The configuration the store was built with.
    pub fn config(&self) -> (r: &WebConfig)
        ensures
            *r == self.spec_config(),
    {
        &self.config
    }

    /// Whether the queue holds a record.
    pub fn has_data(&self) -> (r: bool)
        ensures
            r == (self@.len() > 0),
    {
        self.items.len() > 0
    }

    /// The number of records in the queue.
    pub fn len(&self) -> (r: usize)
        ensures
            r == self@.len(),
    {
        self.items.len()
    }

    /// Hands the pending durable operations to the caller, oldest first, and
    /// forgets them.
    pub fn take_pending(&mut self) -> (r: Vec<DurableOp>)
        requires
            old(self).wf(),
        ensures
            final(self).wf(),
            r@ == old(self).pending_ops(),
            final(self).pending_ops() == Seq::<DurableOp>::empty(),
            final(self)@ == old(self)@,
            final(self).spec_config() == old(self).spec_config(),
            final(self).spec_state() == old(self).spec_state(),
            final(self).spec_next_key() == old(self).spec_next_key(),
    {
        let mut out: Vec<DurableOp> = Vec::new();
        core::mem::swap(&mut out, &mut self.pending);
        out
    }

    /// Records a delete for the durable layer if `e` has a key and the layer
    /// is in use.
    fn record_delete(&mut self, e: &StoredEvent)
        ensures
            final(self).pending@ == old(self).pending@ + recorded(
                old(self).persistence_state,
                deletes_of(seq![*e]),
            ),
            final(self).items == old(self).items,
            final(self).config == old(self).config,
            final(self).next_key == old(self).next_key,
            final(self).persistence_state == old(self).persistence_state,
    {
        proof {
            lemma_deletes_one(*e);
        }
        if let Some(k) = e.idb_key {
            if self.is_persisted() {
                self.pending.push(DurableOp::Delete { key: k });
            }
        }
        assert(self.pending@ =~= old(self).pending@ + recorded(
            old(self).persistence_state,
            deletes_of(seq![*e]),
        ));
    }

    /// Drops the `n` oldest records, recording their deletes.
    fn drop_front(&mut self, n: usize)
        requires
            old(self).inv(),
            n <= old(self).items@.len(),
        ensures
            final(self).inv(),
            final(self).items@ == old(self).items@.subrange(n as int, old(self).items@.len() as int),
            final(self).pending@ == old(self).pending@ + recorded(
                old(self).persistence_state,
                deletes_of(old(self).items@.subrange(0, n as int)),
            ),
            final(self).config == old(self).config,
            final(self).next_key == old(self).next_key,
            final(self).persistence_state == old(self).persistence_state,
    {
        let ghost s = self.items@;
        let mut k: usize = 0;
        proof {
            assert(s.subrange(0, 0) =~= Seq::<StoredEvent>::empty());
            assert(self.pending@ =~= old(self).pending@ + recorded(
                old(self).persistence_state,
                deletes_of(s.subrange(0, 0)),
            ));
            assert(s.subrange(0, s.len() as int) =~= s);
        }
        while k < n
            invariant
                k <= n,
                n <= s.len(),
                s == old(self).items@,
                self.inv(),
                keys_below(s, self.next_key as nat),
                self.items@ == s.subrange(k as int, s.len() as int),
                self.pending@ == old(self).pending@ + recorded(
                    old(self).persistence_state,
                    deletes_of(s.subrange(0, k as int)),
                ),
                self.config == old(self).config,
                self.next_key == old(self).next_key,
                self.persistence_state == old(self).persistence_state,
            decreases n - k,
        {
            let e = self.items.pop_front().unwrap();
            self.record_delete(&e);
            proof {
                lemma_keys_subrange(s, self.next_key as nat, k + 1, s.len() as int);
                assert(s.subrange(0, k + 1) =~= s.subrange(0, k as int).push(e));
                lemma_deletes_push(s.subrange(0, k as int), e);
                assert(self.items@ =~= s.subrange(k + 1, s.len() as int));
                if self.persistence_state == PersistenceState::Persisted {
                    assert(self.pending@ =~= old(self).pending@ + deletes_of(
                        s.subrange(0, k + 1),
                    ));
                } else {
                    assert(self.pending@ =~= old(self).pending@);
                }
            }
            k = k + 1;
        }
    }

    /// Reads a batch from the head of the queue without changing it: the
    /// longest run of oldest records that fits into the byte budget
    /// (`max_bytes`, or the configured default) and has at most `count`
    /// records. Returns `None` when that run is empty: the queue is empty, the
    /// count is zero, or the oldest record alone exceeds the budget.
    pub fn fetch(&self, count: Option<usize>, max_bytes: Option<usize>) -> (r: Option<
        DataResult<Batch>,
    >)
        requires
            self.wf(),
        ensures
            fetched(self@, self.spec_config(), count, max_bytes, r),
    {
        let ghost items = self.items@;
        let ghost limit = count_limit(count, items.len());
        let budget: usize = match max_bytes {
            Some(b) => b,
            None => self.config.max_fetch_size,
        };
        let len = self.items.len();
        let mut remaining: usize = budget;
        let mut n: usize = 0;
        let mut stop = false;
        proof {
            assert(items.subrange(0, items.len() as int) =~= items);
        }
        while !stop
            invariant
                n <= len,
                len == items.len(),
                items == self.items@,
                limit == count_limit(count, items.len()),
                n <= limit,
                fetch_len(items, limit, budget as nat) == n + fetch_len(
                    items.subrange(n as int, len as int),
                    (limit - n) as nat,
                    remaining as nat,
                ),
                stop ==> fetch_len(
                    items.subrange(n as int, len as int),
                    (limit - n) as nat,
                    remaining as nat,
                ) == 0,
            decreases len - n + (if stop { 0int } else { 1int }),
        {
            let ghost rest = items.subrange(n as int, len as int);
            let limit_hit = match count {
                Some(c) => n >= c,
                None => n >= len,
            };
            if n == len || limit_hit {
                stop = true;
            } else {
                let size = self.items[n].value.as_str().as_bytes().len();
                assert(rest[0] == items[n as int]);
                if size > remaining {
                    stop = true;
                } else {
                    proof {
                        assert(size == item_size(rest[0]));
                        assert(limit - n > 0);
                        assert(rest.drop_first() =~= items.subrange(n + 1, len as int));
                        assert(fetch_len(rest, (limit - n) as nat, remaining as nat) == 1
                            + fetch_len(
                            rest.drop_first(),
                            (limit - n - 1) as nat,
                            (remaining - size) as nat,
                        ));
                    }
                    remaining = remaining - size;
                    n = n + 1;
                }
            }
        }
        proof {
            assert(items.subrange(n as int, len as int) == items.skip(n as int));
        }
        if n == 0 {
            return None;
        }
        let mut batch: Vec<String> = Vec::new();
        let mut removable: Vec<StoredEvent> = Vec::new();
        let mut j: usize = 0;
        while j < n
            invariant
                j <= n,
                n <= len,
                len == items.len(),
                items == self.items@,
                batch@ == values_of(items.take(j as int)),
                removable@ == items.take(j as int),
            decreases n - j,
        {
            let e = self.items[j].clone();
            batch.push(e.value.clone());
            removable.push(e);
            proof {
                assert(items.take(j + 1) =~= items.take(j as int).push(items[j as int]));
                assert(values_of(items.take(j + 1)) =~= values_of(items.take(j as int)).push(
                    items[j as int].value,
                ));
            }
            j = j + 1;
        }
        Some(
            DataResult {
                data: Some(Batch { batch, write_key: self.config.write_key.clone() }),
                removable: Some(removable),
            },
        )
    }

    /// Deletes every record that some token identifies, keeping the order of
    /// the others, and records a durable delete for each deleted keyed
    /// record. Tokens that identify nothing are ignored.
    pub fn remove(&mut self, tokens: &[StoredEvent])
        requires
            old(self).wf(),
        ensures
            final(self).wf(),
            final(self)@ == survivors(old(self)@, tokens@),
            old(self).ordered() ==> final(self).ordered(),
            final(self).pending_ops() == old(self).pending_ops() + recorded(
                old(self).spec_state(),
                deletes_of(matched(old(self)@, tokens@)),
            ),
            final(self).spec_config() == old(self).spec_config(),
            final(self).spec_state() == old(self).spec_state(),
            final(self).spec_next_key() == old(self).spec_next_key(),
    {
        let ghost s = self.items@;
        let ghost next = self.next_key as nat;
        let ghost ord = keys_increasing(s);
        let len = self.items.len();
        let mut kept: std::collections::VecDeque<StoredEvent> = std::collections::VecDeque::new();
        let mut i: usize = 0;
        proof {
            assert(s.take(0) =~= Seq::<StoredEvent>::empty());
            assert(self.pending@ =~= old(self).pending@ + recorded(
                old(self).persistence_state,
                deletes_of(matched(s.take(0), tokens@)),
            ));
        }
        while i < len
            invariant
                i <= len,
                len == s.len(),
                s == old(self).items@,
                self.items == old(self).items,
                self.config == old(self).config,
                self.next_key == old(self).next_key,
                next == self.next_key,
                self.persistence_state == old(self).persistence_state,
                old(self).wf(),
                self.persistence_state == PersistenceState::MemoryOnly ==> self.pending@.len() == 0,
                kept@ == survivors(s.take(i as int), tokens@),
                kept@.len() <= i,
                self.pending@ == old(self).pending@ + recorded(
                    old(self).persistence_state,
                    deletes_of(matched(s.take(i as int), tokens@)),
                ),
                keys_below(kept@, next),
                ord == keys_increasing(s),
                ord ==> keys_increasing(kept@),
                ord ==> forall|a: int, b: int|
                    0 <= a < kept@.len() && i <= b < len && (#[trigger] kept@[a]).idb_key is Some
                        && (#[trigger] s[b]).idb_key is Some ==> kept@[a].idb_key->0
                        < s[b].idb_key->0,
            decreases len - i,
        {
            let e = self.items[i].clone();
            let ghost before = kept@;
            proof {
                assert(s.take(i + 1).drop_last() =~= s.take(i as int));
                assert(s.take(i + 1).last() == e);
            }
            if identified_by(tokens, &e) {
                self.record_delete(&e);
                proof {
                    lemma_deletes_push(matched(s.take(i as int), tokens@), e);
                    assert(self.pending@ =~= old(self).pending@ + recorded(
                        old(self).persistence_state,
                        deletes_of(matched(s.take(i + 1), tokens@)),
                    ));
                }
            } else {
                kept.push_back(e);
                proof {
                    assert(kept@ == before.push(e));
                    if ord {
                    assert forall|a: int, b: int|
                        0 <= a < kept@.len() && i + 1 <= b < len
                            && (#[trigger] kept@[a]).idb_key is Some
                            && (#[trigger] s[b]).idb_key is Some implies kept@[a].idb_key->0
                        < s[b].idb_key->0 by {
                        if a < before.len() {
                            assert(kept@[a] == before[a]);
                        } else {
                            assert(kept@[a] == s[i as int]);
                        }
                    }
                    assert forall|a: int, b: int|
                        0 <= a < b < kept@.len() && (#[trigger] kept@[a]).idb_key is Some
                            && (#[trigger] kept@[b]).idb_key is Some implies kept@[a].idb_key->0
                        < kept@[b].idb_key->0 by {
                        assert(kept@[a] == before[a]);
                        if b < before.len() {
                            assert(kept@[b] == before[b]);
                        } else {
                            assert(kept@[b] == s[i as int]);
                        }
                    }
                    }
                    assert forall|a: int|
                        0 <= a < kept@.len() && (#[trigger] kept@[a]).idb_key is Some
                        implies kept@[a].idb_key->0 < next by {
                        if a < before.len() {
                            assert(kept@[a] == before[a]);
                        } else {
                            assert(kept@[a] == s[i as int]);
                        }
                    }
                    assert(self.pending@ =~= old(self).pending@ + recorded(
                        old(self).persistence_state,
                        deletes_of(matched(s.take(i + 1), tokens@)),
                    ));
                }
            }
            i = i + 1;
        }
        proof {
            assert(s.take(len as int) =~= s);
        }
        self.items = kept;
    }

    /// Loads records read back from the durable layer, in the order given:
    /// every record goes to the tail, the next key moves one past the highest
    /// key seen, then the oldest records beyond the capacity are evicted and
    /// their deletes recorded.
    pub fn hydrate_events(&mut self, recs: Vec<StoredEvent>)
        requires
            old(self).wf(),
        ensures
            final(self).wf(),
            ({
                let all = old(self)@ + recs@;
                &&& final(self)@ == keep_last(all, old(self).capacity())
                &&& final(self).pending_ops() == old(self).pending_ops() + recorded(
                    old(self).spec_state(),
                    deletes_of(evicted(all, old(self).capacity())),
                )
                &&& final(self).spec_next_key() == hydrate_next(recs@, old(self).spec_next_key())
                &&& keys_increasing(all) ==> final(self).ordered()
            }),
            final(self).spec_config() == old(self).spec_config(),
            final(self).spec_state() == old(self).spec_state(),
    {
        let ghost start = self.next_key as nat;
        let mut i: usize = 0;
        proof {
            assert(recs@.take(0) =~= Seq::<StoredEvent>::empty());
            assert(self.items@ =~= old(self).items@ + recs@.take(0));
        }
        while i < recs.len()
            invariant
                i <= recs@.len(),
                self.inv(),
                self.items@ == old(self).items@ + recs@.take(i as int),
                self.next_key as nat == hydrate_next(recs@.take(i as int), start),
                self.pending == old(self).pending,
                self.config == old(self).config,
                self.persistence_state == old(self).persistence_state,
                start == old(self).next_key as nat,
            decreases recs@.len() - i,
        {
            let e = recs[i].clone();
            let ghost items0 = self.items@;
            let ghost next0 = self.next_key as nat;
            proof {
                assert(recs@.take(i + 1).drop_last() =~= recs@.take(i as int));
                assert(recs@.take(i + 1).last() == e);
            }
            let key = e.idb_key;
            self.items.push_back(e);
            match key {
                Some(k) => {
                    if k as u64 + 1 > self.next_key {
                        self.next_key = k as u64 + 1;
                    }
                },
                None => {},
            }
            proof {
                lemma_keys_below_push(items0, next0, e, self.next_key as nat);
                assert(self.items@ =~= old(self).items@ + recs@.take(i + 1));
            }
            i = i + 1;
        }
        proof {
            assert(recs@.take(recs@.len() as int) =~= recs@);
        }
        let ghost all = self.items@;
        let len = self.items.len();
        let max = self.config.max_items;
        if len > max {
            self.drop_front(len - max);
            proof {
                lemma_keys_subrange(all, self.next_key as nat, len - max, len as int);
            }
        } else {
            assert(deletes_of(Seq::<StoredEvent>::empty()) =~= Seq::<DurableOp>::empty());
            assert(self.pending@ =~= old(self).pending@ + recorded(
                self.persistence_state,
                deletes_of(evicted(all, max as nat)),
            ));
        }
        assert(self.items@ =~= keep_last(all, max as nat));
    }

    /// Appends a JSON value: encodes it and appends the text as
    /// `append_json` does. Succeeds unless every record key has been used.
    pub fn append(&mut self, data: serde_json::Value) -> (r: Result<(), StoreError>)
        requires
            old(self).wf(),
        ensures
            final(self).wf(),
            exists|value: String| appended(*old(self), *final(self), value, r),
            old(self).spec_next_key() < KEY_SPACE ==> r is Ok,
            old(self).spec_next_key() >= KEY_SPACE ==> r == Err::<(), StoreError>(
                StoreError::KeysExhausted,
            ),
            old(self).ordered() ==> final(self).ordered(),
    {
        match encode_value(&data) {
            Ok(value) => self.append_json(value),
            Err(_) => unreached(),
        }
    }

    /// Loads the records the durable layer returned, as JSON texts that carry
    /// their key, in the order given: each text that parses is decoded, the
    /// rest are skipped, and the decoded records are loaded as
    /// `hydrate_events` does.
    pub fn hydrate(&mut self, records: Vec<String>)
        requires
            old(self).wf(),
        ensures
            final(self).wf(),
            final(self).spec_config() == old(self).spec_config(),
            final(self).spec_state() == old(self).spec_state(),
            exists|recs: Seq<StoredEvent>|
                #![trigger hydrate_next(recs, old(self).spec_next_key())]
                {
                    let all = old(self)@ + recs;
                    &&& recs.len() == decodable_count(records@)
                    &&& final(self)@ == keep_last(all, old(self).capacity())
                    &&& final(self).pending_ops() == old(self).pending_ops() + recorded(
                        old(self).spec_state(),
                        deletes_of(evicted(all, old(self).capacity())),
                    )
                    &&& final(self).spec_next_key() == hydrate_next(
                        recs,
                        old(self).spec_next_key(),
                    )
                },
    {
        let mut recs: Vec<StoredEvent> = Vec::new();
        let mut i: usize = 0;
        proof {
            assert(records@.take(0) =~= Seq::<String>::empty());
        }
        while i < records.len()
            invariant
                i <= records@.len(),
                recs@.len() == decodable_count(records@.take(i as int)),
            decreases records@.len() - i,
        {
            proof {
                assert(records@.take(i + 1).drop_last() =~= records@.take(i as int));
                assert(records@.take(i + 1).last() == records@[i as int]);
            }
            match decode_record(records[i].as_str()) {
                Some(e) => recs.push(e),
                None => {},
            }
            i = i + 1;
        }
        proof {
            assert(records@.take(records@.len() as int) =~= records@);
        }
        self.hydrate_events(recs);
    }

    /// Appends a record whose JSON text is `value` under the next key, evicts
    /// the oldest records beyond the capacity, and records the deletes of the
    /// evicted records and then the write of the new one.
    pub fn append_json(&mut self, value: String) -> (r: Result<(), StoreError>)
        requires
            old(self).wf(),
        ensures
            final(self).wf(),
            appended(*old(self), *final(self), value, r),
            old(self).ordered() ==> final(self).ordered(),
    {
        if self.next_key >= KEY_SPACE {
            return Err(StoreError::KeysExhausted);
        }
        let key = self.next_key as u32;
        let copy = value.clone();
        let ghost grown = self.items@.push(StoredEvent { idb_key: Some(key), value });
        self.items.push_back(StoredEvent { idb_key: Some(key), value });
        self.next_key = self.next_key + 1;
        assert(self.items@ == grown);
        proof {
            let e = StoredEvent { idb_key: Some(key), value: copy };
            lemma_keys_below_push(old(self).items@, old(self).next_key as nat, e, self.next_key as nat);
            if keys_increasing(old(self).items@) {
                lemma_keys_ordered_push(
                    old(self).items@,
                    old(self).next_key as nat,
                    e,
                    self.next_key as nat,
                );
            }
        }
        let len = self.items.len();
        let max = self.config.max_items;
        let ghost mid_pending = self.pending@;
        if len > max {
            self.drop_front(len - max);
            proof {
                lemma_keys_subrange(grown, self.next_key as nat, len - max, len as int);
            }
        } else {
            assert(grown.subrange(0, 0) =~= Seq::<StoredEvent>::empty());
            assert(deletes_of(Seq::<StoredEvent>::empty()) =~= Seq::<DurableOp>::empty());
            assert(self.pending@ =~= mid_pending + recorded(
                self.persistence_state,
                deletes_of(evicted(grown, max as nat)),
            ));
        }
        assert(self.items@ =~= keep_last(grown, max as nat));
        if self.is_persisted() {
            self.pending.push(DurableOp::Write { key, value: copy });
        }
        assert(self.pending@ =~= old(self).pending@ + recorded(
            old(self).persistence_state,
            deletes_of(evicted(grown, max as nat)).push(DurableOp::Write { key, value: copy }),
        ));
        Ok(())
    }

    /// Empties the queue, recording a durable delete for every keyed record.
    pub fn reset(&mut self)
        requires
            old(self).wf(),
        ensures
            final(self).wf(),
            final(self)@ == Seq::<StoredEvent>::empty(),
            final(self).ordered(),
            final(self).pending_ops() == old(self).pending_ops() + recorded(
                old(self).spec_state(),
                deletes_of(old(self)@),
            ),
            final(self).spec_config() == old(self).spec_config(),
            final(self).spec_state() == old(self).spec_state(),
            final(self).spec_next_key() == old(self).spec_next_key(),
    {
        let n = self.items.len();
        self.drop_front(n);
        proof {
            assert(old(self).items@.subrange(0, n as int) =~= old(self).items@);
            assert(self.items@ =~= Seq::<StoredEvent>::empty());
        }
    }
}

} // verus!
