//! Properties of the queue that span several operations or all inputs.
use vstd::prelude::*;

use crate::event::{identified_by_any, identifies, StoredEvent};
use crate::web::{
    appended, byte_budget, count_limit, evicted, fetch_len, fetched, item_size,
    keep_last, keys_ordered, lemma_fetch_len_bounds, matched, survivors, values_of, Batch,
    StoreError, WebConfig, WebStore, KEY_SPACE,
};
use crate::DataResult;

verus! {

/// The total byte size of `items`.
pub open spec fn total_size(items: Seq<StoredEvent>) -> nat
    decreases items.len(),
{
    if items.len() == 0 {
        0
    } else {
        item_size(items[0]) + total_size(items.drop_first())
    }
}

/// The size of a longer prefix is no smaller.
pub proof fn lemma_total_size_prefix(items: Seq<StoredEvent>, j: nat, k: nat)
    requires
        j <= k <= items.len(),
    ensures
        total_size(items.take(j as int)) <= total_size(items.take(k as int)),
    decreases items.len(),
{
    if j > 0 {
        let rest = items.drop_first();
        lemma_total_size_prefix(rest, (j - 1) as nat, (k - 1) as nat);
        assert(items.take(j as int).drop_first() =~= rest.take(j - 1int));
        assert(items.take(k as int).drop_first() =~= rest.take(k - 1int));
        assert(items.take(j as int)[0] == items[0]);
        assert(items.take(k as int)[0] == items[0]);
    } else {
        assert(items.take(0) =~= Seq::<StoredEvent>::empty());
    }
}

/// A fetch takes a prefix within the budget and the limit, and stops only
/// at the limit, at the end of the queue, or before a record that would
/// exceed the budget.
pub proof fn lemma_fetch_len_stops(items: Seq<StoredEvent>, limit: nat, budget: nat)
    ensures
        ({
            let m = fetch_len(items, limit, budget);
            &&& m <= items.len()
            &&& m <= limit
            &&& total_size(items.take(m as int)) <= budget
            &&& (m < items.len() && m < limit) ==> total_size(items.take(m + 1int)) > budget
        }),
    decreases items.len(),
{
    lemma_fetch_len_bounds(items, limit, budget);
    let m = fetch_len(items, limit, budget);
    if items.len() == 0 || limit == 0 || item_size(items[0]) > budget {
        assert(items.take(0) =~= Seq::<StoredEvent>::empty());
        if items.len() > 0 {
            assert(items.take(1).drop_first() =~= Seq::<StoredEvent>::empty());
            assert(items.take(1)[0] == items[0]);
        }
    } else {
        let rest = items.drop_first();
        let b2 = (budget - item_size(items[0])) as nat;
        lemma_fetch_len_stops(rest, (limit - 1) as nat, b2);
        let m2 = fetch_len(rest, (limit - 1) as nat, b2);
        assert(m == m2 + 1);
        assert(items.take(m as int).drop_first() =~= rest.take(m2 as int));
        assert(items.take(m as int)[0] == items[0]);
        if m < items.len() && m < limit {
            assert(items.take(m + 1int).drop_first() =~= rest.take(m2 + 1int));
            assert(items.take(m + 1int)[0] == items[0]);
        }
    }
}

/// A fetch with a byte budget `budget` and no count takes the longest prefix
/// of the queue whose total size is within the budget; when the oldest
/// record alone exceeds the budget it takes nothing.
pub proof fn lemma_fetch_longest_prefix(items: Seq<StoredEvent>, budget: nat)
    ensures
        ({
            let m = fetch_len(items, items.len(), budget);
            &&& m <= items.len()
            &&& total_size(items.take(m as int)) <= budget
            &&& forall|k: nat|
                m < k <= items.len() ==> total_size(#[trigger] items.take(k as int)) > budget
            &&& (items.len() > 0 && item_size(items[0]) > budget) ==> m == 0
        }),
{
    lemma_fetch_len_stops(items, items.len(), budget);
    let m = fetch_len(items, items.len(), budget);
    assert forall|k: nat| m < k <= items.len() implies total_size(
        #[trigger] items.take(k as int),
    ) > budget by {
        lemma_total_size_prefix(items, m + 1, k);
    }
}

/// A fetch of at most `n` records takes no more than `n`, and exactly the
/// `n` oldest when the queue holds at least `n` and they fit into the budget.
pub proof fn lemma_fetch_count(items: Seq<StoredEvent>, n: nat, budget: nat)
    ensures
        fetch_len(items, n, budget) <= n,
        (items.len() >= n && total_size(items.take(n as int)) <= budget) ==> fetch_len(
            items,
            n,
            budget,
        ) == n,
{
    lemma_fetch_len_stops(items, n, budget);
    let m = fetch_len(items, n, budget);
    if items.len() >= n && total_size(items.take(n as int)) <= budget && m < n {
        lemma_total_size_prefix(items, m + 1, n);
    }
}

/// Fetching twice from the same queue with the same arguments gives the
/// same batch and the same tokens.
pub proof fn lemma_fetch_repeatable(
    items: Seq<StoredEvent>,
    config: WebConfig,
    count: Option<usize>,
    max_bytes: Option<usize>,
    r1: Option<DataResult<Batch>>,
    r2: Option<DataResult<Batch>>,
)
    requires
        fetched(items, config, count, max_bytes, r1),
        fetched(items, config, count, max_bytes, r2),
    ensures
        r1 is None <==> r2 is None,
        r1 is Some ==> {
            &&& r1->0.data->0.batch@ == r2->0.data->0.batch@
            &&& r1->0.data->0.write_key == r2->0.data->0.write_key
            &&& r1->0.removable->0@ == r2->0.removable->0@
        },
{
}

/// An empty queue yields no batch, whatever the limit and the budget.
pub proof fn lemma_fetch_empty(items: Seq<StoredEvent>, limit: nat, budget: nat)
    requires
        items.len() == 0,
    ensures
        fetch_len(items, limit, budget) == 0,
{
}

/// Every record carries a key.
pub open spec fn all_keyed(items: Seq<StoredEvent>) -> bool {
    forall|i: int| 0 <= i < items.len() ==> (#[trigger] items[i]).idb_key is Some
}

/// On the first `j` records, the tokens of the `n` oldest match exactly
/// those of them that lie among the `n` oldest.
proof fn lemma_remove_prefix_upto(items: Seq<StoredEvent>, next: nat, n: nat, j: nat)
    requires
        keys_ordered(items, next),
        all_keyed(items),
        n <= items.len(),
        j <= items.len(),
    ensures
        survivors(items.take(j as int), items.take(n as int)) == (if j <= n {
            Seq::<StoredEvent>::empty()
        } else {
            items.subrange(n as int, j as int)
        }),
        matched(items.take(j as int), items.take(n as int)) == items.take(
            if j <= n { j as int } else { n as int },
        ),
    decreases j,
{
    let t = items.take(n as int);
    if j == 0 {
        assert(items.take(0) =~= Seq::<StoredEvent>::empty());
    } else {
        let i = (j - 1) as nat;
        lemma_remove_prefix_upto(items, next, n, i);
        let pre = items.take(j as int);
        assert(pre.drop_last() =~= items.take(i as int));
        assert(pre.last() == items[i as int]);
        let e = items[i as int];
        if i < n {
            assert(t[i as int] == e);
            assert(identifies(t[i as int], e));
            assert(identified_by_any(t, e));
            assert(items.take(i as int).push(e) =~= items.take(j as int));
        } else {
            assert forall|a: int| 0 <= a < t.len() implies !identifies(#[trigger] t[a], e) by {
                assert(t[a] == items[a]);
                assert(items[a].idb_key is Some);
                assert(e.idb_key is Some);
            }
            if i == n {
                assert(Seq::<StoredEvent>::empty().push(e) =~= items.subrange(n as int, j as int));
            } else {
                assert(items.subrange(n as int, i as int).push(e) =~= items.subrange(
                    n as int,
                    j as int,
                ));
            }
        }
    }
}

/// Removing with the tokens of a fetch of the `n` oldest records deletes
/// exactly those records and keeps the rest in order, where every record
/// carries a key.
pub proof fn lemma_remove_fetched(items: Seq<StoredEvent>, next: nat, n: nat)
    requires
        keys_ordered(items, next),
        all_keyed(items),
        n <= items.len(),
    ensures
        survivors(items, items.take(n as int)) == items.skip(n as int),
        matched(items, items.take(n as int)) == items.take(n as int),
{
    lemma_remove_prefix_upto(items, next, n, items.len());
    assert(items.take(items.len() as int) =~= items);
    if n == items.len() {
        assert(items.skip(n as int) =~= Seq::<StoredEvent>::empty());
    } else {
        assert(items.subrange(n as int, items.len() as int) =~= items.skip(n as int));
    }
}

/// Tokens that identify no record remove nothing and delete nothing.
pub proof fn lemma_remove_unmatched(items: Seq<StoredEvent>, tokens: Seq<StoredEvent>)
    requires
        forall|i: int| 0 <= i < items.len() ==> !identified_by_any(tokens, #[trigger] items[i]),
    ensures
        survivors(items, tokens) == items,
        matched(items, tokens) == Seq::<StoredEvent>::empty(),
    decreases items.len(),
{
    if items.len() > 0 {
        let rest = items.drop_last();
        assert forall|i: int| 0 <= i < rest.len() implies !identified_by_any(
            tokens,
            #[trigger] rest[i],
        ) by {
            assert(rest[i] == items[i]);
        }
        lemma_remove_unmatched(rest, tokens);
        assert(!identified_by_any(tokens, items[items.len() - 1]));
        assert(rest.push(items.last()) =~= items);
    }
}

/// No token identifies a record that survived a removal with it.
pub proof fn lemma_survivors_unmatched(items: Seq<StoredEvent>, tokens: Seq<StoredEvent>)
    ensures
        forall|i: int|
            0 <= i < survivors(items, tokens).len() ==> !identified_by_any(
                tokens,
                #[trigger] survivors(items, tokens)[i],
            ),
    decreases items.len(),
{
    if items.len() > 0 {
        let rest = items.drop_last();
        lemma_survivors_unmatched(rest, tokens);
        let prev = survivors(rest, tokens);
        let cur = survivors(items, tokens);
        if !identified_by_any(tokens, items.last()) {
            assert forall|i: int| 0 <= i < cur.len() implies !identified_by_any(
                tokens,
                #[trigger] cur[i],
            ) by {
                if i < prev.len() {
                    assert(cur[i] == prev[i]);
                }
            }
        }
    }
}

/// Removing with the same tokens a second time changes nothing and deletes
/// nothing: removal is idempotent, and tokens of records already gone are
/// ignored.
pub proof fn lemma_remove_twice(items: Seq<StoredEvent>, tokens: Seq<StoredEvent>)
    ensures
        survivors(survivors(items, tokens), tokens) == survivors(items, tokens),
        matched(survivors(items, tokens), tokens) == Seq::<StoredEvent>::empty(),
{
    lemma_survivors_unmatched(items, tokens);
    lemma_remove_unmatched(survivors(items, tokens), tokens);
}

/// The newest `c` elements of `x`.
pub open spec fn newest<A>(x: Seq<A>, c: nat) -> Seq<A> {
    if x.len() > c {
        x.subrange(x.len() - c, x.len() as int)
    } else {
        x
    }
}

proof fn lemma_newest_push<A>(x: Seq<A>, v: A, c: nat)
    requires
        c >= 1,
    ensures
        newest(newest(x, c).push(v), c) == newest(x.push(v), c),
{
    if x.len() > c {
        assert(newest(x, c).push(v).subrange(1, c + 1int) =~= x.push(v).subrange(
            x.len() + 1 - c,
            x.len() + 1int,
        ));
    }
}

proof fn lemma_values_keep_last(y: Seq<StoredEvent>, c: nat)
    ensures
        values_of(keep_last(y, c)) == newest(values_of(y), c),
{
    if y.len() > c {
        assert(values_of(keep_last(y, c)) =~= newest(values_of(y), c));
    }
}

/// After `j` of the appends, the store holds the newest records.
proof fn lemma_appends_upto(
    stores: Seq<WebStore>,
    vals: Seq<String>,
    rs: Seq<Result<(), StoreError>>,
    j: nat,
)
    requires
        stores.len() == vals.len() + 1,
        rs.len() == vals.len(),
        stores[0].wf(),
        stores[0]@.len() == 0,
        stores[0].spec_next_key() + vals.len() <= KEY_SPACE,
        forall|i: int|
            0 <= i < vals.len() ==> appended(
                #[trigger] stores[i],
                stores[i + 1],
                vals[i],
                rs[i],
            ),
        j <= vals.len(),
    ensures
        values_of(stores[j as int]@) == newest(vals.take(j as int), stores[0].capacity()),
        stores[j as int].spec_next_key() == stores[0].spec_next_key() + j,
        stores[j as int].spec_config() == stores[0].spec_config(),
        forall|i: int| 0 <= i < j ==> (#[trigger] rs[i]) is Ok,
    decreases j,
{
    stores[0].lemma_wf();
    let c = stores[0].capacity();
    if j == 0 {
        assert(vals.take(0) =~= Seq::<String>::empty());
        assert(values_of(stores[0]@) =~= Seq::<String>::empty());
    } else {
        let i = (j - 1) as nat;
        lemma_appends_upto(stores, vals, rs, i);
        let pre = stores[i as int];
        let post = stores[j as int];
        assert(appended(pre, post, vals[i as int], rs[i as int]));
        let e = StoredEvent { idb_key: Some(pre.spec_next_key() as u32), value: vals[i as int] };
        let grown = pre@.push(e);
        assert(post@ == keep_last(grown, c));
        lemma_values_keep_last(grown, c);
        assert(values_of(grown) =~= values_of(pre@).push(vals[i as int]));
        lemma_newest_push(vals.take(i as int), vals[i as int], c);
        assert(vals.take(i as int).push(vals[i as int]) =~= vals.take(j as int));
    }
}

/// A run of appends to an empty store leaves the newest `capacity` values
/// in the order they were appended: where they exceed the capacity by `k`,
/// the `k` oldest are evicted. Every append succeeds while keys remain.
pub proof fn lemma_appends_keep_newest(
    stores: Seq<WebStore>,
    vals: Seq<String>,
    rs: Seq<Result<(), StoreError>>,
)
    requires
        stores.len() == vals.len() + 1,
        rs.len() == vals.len(),
        stores[0].wf(),
        stores[0]@.len() == 0,
        stores[0].spec_next_key() + vals.len() <= KEY_SPACE,
        forall|i: int|
            0 <= i < vals.len() ==> appended(
                #[trigger] stores[i],
                stores[i + 1],
                vals[i],
                rs[i],
            ),
    ensures
        forall|i: int| 0 <= i < vals.len() ==> (#[trigger] rs[i]) is Ok,
        values_of(stores.last()@) == newest(vals, stores[0].capacity()),
        vals.len() > stores[0].capacity() ==> values_of(stores.last()@) == vals.skip(
            vals.len() - stores[0].capacity(),
        ),
{
    lemma_appends_upto(stores, vals, rs, vals.len());
    assert(vals.take(vals.len() as int) =~= vals);
    if vals.len() > stores[0].capacity() {
        assert(vals.skip(vals.len() - stores[0].capacity()) =~= newest(
            vals,
            stores[0].capacity(),
        ));
    }
}

/// A run of appends within the capacity, whose records fit into the default
/// fetch budget, is fetched whole by a fetch without count or budget, in
/// the order of the appends.
pub proof fn lemma_appends_then_fetch_all(
    stores: Seq<WebStore>,
    vals: Seq<String>,
    rs: Seq<Result<(), StoreError>>,
)
    requires
        stores.len() == vals.len() + 1,
        rs.len() == vals.len(),
        stores[0].wf(),
        stores[0]@.len() == 0,
        stores[0].spec_next_key() + vals.len() <= KEY_SPACE,
        forall|i: int|
            0 <= i < vals.len() ==> appended(
                #[trigger] stores[i],
                stores[i + 1],
                vals[i],
                rs[i],
            ),
        vals.len() <= stores[0].capacity(),
        total_size(stores.last()@) <= stores[0].spec_config().max_fetch_size,
    ensures
        ({
            let last = stores.last();
            let n = fetch_len(
                last@,
                count_limit(None, last@.len()),
                byte_budget(None, last.spec_config().max_fetch_size),
            );
            &&& n == last@.len()
            &&& values_of(last@.take(n as int)) == vals
        }),
{
    lemma_appends_keep_newest(stores, vals, rs);
    lemma_appends_upto(stores, vals, rs, vals.len());
    let last = stores.last();
    assert(last@.len() == values_of(last@).len());
    assert(last@.take(last@.len() as int) =~= last@);
    lemma_fetch_count(last@, last@.len(), last.spec_config().max_fetch_size as nat);
}

/// Hydrating an empty store from the records of a queue that fits the
/// capacity, in the queue's order, restores that queue exactly: every record
/// is kept, none is evicted.
pub proof fn lemma_hydrate_restores(items: Seq<StoredEvent>, capacity: nat)
    requires
        items.len() <= capacity,
    ensures
        ({
            let all = Seq::<StoredEvent>::empty() + items;
            &&& keep_last(all, capacity) == items
            &&& evicted(all, capacity) == Seq::<StoredEvent>::empty()
        }),
{
    assert(Seq::<StoredEvent>::empty() + items =~= items);
}

/// Whether the durable layer is in use does not change what an append does
/// to the queue: two stores with the same queue, next key and configuration,
/// one persisted and one in memory only, end with the same queue and the
/// same result.
pub proof fn lemma_append_state_independent(
    s1: WebStore,
    p1: WebStore,
    r1: Result<(), StoreError>,
    s2: WebStore,
    p2: WebStore,
    r2: Result<(), StoreError>,
    value: String,
)
    requires
        appended(s1, p1, value, r1),
        appended(s2, p2, value, r2),
        s1@ == s2@,
        s1.spec_next_key() == s2.spec_next_key(),
        s1.spec_config() == s2.spec_config(),
    ensures
        p1@ == p2@,
        r1 == r2,
        p1.spec_next_key() == p2.spec_next_key(),
{
}

/// Tokens whose keys all lie below `n` identify none of the records keyed
/// at or above `n`: after a reset, which keeps the next key, the records
/// appended later carry fresh keys, and removing with tokens fetched before
/// the reset changes nothing.
pub proof fn lemma_stale_tokens_ignored(items: Seq<StoredEvent>, tokens: Seq<StoredEvent>, n: nat)
    requires
        all_keyed(items),
        all_keyed(tokens),
        forall|i: int| 0 <= i < tokens.len() ==> (#[trigger] tokens[i]).idb_key->0 < n,
        forall|i: int| 0 <= i < items.len() ==> (#[trigger] items[i]).idb_key->0 >= n,
    ensures
        survivors(items, tokens) == items,
        matched(items, tokens) == Seq::<StoredEvent>::empty(),
{
    assert forall|i: int| 0 <= i < items.len() implies !identified_by_any(
        tokens,
        #[trigger] items[i],
    ) by {
        assert forall|a: int| 0 <= a < tokens.len() implies !identifies(
            #[trigger] tokens[a],
            items[i],
        ) by {
            assert(tokens[a].idb_key is Some);
            assert(items[i].idb_key is Some);
        }
    }
    lemma_remove_unmatched(items, tokens);
}

} // verus!
