//! What the durable layer holds: a map from record key to JSON text. A
//! persisted store records exactly the operations that keep that map a
//! mirror of its keyed records.
use vstd::prelude::*;

use crate::event::StoredEvent;
use crate::laws::{all_keyed, lemma_hydrate_restores};
use crate::web::{
    deletes_of, evicted, keep_last, keys_below, keys_ordered, matched, recorded, survivors,
    DurableOp, PersistenceState, KEY_SPACE,
};

verus! {

/// The durable contents after carrying out `op`.
pub open spec fn apply_op(m: Map<u32, Seq<char>>, op: DurableOp) -> Map<u32, Seq<char>> {
    match op {
        DurableOp::Write { key, value } => m.insert(key, value@),
        DurableOp::Delete { key } => m.remove(key),
    }
}

/// The durable contents after carrying out `ops` in order.
pub open spec fn apply_ops(m: Map<u32, Seq<char>>, ops: Seq<DurableOp>) -> Map<u32, Seq<char>>
    decreases ops.len(),
{
    if ops.len() == 0 {
        m
    } else {
        apply_op(apply_ops(m, ops.drop_last()), ops.last())
    }
}

/// The durable contents that mirror `items`: each keyed record's text under
/// its key.
pub open spec fn mirror(items: Seq<StoredEvent>) -> Map<u32, Seq<char>>
    decreases items.len(),
{
    if items.len() == 0 {
        Map::empty()
    } else {
        let m = mirror(items.drop_last());
        match items.last().idb_key {
            Some(k) => m.insert(k, items.last().value@),
            None => m,
        }
    }
}

proof fn lemma_apply_push(m: Map<u32, Seq<char>>, ops: Seq<DurableOp>, op: DurableOp)
    ensures
        apply_ops(m, ops.push(op)) == apply_op(apply_ops(m, ops), op),
{
    assert(ops.push(op).drop_last() =~= ops);
}

proof fn lemma_ordered_split(u: Seq<StoredEvent>, e: StoredEvent, n: nat)
    requires
        keys_ordered(u.push(e), n),
    ensures
        keys_ordered(u, n),
        e.idb_key is Some ==> keys_below(u, e.idb_key->0 as nat),
{
    let s = u.push(e);
    assert forall|i: int| 0 <= i < u.len() && (#[trigger] u[i]).idb_key is Some implies u[i].idb_key->0
        < n by {
        assert(s[i] == u[i]);
    }
    assert forall|i: int, j: int|
        0 <= i < j < u.len() && (#[trigger] u[i]).idb_key is Some
            && (#[trigger] u[j]).idb_key is Some implies u[i].idb_key->0 < u[j].idb_key->0 by {
        assert(s[i] == u[i]);
        assert(s[j] == u[j]);
    }
    if e.idb_key is Some {
        assert forall|i: int| 0 <= i < u.len() && (#[trigger] u[i]).idb_key is Some implies u[i].idb_key->0
            < e.idb_key->0 by {
            assert(s[i] == u[i]);
            assert(s[u.len() as int] == e);
        }
    }
}

proof fn lemma_below_drop_last(u: Seq<StoredEvent>, k: nat)
    requires
        keys_below(u, k),
        u.len() > 0,
    ensures
        keys_below(u.drop_last(), k),
        u.last().idb_key is Some ==> u.last().idb_key->0 < k,
{
    let t = u.drop_last();
    assert forall|i: int| 0 <= i < t.len() && (#[trigger] t[i]).idb_key is Some implies t[i].idb_key->0
        < k by {
        assert(t[i] == u[i]);
    }
    assert(u.last() == u[u.len() - 1]);
}

proof fn lemma_mirror_below(u: Seq<StoredEvent>, k: nat)
    requires
        keys_below(u, k),
    ensures
        forall|j: u32| #[trigger] mirror(u).contains_key(j) ==> j < k,
    decreases u.len(),
{
    if u.len() > 0 {
        lemma_below_drop_last(u, k);
        lemma_mirror_below(u.drop_last(), k);
        assert forall|j: u32| #[trigger] mirror(u).contains_key(j) implies j < k by {
            if mirror(u.drop_last()).contains_key(j) {
            } else {
                assert(u.last().idb_key == Some(j));
            }
        }
    }
}

proof fn lemma_deletes_shrink(m: Map<u32, Seq<char>>, x: Seq<StoredEvent>)
    ensures
        forall|j: u32| #[trigger] apply_ops(m, deletes_of(x)).contains_key(j) ==> m.contains_key(j),
    decreases x.len(),
{
    if x.len() > 0 {
        let t = x.drop_last();
        lemma_deletes_shrink(m, t);
        let before = apply_ops(m, deletes_of(t));
        if let Some(k) = x.last().idb_key {
            assert(deletes_of(x) == deletes_of(t).push(DurableOp::Delete { key: k }));
            lemma_apply_push(m, deletes_of(t), DurableOp::Delete { key: k });
            assert(apply_ops(m, deletes_of(x)) == before.remove(k));
        } else {
            assert(deletes_of(x) == deletes_of(t));
        }
        assert forall|j: u32| #[trigger] apply_ops(m, deletes_of(x)).contains_key(j) implies m.contains_key(j) by {
            assert(before.contains_key(j));
        }
    }
}

proof fn lemma_deletes_insert(m: Map<u32, Seq<char>>, x: Seq<StoredEvent>, k: u32, v: Seq<char>)
    requires
        keys_below(x, k as nat),
    ensures
        apply_ops(m.insert(k, v), deletes_of(x)) == apply_ops(m, deletes_of(x)).insert(k, v),
    decreases x.len(),
{
    if x.len() > 0 {
        let t = x.drop_last();
        lemma_below_drop_last(x, k as nat);
        lemma_deletes_insert(m, t, k, v);
        if let Some(j) = x.last().idb_key {
            lemma_apply_push(m.insert(k, v), deletes_of(t), DurableOp::Delete { key: j });
            lemma_apply_push(m, deletes_of(t), DurableOp::Delete { key: j });
            assert(apply_ops(m, deletes_of(t)).insert(k, v).remove(j) =~= apply_ops(
                m,
                deletes_of(t),
            ).remove(j).insert(k, v));
        }
    }
}

proof fn lemma_matched_below(u: Seq<StoredEvent>, tokens: Seq<StoredEvent>, k: nat)
    requires
        keys_below(u, k),
    ensures
        keys_below(matched(u, tokens), k),
    decreases u.len(),
{
    if u.len() > 0 {
        lemma_below_drop_last(u, k);
        lemma_matched_below(u.drop_last(), tokens, k);
        let prev = matched(u.drop_last(), tokens);
        let cur = matched(u, tokens);
        assert forall|i: int| 0 <= i < cur.len() && (#[trigger] cur[i]).idb_key is Some implies cur[i].idb_key->0
            < k by {
            if i < prev.len() {
                assert(cur[i] == prev[i]);
            }
        }
    }
}

/// A durable layer that mirrors the queue and then carries out the deletes
/// a removal records mirrors the queue after the removal.
pub proof fn lemma_remove_mirrors(items: Seq<StoredEvent>, next: nat, tokens: Seq<StoredEvent>)
    requires
        keys_ordered(items, next),
    ensures
        apply_ops(mirror(items), deletes_of(matched(items, tokens))) == mirror(
            survivors(items, tokens),
        ),
    decreases items.len(),
{
    if items.len() > 0 {
        let u = items.drop_last();
        let e = items.last();
        assert(u.push(e) =~= items);
        lemma_ordered_split(u, e, next);
        lemma_remove_mirrors(u, next, tokens);
        let mu = matched(u, tokens);
        let su = survivors(u, tokens);
        let matched_now = matched(items, tokens);
        let survived = survivors(items, tokens);
        if let Some(k) = e.idb_key {
            lemma_matched_below(u, tokens, k as nat);
            lemma_deletes_insert(mirror(u), mu, k, e.value@);
            if matched_now.len() > mu.len() {
                assert(matched_now == mu.push(e));
                assert(survived == su);
                crate::web::lemma_deletes_push(mu, e);
                crate::web::lemma_deletes_one(e);
                assert(deletes_of(mu.push(e)) =~= deletes_of(mu).push(DurableOp::Delete { key: k }));
                lemma_apply_push(mirror(items), deletes_of(mu), DurableOp::Delete { key: k });
                lemma_mirror_below(u, k as nat);
                lemma_deletes_shrink(mirror(u), mu);
                assert(!apply_ops(mirror(u), deletes_of(mu)).contains_key(k));
                assert(apply_ops(mirror(u), deletes_of(mu)).insert(k, e.value@).remove(k) =~= apply_ops(
                    mirror(u),
                    deletes_of(mu),
                ));
            } else {
                assert(survived == su.push(e));
                assert(su.push(e).drop_last() =~= su);
            }
        } else {
            if matched_now.len() > mu.len() {
                crate::web::lemma_deletes_push(mu, e);
                crate::web::lemma_deletes_one(e);
                assert(deletes_of(mu.push(e)) =~= deletes_of(mu));
            } else {
                assert(su.push(e).drop_last() =~= su);
            }
        }
    }
}

/// A durable layer that mirrors the queue and then carries out the deletes
/// a reset records holds nothing.
pub proof fn lemma_reset_mirrors(items: Seq<StoredEvent>, next: nat)
    requires
        keys_ordered(items, next),
    ensures
        apply_ops(mirror(items), deletes_of(items)) == Map::<u32, Seq<char>>::empty(),
    decreases items.len(),
{
    if items.len() > 0 {
        let u = items.drop_last();
        let e = items.last();
        assert(u.push(e) =~= items);
        lemma_ordered_split(u, e, next);
        lemma_reset_mirrors(u, next);
        crate::web::lemma_deletes_push(u, e);
        crate::web::lemma_deletes_one(e);
        if let Some(k) = e.idb_key {
            lemma_deletes_insert(mirror(u), u, k, e.value@);
            assert(deletes_of(u.push(e)) =~= deletes_of(u).push(DurableOp::Delete { key: k }));
            lemma_apply_push(mirror(items), deletes_of(u), DurableOp::Delete { key: k });
            assert(Map::<u32, Seq<char>>::empty().insert(k, e.value@).remove(k) =~= Map::<
                u32,
                Seq<char>,
            >::empty());
        } else {
            assert(deletes_of(u.push(e)) =~= deletes_of(u));
        }
    }
}

proof fn lemma_mirror_push(u: Seq<StoredEvent>, e: StoredEvent)
    ensures
        mirror(u.push(e)) == match e.idb_key {
            Some(k) => mirror(u).insert(k, e.value@),
            None => mirror(u),
        },
{
    assert(u.push(e).drop_last() =~= u);
}

/// Dropping the oldest record drops its key from the mirror.
proof fn lemma_mirror_drop_first(s: Seq<StoredEvent>, next: nat)
    requires
        keys_ordered(s, next),
        s.len() > 0,
    ensures
        mirror(s.drop_first()) == match s[0].idb_key {
            Some(k) => mirror(s).remove(k),
            None => mirror(s),
        },
    decreases s.len(),
{
    let u = s.drop_last();
    let e = s.last();
    assert(u.push(e) =~= s);
    lemma_mirror_push(u, e);
    if s.len() == 1 {
        assert(s.drop_first() =~= Seq::<StoredEvent>::empty());
        assert(u =~= Seq::<StoredEvent>::empty());
        assert(s[0] == e);
        if let Some(k) = e.idb_key {
            assert(Map::<u32, Seq<char>>::empty().insert(k, e.value@).remove(k) =~= Map::<
                u32,
                Seq<char>,
            >::empty());
        }
    } else {
        lemma_ordered_split(u, e, next);
        lemma_mirror_drop_first(u, next);
        assert(u[0] == s[0]);
        assert(u.drop_first().push(e) =~= s.drop_first());
        lemma_mirror_push(u.drop_first(), e);
        if let (Some(k0), Some(k)) = (s[0].idb_key, e.idb_key) {
            assert(s[s.len() - 1] == e);
            assert(k0 < k);
            assert(mirror(u).remove(k0).insert(k, e.value@) =~= mirror(u).insert(
                k,
                e.value@,
            ).remove(k0));
        }
    }
}

/// A durable layer that mirrors the queue and then carries out what an
/// append records, the deletes of the evicted records and the write of the
/// new one, mirrors the queue after the append.
pub proof fn lemma_append_mirrors(items: Seq<StoredEvent>, next: nat, capacity: nat, value: String)
    requires
        keys_ordered(items, next),
        next < KEY_SPACE,
        items.len() <= capacity,
        capacity >= 1,
    ensures
        ({
            let key = next as u32;
            let grown = items.push(StoredEvent { idb_key: Some(key), value });
            apply_ops(
                mirror(items),
                deletes_of(evicted(grown, capacity)).push(DurableOp::Write { key, value }),
            ) == mirror(keep_last(grown, capacity))
        }),
{
    let key = next as u32;
    let e = StoredEvent { idb_key: Some(key), value };
    let grown = items.push(e);
    let w = DurableOp::Write { key, value };
    let dels = deletes_of(evicted(grown, capacity));
    lemma_apply_push(mirror(items), dels, w);
    if items.len() < capacity {
        assert(evicted(grown, capacity) =~= Seq::<StoredEvent>::empty());
        assert(dels =~= Seq::<DurableOp>::empty());
        lemma_mirror_push(items, e);
    } else {
        let first = items[0];
        assert(evicted(grown, capacity) =~= seq![first]);
        crate::web::lemma_deletes_one(first);
        assert(keep_last(grown, capacity) =~= items.drop_first().push(e));
        lemma_mirror_push(items.drop_first(), e);
        lemma_mirror_drop_first(items, next);
        assert(items[0] == grown[0]);
        if let Some(k0) = first.idb_key {
            let d = DurableOp::Delete { key: k0 };
            assert(Seq::<DurableOp>::empty().push(d) =~= seq![d]);
            lemma_apply_push(mirror(items), Seq::<DurableOp>::empty(), d);
            assert(apply_ops(mirror(items), dels) == mirror(items).remove(k0));
            assert(mirror(items).remove(k0).insert(key, value@) =~= mirror(
                items.drop_first(),
            ).insert(key, value@));
        } else {
            assert(dels =~= Seq::<DurableOp>::empty());
        }
    }
}

/// The keys and texts of `items`, in order.
pub open spec fn shape(items: Seq<StoredEvent>) -> Seq<(Option<u32>, Seq<char>)> {
    items.map_values(|e: StoredEvent| (e.idb_key, e.value@))
}

/// Two queues whose keys are ordered and present on every record, with the
/// same mirror, hold the same keys and texts in the same order.
proof fn lemma_mirror_determines(a: Seq<StoredEvent>, na: nat, b: Seq<StoredEvent>, nb: nat)
    requires
        keys_ordered(a, na),
        keys_ordered(b, nb),
        all_keyed(a),
        all_keyed(b),
        mirror(a) == mirror(b),
    ensures
        shape(a) == shape(b),
    decreases a.len() + b.len(),
{
    if a.len() == 0 && b.len() == 0 {
        assert(shape(a) =~= shape(b));
    } else if a.len() == 0 {
        let eb = b.last();
        lemma_mirror_push(b.drop_last(), eb);
        assert(b.drop_last().push(eb) =~= b);
        assert(b[b.len() - 1] == eb);
        assert(mirror(b).contains_key(eb.idb_key->0));
    } else if b.len() == 0 {
        let ea = a.last();
        lemma_mirror_push(a.drop_last(), ea);
        assert(a.drop_last().push(ea) =~= a);
        assert(a[a.len() - 1] == ea);
        assert(mirror(a).contains_key(ea.idb_key->0));
    } else {
        let (ua, ea) = (a.drop_last(), a.last());
        let (ub, eb) = (b.drop_last(), b.last());
        assert(ua.push(ea) =~= a);
        assert(ub.push(eb) =~= b);
        assert(a[a.len() - 1] == ea);
        assert(b[b.len() - 1] == eb);
        let ka = ea.idb_key->0;
        let kb = eb.idb_key->0;
        lemma_ordered_split(ua, ea, na);
        lemma_ordered_split(ub, eb, nb);
        lemma_mirror_push(ua, ea);
        lemma_mirror_push(ub, eb);
        lemma_mirror_below(ua, ka as nat);
        lemma_mirror_below(ub, kb as nat);
        assert(mirror(b).contains_key(ka));
        assert(mirror(a).contains_key(kb));
        assert(ka == kb);
        assert(ea.value@ == mirror(a)[ka]);
        assert(mirror(ua) =~= mirror(a).remove(ka));
        assert(mirror(ub) =~= mirror(b).remove(kb));
        assert forall|i: int| 0 <= i < ua.len() implies (#[trigger] ua[i]).idb_key is Some by {
            assert(ua[i] == a[i]);
        }
        assert forall|i: int| 0 <= i < ub.len() implies (#[trigger] ub[i]).idb_key is Some by {
            assert(ub[i] == b[i]);
        }
        lemma_mirror_determines(ua, na, ub, nb);
        assert(shape(a) =~= shape(ua).push((ea.idb_key, ea.value@)));
        assert(shape(b) =~= shape(ub).push((eb.idb_key, eb.value@)));
    }
}

/// A second store that hydrates from a durable layer mirroring the first
/// store's queue, reading the records in key order, holds the same records
/// with the same keys in the same order, where every record carries a key.
pub proof fn lemma_hydrate_from_mirror(
    items: Seq<StoredEvent>,
    next: nat,
    recs: Seq<StoredEvent>,
    recs_next: nat,
    capacity: nat,
)
    requires
        keys_ordered(items, next),
        all_keyed(items),
        items.len() <= capacity,
        keys_ordered(recs, recs_next),
        all_keyed(recs),
        mirror(recs) == mirror(items),
    ensures
        ({
            let all = Seq::<StoredEvent>::empty() + recs;
            &&& shape(keep_last(all, capacity)) == shape(items)
            &&& evicted(all, capacity) == Seq::<StoredEvent>::empty()
        }),
{
    lemma_mirror_determines(recs, recs_next, items, next);
    assert(recs.len() == shape(recs).len());
    lemma_hydrate_restores(recs, capacity);
}

/// A store whose durable layer is unavailable records nothing for it,
/// whatever the operation would carry out.
pub proof fn lemma_memory_only_records_nothing(ops: Seq<DurableOp>)
    ensures
        recorded(PersistenceState::MemoryOnly, ops) == Seq::<DurableOp>::empty(),
{
}

} // verus!
