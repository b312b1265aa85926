use serde_json::Value;
use transientdb::json::{decode_record, frame_batch};
use transientdb::web::{
    Batch, ConfigError, DurableOp, PersistenceState, StoreError, WebConfig, WebStore,
    MIN_FETCH_SIZE,
};
use transientdb::{Equivalent, StoredEvent};

fn config(max_items: usize, max_fetch_size: usize) -> WebConfig {
    WebConfig {
        write_key: "test-key".to_string(),
        database_name: "test-db".to_string(),
        max_items,
        max_fetch_size,
    }
}

fn store(max_items: usize, max_fetch_size: usize) -> WebStore {
    WebStore::new(config(max_items, max_fetch_size), PersistenceState::MemoryOnly).unwrap()
}

fn persisted(max_items: usize, max_fetch_size: usize) -> WebStore {
    WebStore::new(config(max_items, max_fetch_size), PersistenceState::Persisted).unwrap()
}

fn json(text: &str) -> Value {
    serde_json::from_str(text).unwrap()
}

fn index_item(i: usize) -> Value {
    json(&format!("{{\"index\":{}}}", i))
}

fn fetched_values(s: &WebStore, count: Option<usize>, max_bytes: Option<usize>) -> Vec<Value> {
    match s.fetch(count, max_bytes) {
        Some(r) => r.data.unwrap().batch.iter().map(|t| json(t)).collect(),
        None => Vec::new(),
    }
}

#[test]
fn basic_operations() {
    let mut s = store(1000, 1024);
    assert!(!s.has_data());
    s.append(json("{\"event\":\"test\",\"value\":123}")).unwrap();
    assert!(s.has_data());
    let r = s.fetch(None, None).unwrap();
    let batch = r.data.unwrap();
    assert_eq!(batch.batch.len(), 1);
    assert_eq!(json(&batch.batch[0])["value"], 123);
    assert!(s.has_data());
    s.remove(&r.removable.unwrap());
    assert!(!s.has_data());
}

#[test]
fn fifo_eviction_keeps_newest() {
    let mut s = store(3, 1024);
    for i in 0..5 {
        s.append(index_item(i)).unwrap();
    }
    let items = fetched_values(&s, None, None);
    assert_eq!(items.len(), 3);
    assert_eq!(items[0]["index"], 2);
    assert_eq!(items[1]["index"], 3);
    assert_eq!(items[2]["index"], 4);
}

#[test]
fn appends_within_capacity_fetch_in_order() {
    let mut s = store(100, 4096);
    for i in 0..10 {
        s.append(index_item(i)).unwrap();
    }
    let items = fetched_values(&s, None, None);
    assert_eq!(items.len(), 10);
    for (i, v) in items.iter().enumerate() {
        assert_eq!(v["index"], i);
    }
}

#[test]
fn fetch_count_limit() {
    let mut s = store(1000, 1024);
    for i in 0..10 {
        s.append(index_item(i)).unwrap();
    }
    let items = fetched_values(&s, Some(3), None);
    assert_eq!(items.len(), 3);
    assert_eq!(items[0]["index"], 0);
    assert_eq!(items[2]["index"], 2);
    assert_eq!(fetched_values(&s, Some(50), None).len(), 10);
    assert!(s.fetch(Some(0), None).is_none());
}

#[test]
fn fetch_byte_limit_takes_longest_prefix() {
    let mut s = store(100, 1000);
    for i in 0..10 {
        s.append(json(&format!("{{\"index\":{},\"padding\":\"{}\"}}", i, "x".repeat(50))))
            .unwrap();
    }
    // each record is {"index":i,"padding":"xx..x"}: 11 + 10 + 52 + 1 = 74 bytes
    let items = fetched_values(&s, None, Some(200));
    assert_eq!(items.len(), 2);
    assert_eq!(fetched_values(&s, None, Some(222)).len(), 3);
    assert_eq!(fetched_values(&s, None, Some(221)).len(), 2);
}

#[test]
fn fetch_oldest_too_large_gives_none() {
    let mut s = store(100, 1000);
    s.append(json(&format!("\"{}\"", "y".repeat(300)))).unwrap();
    s.append(json("1")).unwrap();
    assert!(s.fetch(None, Some(100)).is_none());
    assert!(s.has_data());
}

#[test]
fn fetch_empty_gives_none() {
    let s = store(10, 1024);
    assert!(s.fetch(None, None).is_none());
}

#[test]
fn fetch_does_not_mutate() {
    let mut s = store(100, 1024);
    for i in 0..4 {
        s.append(index_item(i)).unwrap();
    }
    let a = s.fetch(Some(2), None).unwrap();
    let b = s.fetch(Some(2), None).unwrap();
    assert_eq!(a.data.unwrap().batch, b.data.unwrap().batch);
    assert_eq!(a.removable.unwrap().len(), 2);
    assert_eq!(s.len(), 4);
}

#[test]
fn remove_round_trip_preserves_order() {
    let mut s = store(100, 4096);
    for i in 0..10 {
        s.append(index_item(i)).unwrap();
    }
    let r = s.fetch(Some(3), None).unwrap();
    s.remove(&r.removable.unwrap());
    assert_eq!(s.len(), 7);
    let items = fetched_values(&s, None, None);
    assert_eq!(items[0]["index"], 3);
    assert_eq!(items[6]["index"], 9);
}

#[test]
fn remove_stale_tokens_is_noop() {
    let mut s = store(100, 4096);
    for i in 0..5 {
        s.append(index_item(i)).unwrap();
    }
    let tokens = s.fetch(Some(2), None).unwrap().removable.unwrap();
    s.remove(&tokens);
    assert_eq!(s.len(), 3);
    s.remove(&tokens);
    assert_eq!(s.len(), 3);
    s.reset();
    s.remove(&tokens);
    assert!(!s.has_data());
}

#[test]
fn reset_empties_queue() {
    let mut s = store(100, 1024);
    for i in 0..5 {
        s.append(index_item(i)).unwrap();
    }
    s.reset();
    assert!(!s.has_data());
    assert!(s.fetch(None, None).is_none());
    s.append(index_item(7)).unwrap();
    assert_eq!(fetched_values(&s, None, None)[0]["index"], 7);
}

#[test]
fn json_types_are_stored() {
    let mut s = store(1000, 1024);
    for t in ["null", "true", "42", "42.5", "\"string\"", "[1,2,3]", "{\"key\":\"value\"}"] {
        s.append(json(t)).unwrap();
    }
    let r = s.fetch(None, None).unwrap();
    let batch = r.data.unwrap().batch;
    assert_eq!(batch.len(), 7);
    assert_eq!(batch[3], "42.5");
    assert_eq!(batch[6], "{\"key\":\"value\"}");
}

#[test]
fn batch_metadata() {
    let mut s = store(1000, 1024);
    s.append(json("{\"event\":\"test\"}")).unwrap();
    let batch = s.fetch(None, None).unwrap().data.unwrap();
    assert_eq!(batch.write_key, "test-key");
    let text = batch.to_json("2024-01-02T03:04:05.000Z");
    assert_eq!(
        text,
        "{\"batch\":[{\"event\":\"test\"}],\"sentAt\":\"2024-01-02T03:04:05.000Z\",\"writeKey\":\"test-key\"}"
    );
    let v = json(&text);
    assert_eq!(v["writeKey"], "test-key");
    assert_eq!(v["batch"][0]["event"], "test");
}

#[test]
fn batch_to_json_escapes_strings() {
    let b = Batch { batch: vec!["1".to_string(), "2".to_string()], write_key: "a\"b".to_string() };
    let text = b.to_json("t");
    assert_eq!(text, "{\"batch\":[1,2],\"sentAt\":\"t\",\"writeKey\":\"a\\\"b\"}");
    let c = Batch { batch: vec![], write_key: "\u{1}\n\\\u{7f}".to_string() };
    assert_eq!(
        c.to_json("\u{e9}"),
        "{\"batch\":[],\"sentAt\":\"\u{e9}\",\"writeKey\":\"\\u0001\\n\\\\\u{7f}\"}"
    );
}

#[test]
fn frame_batch_joins_records() {
    assert_eq!(frame_batch(&vec![], "\"s\"", "\"k\""), "{\"batch\":[],\"sentAt\":\"s\",\"writeKey\":\"k\"}");
    let items = vec!["{}".to_string(), "[]".to_string(), "3".to_string()];
    assert_eq!(frame_batch(&items, "0", "1"), "{\"batch\":[{},[],3],\"sentAt\":0,\"writeKey\":1}");
}

#[test]
fn persistence_state_reported() {
    let s = store(10, 1024);
    assert_eq!(s.persistence_state(), PersistenceState::MemoryOnly);
    assert!(!s.is_persisted());
    let p = persisted(10, 1024);
    assert_eq!(p.persistence_state(), PersistenceState::Persisted);
    assert!(p.is_persisted());
}

#[test]
fn rejects_tiny_max_fetch_size() {
    let r = WebStore::new(config(1000, 50), PersistenceState::MemoryOnly);
    assert_eq!(r.err(), Some(ConfigError::FetchSizeTooSmall));
    assert!(WebStore::new(config(1000, MIN_FETCH_SIZE - 1), PersistenceState::MemoryOnly).is_err());
    assert!(WebStore::new(config(1000, MIN_FETCH_SIZE), PersistenceState::MemoryOnly).is_ok());
}

#[test]
fn rejects_zero_max_items() {
    let r = WebStore::new(config(0, 1024), PersistenceState::Persisted);
    assert_eq!(r.err(), Some(ConfigError::NoCapacity));
    assert_eq!(WebStore::check_config(&config(0, 10)), Err(ConfigError::FetchSizeTooSmall));
}

#[test]
fn memory_only_records_no_durable_ops() {
    let mut s = store(2, 1024);
    for i in 0..3 {
        s.append(index_item(i)).unwrap();
    }
    let t = s.fetch(Some(1), None).unwrap().removable.unwrap();
    s.remove(&t);
    s.reset();
    assert!(s.take_pending().is_empty());
}

#[test]
fn persisted_records_writes_and_deletes() {
    let mut s = persisted(2, 1024);
    for i in 0..3 {
        s.append(index_item(i)).unwrap();
    }
    let ops = s.take_pending();
    assert_eq!(ops.len(), 4);
    assert!(matches!(&ops[0], DurableOp::Write { key: 0, value } if value == "{\"index\":0}"));
    assert!(matches!(&ops[1], DurableOp::Write { key: 1, .. }));
    assert!(matches!(&ops[2], DurableOp::Delete { key: 0 }));
    assert!(matches!(&ops[3], DurableOp::Write { key: 2, .. }));
    assert!(s.take_pending().is_empty());
    let t = s.fetch(Some(1), None).unwrap().removable.unwrap();
    s.remove(&t);
    s.reset();
    let ops = s.take_pending();
    assert_eq!(ops.len(), 2);
    assert!(matches!(&ops[0], DurableOp::Delete { key: 1 }));
    assert!(matches!(&ops[1], DurableOp::Delete { key: 2 }));
}

#[test]
fn hydration_restores_records_and_keys() {
    let mut s = persisted(1000, 1024);
    s.hydrate(vec![
        "{\"_idb_key\":4,\"event\":\"persisted_event\",\"value\":42}".to_string(),
        "not json".to_string(),
        "{\"_idb_key\":9,\"event\":\"second\"}".to_string(),
    ]);
    assert_eq!(s.len(), 2);
    let r = s.fetch(None, None).unwrap();
    let batch = r.data.unwrap().batch;
    assert_eq!(batch[0], "{\"event\":\"persisted_event\",\"value\":42}");
    let tokens = r.removable.unwrap();
    assert_eq!(tokens[0].idb_key, Some(4));
    assert_eq!(tokens[1].idb_key, Some(9));
    s.append(index_item(1)).unwrap();
    let ops = s.take_pending();
    assert!(matches!(&ops[0], DurableOp::Write { key: 10, .. }));
}

#[test]
fn hydration_round_trip_through_durable_ops() {
    let mut first = persisted(1000, 1024);
    for i in 0..4 {
        first.append(index_item(i)).unwrap();
    }
    let t = first.fetch(Some(1), None).unwrap().removable.unwrap();
    first.remove(&t);
    let mut durable: std::collections::BTreeMap<u32, String> = std::collections::BTreeMap::new();
    for op in first.take_pending() {
        match op {
            DurableOp::Write { key, value } => {
                let mut v = json(&value);
                v.as_object_mut().unwrap().insert("_idb_key".to_string(), Value::from(key));
                durable.insert(key, v.to_string());
            }
            DurableOp::Delete { key } => {
                durable.remove(&key);
            }
        }
    }
    let mut second = persisted(1000, 1024);
    second.hydrate(durable.values().cloned().collect());
    assert_eq!(
        fetched_values(&second, None, None),
        fetched_values(&first, None, None)
    );
    let a = first.fetch(None, None).unwrap().removable.unwrap();
    let b = second.fetch(None, None).unwrap().removable.unwrap();
    let keys_a: Vec<Option<u32>> = a.iter().map(|e| e.idb_key).collect();
    let keys_b: Vec<Option<u32>> = b.iter().map(|e| e.idb_key).collect();
    assert_eq!(keys_a, keys_b);
}

#[test]
fn hydration_keeps_every_record_and_evicts() {
    let mut s = persisted(3, 1024);
    s.hydrate_events(vec![
        StoredEvent { idb_key: Some(5), value: "1".to_string() },
        StoredEvent { idb_key: Some(3), value: "2".to_string() },
        StoredEvent { idb_key: None, value: "3".to_string() },
        StoredEvent { idb_key: Some(7), value: "4".to_string() },
    ]);
    assert_eq!(s.len(), 3);
    assert_eq!(fetched_values(&s, None, None), vec![json("2"), json("3"), json("4")]);
    let ops = s.take_pending();
    assert_eq!(ops.len(), 1);
    assert!(matches!(&ops[0], DurableOp::Delete { key: 5 }));
    s.append(json("5")).unwrap();
    let ops = s.take_pending();
    assert!(matches!(&ops[ops.len() - 1], DurableOp::Write { key: 8, .. }));
}

#[test]
fn hydration_keeps_out_of_order_keys() {
    let mut s = persisted(10, 1024);
    s.hydrate(vec![
        "{\"_idb_key\":5,\"n\":1}".to_string(),
        "{\"_idb_key\":3,\"n\":2}".to_string(),
    ]);
    assert_eq!(s.len(), 2);
    let r = s.fetch(None, None).unwrap();
    let keys: Vec<Option<u32>> = r.removable.unwrap().iter().map(|e| e.idb_key).collect();
    assert_eq!(keys, vec![Some(5), Some(3)]);
    s.append(json("0")).unwrap();
    assert!(matches!(&s.take_pending()[0], DurableOp::Write { key: 6, .. }));
}

#[test]
fn stale_tokens_after_reset_and_appends_are_ignored() {
    let mut s = store(100, 4096);
    for i in 0..3 {
        s.append(index_item(i)).unwrap();
    }
    let tokens = s.fetch(None, None).unwrap().removable.unwrap();
    s.reset();
    for i in 0..3 {
        s.append(index_item(i)).unwrap();
    }
    s.remove(&tokens);
    assert_eq!(s.len(), 3);
}

#[test]
fn persisted_and_memory_only_behave_alike() {
    let mut a = store(2, 1024);
    let mut b = persisted(2, 1024);
    for i in 0..5 {
        assert_eq!(a.append(index_item(i)), b.append(index_item(i)));
    }
    assert_eq!(fetched_values(&a, None, None), fetched_values(&b, None, None));
    let ta = a.fetch(Some(1), None).unwrap().removable.unwrap();
    let tb = b.fetch(Some(1), None).unwrap().removable.unwrap();
    a.remove(&ta);
    b.remove(&tb);
    assert_eq!(fetched_values(&a, None, None), fetched_values(&b, None, None));
}

#[test]
fn keys_exhausted_refuses_append() {
    let mut s = store(10, 1024);
    s.hydrate_events(vec![StoredEvent { idb_key: Some(u32::MAX), value: "0".to_string() }]);
    assert_eq!(s.append(json("1")), Err(StoreError::KeysExhausted));
    assert_eq!(s.len(), 1);
}

#[test]
fn decode_record_strips_key() {
    let e = decode_record("{\"a\":1,\"_idb_key\":12}").unwrap();
    assert_eq!(e.idb_key, Some(12));
    assert_eq!(e.value, "{\"a\":1}");
    let e = decode_record("[1,2]").unwrap();
    assert_eq!(e.idb_key, None);
    assert_eq!(e.value, "[1,2]");
    let e = decode_record("{\"_idb_key\":99999999999}").unwrap();
    assert_eq!(e.idb_key, None);
    assert!(decode_record("{").is_none());
}

#[test]
fn token_equality_by_key_then_content() {
    let a = StoredEvent { idb_key: Some(1), value: "x".to_string() };
    let b = StoredEvent { idb_key: Some(1), value: "y".to_string() };
    let c = StoredEvent { idb_key: Some(2), value: "x".to_string() };
    let d = StoredEvent { idb_key: None, value: "x".to_string() };
    assert!(a.equals(&b));
    assert!(!a.equals(&c));
    assert!(a.equals(&d));
    assert!(d.equals(&c));
    assert!(!d.equals(&b));
}

#[test]
fn unicode_size_counts_bytes() {
    let mut s = store(10, 1000);
    s.append(json("\"\u{e9}\u{e9}\"")).unwrap();
    // "éé" encodes to 6 bytes including the quotes
    assert!(s.fetch(None, Some(5)).is_none());
    assert_eq!(fetched_values(&s, None, Some(6)).len(), 1);
}
