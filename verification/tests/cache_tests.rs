use supervive_core::json::JsonValue;
use supervive_core::store::DiskCache;

fn obj1(key: &str, num: &str) -> JsonValue {
    JsonValue::Obj(vec![(key.to_string(), JsonValue::Num(num.to_string()))])
}

#[test]
fn set_then_immediate_get_returns_value() {
    let mut cache = DiskCache::new();
    cache.set("k".to_string(), obj1("a", "1"), 10_000, false, 0);
    assert_eq!(cache.get("k", 0), Some(obj1("a", "1")));
}

#[test]
fn get_returns_value_iff_now_before_deadline() {
    let mut cache = DiskCache::new();
    cache.set("k".to_string(), obj1("a", "1"), 10_000, false, 0);
    assert_eq!(cache.get("k", 9_999), Some(obj1("a", "1")));
    assert_eq!(cache.get("k", 10_000), None);
}

#[test]
fn missing_key_is_absent() {
    let mut cache = DiskCache::new();
    assert_eq!(cache.get("nope", 0), None);
}

#[test]
fn non_sliding_entry_scenario() {
    // set at t=0 with a ten-second life; present at t=5s, gone at t=11s,
    // and gone from the persisted text as well.
    let mut cache = DiskCache::new();
    cache.set("k".to_string(), obj1("a", "1"), 10_000, false, 0);
    assert_eq!(cache.get("k", 5_000), Some(obj1("a", "1")));
    assert_eq!(cache.get("k", 11_000), None);
    assert_eq!(cache.len(), 0);
    assert_eq!(cache.to_text(), "{}");
}

#[test]
fn repeated_reads_do_not_extend_a_non_sliding_entry() {
    let mut cache = DiskCache::new();
    cache.set("k".to_string(), obj1("a", "1"), 10_000, false, 0);
    let before = cache.to_text();
    for t in [1_000u64, 2_000, 3_000, 9_999] {
        assert_eq!(cache.get("k", t), Some(obj1("a", "1")));
    }
    // the entry is exactly as written: same persisted image, same deadline
    assert_eq!(cache.to_text(), before);
    assert_eq!(cache.get("k", 10_000), None);
}

#[test]
fn sliding_entry_scenario() {
    // set at t=0 with a ten-second window; a read at t=8s resets the
    // deadline to t=18s, so the entry is still there at t=15s.
    let mut cache = DiskCache::new();
    cache.set("m".to_string(), obj1("b", "2"), 10_000, true, 0);
    assert_eq!(cache.get("m", 8_000), Some(obj1("b", "2")));
    assert_eq!(cache.get("m", 15_000), Some(obj1("b", "2")));
}

#[test]
fn sliding_entry_lapses_when_untouched() {
    // after the read at t=8s the deadline is t=18s; untouched until t=19s,
    // the entry is gone.
    let mut cache = DiskCache::new();
    cache.set("m".to_string(), obj1("b", "2"), 10_000, true, 0);
    assert_eq!(cache.get("m", 8_000), Some(obj1("b", "2")));
    assert_eq!(cache.get("m", 19_000), None);
}

#[test]
fn set_overwrites_existing_entry() {
    let mut cache = DiskCache::new();
    cache.set("k".to_string(), obj1("a", "1"), 10_000, false, 0);
    cache.set("k".to_string(), obj1("a", "2"), 10_000, false, 0);
    assert_eq!(cache.len(), 1);
    assert_eq!(cache.get("k", 0), Some(obj1("a", "2")));
}

#[test]
fn returned_document_is_a_copy() {
    let mut cache = DiskCache::new();
    cache.set("k".to_string(), obj1("a", "1"), 10_000, false, 0);
    let mut taken = cache.get("k", 0).unwrap();
    if let JsonValue::Obj(pairs) = &mut taken {
        pairs.clear();
    }
    // mutating the returned copy does not touch the cached document
    assert_eq!(cache.get("k", 0), Some(obj1("a", "1")));
}

#[test]
fn dirty_flag_tracks_mutations() {
    let mut cache = DiskCache::new();
    assert!(!cache.take_dirty());
    cache.set("k".to_string(), obj1("a", "1"), 10_000, false, 0);
    assert!(cache.take_dirty());
    // a plain read of a non-sliding entry is the read-only fast path
    assert_eq!(cache.get("k", 0), Some(obj1("a", "1")));
    assert!(!cache.take_dirty());
    // an expiring read rewrites
    assert_eq!(cache.get("k", 20_000), None);
    assert!(cache.take_dirty());
}

#[test]
fn exact_persisted_text_of_one_entry() {
    let mut cache = DiskCache::new();
    cache.set("k".to_string(), JsonValue::Null, 1_000, false, 0);
    assert_eq!(
        cache.to_text(),
        "{\"k\":{\"value\":null,\"expires_at\":1.000,\"sliding\":false,\"sliding_ttl\":0.000}}"
    );
}

#[test]
fn exact_persisted_text_with_fractional_seconds() {
    let mut cache = DiskCache::new();
    cache.set("k".to_string(), JsonValue::Bool(true), 10_000, true, 1_234);
    assert_eq!(
        cache.to_text(),
        "{\"k\":{\"value\":true,\"expires_at\":11.234,\"sliding\":true,\"sliding_ttl\":10.000}}"
    );
}

#[test]
fn persistence_round_trip_preserves_entries() {
    let mut cache = DiskCache::new();
    let doc = JsonValue::Obj(vec![
        ("names".to_string(), JsonValue::Arr(vec![
            JsonValue::Str("quote \" and backslash \\".to_string()),
            JsonValue::Num("-12.5e3".to_string()),
            JsonValue::Null,
        ])),
        ("empty".to_string(), JsonValue::Obj(vec![])),
    ]);
    cache.set("search:abc".to_string(), doc, 7_000, false, 500);
    cache.set("match:pc:123".to_string(), JsonValue::Bool(false), 9_000, true, 500);
    let text = cache.to_text();

    // discard the store; rebuild from the same backing text
    let mut reloaded = DiskCache::from_text(text.as_str());
    assert_eq!(reloaded.len(), 2);
    let expected = JsonValue::Obj(vec![
        ("names".to_string(), JsonValue::Arr(vec![
            JsonValue::Str("quote \" and backslash \\".to_string()),
            JsonValue::Num("-12.5e3".to_string()),
            JsonValue::Null,
        ])),
        ("empty".to_string(), JsonValue::Obj(vec![])),
    ]);
    assert_eq!(reloaded.get("search:abc", 1_000), Some(expected));
    assert_eq!(reloaded.get("match:pc:123", 1_000), Some(JsonValue::Bool(false)));
    // the sliding entry still slides after the reload
    assert_eq!(reloaded.get("match:pc:123", 9_500), Some(JsonValue::Bool(false)));
}

#[test]
fn unreadable_backing_text_yields_an_empty_store() {
    let mut a = DiskCache::from_text("");
    assert_eq!(a.len(), 0);
    assert_eq!(a.get("k", 0), None);
    let b = DiskCache::from_text("not a cache file at all");
    assert_eq!(b.len(), 0);
    let c = DiskCache::from_text("{\"k\":{\"value\":null}}");
    assert_eq!(c.len(), 0);
    let d = DiskCache::from_text("{} ");
    assert_eq!(d.len(), 0);
}

#[test]
fn empty_store_round_trips() {
    let cache = DiskCache::new();
    assert_eq!(cache.to_text(), "{}");
    let reloaded = DiskCache::from_text("{}");
    assert_eq!(reloaded.len(), 0);
}
