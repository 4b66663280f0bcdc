use agm_cli::keyed::KeyedMap;
use agm_cli::runtime::duration::{parse_iso8601_duration, SECS_PER_DAY, SECS_PER_HOUR, SECS_PER_MINUTE};
use agm_cli::runtime::memory::{
    is_expired, mem_path, MemFile, MemFileEntry, MemoryAction, MemoryEntry, MemoryError, MemoryResult,
    MemoryRuntime, MemoryScope, MemoryTtl, MAX_MEMORY_VALUE_BYTES,
};
use agm_cli::commands::mem_cmd::{
    gc_summary, listing_row, lookup_persisted, mem_listing, package_from_source, store_error_exit_code, StoreErrorKind,
};
use agm_cli::runtime::memory::GcReport;
use time::format_description::well_known::Rfc3339;
use time::OffsetDateTime;

fn test_runtime() -> MemoryRuntime {
    MemoryRuntime::new("test.agm.mem", "global.mem", "test.pkg")
}

fn action(key: &str, topic: &str, act: MemoryAction, value: Option<String>, scope: Option<MemoryScope>) -> MemoryEntry {
    MemoryEntry {
        key: key.to_owned(),
        topic: topic.to_owned(),
        action: act,
        value,
        scope,
        ttl: None,
        query: None,
        max_results: None,
    }
}

fn upsert_entry(rt: &mut MemoryRuntime, node_id: &str, scope: MemoryScope, key: &str, topic: &str, value: &str) {
    let mut entry = action(key, topic, MemoryAction::Upsert, Some(value.to_owned()), Some(scope));
    entry.ttl = Some(MemoryTtl::Permanent);
    assert!(matches!(rt.execute_action(node_id, &entry), Ok(MemoryResult::Upserted)));
}

fn get_entry(rt: &mut MemoryRuntime, node_id: &str, scope: MemoryScope, key: &str) -> Option<MemFileEntry> {
    let entry = action(key, "t", MemoryAction::Get, None, Some(scope));
    match rt.execute_action(node_id, &entry) {
        Ok(MemoryResult::Value(v)) => v,
        _ => panic!("expected Value result"),
    }
}

fn delete_entry(rt: &mut MemoryRuntime, node_id: &str, scope: MemoryScope, key: &str) -> bool {
    let entry = action(key, "t", MemoryAction::Delete, None, Some(scope));
    match rt.execute_action(node_id, &entry) {
        Ok(MemoryResult::Deleted(b)) => b,
        _ => panic!("expected Deleted result"),
    }
}

fn list_entry(rt: &mut MemoryRuntime, node_id: &str, scope: MemoryScope, topic: &str) -> Vec<(String, MemFileEntry)> {
    let entry = action("", topic, MemoryAction::List, None, Some(scope));
    match rt.execute_action(node_id, &entry) {
        Ok(MemoryResult::List(v)) => v,
        _ => panic!("expected List result"),
    }
}

fn ts_before(d: time::Duration) -> String {
    (OffsetDateTime::now_utc() - d).format(&Rfc3339).expect("format failed")
}

fn old_ts() -> String {
    ts_before(time::Duration::days(30))
}

fn stored(topic: &str, ttl: MemoryTtl, value: &str, stamp: &str) -> MemFileEntry {
    MemFileEntry {
        topic: topic.to_owned(),
        scope: MemoryScope::Project,
        ttl,
        value: value.to_owned(),
        created_at: stamp.to_owned(),
        updated_at: stamp.to_owned(),
    }
}

fn file_with(entries: Vec<(String, MemFileEntry)>) -> MemFile {
    let mut m = KeyedMap::new();
    for (k, e) in entries {
        m.insert(k, e);
    }
    MemFile { format_version: "1.0".to_owned(), package: "test.pkg".to_owned(), updated_at: old_ts(), entries: m }
}

fn seeded_runtime(entries: Vec<(String, MemFileEntry)>) -> MemoryRuntime {
    MemoryRuntime::with_stores("test.agm.mem", file_with(entries), "global.mem", file_with(Vec::new()), "test.pkg")
}

fn now_nanos() -> i128 {
    std::time::SystemTime::now().duration_since(std::time::UNIX_EPOCH).unwrap().as_nanos() as i128
}

const DAY_NANOS: i128 = 86_400_000_000_000;

#[test]
fn test_mem_path_appends_mem_extension() {
    assert_eq!(mem_path("/some/path/file.agm"), "/some/path/file.agm.mem");
}

#[test]
fn test_new_no_existing_files_creates_empty_stores() {
    let mut rt = test_runtime();
    assert_eq!(rt.project_store().entries.len(), 0);
    assert_eq!(rt.global_store().entries.len(), 0);
    assert!(list_entry(&mut rt, "n", MemoryScope::Node, "").is_empty());
    assert!(list_entry(&mut rt, "n", MemoryScope::Session, "").is_empty());
}

#[test]
fn test_upsert_get_node_scope_roundtrip() {
    let mut rt = test_runtime();
    upsert_entry(&mut rt, "node1", MemoryScope::Node, "key1", "topic", "value1");
    let entry = get_entry(&mut rt, "node1", MemoryScope::Node, "key1");
    assert!(entry.is_some());
    assert_eq!(entry.unwrap().value, "value1");
}

#[test]
fn test_upsert_get_session_scope_roundtrip() {
    let mut rt = test_runtime();
    upsert_entry(&mut rt, "node1", MemoryScope::Session, "key1", "topic", "hello");
    let entry = get_entry(&mut rt, "node1", MemoryScope::Session, "key1");
    assert!(entry.is_some());
    assert_eq!(entry.unwrap().value, "hello");
}

#[test]
fn test_upsert_get_project_scope_roundtrip() {
    let mut rt = test_runtime();
    upsert_entry(&mut rt, "node1", MemoryScope::Project, "pk1", "t", "proj_val");
    let entry = get_entry(&mut rt, "node1", MemoryScope::Project, "pk1");
    assert!(entry.is_some());
    assert_eq!(entry.unwrap().value, "proj_val");
}

#[test]
fn test_upsert_get_global_scope_roundtrip() {
    let mut rt = test_runtime();
    upsert_entry(&mut rt, "node1", MemoryScope::Global, "gk1", "t", "global_val");
    let entry = get_entry(&mut rt, "node1", MemoryScope::Global, "gk1");
    assert!(entry.is_some());
    assert_eq!(entry.unwrap().value, "global_val");
}

#[test]
fn test_get_node_scope_isolates_by_node_id() {
    let mut rt = test_runtime();
    upsert_entry(&mut rt, "nodeA", MemoryScope::Node, "k", "t", "a_value");
    upsert_entry(&mut rt, "nodeB", MemoryScope::Node, "k", "t", "b_value");
    let a = get_entry(&mut rt, "nodeA", MemoryScope::Node, "k");
    let b = get_entry(&mut rt, "nodeB", MemoryScope::Node, "k");
    assert_eq!(a.unwrap().value, "a_value");
    assert_eq!(b.unwrap().value, "b_value");
}

#[test]
fn test_upsert_existing_key_updates_value() {
    let mut rt = test_runtime();
    upsert_entry(&mut rt, "n", MemoryScope::Session, "k", "t", "v1");
    upsert_entry(&mut rt, "n", MemoryScope::Session, "k", "t", "v2");
    assert_eq!(get_entry(&mut rt, "n", MemoryScope::Session, "k").unwrap().value, "v2");
}

#[test]
fn test_upsert_existing_key_preserves_created_at() {
    let mut rt = test_runtime();
    upsert_entry(&mut rt, "n", MemoryScope::Session, "k", "t", "v1");
    let first = get_entry(&mut rt, "n", MemoryScope::Session, "k").unwrap();
    let original_created = first.created_at.clone();
    upsert_entry(&mut rt, "n", MemoryScope::Session, "k", "t", "v2");
    let second = get_entry(&mut rt, "n", MemoryScope::Session, "k").unwrap();
    assert_eq!(second.created_at, original_created);
    assert_eq!(second.value, "v2");
}

#[test]
fn test_delete_existing_key_returns_true() {
    let mut rt = test_runtime();
    upsert_entry(&mut rt, "n", MemoryScope::Session, "k", "t", "v");
    assert!(delete_entry(&mut rt, "n", MemoryScope::Session, "k"));
}

#[test]
fn test_delete_nonexistent_key_returns_false() {
    let mut rt = test_runtime();
    assert!(!delete_entry(&mut rt, "n", MemoryScope::Session, "nonexistent"));
}

#[test]
fn memory_test_list_filters_by_topic() {
    let mut rt = test_runtime();
    upsert_entry(&mut rt, "n", MemoryScope::Session, "k1", "topicA", "v1");
    upsert_entry(&mut rt, "n", MemoryScope::Session, "k2", "topicB", "v2");
    upsert_entry(&mut rt, "n", MemoryScope::Session, "k3", "topicA", "v3");
    let results = list_entry(&mut rt, "n", MemoryScope::Session, "topicA");
    assert_eq!(results.len(), 2);
    assert!(results.iter().all(|(_, e)| e.topic == "topicA"));
    assert_eq!(results[0].0, "k1");
    assert_eq!(results[1].0, "k3");
}

#[test]
fn test_list_empty_scope_returns_empty() {
    let mut rt = test_runtime();
    assert!(list_entry(&mut rt, "n", MemoryScope::Session, "anything").is_empty());
}

#[test]
fn test_clear_node_scope_removes_only_target_node() {
    let mut rt = test_runtime();
    upsert_entry(&mut rt, "nodeA", MemoryScope::Node, "k", "t", "a");
    upsert_entry(&mut rt, "nodeB", MemoryScope::Node, "k", "t", "b");
    rt.clear_node_scope("nodeA");
    assert!(get_entry(&mut rt, "nodeA", MemoryScope::Node, "k").is_none());
    assert!(get_entry(&mut rt, "nodeB", MemoryScope::Node, "k").is_some());
}

#[test]
fn test_clear_session_scope_removes_all_session_entries() {
    let mut rt = test_runtime();
    upsert_entry(&mut rt, "n", MemoryScope::Session, "k1", "t", "v1");
    upsert_entry(&mut rt, "n", MemoryScope::Session, "k2", "t", "v2");
    rt.clear_session_scope();
    assert!(list_entry(&mut rt, "n", MemoryScope::Session, "").is_empty());
}

#[test]
fn test_clear_session_scope_preserves_project_and_global() {
    let mut rt = test_runtime();
    upsert_entry(&mut rt, "n", MemoryScope::Project, "pk", "t", "pv");
    upsert_entry(&mut rt, "n", MemoryScope::Global, "gk", "t", "gv");
    upsert_entry(&mut rt, "n", MemoryScope::Session, "sk", "t", "sv");
    rt.clear_session_scope();
    assert!(list_entry(&mut rt, "n", MemoryScope::Session, "").is_empty());
    assert_eq!(rt.project_store().entries.len(), 1);
    assert_eq!(rt.global_store().entries.len(), 1);
}

#[test]
fn test_expire_removes_duration_expired_entries() {
    let mut rt = seeded_runtime(vec![(
        "expired_key".to_owned(),
        stored("t", MemoryTtl::Duration("P7D".to_owned()), "expired", &old_ts()),
    )]);
    let removed = rt.expire();
    assert_eq!(removed, 1);
    assert!(get_entry(&mut rt, "n", MemoryScope::Project, "expired_key").is_none());
}

#[test]
fn test_expire_leaves_permanent_entries() {
    let mut rt = seeded_runtime(vec![("perm_key".to_owned(), stored("t", MemoryTtl::Permanent, "keep", &old_ts()))]);
    assert_eq!(rt.expire(), 0);
    assert!(get_entry(&mut rt, "n", MemoryScope::Project, "perm_key").is_some());
}

#[test]
fn test_expire_leaves_session_ttl_entries() {
    let mut rt =
        seeded_runtime(vec![("sess_key".to_owned(), stored("t", MemoryTtl::Session, "keep_session", &old_ts()))]);
    assert_eq!(rt.expire(), 0);
    assert!(get_entry(&mut rt, "n", MemoryScope::Project, "sess_key").is_some());
}

#[test]
fn test_expire_session_store_at_later_instant() {
    let mut rt = test_runtime();
    let mut entry = action("k", "t", MemoryAction::Upsert, Some("v".to_owned()), Some(MemoryScope::Session));
    entry.ttl = Some(MemoryTtl::Duration("P7D".to_owned()));
    rt.execute_action("n", &entry).unwrap();
    upsert_entry(&mut rt, "n", MemoryScope::Session, "keep", "t", "v");
    let now = now_nanos();
    assert_eq!(rt.expire_at(now + DAY_NANOS, "2020-01-01T00:00:00Z"), 0);
    assert_eq!(rt.expire_at(now + 30 * DAY_NANOS, "2020-01-01T00:00:00Z"), 1);
    assert!(get_entry(&mut rt, "n", MemoryScope::Session, "k").is_none());
    assert!(get_entry(&mut rt, "n", MemoryScope::Session, "keep").is_some());
}

#[test]
fn test_is_expired_boundaries() {
    let e = stored("t", MemoryTtl::Duration("PT1M".to_owned()), "v", "1970-01-01T00:00:10Z");
    let sec: i128 = 1_000_000_000;
    assert!(!is_expired(&e, 69 * sec));
    assert!(is_expired(&e, 70 * sec));
    let bad = stored("t", MemoryTtl::Duration("P1M".to_owned()), "v", "1970-01-01T00:00:10Z");
    assert!(!is_expired(&bad, 1_000_000 * sec));
    let unparsable = stored("t", MemoryTtl::Duration("PT1M".to_owned()), "v", "yesterday");
    assert!(!is_expired(&unparsable, 1_000_000 * sec));
}

#[test]
fn test_parse_duration_p7d_returns_seconds() {
    assert_eq!(parse_iso8601_duration("P7D").unwrap(), 7 * SECS_PER_DAY);
}

#[test]
fn test_parse_duration_pt1h_returns_seconds() {
    assert_eq!(parse_iso8601_duration("PT1H").unwrap(), SECS_PER_HOUR);
}

#[test]
fn test_parse_duration_pt30m_returns_seconds() {
    assert_eq!(parse_iso8601_duration("PT30M").unwrap(), 30 * SECS_PER_MINUTE);
}

#[test]
fn test_parse_duration_p30dt12h_returns_seconds() {
    assert_eq!(parse_iso8601_duration("P30DT12H").unwrap(), 30 * SECS_PER_DAY + 12 * SECS_PER_HOUR);
}

#[test]
fn test_parse_duration_p1m_returns_error() {
    assert!(parse_iso8601_duration("P1M").is_err(), "P1M (months) should be rejected");
}

#[test]
fn test_parse_duration_empty_returns_error() {
    assert!(parse_iso8601_duration("P").is_err(), "Empty duration 'P' should be rejected");
    assert!(parse_iso8601_duration("PT").is_err(), "Empty duration 'PT' should be rejected");
}

#[test]
fn test_parse_duration_other_errors() {
    assert!(parse_iso8601_duration("7D").is_err());
    assert!(parse_iso8601_duration("P1Y").is_err());
    assert!(parse_iso8601_duration("PT10S").is_err());
    assert!(parse_iso8601_duration("PxD").is_err());
    assert_eq!(parse_iso8601_duration("P0D").unwrap(), 0);
    assert_eq!(parse_iso8601_duration("P1DT1H1M").unwrap(), SECS_PER_DAY + SECS_PER_HOUR + SECS_PER_MINUTE);
}

#[test]
fn test_gc_returns_correct_report() {
    let mut rt = seeded_runtime(vec![("e".to_owned(), stored("t", MemoryTtl::Duration("P1D".to_owned()), "old", &old_ts()))]);
    let report = rt.gc();
    assert_eq!(report.expired_removed, 1);
    assert_eq!(report.orphan_removed, 0);
}

#[test]
fn test_execute_action_defaults_scope_to_session() {
    let mut rt = test_runtime();
    let mut entry = action("k", "t", MemoryAction::Upsert, Some("v".to_owned()), None);
    entry.ttl = Some(MemoryTtl::Permanent);
    rt.execute_action("node1", &entry).unwrap();
    assert!(get_entry(&mut rt, "node1", MemoryScope::Session, "k").is_some());
    assert!(get_entry(&mut rt, "node1", MemoryScope::Node, "k").is_none());
}

#[test]
fn test_execute_action_defaults_ttl_to_session() {
    let mut rt = test_runtime();
    let entry = action("k", "t", MemoryAction::Upsert, Some("v".to_owned()), Some(MemoryScope::Session));
    rt.execute_action("node1", &entry).unwrap();
    let stored = get_entry(&mut rt, "node1", MemoryScope::Session, "k").unwrap();
    assert!(matches!(stored.ttl, MemoryTtl::Session));
}

#[test]
fn test_execute_action_search_returns_unsupported() {
    let mut rt = test_runtime();
    let mut entry = action("k", "t", MemoryAction::Search, None, None);
    entry.query = Some("something".to_owned());
    entry.max_results = Some(5);
    assert!(matches!(rt.execute_action("node1", &entry), Ok(MemoryResult::SearchUnsupported)));
}

#[test]
fn test_lifecycle_store_retrieve_expire_gone() {
    let mut rt = seeded_runtime(vec![(
        "lc_key".to_owned(),
        stored("lifecycle", MemoryTtl::Duration("P1D".to_owned()), "lifecycle_value", &old_ts()),
    )]);
    let entry = get_entry(&mut rt, "n", MemoryScope::Project, "lc_key");
    assert!(entry.is_some(), "Entry should exist before expiry");
    assert_eq!(entry.unwrap().value, "lifecycle_value");
    assert_eq!(rt.expire(), 1, "Expected 1 entry removed");
    assert!(get_entry(&mut rt, "n", MemoryScope::Project, "lc_key").is_none());
}

#[test]
fn test_ttl_expiration_with_actual_elapsed_time() {
    let ts = ts_before(time::Duration::minutes(2));
    let mut rt =
        seeded_runtime(vec![("short_ttl".to_owned(), stored("t", MemoryTtl::Duration("PT1M".to_owned()), "expiring", &ts))]);
    assert!(get_entry(&mut rt, "n", MemoryScope::Project, "short_ttl").is_some());
    assert_eq!(rt.expire(), 1, "Entry with elapsed 1M TTL should be expired");
    assert!(get_entry(&mut rt, "n", MemoryScope::Project, "short_ttl").is_none());
}

#[test]
fn test_scope_isolation_same_key_different_scopes() {
    let mut rt = test_runtime();
    let key = "shared_key";
    upsert_entry(&mut rt, "n1", MemoryScope::Node, key, "t", "node_val");
    upsert_entry(&mut rt, "n1", MemoryScope::Session, key, "t", "session_val");
    upsert_entry(&mut rt, "n1", MemoryScope::Project, key, "t", "project_val");
    upsert_entry(&mut rt, "n1", MemoryScope::Global, key, "t", "global_val");
    assert_eq!(get_entry(&mut rt, "n1", MemoryScope::Node, key).unwrap().value, "node_val");
    assert_eq!(get_entry(&mut rt, "n1", MemoryScope::Session, key).unwrap().value, "session_val");
    assert_eq!(get_entry(&mut rt, "n1", MemoryScope::Project, key).unwrap().value, "project_val");
    assert_eq!(get_entry(&mut rt, "n1", MemoryScope::Global, key).unwrap().value, "global_val");
}

#[test]
fn test_gc_removes_multiple_expired_entries_and_keeps_valid() {
    let mut seed = Vec::new();
    for i in 0..3 {
        seed.push((format!("exp_{i}"), stored("t", MemoryTtl::Duration("P1D".to_owned()), &format!("v{i}"), &old_ts())));
    }
    for i in 0..2 {
        seed.push((format!("keep_{i}"), stored("t", MemoryTtl::Permanent, &format!("kv{i}"), &old_ts())));
    }
    let mut rt = seeded_runtime(seed);
    let report = rt.gc();
    assert_eq!(report.expired_removed, 3, "GC should remove exactly 3 expired entries");
    assert_eq!(report.orphan_removed, 0);
    for i in 0..2 {
        assert!(get_entry(&mut rt, "n", MemoryScope::Project, &format!("keep_{i}")).is_some());
    }
    for i in 0..3 {
        assert!(get_entry(&mut rt, "n", MemoryScope::Project, &format!("exp_{i}")).is_none());
    }
}

#[test]
fn test_overwrite_existing_key_returns_latest_value() {
    let mut rt = test_runtime();
    upsert_entry(&mut rt, "n", MemoryScope::Project, "k", "t", "first");
    upsert_entry(&mut rt, "n", MemoryScope::Project, "k", "t", "second");
    assert_eq!(get_entry(&mut rt, "n", MemoryScope::Project, "k").unwrap().value, "second");
}

#[test]
fn test_delete_entry_makes_it_unretrievable() {
    let mut rt = test_runtime();
    upsert_entry(&mut rt, "n", MemoryScope::Project, "del_key", "t", "to_delete");
    assert!(get_entry(&mut rt, "n", MemoryScope::Project, "del_key").is_some());
    assert!(delete_entry(&mut rt, "n", MemoryScope::Project, "del_key"));
    assert!(get_entry(&mut rt, "n", MemoryScope::Project, "del_key").is_none());
}

#[test]
fn test_large_number_of_entries_all_retrievable_gc_preserves_non_expired() {
    let mut rt = test_runtime();
    for i in 0..100 {
        upsert_entry(&mut rt, "n", MemoryScope::Session, &format!("key_{i:03}"), "bulk", &format!("val_{i}"));
    }
    for i in 0..100 {
        let entry = get_entry(&mut rt, "n", MemoryScope::Session, &format!("key_{i:03}"));
        assert_eq!(entry.unwrap().value, format!("val_{i}"));
    }
    for i in 0..20 {
        let mut e = action(&format!("expired_{i:03}"), "bulk", MemoryAction::Upsert, Some(format!("expval_{i}")), Some(MemoryScope::Session));
        e.ttl = Some(MemoryTtl::Duration("P1D".to_owned()));
        rt.execute_action("n", &e).unwrap();
    }
    let removed = rt.expire_at(now_nanos() + 30 * DAY_NANOS, "2020-01-01T00:00:00Z");
    assert_eq!(removed, 20);
    for i in 0..100 {
        assert!(get_entry(&mut rt, "n", MemoryScope::Session, &format!("key_{i:03}")).is_some());
    }
}

#[test]
fn test_high_throughput_1000_upserts_then_delete_half() {
    let mut rt = test_runtime();
    for i in 0..1000usize {
        upsert_entry(&mut rt, "n", MemoryScope::Project, &format!("key_{i:04}"), "bulk", &format!("val_{i}"));
    }
    for i in (0..1000usize).step_by(2) {
        delete_entry(&mut rt, "n", MemoryScope::Project, &format!("key_{i:04}"));
    }
    for i in 0..1000usize {
        let entry = get_entry(&mut rt, "n", MemoryScope::Project, &format!("key_{i:04}"));
        assert_eq!(entry.is_none(), i % 2 == 0);
    }
    assert_eq!(rt.project_store().entries.len(), 500);
}

#[test]
fn test_execute_action_upsert_value_at_limit_succeeds() {
    let mut rt = test_runtime();
    let mut entry = action("big.key", "test", MemoryAction::Upsert, Some("x".repeat(MAX_MEMORY_VALUE_BYTES)), Some(MemoryScope::Session));
    entry.ttl = Some(MemoryTtl::Permanent);
    assert!(rt.execute_action("node1", &entry).is_ok(), "Value at exactly 32 KiB should be accepted");
}

#[test]
fn test_execute_action_upsert_value_over_limit_returns_error() {
    let mut rt = test_runtime();
    let mut entry =
        action("big.key", "test", MemoryAction::Upsert, Some("x".repeat(MAX_MEMORY_VALUE_BYTES + 1)), Some(MemoryScope::Session));
    entry.ttl = Some(MemoryTtl::Permanent);
    let result = rt.execute_action("node1", &entry);
    let err = match result {
        Err(e) => e,
        Ok(_) => panic!("Value over 32 KiB should be rejected"),
    };
    let msg = err.message();
    assert!(msg.contains("exceeds maximum size"), "Error message should mention size limit: {msg}");
    assert_eq!(msg, "Memory value exceeds maximum size (32769 bytes > 32768 bytes) for key `big.key`");
    assert!(matches!(err, MemoryError::ValueTooLarge { size: 32769, .. }));
}

#[test]
fn test_execute_action_upsert_value_over_limit_does_not_persist() {
    let mut rt = test_runtime();
    let mut entry =
        action("big.key", "test", MemoryAction::Upsert, Some("x".repeat(MAX_MEMORY_VALUE_BYTES + 100)), Some(MemoryScope::Session));
    entry.ttl = Some(MemoryTtl::Permanent);
    let _ = rt.execute_action("node1", &entry);
    assert!(get_entry(&mut rt, "node1", MemoryScope::Session, "big.key").is_none());
}

#[test]
fn test_execute_action_upsert_all_scopes_reject_oversized_value() {
    let mut rt = test_runtime();
    let value = "x".repeat(MAX_MEMORY_VALUE_BYTES + 1);
    for scope in [MemoryScope::Node, MemoryScope::Session, MemoryScope::Project, MemoryScope::Global] {
        let mut entry = action("big.key", "test", MemoryAction::Upsert, Some(value.clone()), Some(scope));
        entry.ttl = Some(MemoryTtl::Permanent);
        assert!(rt.execute_action("node1", &entry).is_err(), "Scope {scope:?} should reject oversized value");
    }
}

#[test]
fn test_list_topic_orders_session_project_global() {
    let mut rt = test_runtime();
    upsert_entry(&mut rt, "n", MemoryScope::Global, "g", "arch", "gv");
    upsert_entry(&mut rt, "n", MemoryScope::Session, "s2", "arch", "sv2");
    upsert_entry(&mut rt, "n", MemoryScope::Session, "s1", "arch", "sv1");
    upsert_entry(&mut rt, "n", MemoryScope::Project, "p", "other", "pv");
    upsert_entry(&mut rt, "n", MemoryScope::Node, "x", "arch", "nv");
    let listing = rt.list_topic("arch");
    let expected: Vec<(String, String)> = vec![
        ("s1".to_owned(), "sv1".to_owned()),
        ("s2".to_owned(), "sv2".to_owned()),
        ("g".to_owned(), "gv".to_owned()),
    ];
    assert_eq!(listing, expected);
}

#[test]
fn mem_cmd_test_list_filters_by_topic() {
    let mut rt = seeded_runtime(vec![
        ("k1".to_owned(), stored("foo", MemoryTtl::Permanent, "v1", "2026-04-08T00:00:00Z")),
        ("k2".to_owned(), stored("bar", MemoryTtl::Permanent, "v2", "2026-04-08T00:00:00Z")),
    ]);
    let filtered = mem_listing(&rt, Some("foo"), None);
    assert_eq!(filtered.len(), 1);
    assert_eq!(filtered[0].0, "k1");
    upsert_entry(&mut rt, "n", MemoryScope::Global, "g1", "foo", "gv");
    let all: Vec<String> = mem_listing(&rt, None, None).into_iter().map(|p| p.0).collect();
    assert_eq!(all, vec!["k1", "k2", "g1"]);
    let global: Vec<String> = mem_listing(&rt, None, Some("global")).into_iter().map(|p| p.0).collect();
    assert_eq!(global, vec!["g1"]);
    assert!(mem_listing(&rt, None, Some("session")).is_empty());
}

#[test]
fn test_lookup_persisted_prefers_project() {
    let mut rt = test_runtime();
    upsert_entry(&mut rt, "n", MemoryScope::Global, "k", "t", "global");
    assert_eq!(lookup_persisted(&rt, "k").unwrap().value, "global");
    upsert_entry(&mut rt, "n", MemoryScope::Project, "k", "t", "project");
    assert_eq!(lookup_persisted(&rt, "k").unwrap().value, "project");
    upsert_entry(&mut rt, "n", MemoryScope::Session, "s", "t", "session");
    assert!(lookup_persisted(&rt, "s").is_none());
}

#[test]
fn test_listing_row_and_gc_summary() {
    assert_eq!(listing_row("Key", "Topic", "Value"), format!("{:<30} {:<20} Value", "Key", "Topic"));
    let long = "v".repeat(50);
    assert_eq!(listing_row("k", "t", &long), format!("{:<30} {:<20} {}", "k", "t", "v".repeat(40)));
    let report = GcReport { expired_removed: 3, orphan_removed: 0 };
    assert_eq!(gc_summary(&report), "GC complete: 3 expired entries removed, 0 orphans removed");
}

#[test]
fn test_package_from_source() {
    let src = "# agm.mem 1.0\r\n# package:   acme.core  \n# package: other\n";
    assert_eq!(package_from_source(src), Some("acme.core".to_owned()));
    assert_eq!(package_from_source("no header\n"), None);
    assert_eq!(package_from_source(""), None);
    assert_eq!(package_from_source("#package: x"), None);
}

#[test]
fn test_store_error_exit_codes() {
    assert_eq!(store_error_exit_code(&StoreErrorKind::SignatureMismatch), 1);
    assert_eq!(store_error_exit_code(&StoreErrorKind::SignatureMissing), 2);
    assert_eq!(store_error_exit_code(&StoreErrorKind::Other("io".to_owned())), 3);
}
