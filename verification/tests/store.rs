use narrow_down::in_memory_store::RustMemoryStore;
use narrow_down::NarrowDownError;

#[test]
fn test_settings_insert_query_overwrite() {
    let mut store = RustMemoryStore::new();
    assert_eq!(store.query_setting("bands".to_string()), None);
    store.insert_setting("bands".to_string(), "22".to_string());
    store.insert_setting("rows".to_string(), "5".to_string());
    assert_eq!(
        store.query_setting("bands".to_string()),
        Some(&"22".to_string())
    );
    store.insert_setting("bands".to_string(), "32".to_string());
    assert_eq!(
        store.query_setting("bands".to_string()),
        Some(&"32".to_string())
    );
    assert_eq!(
        store.query_setting("rows".to_string()),
        Some(&"5".to_string())
    );
}

#[test]
fn test_document_explicit_then_auto_assignment() {
    let mut store = RustMemoryStore::new();
    let id = store.insert_document(b"hello".to_vec(), Some(5));
    assert_eq!(id, 5);
    // Auto-assignment starts from last_assigned_id = 0, independent of the
    // explicit id 5.
    let auto_id = store.insert_document(b"world".to_vec(), None);
    assert_eq!(auto_id, 1);
    assert_eq!(store.query_document(5), Some(&b"hello".to_vec()));
    store.remove_document(5);
    assert_eq!(store.query_document(5), None);
}

#[test]
fn test_remove_absent_document_is_noop() {
    let mut store = RustMemoryStore::new();
    store.remove_document(42);
    assert_eq!(store.query_document(42), None);
}

#[test]
fn test_auto_assignment_monotonic() {
    let mut store = RustMemoryStore::new();
    let mut last: u64 = 0;
    let mut seen: Vec<u64> = Vec::new();
    for k in 0..10u8 {
        let id = store.insert_document(vec![k], None);
        assert!(id > last, "auto ids must strictly increase");
        assert!(!seen.contains(&id), "auto ids must be distinct");
        seen.push(id);
        last = id;
    }
}

#[test]
fn test_auto_assignment_skips_taken_ids() {
    let mut store = RustMemoryStore::new();
    store.insert_document(b"a".to_vec(), Some(1));
    store.insert_document(b"b".to_vec(), Some(2));
    let id = store.insert_document(b"c".to_vec(), None);
    assert_eq!(id, 3);
}

#[test]
fn test_bucket_scenario() {
    let mut store = RustMemoryStore::new();
    store.add_document_to_bucket(3, 42, 7);
    assert_eq!(store.query_ids_from_bucket(3, 42), vec![7u64]);
    store.remove_id_from_bucket(3, 42, 7);
    assert_eq!(store.query_ids_from_bucket(3, 42), Vec::<u64>::new());
}

#[test]
fn test_bucket_insert_is_idempotent() {
    let mut store = RustMemoryStore::new();
    store.add_document_to_bucket(1, 99, 12);
    store.add_document_to_bucket(1, 99, 12);
    let ids = store.query_ids_from_bucket(1, 99);
    assert_eq!(ids.iter().filter(|&&x| x == 12).count(), 1);
    assert_eq!(ids.len(), 1);
}

#[test]
fn test_bucket_membership_is_a_set() {
    let mut store = RustMemoryStore::new();
    store.add_document_to_bucket(0, 7, 1);
    store.add_document_to_bucket(0, 7, 2);
    store.add_document_to_bucket(0, 7, 1);
    let mut ids = store.query_ids_from_bucket(0, 7);
    ids.sort();
    assert_eq!(ids, vec![1u64, 2u64]);
}

#[test]
fn test_query_missing_bucket_gives_empty() {
    let store = RustMemoryStore::new();
    assert_eq!(store.query_ids_from_bucket(9, 9), Vec::<u64>::new());
}

#[test]
fn test_remove_from_missing_bucket_is_noop() {
    let mut store = RustMemoryStore::new();
    store.remove_id_from_bucket(5, 5, 5);
    assert_eq!(store.query_ids_from_bucket(5, 5), Vec::<u64>::new());
}

#[test]
fn test_serialize_round_trip() {
    let mut store = RustMemoryStore::new();
    store.insert_setting("threshold".to_string(), "0.75".to_string());
    store.insert_setting("unicode-héllo".to_string(), "wörld \u{1F389}".to_string());
    store.insert_document(b"payload one".to_vec(), Some(5));
    let auto_id = store.insert_document(b"".to_vec(), None);
    store.add_document_to_bucket(3, 42, 7);
    store.add_document_to_bucket(3, 42, 9);
    store.add_document_to_bucket(8, 1, 7);
    let bytes = store.serialize();
    let restored = RustMemoryStore::deserialize(bytes.as_slice()).unwrap();
    assert_eq!(
        restored.query_setting("threshold".to_string()),
        Some(&"0.75".to_string())
    );
    assert_eq!(
        restored.query_setting("unicode-héllo".to_string()),
        Some(&"wörld \u{1F389}".to_string())
    );
    assert_eq!(restored.query_document(5), Some(&b"payload one".to_vec()));
    assert_eq!(restored.query_document(auto_id), Some(&b"".to_vec()));
    let mut ids = restored.query_ids_from_bucket(3, 42);
    ids.sort();
    assert_eq!(ids, vec![7u64, 9u64]);
    assert_eq!(restored.query_ids_from_bucket(8, 1), vec![7u64]);
    // The restored counter continues where the serialized store left off.
    assert_eq!(restored.last_assigned_id(), auto_id);
}

#[test]
fn test_serialize_empty_store_round_trip() {
    let store = RustMemoryStore::new();
    let bytes = store.serialize();
    let restored = RustMemoryStore::deserialize(bytes.as_slice()).unwrap();
    assert_eq!(restored.query_document(1), None);
    assert_eq!(restored.document_count(), 0);
}

#[test]
fn test_deserialize_rejects_garbage() {
    assert_eq!(
        RustMemoryStore::deserialize(b"not a snapshot").err(),
        Some(NarrowDownError::MalformedInput)
    );
    assert_eq!(
        RustMemoryStore::deserialize(b"").err(),
        Some(NarrowDownError::MalformedInput)
    );
}

#[test]
fn test_deserialize_rejects_truncated_snapshot() {
    let mut store = RustMemoryStore::new();
    store.insert_document(b"abcdef".to_vec(), Some(1));
    let bytes = store.serialize();
    let truncated = &bytes[..bytes.len() - 1];
    assert_eq!(
        RustMemoryStore::deserialize(truncated).err(),
        Some(NarrowDownError::MalformedInput)
    );
}

#[test]
fn test_deserialize_rejects_trailing_garbage() {
    let store = RustMemoryStore::new();
    let mut bytes = store.serialize();
    bytes.push(0);
    assert_eq!(
        RustMemoryStore::deserialize(bytes.as_slice()).err(),
        Some(NarrowDownError::MalformedInput)
    );
}
