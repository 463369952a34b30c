use narrow_down::storage::{protobuf_to_stored_document, stored_document_to_protobuf};
use narrow_down::NarrowDownError;

#[test]
fn test_envelope_round_trip_all_fields() {
    let bytes = stored_document_to_protobuf(
        Some("the quick brown fox".to_string()),
        Some("exact key".to_string()),
        Some(vec![1u32, 2, 3, u32::MAX]),
        Some("extra data".to_string()),
    );
    let doc = protobuf_to_stored_document(bytes.as_slice()).unwrap();
    assert_eq!(doc.document, Some("the quick brown fox".to_string()));
    assert_eq!(doc.exact_part, Some("exact key".to_string()));
    assert_eq!(doc.fingerprint, Some(vec![1u32, 2, 3, u32::MAX]));
    assert_eq!(doc.data, Some("extra data".to_string()));
}

#[test]
fn test_envelope_round_trip_all_absent() {
    let bytes = stored_document_to_protobuf(None, None, None, None);
    assert!(!bytes.is_empty());
    let doc = protobuf_to_stored_document(bytes.as_slice()).unwrap();
    assert_eq!(doc.document, None);
    assert_eq!(doc.exact_part, None);
    assert_eq!(doc.fingerprint, None);
    assert_eq!(doc.data, None);
}

#[test]
fn test_empty_fingerprint_decodes_as_absent() {
    // An empty fingerprint encodes exactly like an absent one, and decodes
    // back to "absent", not "present but empty".
    let absent = stored_document_to_protobuf(Some("d".to_string()), None, None, None);
    let empty = stored_document_to_protobuf(Some("d".to_string()), None, Some(Vec::new()), None);
    assert_eq!(absent, empty);
    let doc = protobuf_to_stored_document(empty.as_slice()).unwrap();
    assert_eq!(doc.fingerprint, None);
}

#[test]
fn test_envelope_round_trip_unicode_text() {
    let bytes = stored_document_to_protobuf(
        Some("hällo wörld \u{1F980}".to_string()),
        None,
        Some(vec![42u32]),
        None,
    );
    let doc = protobuf_to_stored_document(bytes.as_slice()).unwrap();
    assert_eq!(doc.document, Some("hällo wörld \u{1F980}".to_string()));
    assert_eq!(doc.fingerprint, Some(vec![42u32]));
    assert_eq!(doc.data, None);
}

#[test]
fn test_envelope_rejects_malformed_bytes() {
    assert_eq!(
        protobuf_to_stored_document(b"").err(),
        Some(NarrowDownError::MalformedInput)
    );
    // Unknown flag bits are rejected.
    assert_eq!(
        protobuf_to_stored_document(&[0xFFu8]).err(),
        Some(NarrowDownError::MalformedInput)
    );
    // A truncated envelope is rejected.
    let bytes = stored_document_to_protobuf(Some("text".to_string()), None, None, None);
    assert_eq!(
        protobuf_to_stored_document(&bytes[..bytes.len() - 1]).err(),
        Some(NarrowDownError::MalformedInput)
    );
    // Trailing garbage is rejected.
    let mut bytes2 = stored_document_to_protobuf(None, None, None, None);
    bytes2.push(7);
    assert_eq!(
        protobuf_to_stored_document(bytes2.as_slice()).err(),
        Some(NarrowDownError::MalformedInput)
    );
}
