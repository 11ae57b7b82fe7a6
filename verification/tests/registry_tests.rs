use feedsync::errors::SyncError;
use feedsync::registry::{DocumentMetadata, DocumentRegistry};

fn meta(id: &str, title: &str, summary: &str) -> DocumentMetadata {
    DocumentMetadata { id: id.to_string(), title: title.to_string(), summary: summary.to_string() }
}

#[test]
fn record_adds_new_documents() {
    let mut reg = DocumentRegistry::new();
    assert_eq!(reg.document_count(), 0);
    assert!(reg.record(meta("a", "Title A", "Sum A")));
    assert!(reg.record(meta("b", "Title B", "Sum B")));
    assert_eq!(reg.document_count(), 2);
    assert!(reg.contains_id(&"a".to_string()));
    assert!(reg.contains_id(&"b".to_string()));
    assert!(!reg.contains_id(&"c".to_string()));
}

#[test]
fn record_is_first_write_wins() {
    let mut reg = DocumentRegistry::new();
    assert!(reg.record(meta("a", "First title", "First summary")));
    // A later record of the same identifier changes nothing.
    assert!(!reg.record(meta("a", "Second title", "Second summary")));
    assert_eq!(reg.document_count(), 1);
    let d = reg.get(&"a".to_string()).expect("a is fetched");
    assert_eq!(d.title, "First title");
    assert_eq!(d.summary, "First summary");
}

#[test]
fn mark_read_requires_fetched() {
    let mut reg = DocumentRegistry::new();
    assert!(reg.record(meta("a", "T", "S")));
    assert_eq!(reg.mark_read(&"a".to_string()), Ok(()));
    assert!(reg.is_read(&"a".to_string()));
    // Marking twice is harmless.
    assert_eq!(reg.mark_read(&"a".to_string()), Ok(()));
    assert!(reg.is_read(&"a".to_string()));
}

#[test]
fn mark_read_unknown_document_fails_and_changes_nothing() {
    let mut reg = DocumentRegistry::new();
    assert!(reg.record(meta("a", "T", "S")));
    let r = reg.mark_read(&"x".to_string());
    assert_eq!(r, Err(SyncError::UnknownDocument));
    assert!(!reg.is_read(&"x".to_string()));
    assert!(!reg.is_read(&"a".to_string()));
    assert_eq!(reg.document_count(), 1);
}

#[test]
fn get_missing_is_none() {
    let reg = DocumentRegistry::new();
    assert!(reg.get(&"nope".to_string()).is_none());
}
