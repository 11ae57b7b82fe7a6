use feedsync::codec::{decode_id_list, decode_info, encode_id_list, encode_info};
use feedsync::errors::SyncError;
use feedsync::registry::{DocumentMetadata, DocumentRegistry};

fn meta(id: &str, title: &str, summary: &str) -> DocumentMetadata {
    DocumentMetadata { id: id.to_string(), title: title.to_string(), summary: summary.to_string() }
}

#[test]
fn id_list_encodes_as_json_array() {
    let ids = vec!["http://example.org/1".to_string(), "b".to_string()];
    let text = encode_id_list(&ids);
    assert_eq!(text, "[\"http://example.org/1\",\"b\"]");
    let empty: Vec<String> = Vec::new();
    assert_eq!(encode_id_list(&empty), "[]");
}

#[test]
fn id_list_round_trips() {
    let ids = vec!["a".to_string(), "b".to_string(), "c".to_string()];
    let text = encode_id_list(&ids);
    assert_eq!(decode_id_list(&text), Ok(ids));
    let empty: Vec<String> = Vec::new();
    assert_eq!(decode_id_list("[]"), Ok(empty));
}

#[test]
fn id_list_round_trips_with_escapes() {
    let ids = vec!["with \"quote\"".to_string(), "back\\slash".to_string()];
    let text = encode_id_list(&ids);
    assert_eq!(decode_id_list(&text), Ok(ids));
}

#[test]
fn id_list_output_is_real_json() {
    let ids = vec!["a\"b".to_string(), "c\\d".to_string(), "plain".to_string()];
    let text = encode_id_list(&ids);
    let reparsed: Vec<String> = serde_json::from_str(&text).expect("valid JSON");
    assert_eq!(reparsed, ids);
}

#[test]
fn info_output_is_real_json() {
    let docs = vec![meta("id one", "A \"quoted\" title", "sum"), meta("x", "", "")];
    let text = encode_info(&docs);
    let v: serde_json::Value = serde_json::from_str(&text).expect("valid JSON");
    assert_eq!(v["id one"]["title"], serde_json::Value::String("A \"quoted\" title".to_string()));
    assert_eq!(v["x"]["summary"], serde_json::Value::String(String::new()));
}

#[test]
fn info_round_trips() {
    let docs = vec![meta("a", "Title", "Sum"), meta("b", "T\"2", "S\\2")];
    let text = encode_info(&docs);
    let back = decode_info(&text).expect("decodes");
    assert_eq!(back.len(), 2);
    assert_eq!(back[0].id, "a");
    assert_eq!(back[0].title, "Title");
    assert_eq!(back[1].id, "b");
    assert_eq!(back[1].title, "T\"2");
    assert_eq!(back[1].summary, "S\\2");
}

#[test]
fn id_list_accepts_json_whitespace() {
    let empty: Vec<String> = Vec::new();
    assert_eq!(decode_id_list("[ ]"), Ok(empty.clone()));
    assert_eq!(decode_id_list(" [ ] \n"), Ok(empty));
    assert_eq!(
        decode_id_list("\n[ \"a\" ,\t\"b\" ]\r\n"),
        Ok(vec!["a".to_string(), "b".to_string()])
    );
}

#[test]
fn id_list_accepts_standard_escapes() {
    assert_eq!(
        decode_id_list("[\"a\\nb\",\"c\\/d\",\"\\u0041\",\"\\ttab\"]"),
        Ok(vec!["a\nb".to_string(), "c/d".to_string(), "A".to_string(), "\ttab".to_string()])
    );
    // A surrogate pair spells one character beyond the basic plane.
    assert_eq!(
        decode_id_list("[\"\\uD83D\\uDE00\"]"),
        Ok(vec!["\u{1F600}".to_string()])
    );
    // A lone surrogate is not a character.
    assert_eq!(decode_id_list("[\"\\uD83D\"]"), Err(SyncError::CorruptState));
    assert_eq!(decode_id_list("[\"\\uDC00\"]"), Err(SyncError::CorruptState));
    // An unknown escape is malformed.
    assert_eq!(decode_id_list("[\"\\x\"]"), Err(SyncError::CorruptState));
}

#[test]
fn info_accepts_whitespace_and_any_member_order() {
    let text = "\n{ \"a\" : {\n  \"title\" : \"T\",\n  \"summary\" : \"S\",\n  \"id\" : \"a\"\n} }\n";
    let back = decode_info(text).expect("decodes");
    assert_eq!(back.len(), 1);
    assert_eq!(back[0].id, "a");
    assert_eq!(back[0].title, "T");
    assert_eq!(back[0].summary, "S");
    let empty = decode_info("{ }").expect("empty object");
    assert_eq!(empty.len(), 0);
}

#[test]
fn control_characters_encode_as_valid_json() {
    let ids = vec!["line\nbreak".to_string(), "bell\u{7}".to_string(), "tab\there".to_string()];
    let text = encode_id_list(&ids);
    // The emitted text is real JSON even with control characters stored.
    let reparsed: Vec<String> = serde_json::from_str(&text).expect("valid JSON");
    assert_eq!(reparsed, ids);
    // And it reads back through the crate's own decoder.
    assert_eq!(decode_id_list(&text), Ok(ids));
}

#[test]
fn serde_emitted_snapshots_load() {
    // A snapshot written by a generic JSON serializer (pretty-printed, with
    // escaped characters) loads, as the previous process's files must.
    let ids = vec!["x\u{1}y".to_string(), "plain".to_string()];
    let fetched = serde_json::to_string_pretty(&ids).expect("serializes");
    let decoded = decode_id_list(&fetched).expect("loads");
    assert_eq!(decoded, ids);
}

#[test]
fn malformed_id_list_is_corrupt() {
    for text in ["", "[", "]", "x", "[\"a\"", "[\"a\",]", "{\"a\":1}", "[\"a\"]junk", "[1,2]"] {
        assert_eq!(decode_id_list(text), Err(SyncError::CorruptState), "input: {}", text);
    }
}

#[test]
fn malformed_info_is_corrupt() {
    for text in ["", "{", "not json", "{\"a\":1}", "[\"a\"]", "{\"a\":{\"id\":\"b\",\"title\":\"\",\"summary\":\"\"}}"] {
        assert!(matches!(decode_info(text), Err(SyncError::CorruptState)), "input: {}", text);
    }
}

#[test]
fn missing_files_load_empty() {
    let reg = DocumentRegistry::load_snapshots(None, None, None).expect("empty state");
    assert_eq!(reg.document_count(), 0);
    assert!(!reg.contains_id(&"a".to_string()));
}

#[test]
fn save_then_load_reproduces_contents() {
    let mut reg = DocumentRegistry::new();
    assert!(reg.record(meta("id-1", "One \"quoted\"", "s1")));
    assert!(reg.record(meta("id-2", "Two", "back\\slash")));
    assert!(reg.record(meta("id-3", "", "")));
    assert_eq!(reg.mark_read(&"id-2".to_string()), Ok(()));

    let (f, m, r) = reg.save_snapshots();
    let back =
        DocumentRegistry::load_snapshots(Some(&f), Some(&m), Some(&r)).expect("loads back");
    assert_eq!(back.document_count(), 3);
    for id in ["id-1", "id-2", "id-3"] {
        assert!(back.contains_id(&id.to_string()));
    }
    let d = back.get(&"id-1".to_string()).expect("present");
    assert_eq!(d.title, "One \"quoted\"");
    assert_eq!(d.summary, "s1");
    assert!(back.is_read(&"id-2".to_string()));
    assert!(!back.is_read(&"id-1".to_string()));
}

#[test]
fn mixed_missing_files_load_when_consistent() {
    // One file present and empty, the others missing: a consistent empty state.
    let reg = DocumentRegistry::load_snapshots(Some("[]"), None, None).expect("empty state");
    assert_eq!(reg.document_count(), 0);
    let reg = DocumentRegistry::load_snapshots(None, Some("{}"), Some("[ ]")).expect("empty state");
    assert_eq!(reg.document_count(), 0);
    // A present metadata snapshot beside a missing fetched list contradicts
    // the keys == fetched invariant and is rejected.
    let info = "{\"a\":{\"id\":\"a\",\"title\":\"t\",\"summary\":\"s\"}}";
    let r = DocumentRegistry::load_snapshots(None, Some(info), None);
    assert_eq!(r.err(), Some(SyncError::CorruptState));
}

#[test]
fn corrupt_snapshot_fails_to_load() {
    let r = DocumentRegistry::load_snapshots(Some("oops"), None, None);
    assert_eq!(r.err(), Some(SyncError::CorruptState));
    let r = DocumentRegistry::load_snapshots(None, Some("{broken"), None);
    assert_eq!(r.err(), Some(SyncError::CorruptState));
    let r = DocumentRegistry::load_snapshots(None, None, Some("[\"unterminated"));
    assert_eq!(r.err(), Some(SyncError::CorruptState));
}

#[test]
fn inconsistent_snapshots_fail_to_load() {
    // The fetched list names an identifier that has no metadata record.
    let r = DocumentRegistry::load_snapshots(Some("[\"ghost\"]"), None, None);
    assert_eq!(r.err(), Some(SyncError::CorruptState));
    // A read identifier that was never fetched.
    let r = DocumentRegistry::load_snapshots(None, None, Some("[\"ghost\"]"));
    assert_eq!(r.err(), Some(SyncError::CorruptState));
    // A record that the fetched list does not name.
    let info = "{\"a\":{\"id\":\"a\",\"title\":\"t\",\"summary\":\"s\"}}";
    let r = DocumentRegistry::load_snapshots(Some("[]"), Some(info), None);
    assert_eq!(r.err(), Some(SyncError::CorruptState));
    // The same trio with a matching fetched list loads.
    let r = DocumentRegistry::load_snapshots(Some("[\"a\"]"), Some(info), None);
    assert!(r.is_ok());
}
