use feedsync::pipeline::{process_topic, TopicOutcome};
use feedsync::registry::DocumentRegistry;
use feedsync::sync::{default_topics, run_cycle, topic_url, TopicResponse};

fn atom_feed(entries: &[(&str, &str, &str)]) -> String {
    let mut body = String::new();
    body.push_str("<?xml version=\"1.0\" encoding=\"utf-8\"?>");
    body.push_str("<feed xmlns=\"http://www.w3.org/2005/Atom\">");
    body.push_str("<title>Feed</title><id>urn:feed</id>");
    body.push_str("<updated>2020-01-01T00:00:00Z</updated>");
    for (id, title, summary) in entries {
        body.push_str("<entry>");
        body.push_str(&format!("<id>{}</id>", id));
        body.push_str(&format!("<title>{}</title>", title));
        body.push_str(&format!("<summary>{}</summary>", summary));
        body.push_str("<updated>2020-01-01T00:00:00Z</updated>");
        body.push_str("</entry>");
    }
    body.push_str("</feed>");
    body
}

#[test]
fn topic_url_is_prefix_topic_suffix() {
    let url = topic_url("cs.ai");
    assert_eq!(
        url,
        "http://export.arxiv.org/api/query?search_query=cs.ai\
         &start=0&max_results=100&sortBy=submittedDate&sortOrder=descending"
    );
}

#[test]
fn default_topics_are_the_six_categories() {
    let topics = default_topics();
    let expected = ["cs.ai", "cs.lg", "cs.ma", "cs.ne", "cs.ro", "cs.sy"];
    assert_eq!(topics.len(), expected.len());
    for (t, e) in topics.iter().zip(expected.iter()) {
        assert_eq!(t.as_str(), *e);
    }
}

#[test]
fn process_topic_merges_parsed_entries() {
    let mut reg = DocumentRegistry::new();
    let body = atom_feed(&[
        ("http://example.org/1", "First", "S1"),
        ("http://example.org/2", "Second", "S2"),
    ]);
    let outcome = process_topic(&mut reg, &Some(body));
    assert_eq!(outcome, TopicOutcome::Merged(2));
    assert_eq!(reg.document_count(), 2);
    let d = reg.get(&"http://example.org/1".to_string()).expect("entry one");
    assert_eq!(d.title, "First");
    assert_eq!(d.summary, "S1");
}

#[test]
fn process_topic_entry_without_summary_gets_empty_placeholder() {
    let mut reg = DocumentRegistry::new();
    let body = "<?xml version=\"1.0\" encoding=\"utf-8\"?>\
        <feed xmlns=\"http://www.w3.org/2005/Atom\">\
        <title>Feed</title><id>urn:feed</id>\
        <updated>2020-01-01T00:00:00Z</updated>\
        <entry><id>e1</id><title>Bare</title>\
        <updated>2020-01-01T00:00:00Z</updated></entry></feed>"
        .to_string();
    let outcome = process_topic(&mut reg, &Some(body));
    assert_eq!(outcome, TopicOutcome::Merged(1));
    let d = reg.get(&"e1".to_string()).expect("entry");
    assert_eq!(d.title, "Bare");
    assert_eq!(d.summary, "");
}

#[test]
fn process_topic_transport_failure_changes_nothing() {
    let mut reg = DocumentRegistry::new();
    let outcome = process_topic(&mut reg, &None);
    assert_eq!(outcome, TopicOutcome::TransportFailed);
    assert_eq!(reg.document_count(), 0);
}

#[test]
fn process_topic_malformed_body_changes_nothing() {
    let mut reg = DocumentRegistry::new();
    let outcome = process_topic(&mut reg, &Some("this is not a feed".to_string()));
    assert_eq!(outcome, TopicOutcome::ParseFailed);
    assert_eq!(reg.document_count(), 0);
}

#[test]
fn duplicate_ids_within_one_feed_collapse() {
    let mut reg = DocumentRegistry::new();
    let body = atom_feed(&[("dup", "Kept", "S1"), ("dup", "Dropped", "S2")]);
    let outcome = process_topic(&mut reg, &Some(body));
    assert_eq!(outcome, TopicOutcome::Merged(1));
    assert_eq!(reg.get(&"dup".to_string()).expect("dup").title, "Kept");
}

#[test]
fn failed_topic_is_isolated() {
    let mut reg = DocumentRegistry::new();
    let responses = vec![
        TopicResponse { topic: "a".to_string(), body: Some(atom_feed(&[("a1", "A1", "")])) },
        TopicResponse { topic: "b".to_string(), body: None },
        TopicResponse { topic: "c".to_string(), body: Some(atom_feed(&[("c1", "C1", "")])) },
    ];
    let report = run_cycle(&mut reg, &responses);
    assert_eq!(report.len(), 3);
    assert_eq!(report[0].topic, "a");
    assert_eq!(report[0].outcome, TopicOutcome::Merged(1));
    assert_eq!(report[1].topic, "b");
    assert_eq!(report[1].outcome, TopicOutcome::TransportFailed);
    assert_eq!(report[2].outcome, TopicOutcome::Merged(1));
    assert_eq!(reg.document_count(), 2);
    assert!(reg.contains_id(&"a1".to_string()));
    assert!(!reg.contains_id(&"b1".to_string()));
    assert!(reg.contains_id(&"c1".to_string()));
}

#[test]
fn running_twice_is_idempotent() {
    let mut reg = DocumentRegistry::new();
    let responses = vec![
        TopicResponse { topic: "a".to_string(), body: Some(atom_feed(&[("a1", "A1", "")])) },
        TopicResponse { topic: "b".to_string(), body: Some(atom_feed(&[("b1", "B1", "")])) },
    ];
    let first = run_cycle(&mut reg, &responses);
    assert_eq!(first[0].outcome, TopicOutcome::Merged(1));
    assert_eq!(reg.document_count(), 2);
    let second = run_cycle(&mut reg, &responses);
    assert_eq!(second[0].outcome, TopicOutcome::Merged(0));
    assert_eq!(second[1].outcome, TopicOutcome::Merged(0));
    assert_eq!(reg.document_count(), 2);
}

#[test]
fn refetched_id_keeps_first_title_across_runs() {
    let mut reg = DocumentRegistry::new();
    let run1 = vec![TopicResponse {
        topic: "t".to_string(),
        body: Some(atom_feed(&[("x", "Original title", "s")])),
    }];
    let run2 = vec![TopicResponse {
        topic: "t".to_string(),
        body: Some(atom_feed(&[("x", "Changed title", "s2")])),
    }];
    run_cycle(&mut reg, &run1);
    assert_eq!(reg.get(&"x".to_string()).expect("x").title, "Original title");
    let report = run_cycle(&mut reg, &run2);
    assert_eq!(report[0].outcome, TopicOutcome::Merged(0));
    assert_eq!(reg.get(&"x".to_string()).expect("x").title, "Original title");
}

#[test]
fn empty_feed_is_success() {
    let mut reg = DocumentRegistry::new();
    let outcome = process_topic(&mut reg, &Some(atom_feed(&[])));
    assert_eq!(outcome, TopicOutcome::Merged(0));
    assert_eq!(reg.document_count(), 0);
}

#[test]
fn state_survives_a_save_between_runs() {
    let mut reg = DocumentRegistry::new();
    let run1 = vec![TopicResponse {
        topic: "t".to_string(),
        body: Some(atom_feed(&[("x", "First", "s")])),
    }];
    run_cycle(&mut reg, &run1);
    let (f, m, r) = reg.save_snapshots();
    let mut reloaded =
        DocumentRegistry::load_snapshots(Some(&f), Some(&m), Some(&r)).expect("loads");
    let run2 = vec![TopicResponse {
        topic: "t".to_string(),
        body: Some(atom_feed(&[("x", "Second", "s"), ("y", "New", "s")])),
    }];
    let report = run_cycle(&mut reloaded, &run2);
    assert_eq!(report[0].outcome, TopicOutcome::Merged(1));
    assert_eq!(reloaded.get(&"x".to_string()).expect("x").title, "First");
    assert_eq!(reloaded.get(&"y".to_string()).expect("y").title, "New");
}
