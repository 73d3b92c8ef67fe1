use atml_language_core::schedule::{due_analyses, PendingAnalyses};
use atml_language_core::session::{ContentChange, Documents};

#[test]
fn only_due_analyses_of_the_current_version_are_published() {
    let first: String = "file:///first.atml".to_owned();
    let second: String = "file:///second.atml".to_owned();
    let mut documents = Documents::default();
    documents.open(first.clone(), 1, "a = 1\n".into());
    documents.open(second.clone(), 1, "b = 1\n".into());

    let mut pending = PendingAnalyses::new();
    pending.schedule(first.clone(), 1, 100);
    pending.schedule(second.clone(), 1, 100);
    documents.change(&second, 2, vec![ContentChange { range: None, text: "b = 2\n".into() }]);

    assert!(due_analyses(&mut pending, &documents, 50).is_empty());
    let due = due_analyses(&mut pending, &documents, 100);
    assert_eq!(due.len(), 1);
    assert_eq!(due[0].uri, first);
    assert!(due_analyses(&mut pending, &documents, 1_000).is_empty());
}

#[test]
fn rescheduling_replaces_and_cancelling_drops() {
    let uri: String = "file:///doc.atml".to_owned();
    let mut documents = Documents::default();
    documents.open(uri.clone(), 3, "a = 1\n".into());
    let mut pending = PendingAnalyses::new();
    pending.schedule(uri.clone(), 2, 10);
    pending.schedule(uri.clone(), 3, 20);
    assert!(due_analyses(&mut pending, &documents, 15).is_empty());
    let due = due_analyses(&mut pending, &documents, 20);
    assert_eq!(due.len(), 1);
    assert_eq!(due[0].version, 3);

    pending.schedule(uri.clone(), 3, 30);
    pending.cancel(&uri);
    assert!(due_analyses(&mut pending, &documents, 100).is_empty());
}
