use markstore::db::Db;
use markstore::document::Timestamp;
use markstore::ingest::ingest_file;
use markstore::watch::{handle_event, is_markdown, remove_path, EventKind, WatchAction};

#[test]
fn markdown_files_are_told_by_extension() {
    assert!(is_markdown(Some("md")));
    assert!(!is_markdown(Some("MD")));
    assert!(!is_markdown(Some("txt")));
    assert!(!is_markdown(None));
}

#[test]
fn events_lead_to_actions() {
    let md = Some("md");
    assert_eq!(handle_event(EventKind::Created, md, true), WatchAction::Ingest);
    assert_eq!(handle_event(EventKind::Modified, md, true), WatchAction::Ingest);
    assert_eq!(handle_event(EventKind::Modified, md, false), WatchAction::Ignore);
    assert_eq!(handle_event(EventKind::Removed, md, false), WatchAction::Remove);
    assert_eq!(handle_event(EventKind::Removed, md, true), WatchAction::Remove);
    assert_eq!(handle_event(EventKind::Other, md, true), WatchAction::Ignore);
    assert_eq!(handle_event(EventKind::Created, Some("txt"), true), WatchAction::Ignore);
}

#[test]
fn removed_files_leave_the_store() {
    let mut db = Db::init();
    let now = Timestamp { secs: 1, nanos: 0 };
    ingest_file(&mut db, "text", "a.md", "a", "x", false, now);
    assert!(!remove_path(&mut db, "b.md"));
    assert_eq!(db.documents.len(), 1);
    assert!(remove_path(&mut db, "a.md"));
    assert!(db.documents.is_empty());
    assert!(db.chunks.is_empty());
}
