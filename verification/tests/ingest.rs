use markstore::db::Db;
use markstore::document::{content_id, Timestamp};
use markstore::ingest::{ingest_content, ingest_file, ingest_page};

fn at(secs: i64) -> Timestamp {
    Timestamp { secs, nanos: 0 }
}

#[test]
fn added_text_is_stored_indexed_and_linked() {
    let mut db = Db::init();
    let raw = "---\ntitle: Front\n---\n# Head\n\nSee [[Other]]. #tag";
    let (id, skipped) = ingest_file(&mut db, raw, "dir/n.md", "n", "notes", false, at(5));
    assert!(!skipped);
    assert_eq!(id, content_id(raw));
    let doc = db.get_document(&id).unwrap();
    assert_eq!(doc.title, "Front");
    assert_eq!(doc.content, raw);
    assert_eq!(doc.path, "dir/n.md");
    assert_eq!(doc.collection, "notes");
    assert_eq!(doc.added_at, at(5));
    assert_eq!(doc.frontmatter.get("title").and_then(|v| v.as_str()), Some("Front"));
    assert_eq!(db.chunks.len(), 1);
    assert_eq!(db.chunks[0].content, "# Head\n\nSee [[Other]]. #tag");
    assert_eq!(db.chunks[0].title, "Front");
    assert!(db.get_node(&format!("doc_{}", id)).is_ok());
    assert_eq!(db.edges_from(&format!("doc_{}", id)).len(), 2);
}

#[test]
fn adding_again_changes_nothing() {
    let mut db = Db::init();
    let (id, _) = ingest_file(&mut db, "# A\ntext", "a.md", "a", "x", false, at(1));
    let before = format!("{:?}", db);
    let (again, skipped) = ingest_file(&mut db, "# A\ntext", "a.md", "a", "x", false, at(2));
    assert!(skipped);
    assert_eq!(again, id);
    assert_eq!(format!("{:?}", db), before);
}

#[test]
fn renamed_file_is_no_duplicate() {
    let mut db = Db::init();
    let (id, _) = ingest_file(&mut db, "same", "a.md", "a", "x", false, at(1));
    let (again, skipped) = ingest_file(&mut db, "same", "b.md", "b", "y", false, at(2));
    assert!(skipped);
    assert_eq!(again, id);
    assert_eq!(db.documents.len(), 1);
    assert_eq!(db.documents[0].path, "a.md");
}

#[test]
fn changed_file_replaces_its_record() {
    let mut db = Db::init();
    let (old, _) = ingest_file(&mut db, "one [[X]]", "a.md", "a", "x", false, at(1));
    let (new, skipped) = ingest_file(&mut db, "two", "a.md", "a", "x", false, at(2));
    assert!(!skipped);
    assert_ne!(old, new);
    assert_eq!(db.documents.len(), 1);
    assert!(db.get_document(&old).is_err());
    assert_eq!(db.get_document(&new).unwrap().content, "two");
    assert_eq!(db.chunks.len(), 1);
    assert!(db.edges.is_empty());
}

#[test]
fn changed_file_loses_its_record_to_a_known_content() {
    let mut db = Db::init();
    let (old, _) = ingest_file(&mut db, "one [[X]]", "p.md", "p", "x", false, at(1));
    let (known, _) = ingest_file(&mut db, "two", "q.md", "q", "x", false, at(2));
    let (again, skipped) = ingest_file(&mut db, "two", "p.md", "p", "x", false, at(3));
    assert!(skipped);
    assert_eq!(again, known);
    assert!(db.get_document(&old).is_err());
    assert_eq!(db.get_document(&known).unwrap().path, "q.md");
    assert_eq!(db.documents.len(), 1);
    assert_eq!(db.chunks.len(), 1);
    assert!(db.edges.is_empty());
    let before = format!("{:?}", db);
    let (_, skipped) = ingest_file(&mut db, "two", "p.md", "p", "x", false, at(4));
    assert!(skipped);
    assert_eq!(format!("{:?}", db), before);
}

#[test]
fn forced_file_is_ingested_anew() {
    let mut db = Db::init();
    ingest_file(&mut db, "one", "a.md", "a", "x", false, at(1));
    let (_, skipped) = ingest_file(&mut db, "one", "a.md", "a", "y", true, at(2));
    assert!(!skipped);
    assert_eq!(db.documents.len(), 1);
    assert_eq!(db.documents[0].collection, "y");
    assert_eq!(db.documents[0].added_at, at(2));
    assert_eq!(db.chunks.len(), 1);
}

#[test]
fn file_without_title_is_known_by_its_stem() {
    let mut db = Db::init();
    let (a, _) = ingest_file(&mut db, "plain", "dir/name.md", "name", "x", false, at(1));
    assert_eq!(db.get_document(&a).unwrap().title, "name");
    let (b, _) = ingest_content(&mut db, "other", "https://e.org", "x", false, at(1));
    assert_eq!(db.get_document(&b).unwrap().title, "https://e.org");
}

#[test]
fn headings_before_the_body_count_as_titles() {
    let mut db = Db::init();
    let raw = "---\n# not yaml text\n---\nbody";
    let (id, _) = ingest_content(&mut db, raw, "p", "x", false, at(1));
    assert_eq!(db.get_document(&id).unwrap().title, "not yaml text");
}

#[test]
fn deleting_gives_back_what_was_there() {
    let mut db = Db::init();
    ingest_file(&mut db, "keep [[A]]", "k.md", "k", "x", false, at(1));
    let docs = format!("{:?}", db.documents);
    let chunks = format!("{:?}", db.chunks);
    let edges = format!("{:?}", db.edges);
    let (id, _) = ingest_file(&mut db, "gone [[B]] #c", "g.md", "g", "x", false, at(2));
    assert!(db.delete_document(&id).is_ok());
    assert_eq!(format!("{:?}", db.documents), docs);
    assert_eq!(format!("{:?}", db.chunks), chunks);
    assert_eq!(format!("{:?}", db.edges), edges);
}

#[test]
fn unchanged_page_is_skipped() {
    let mut db = Db::init();
    let url = "https://e.org/page";
    let html = "<title>Page</title><p>Text";
    let (title, (id, skipped)) = ingest_page(&mut db, url, html, "t1", "web", false, at(1));
    assert_eq!(title, "Page");
    assert!(!skipped);
    let (_, (again, skipped)) = ingest_page(&mut db, url, html, "t2", "web", false, at(2));
    assert!(skipped);
    assert_eq!(again, id);
    assert!(db.get_document(&id).unwrap().content.contains("fetched_at: \"t1\""));
}

#[test]
fn changed_or_forced_page_is_stored() {
    let mut db = Db::init();
    let url = "https://e.org/page";
    let (_, (one, _)) = ingest_page(&mut db, url, "<p>One", "t1", "web", false, at(1));
    let (_, (two, skipped)) = ingest_page(&mut db, url, "<p>Two", "t2", "web", false, at(2));
    assert!(!skipped);
    assert_ne!(one, two);
    assert_eq!(db.documents.len(), 1);
    let (_, (three, skipped)) = ingest_page(&mut db, url, "<p>Two", "t3", "web", true, at(3));
    assert!(!skipped);
    assert_ne!(two, three);
    assert_eq!(db.documents.len(), 1);
    assert_eq!(db.documents[0].path, url);
}
