use markstore::document::Timestamp;
use markstore::error::MksError;
use markstore::store::{Store, StoredDocument};

fn at(secs: i64) -> Timestamp {
    Timestamp { secs, nanos: 0 }
}

fn filled() -> Store {
    let mut s = Store::init();
    s.add("1", "# One", "one.md", "one", "x", at(10));
    s.add("2", "---\ntitle: Two\n---\n", "two.md", "two", "y", at(30));
    s.add("3", "plain", "three.md", "three", "x", at(20));
    s
}

fn ids(docs: &[StoredDocument]) -> Vec<&str> {
    docs.iter().map(|d| d.id.as_str()).collect()
}

#[test]
fn records_are_added_with_their_titles() {
    let mut s = filled();
    assert_eq!(s.get("1").unwrap().title, "One");
    assert_eq!(s.get("2").unwrap().title, "Two");
    assert_eq!(s.get("3").unwrap().title, "three");
    let again = s.add("1", "---\n# Head\n---\ntext", "p", "stem", "z", at(1));
    assert_eq!(again.title, "stem");
    assert_eq!(s.documents.len(), 3);
    assert_eq!(s.get("1").unwrap().collection, "z");
}

#[test]
fn store_opens_with_its_records() {
    let s = Store::open(Some(filled().documents), "root").unwrap();
    assert_eq!(s.documents.len(), 3);
    match Store::open(None, "root") {
        Err(MksError::NotInitialized(p)) => assert_eq!(p, "root"),
        _ => panic!("expected an error"),
    }
}

#[test]
fn records_found_by_the_index_are_loaded() {
    let s = filled();
    let found: Vec<String> = ["3", "2", "1"].iter().map(|i| i.to_string()).collect();
    assert_eq!(ids(&s.search(&found, 10, None).unwrap()), vec!["3", "2", "1"]);
    assert_eq!(ids(&s.search(&found, 2, None).unwrap()), vec!["3", "2"]);
    assert_eq!(ids(&s.search(&found, 10, Some("x")).unwrap()), vec!["3", "1"]);
    let broken: Vec<String> = ["3", "gone", "1"].iter().map(|i| i.to_string()).collect();
    assert_eq!(ids(&s.search(&broken, 1, None).unwrap()), vec!["3"]);
    match s.search(&broken, 2, None) {
        Err(MksError::NotFound(id)) => assert_eq!(id, "gone"),
        _ => panic!("expected an error"),
    }
}

#[test]
fn records_are_listed_newest_first() {
    let s = filled();
    assert_eq!(ids(&s.list(None, 10)), vec!["2", "3", "1"]);
    assert_eq!(ids(&s.list(None, 2)), vec!["2", "1"]);
    assert_eq!(ids(&s.list(Some("x"), 10)), vec!["3", "1"]);
    assert!(s.list(None, 0).is_empty());
    assert_eq!(ids(&s.list(None, 1)), vec!["1"]);
}

#[test]
fn records_are_removed() {
    let mut s = filled();
    assert!(s.remove("2").is_ok());
    assert!(s.get("2").is_err());
    assert_eq!(s.documents.len(), 2);
    match s.remove("2") {
        Err(MksError::NotFound(id)) => assert_eq!(id, "2"),
        _ => panic!("expected an error"),
    }
}

#[test]
fn records_are_counted() {
    let stats = filled().stats();
    assert_eq!(stats.total, 3);
    assert_eq!(stats.by_collection, vec![("x".to_string(), 2), ("y".to_string(), 1)]);
}
