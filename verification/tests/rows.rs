use markstore::document::{parse_frontmatter, Document, Frontmatter, Timestamp};
use markstore::graph::NodeKind;
use markstore::rows::{document_to_row, row_to_document, row_to_node, DocumentRow};

#[test]
fn times_are_written_and_read_back() {
    let t = Timestamp { secs: 1_700_000_000, nanos: 120_000_000 };
    assert_eq!(t.to_rfc3339().as_deref(), Some("2023-11-14T22:13:20.120+00:00"));
    assert_eq!(t.date().as_deref(), Some("2023-11-14"));
    for t in [
        Timestamp { secs: 0, nanos: 0 },
        Timestamp { secs: 253_402_300_799, nanos: 999_999_999 },
        Timestamp { secs: 1, nanos: 1 },
        Timestamp { secs: 951_782_400, nanos: 1_000 },
    ] {
        let text = t.to_rfc3339().unwrap();
        assert!(!text.contains('"'));
        assert_eq!(Timestamp::parse_rfc3339(&text), Some(t));
    }
    assert_eq!(
        Timestamp::parse_rfc3339("1970-01-01T01:00:00+01:00"),
        Some(Timestamp { secs: 0, nanos: 0 })
    );
    assert_eq!(Timestamp::parse_rfc3339("yesterday"), None);
    let never = Timestamp { secs: i64::MAX, nanos: 0 };
    assert_eq!(never.to_rfc3339(), None);
    assert_eq!(never.date(), None);
}

#[test]
fn frontmatter_is_written_as_json_and_read_back() {
    let (fm, _) = parse_frontmatter("---\nb: 'x \"y\"'\na: [1, null]\n\"k\\tz\": 2\n---\n");
    let json = fm.to_json();
    assert_eq!(json, "{\"a\":[1,null],\"b\":\"x \\\"y\\\"\",\"k\\tz\":2}");
    let back = Frontmatter::from_json(&json);
    assert_eq!(format!("{:?}", back), format!("{:?}", fm));
    assert_eq!(Frontmatter::new().to_json(), "{}");
    assert!(Frontmatter::from_json("not json").fields.is_empty());
    assert!(Frontmatter::from_json("[1]").fields.is_empty());
}

#[test]
fn control_characters_are_escaped() {
    let json = Frontmatter::from_json("{\"a\\u0001\\b\\f\\r\\n\\\\é\":1}").to_json();
    assert_eq!(json, "{\"a\\u0001\\b\\f\\r\\n\\\\é\":1}");
}

#[test]
fn documents_are_rows() {
    let (fm, _) = parse_frontmatter("---\ntitle: T\n---\n");
    let doc = Document {
        id: "i".to_string(),
        path: "p".to_string(),
        collection: "c".to_string(),
        title: "t".to_string(),
        content: "x".to_string(),
        frontmatter: fm,
        added_at: Timestamp { secs: 60, nanos: 0 },
        content_hash: "h".to_string(),
    };
    let row = document_to_row(&doc).unwrap();
    assert_eq!(row.added_at, "1970-01-01T00:01:00+00:00");
    assert_eq!(row.frontmatter_json, "{\"title\":\"T\"}");
    let back = row_to_document(row, Timestamp { secs: 5, nanos: 5 });
    assert_eq!(format!("{:?}", back), format!("{:?}", doc));
}

#[test]
fn broken_rows_are_mended() {
    let now = Timestamp { secs: 5, nanos: 5 };
    let row = DocumentRow {
        id: "i".to_string(),
        path: "p".to_string(),
        collection: "c".to_string(),
        title: "t".to_string(),
        content: "x".to_string(),
        frontmatter_json: "broken".to_string(),
        added_at: "never".to_string(),
        content_hash: "h".to_string(),
    };
    let doc = row_to_document(row, now);
    assert_eq!(doc.added_at, now);
    assert!(doc.frontmatter.fields.is_empty());
}

#[test]
fn time_out_of_range_has_no_row() {
    let doc = Document {
        id: "i".to_string(),
        path: "p".to_string(),
        collection: "c".to_string(),
        title: "t".to_string(),
        content: "x".to_string(),
        frontmatter: Frontmatter::new(),
        added_at: Timestamp { secs: i64::MIN, nanos: 0 },
        content_hash: "h".to_string(),
    };
    assert!(document_to_row(&doc).is_none());
}

#[test]
fn nodes_are_rows() {
    let n = row_to_node("i".to_string(), "l".to_string(), "tag", None, 3);
    assert_eq!(n.kind, NodeKind::Tag);
    assert_eq!(n.frequency, 3);
    let m = row_to_node("i".to_string(), "l".to_string(), "?", Some("d".to_string()), 1);
    assert_eq!(m.kind, NodeKind::WikiLink);
    assert_eq!(m.doc_id.as_deref(), Some("d"));
}

#[test]
fn frontmatter_of_strings_is_read_back() {
    let raw = "---\nb: \"q\\\"\\\\ \\u0001\\té—𝔘\"\na: plain\nÄ: \"\"\nz: \"12\"\n---\n";
    let (fm, _) = parse_frontmatter(raw);
    let keys: Vec<&str> = fm.fields.iter().map(|f| f.key.as_str()).collect();
    assert_eq!(keys, vec!["a", "b", "z", "Ä"]);
    assert!(fm.fields.iter().all(|f| f.value.as_str().is_some()));
    let back = Frontmatter::from_json(&fm.to_json());
    assert_eq!(format!("{:?}", back), format!("{:?}", fm));
    assert_eq!(fm.get("b").and_then(|v| v.as_str()), Some("q\"\\ \u{1}\té—𝔘"));
}
