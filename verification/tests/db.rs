use markstore::chunk::Chunk;
use markstore::db::{ChunkMatch, Db};
use markstore::document::{Document, Frontmatter, Timestamp};
use markstore::error::MksError;
use markstore::graph::{Confidence, Edge, Node, NodeKind};

fn doc(id: &str, path: &str, collection: &str, secs: i64) -> Document {
    Document {
        id: id.to_string(),
        path: path.to_string(),
        collection: collection.to_string(),
        title: format!("Title {}", id),
        content: format!("content {}", id),
        frontmatter: Frontmatter::new(),
        added_at: Timestamp { secs, nanos: 0 },
        content_hash: format!("hash {}", id),
    }
}

fn node(id: &str, label: &str, kind: NodeKind, doc_id: Option<&str>) -> Node {
    Node {
        id: id.to_string(),
        label: label.to_string(),
        kind,
        doc_id: doc_id.map(|s| s.to_string()),
        frequency: 7,
    }
}

fn edge(source: &str, target: &str, relation: &str, weight: u32, doc_id: &str) -> Edge {
    Edge {
        source: source.to_string(),
        target: target.to_string(),
        relation: relation.to_string(),
        confidence: Confidence::Extracted,
        weight,
        context: None,
        doc_id: doc_id.to_string(),
    }
}

fn ids(docs: &[Document]) -> Vec<String> {
    docs.iter().map(|d| d.id.clone()).collect()
}

fn filled() -> Db {
    let mut db = Db::init();
    db.upsert_document(&doc("a", "a.md", "x", 10));
    db.upsert_document(&doc("b", "b.md", "y", 30));
    db.upsert_document(&doc("c", "c.md", "x", 20));
    db
}

#[test]
fn opening_nothing_fails() {
    assert!(Db::open(Some(filled()), "p").is_ok());
    match Db::open(None, "some/path") {
        Err(MksError::NotInitialized(p)) => assert_eq!(p, "some/path"),
        _ => panic!("expected an error"),
    }
}

#[test]
fn documents_are_found_by_hash_and_path() {
    let db = filled();
    assert_eq!(db.find_by_hash("hash b"), Some("b".to_string()));
    assert_eq!(db.find_by_hash("nope"), None);
    assert_eq!(db.find_by_path("c.md"), Some("c".to_string()));
    assert_eq!(db.find_by_path("nope"), None);
}

#[test]
fn documents_are_read_back_and_replaced() {
    let mut db = filled();
    assert_eq!(db.get_document("a").unwrap().path, "a.md");
    db.upsert_document(&doc("a", "moved.md", "z", 5));
    assert_eq!(db.documents.len(), 3);
    assert_eq!(db.get_document("a").unwrap().path, "moved.md");
    match db.get_document("nope") {
        Err(MksError::NotFound(id)) => assert_eq!(id, "nope"),
        _ => panic!("expected an error"),
    }
}

#[test]
fn listing_is_newest_first_and_limited() {
    let db = filled();
    assert_eq!(ids(&db.list_documents(None, 10)), vec!["b", "c", "a"]);
    assert_eq!(ids(&db.list_documents(None, 2)), vec!["b", "c"]);
    assert_eq!(ids(&db.list_documents(Some("x"), 10)), vec!["c", "a"]);
    assert!(db.list_documents(Some("none"), 10).is_empty());
    assert!(db.list_documents(None, 0).is_empty());
}

#[test]
fn equal_times_keep_their_order() {
    let mut db = Db::init();
    for id in ["p", "q", "r", "s"] {
        db.upsert_document(&doc(id, id, "x", 1));
    }
    assert_eq!(ids(&db.list_documents(None, 10)), vec!["p", "q", "r", "s"]);
}

#[test]
fn deleting_takes_chunks_and_graph_along() {
    let mut db = filled();
    let chunk = |d: &str| Chunk {
        id: format!("{}_0", d),
        doc_id: d.to_string(),
        chunk_index: 0,
        title: "t".to_string(),
        content: "c".to_string(),
    };
    db.insert_chunks(&vec![chunk("a"), chunk("b")]);
    db.upsert_node(&node("doc_a", "A", NodeKind::Document, Some("a")));
    db.upsert_node(&node("doc_b", "B", NodeKind::Document, Some("b")));
    db.upsert_node(&node("tag_once", "#once", NodeKind::Tag, None));
    db.upsert_node(&node("tag_twice", "#twice", NodeKind::Tag, None));
    db.upsert_node(&node("tag_twice", "#twice", NodeKind::Tag, None));
    db.insert_edge(&edge("doc_a", "tag_once", "tagged", 800, "a"));
    db.insert_edge(&edge("doc_b", "tag_twice", "tagged", 800, "b"));
    db.upsert_embedding("a", "full", "[1]");
    assert!(db.delete_document("a").is_ok());
    assert_eq!(ids(&db.list_documents(None, 10)), vec!["b", "c"]);
    assert_eq!(db.chunks.len(), 1);
    assert_eq!(db.chunks[0].doc_id, "b");
    assert_eq!(db.edges.len(), 1);
    let left: Vec<&str> = db.nodes.iter().map(|n| n.id.as_str()).collect();
    assert_eq!(left, vec!["doc_b", "tag_twice"]);
    assert_eq!(db.all_embeddings().len(), 1);
    match db.delete_document("a") {
        Err(MksError::NotFound(id)) => assert_eq!(id, "a"),
        _ => panic!("expected an error"),
    }
}

#[test]
fn nodes_of_other_documents_stay() {
    let mut db = filled();
    db.upsert_node(&node("doc_a", "A", NodeKind::Document, Some("a")));
    db.upsert_node(&node("doc_b", "B", NodeKind::Document, Some("b")));
    db.upsert_node(&node("wikilink_w", "W", NodeKind::WikiLink, None));
    db.upsert_node(&node("tag_both", "#both", NodeKind::Tag, None));
    db.upsert_node(&node("tag_both", "#both", NodeKind::Tag, None));
    db.upsert_node(&node("tag_alone", "#alone", NodeKind::Tag, None));
    db.insert_edge(&edge("doc_b", "wikilink_w", "links_to", 1000, "b"));
    db.insert_edge(&edge("doc_a", "tag_both", "tagged", 800, "a"));
    db.insert_edge(&edge("doc_b", "tag_both", "tagged", 800, "b"));
    db.delete_graph_for_doc("a");
    let left = |db: &Db| -> Vec<String> { db.nodes.iter().map(|n| n.id.clone()).collect() };
    assert_eq!(left(&db), vec!["doc_b", "wikilink_w", "tag_both", "tag_alone"]);
    assert_eq!(db.edges.len(), 2);
    // Once no document is left that mentions them, they go, however often they occurred.
    db.delete_graph_for_doc("b");
    assert_eq!(left(&db), vec!["tag_alone"]);
    assert!(db.edges.is_empty());
}

#[test]
fn nodes_count_their_occurrences() {
    let mut db = Db::init();
    let n = node("tag_x", "#x", NodeKind::Tag, None);
    db.upsert_node(&n);
    assert_eq!(db.get_node("tag_x").unwrap().frequency, 1);
    db.upsert_node(&n);
    db.upsert_node(&n);
    assert_eq!(db.get_node("tag_x").unwrap().frequency, 3);
    assert_eq!(db.all_nodes().len(), 1);
    match db.get_node("nope") {
        Err(MksError::NodeNotFound(id)) => assert_eq!(id, "nope"),
        _ => panic!("expected an error"),
    }
}

#[test]
fn labels_match_exactly_then_by_prefix_then_within() {
    let mut db = Db::init();
    db.upsert_node(&node("1", "Deep Attention", NodeKind::WikiLink, None));
    db.upsert_node(&node("2", "Attention Heads", NodeKind::WikiLink, None));
    db.upsert_node(&node("3", "ATTENTION", NodeKind::WikiLink, None));
    db.upsert_node(&node("4", "Äpfel 100%", NodeKind::WikiLink, None));
    assert_eq!(db.find_node_by_label("attention").unwrap(), "3");
    assert_eq!(db.find_node_by_label("atten").unwrap(), "2");
    assert_eq!(db.find_node_by_label("ep att").unwrap(), "1");
    assert_eq!(db.find_node_by_label("äPFEL").unwrap(), "4");
    assert_eq!(db.find_node_by_label("%").unwrap(), "4");
    match db.find_node_by_label("Nowhere") {
        Err(MksError::NodeNotFound(l)) => assert_eq!(l, "Nowhere"),
        _ => panic!("expected an error"),
    }
    assert_eq!(db.search_nodes_by_label("ATTEN"), vec!["1", "2", "3"]);
    assert!(db.search_nodes_by_label("zzz").is_empty());
    assert_eq!(db.search_nodes_by_label("").len(), 4);
}

#[test]
fn all_matching_labels_are_returned() {
    let mut db = Db::init();
    for i in 0..60 {
        db.upsert_node(&node(&format!("n{}", i), &format!("Label {}", i), NodeKind::Tag, None));
    }
    assert_eq!(db.search_nodes_by_label("label").len(), 60);
}

#[test]
fn edges_are_listed_by_either_end() {
    let mut db = Db::init();
    db.insert_edge(&edge("a", "b", "r1", 1000, "d"));
    db.insert_edge(&edge("c", "b", "r2", 800, "d"));
    db.insert_edge(&edge("b", "a", "r3", 600, "d"));
    db.insert_edge(&edge("b", "b", "self", 1, "d"));
    assert_eq!(db.edges_from("a"), vec![("b".to_string(), "r1".to_string(), 1000)]);
    assert_eq!(
        db.edges_to("b"),
        vec![
            ("a".to_string(), "r1".to_string(), 1000),
            ("c".to_string(), "r2".to_string(), 800),
            ("b".to_string(), "self".to_string(), 1),
        ]
    );
    assert_eq!(db.node_degree("b"), 5);
    assert_eq!(db.node_degree("none"), 0);
}

#[test]
fn graph_counts() {
    let mut db = Db::init();
    db.upsert_node(&node("doc_a", "A", NodeKind::Document, Some("a")));
    db.upsert_node(&node("doc_b", "B", NodeKind::Document, Some("b")));
    db.upsert_node(&node("w", "W", NodeKind::WikiLink, None));
    db.upsert_node(&node("t", "T", NodeKind::Tag, None));
    db.upsert_node(&node("c", "C", NodeKind::Concept, None));
    db.insert_edge(&edge("doc_a", "w", "links_to", 1000, "a"));
    let mut inferred = edge("doc_a", "c", "contains", 600, "a");
    inferred.confidence = Confidence::Inferred;
    db.insert_edge(&inferred);
    let mut ambiguous = edge("x", "doc_b", "?", 1, "a");
    ambiguous.confidence = Confidence::Ambiguous;
    db.insert_edge(&ambiguous);
    let s = db.graph_stats();
    assert_eq!(
        (s.total_nodes, s.doc_nodes, s.wikilink_nodes, s.tag_nodes),
        (5, 2, 1, 1)
    );
    assert_eq!(
        (s.total_edges, s.extracted_edges, s.inferred_edges, s.ambiguous_edges, s.isolated_docs),
        (3, 1, 1, 1, 1)
    );
}

#[test]
fn store_counts_by_collection_in_order() {
    let mut db = filled();
    db.upsert_document(&doc("d", "d.md", "B", 1));
    let s = db.stats();
    assert_eq!((s.total_docs, s.total_chunks, s.total_nodes, s.total_edges), (4, 0, 0, 0));
    assert_eq!(
        s.collections,
        vec![("B".to_string(), 1), ("x".to_string(), 2), ("y".to_string(), 1)]
    );
}

#[test]
fn embeddings_are_replaced_and_deleted() {
    let mut db = filled();
    assert_eq!(db.find_unembedded_docs(), vec!["a", "b", "c"]);
    db.upsert_embedding("b", "full", "[1]");
    db.upsert_embedding("b", "part", "[2]");
    db.upsert_embedding("b", "full", "[3]");
    let rows: Vec<(String, String)> =
        db.all_embeddings().into_iter().map(|e| (e.chunk_id, e.vector)).collect();
    assert_eq!(
        rows,
        vec![("part".to_string(), "[2]".to_string()), ("full".to_string(), "[3]".to_string())]
    );
    assert_eq!(db.find_unembedded_docs(), vec!["a", "c"]);
    db.delete_embeddings_for_doc("b");
    assert!(db.all_embeddings().is_empty());
}

fn hit(doc_id: &str, snippet: &str) -> ChunkMatch {
    ChunkMatch {
        doc_id: doc_id.to_string(),
        title: format!("Chunk of {}", doc_id),
        snippet: Some(snippet.to_string()),
    }
}

#[test]
fn matching_rows_become_results() {
    let db = filled();
    let ranked = vec![hit("b", "1"), hit("gone", "2"), hit("b", "3"), hit("a", "4"), hit("c", "5")];
    let all = db.fts_search(&ranked, 10, None, true);
    let seen: Vec<(&str, Option<&str>, Option<&str>)> = all
        .iter()
        .map(|r| (r.doc_id.as_str(), r.snippet.as_deref(), r.collection.as_deref()))
        .collect();
    assert_eq!(
        seen,
        vec![
            ("b", Some("1"), Some("y")),
            ("a", Some("4"), Some("x")),
            ("c", Some("5"), Some("x"))
        ]
    );
    assert_eq!(all[0].title, "Chunk of b");
    // The limit counts documents, after rows of one document are taken together.
    assert_eq!(db.fts_search(&ranked, 2, None, true).len(), 2);
    assert!(db.fts_search(&ranked, 0, None, true).is_empty());
    let only_x = db.fts_search(&ranked, 1, Some("x"), false);
    assert_eq!(only_x.len(), 1);
    assert_eq!(only_x[0].doc_id, "a");
    assert_eq!(only_x[0].snippet, None);
}

#[test]
fn vector_search_ranks_by_best_score() {
    let db = filled();
    let scores: Vec<(String, u32)> = vec![
        ("a".to_string(), 5),
        ("b".to_string(), 9),
        ("a".to_string(), 20),
        ("gone".to_string(), 99),
        ("c".to_string(), 9),
    ];
    let found = |limit: usize, col: Option<&str>| -> Vec<String> {
        db.vector_search(&scores, limit, col).into_iter().map(|r| r.doc_id).collect()
    };
    assert_eq!(found(10, None), vec!["a", "b", "c"]);
    assert_eq!(found(1, None), vec!["a"]);
    assert_eq!(found(10, Some("x")), vec!["a", "c"]);
    // The collection is searched, however many others are closer.
    assert_eq!(found(1, Some("y")), vec!["b"]);
    assert_eq!(found(1, Some("x")), vec!["a"]);
    assert_eq!(found(2, Some("x")), vec!["a", "c"]);
    assert!(found(3, Some("none")).is_empty());
    assert!(found(0, None).is_empty());
    assert!(db.vector_search(&Vec::new(), 3, None).is_empty());
    assert_eq!(found(usize::MAX, None), vec!["a", "b", "c"]);
    assert_eq!(db.vector_search(&scores, 1, None)[0].title, "Title a");
}
