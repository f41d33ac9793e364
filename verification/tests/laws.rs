use markstore::chunk::chunk_document;
use markstore::db::Db;
use markstore::document::{content_id, parse_frontmatter, Timestamp};
use markstore::fetch::html_to_text;
use markstore::cli::GraphCommand;
use markstore::command::handle_graph;
use markstore::graph::{
    extract_concepts, extract_graph, extract_tags, slug, Confidence, Edge, Node, NodeKind,
};
use markstore::ingest::ingest_file;
use markstore::path::cheapest_walk;
use markstore::search::{compare_values, parse_query, NumericComparison, QueryKind, WhereOp};

fn at(secs: i64) -> Timestamp {
    Timestamp { secs, nanos: 0 }
}

fn edge(source: &str, target: &str, weight: u32) -> Edge {
    Edge {
        source: source.to_string(),
        target: target.to_string(),
        relation: "r".to_string(),
        confidence: Confidence::Extracted,
        weight,
        context: None,
        doc_id: "d".to_string(),
    }
}

fn store() -> Db {
    let mut db = Db::init();
    ingest_file(&mut db, "# A\n[[X]] #t #t\nBig Idea. Big Idea.", "a", "a", "p", false, at(1));
    ingest_file(&mut db, "# B\n[[X]] [[Y]]", "b", "b", "q", false, at(2));
    ingest_file(&mut db, "# C\nnothing", "c", "c", "p", false, at(3));
    db
}

#[test]
fn counts_add_up() {
    let db = store();
    let s = db.stats();
    assert_eq!(s.collections.iter().map(|(_, n)| n).sum::<usize>(), s.total_docs);
    let g = db.graph_stats();
    assert_eq!(g.extracted_edges + g.inferred_edges + g.ambiguous_edges, g.total_edges);
    assert!(g.doc_nodes + g.wikilink_nodes + g.tag_nodes <= g.total_nodes);
    assert_eq!(g.isolated_docs, 1);
    assert!(g.isolated_docs <= g.doc_nodes);
}

#[test]
fn documents_are_identified_by_their_content() {
    let db = store();
    for d in &db.documents {
        assert_eq!(d.id, content_id(&d.content));
        assert!(d.content_hash.starts_with(&d.id));
    }
    let mut seen: Vec<&str> = db.nodes.iter().map(|n| n.id.as_str()).collect();
    seen.sort();
    seen.dedup();
    assert_eq!(seen.len(), db.nodes.len());
}

#[test]
fn added_documents_are_in_index_and_graph() {
    let db = store();
    for d in &db.documents {
        let (_, body) = parse_frontmatter(&d.content);
        for c in chunk_document(&d.id, &d.title, body) {
            assert!(db.chunks.iter().any(|r| r.doc_id == c.doc_id && r.content == c.content));
        }
        let (nodes, edges) = extract_graph(&d.id, &d.title, body);
        assert!(nodes.iter().all(|n| db.get_node(&n.id).is_ok()));
        for e in edges {
            assert!(db.edges.iter().any(|f| f.source == e.source && f.target == e.target));
        }
    }
}

#[test]
fn deleting_spares_the_others() {
    let mut db = store();
    let id = db.documents[0].id.clone();
    let other = db.documents[1].id.clone();
    assert!(db.delete_document(&id).is_ok());
    assert!(db.get_document(&other).is_ok());
    assert!(db.get_node(&format!("doc_{}", other)).is_ok());
    assert_eq!(db.edges.iter().filter(|e| e.doc_id == other).count(), 2);
    assert_eq!(db.chunks.iter().filter(|c| c.doc_id == other).count(), 1);
    assert!(db.edges.iter().all(|e| e.doc_id != id));
}

#[test]
fn slugs_hold_letters_digits_and_underscores() {
    for label in ["C++ & Rust!", "__x__", "tab\there", "ß ẞ 9", "日本 語", "Ünï_", "½"] {
        let s = slug(label);
        assert!(s.chars().all(|c| c.is_ascii_lowercase() || c.is_ascii_digit() || c == '_'));
        assert_eq!(slug(&s), s);
        assert!(!s.starts_with('_') && !s.ends_with('_') && !s.contains("__"));
    }
}

#[test]
fn texts_are_made_up_of_frontmatter_and_body() {
    let text = "---\na: 1\n---\nbody";
    let (_, body) = parse_frontmatter(text);
    assert_eq!(format!("---\na: 1\n---\n{}", body), text);
    let tight = "---\na: 1\n---body";
    assert_eq!(parse_frontmatter(tight).1, "body");
    let twice = "---\na: 1\n---\nb\n---\nc";
    assert_eq!(parse_frontmatter(twice).1, "b\n---\nc");
}

#[test]
fn concepts_are_listed_once() {
    let found = extract_concepts("Big Idea Big Idea\nBig Idea, Big Idea; Red Fox, Red Fox.");
    let mut unique = found.clone();
    unique.sort();
    unique.dedup();
    assert_eq!(unique.len(), found.len());
    assert!(found.contains(&"Red Fox".to_string()));
}

#[test]
fn distances_are_symmetric() {
    let edges = vec![
        edge("a", "b", 4),
        edge("c", "b", 1),
        edge("a", "c", 2),
        edge("d", "c", 7),
        edge("d", "b", 5),
    ];
    let cost = |from: &str, to: &str| -> u32 {
        cheapest_walk(&edges, from, to).unwrap().iter().map(|(e, _)| edges[*e].weight).sum()
    };
    let ids = ["a", "b", "c", "d"];
    for x in ids {
        assert_eq!(cost(x, x), 0);
        for y in ids {
            assert_eq!(cost(x, y), cost(y, x));
        }
    }
    assert_eq!(cost("a", "b"), 3);
    assert_eq!(cost("a", "d"), 8);
}

#[test]
fn opposite_comparisons_disagree() {
    for (a, b) in [("a", "b"), ("b", "a"), ("a", "a"), ("", "x")] {
        let c = |op: WhereOp| compare_values(a, op, b, None);
        assert_ne!(c(WhereOp::Equal), c(WhereOp::Unequal));
        assert_ne!(c(WhereOp::Less), c(WhereOp::AtLeast));
        assert_ne!(c(WhereOp::Greater), c(WhereOp::AtMost));
    }
}

#[test]
fn no_bracket_survives_without_entities() {
    let text = html_to_text("a < b > c <i>d</i> e > f");
    assert!(!text.contains('<') && !text.contains('>'));
    assert_eq!(html_to_text("plain text"), "plain text");
}

#[test]
fn deeper_walks_find_more() {
    let mut db = Db::init();
    for i in 0..5 {
        db.upsert_node(&Node {
            id: format!("n{}", i),
            label: format!("N{}", i),
            kind: NodeKind::Tag,
            doc_id: None,
            frequency: 1,
        });
    }
    for i in 0..4 {
        db.insert_edge(&edge(&format!("n{}", i), &format!("n{}", i + 1), 1));
    }
    for depth in 0..6 {
        let found = db.bfs_neighbors(&vec!["n0".to_string()], depth, 10_000);
        assert_eq!(found.len(), (depth + 1).min(5));
        assert!(found.windows(2).all(|w| w[0].1 >= w[1].1));
    }
}

#[test]
fn opposite_comparisons_of_numbers_disagree() {
    for (near, less, equal, greater) in [
        (true, false, true, false),
        (true, true, false, false),
        (false, true, false, false),
        (false, false, false, true),
    ] {
        let n = NumericComparison { near, far: !near, less, equal, greater };
        let c = |op: WhereOp| compare_values("1", op, "2", Some(n));
        assert_ne!(c(WhereOp::Equal), c(WhereOp::Unequal));
        assert_ne!(c(WhereOp::Less), c(WhereOp::AtLeast));
        assert_ne!(c(WhereOp::Greater), c(WhereOp::AtMost));
    }
}

#[test]
fn keyword_prefix_is_optional() {
    for q in ["a b", "  a ", "", "x lex: y"] {
        let with = parse_query(&format!("lex: {}", q));
        match (with, parse_query(q)) {
            (QueryKind::Lex(a), QueryKind::Lex(b)) => {
                assert_eq!(a, b);
                assert_eq!(a, q.trim());
            }
            _ => panic!("expected keywords"),
        }
    }
}

#[test]
fn tags_of_joined_texts_follow_each_other() {
    for a in ["#one two", "#one\n", "", "```\n#no\n```\n#yes", "#a\r", "#a\r\r", "x\n\r"] {
        for b in ["#b", "", "\n#c\n"] {
            let mut parts = extract_tags(a);
            parts.extend(extract_tags(b));
            assert_eq!(extract_tags(&format!("{}\n{}", a, b)), parts);
        }
    }
}

#[test]
fn every_edge_joins_stored_nodes() {
    let sound = |db: &Db| {
        db.edges.iter().all(|e| db.get_node(&e.source).is_ok() && db.get_node(&e.target).is_ok())
    };
    let mut db = store();
    assert!(sound(&db));
    let edges = db.edges.len();
    let text = handle_graph(&mut db, &GraphCommand::Build { force: true });
    assert!(text.is_ok());
    assert!(sound(&db));
    assert_eq!(db.edges.len(), edges);
    for d in &db.documents {
        let (_, body) = parse_frontmatter(&d.content);
        let (nodes, _) = extract_graph(&d.id, &d.title, body);
        assert!(nodes.iter().all(|n| db.get_node(&n.id).is_ok()));
    }
    let first = db.documents[0].id.clone();
    assert!(db.delete_document(&first).is_ok());
    assert!(sound(&db));
    while let Some(d) = db.documents.first() {
        let id = d.id.clone();
        assert!(db.delete_document(&id).is_ok());
    }
    assert!(db.nodes.is_empty() && db.edges.is_empty());
}
