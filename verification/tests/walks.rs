use markstore::db::Db;
use markstore::error::MksError;
use markstore::graph::{Confidence, Edge, Node, NodeKind};
use markstore::path::cheapest_walk;

fn node(id: &str, label: &str) -> Node {
    Node {
        id: id.to_string(),
        label: label.to_string(),
        kind: NodeKind::WikiLink,
        doc_id: None,
        frequency: 1,
    }
}

fn edge(source: &str, target: &str, relation: &str, weight: u32) -> Edge {
    Edge {
        source: source.to_string(),
        target: target.to_string(),
        relation: relation.to_string(),
        confidence: Confidence::Extracted,
        weight,
        context: None,
        doc_id: "d".to_string(),
    }
}

fn graph(labels: &[&str], edges: &[(&str, &str, &str, u32)]) -> Db {
    let mut db = Db::init();
    for l in labels {
        db.upsert_node(&node(&l.to_lowercase(), l));
    }
    for (s, t, r, w) in edges {
        db.insert_edge(&edge(s, t, r, *w));
    }
    db
}

fn seeds(ids: &[&str]) -> Vec<String> {
    ids.iter().map(|s| s.to_string()).collect()
}

fn found(db: &Db, ids: &[&str], depth: usize, budget: usize) -> Vec<(String, usize)> {
    db.bfs_neighbors(&seeds(ids), depth, budget).into_iter().map(|(n, d)| (n.id, d)).collect()
}

#[test]
fn neighbours_within_depth_by_degree() {
    let db = graph(
        &["A", "B", "C", "D", "E"],
        &[("a", "b", "r", 1), ("b", "c", "r", 1), ("c", "d", "r", 1), ("e", "b", "r", 1)],
    );
    assert_eq!(found(&db, &["a"], 0, 1000), vec![("a".to_string(), 1)]);
    assert_eq!(
        found(&db, &["a"], 1, 1000),
        vec![("b".to_string(), 3), ("a".to_string(), 1)]
    );
    assert_eq!(
        found(&db, &["a"], 2, 1000),
        vec![("b".to_string(), 3), ("c".to_string(), 2), ("a".to_string(), 1), ("e".to_string(), 1)]
    );
    assert_eq!(found(&db, &["a"], usize::MAX, 1000).len(), 5);
    assert_eq!(found(&db, &["a", "a", "d"], 0, 1000).len(), 2);
    assert!(found(&db, &[], 3, 1000).is_empty());
    assert!(found(&db, &["nowhere"], 3, 1000).is_empty());
}

#[test]
fn unknown_nodes_are_not_passed() {
    let db = graph(&["A", "C"], &[("a", "ghost", "r", 1), ("ghost", "c", "r", 1)]);
    assert_eq!(found(&db, &["a"], 5, 1000), vec![("a".to_string(), 1)]);
}

#[test]
fn budget_stops_the_report() {
    let db = graph(&["A", "B", "C"], &[("a", "b", "r", 1), ("a", "c", "r", 1)]);
    // Each node takes five tokens and one for every four bytes of its label.
    assert_eq!(found(&db, &["a"], 1, 0).len(), 1);
    assert_eq!(found(&db, &["a"], 1, 5).len(), 1);
    assert_eq!(found(&db, &["a"], 1, 6).len(), 2);
    assert_eq!(found(&db, &["a"], 1, 11).len(), 3);
}

#[test]
fn cheapest_way_is_found_in_either_direction() {
    let db = graph(
        &["A", "B", "C", "D"],
        &[
            ("a", "d", "direct", 5000),
            ("b", "a", "back", 1000),
            ("b", "c", "on", 800),
            ("d", "c", "last", 600),
        ],
    );
    let hops = db.shortest_path("A", "D").unwrap();
    let way: Vec<(&str, &str)> =
        hops.iter().map(|h| (h.node.id.as_str(), h.relation.as_str())).collect();
    assert_eq!(way, vec![("a", ""), ("b", "back"), ("c", "on"), ("d", "last")]);
    let back = db.shortest_path("D", "A").unwrap();
    assert_eq!(back.len(), hops.len());
}

#[test]
fn direct_way_is_taken_when_cheaper() {
    let db = graph(
        &["A", "B", "C"],
        &[("a", "c", "direct", 1500), ("a", "b", "x", 1000), ("b", "c", "y", 800)],
    );
    let hops = db.shortest_path("a", "c").unwrap();
    assert_eq!(hops.len(), 2);
    assert_eq!(hops[1].relation, "direct");
}

#[test]
fn of_several_edges_the_cheapest_counts() {
    let edges = vec![edge("a", "b", "x", 9), edge("b", "a", "y", 3), edge("a", "b", "z", 3)];
    let walk = cheapest_walk(&edges, "a", "b").unwrap();
    assert_eq!(walk.len(), 1);
    assert_eq!(edges[walk[0].0].weight, 3);
    assert_eq!(walk[0].1, "b");
}

#[test]
fn node_is_its_own_path() {
    let db = graph(&["A"], &[]);
    let hops = db.shortest_path("A", "a").unwrap();
    assert_eq!(hops.len(), 1);
    assert_eq!(hops[0].relation, "");
    assert_eq!(cheapest_walk(&Vec::new(), "q", "q").map(|w| w.len()), Some(0));
    let free = graph(&["A", "B"], &[("a", "b", "r", 0), ("b", "a", "r", 0)]);
    assert_eq!(free.shortest_path("A", "A").unwrap().len(), 1);
}

#[test]
fn unconnected_nodes_have_no_path() {
    let db = graph(&["A", "B", "C"], &[("a", "b", "r", 1)]);
    match db.shortest_path("A", "C") {
        Err(MksError::NoPath(f, t)) => assert_eq!((f.as_str(), t.as_str()), ("A", "C")),
        _ => panic!("expected an error"),
    }
    match db.shortest_path("X", "Y") {
        Err(MksError::NodeNotFound(l)) => assert_eq!(l, "X"),
        _ => panic!("expected an error"),
    }
    match db.shortest_path("A", "Y") {
        Err(MksError::NodeNotFound(l)) => assert_eq!(l, "Y"),
        _ => panic!("expected an error"),
    }
}

#[test]
fn ways_may_pass_unknown_nodes() {
    let db = graph(&["A", "C"], &[("a", "ghost", "r", 1), ("ghost", "c", "s", 1)]);
    let hops = db.shortest_path("A", "C").unwrap();
    assert_eq!(hops[1].node.id, "ghost");
    assert_eq!(hops[1].node.label, "ghost");
    assert_eq!(hops[1].node.kind, NodeKind::WikiLink);
    assert_eq!(hops[2].node.label, "C");
}

#[test]
fn heavy_edges_do_not_overflow() {
    let edges: Vec<Edge> =
        (0..50).map(|i| edge(&format!("n{}", i), &format!("n{}", i + 1), "r", u32::MAX)).collect();
    assert_eq!(cheapest_walk(&edges, "n0", "n50").unwrap().len(), 50);
}

#[test]
fn ties_go_to_the_greater_identifier() {
    let edges = vec![
        edge("s", "a", "1", 1),
        edge("s", "b", "2", 1),
        edge("a", "t", "3", 1),
        edge("b", "t", "4", 1),
    ];
    let walk = cheapest_walk(&edges, "s", "t").unwrap();
    let via: Vec<&str> = walk.iter().map(|(_, to)| to.as_str()).collect();
    assert_eq!(via, vec!["b", "t"]);
}

#[test]
fn hubs_are_ranked_and_isolated_nodes_left_out() {
    let db = graph(&["A", "B", "C", "D"], &[("a", "b", "r", 1), ("a", "c", "r", 1)]);
    let top: Vec<(String, usize)> =
        db.god_nodes(10).into_iter().map(|g| (g.node.id, g.degree)).collect();
    assert_eq!(
        top,
        vec![("a".to_string(), 2), ("b".to_string(), 1), ("c".to_string(), 1)]
    );
    assert_eq!(db.god_nodes(1).len(), 1);
}

#[test]
fn report_shows_counts_and_hubs() {
    let mut db = graph(&["A"], &[("doc_1", "a", "links_to", 1000)]);
    let mut d = node("doc_1", "One");
    d.kind = NodeKind::Document;
    db.upsert_node(&d);
    let mut e = node("doc_2", "Two");
    e.kind = NodeKind::Document;
    db.upsert_node(&e);
    assert_eq!(
        db.graph_report(),
        "# Knowledge Graph Report\n\n\
         Nodes  : 3  (documents: 2, wikilinks: 1, tags: 0)\n\
         Edges  : 1  (extracted: 1, inferred: 0, ambiguous: 0)\n\n\
         ## Most Connected Nodes\n\n\
         \x20    1  wikilink      A\n\
         \x20    1  document      One\n\n\
         1 document(s) have no outgoing links.\n"
    );
    assert_eq!(
        Db::init().graph_report(),
        "# Knowledge Graph Report\n\n\
         Nodes  : 0  (documents: 0, wikilinks: 0, tags: 0)\n\
         Edges  : 0  (extracted: 0, inferred: 0, ambiguous: 0)\n\n"
    );
}
