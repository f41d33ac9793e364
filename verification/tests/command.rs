use markstore::cli::GraphCommand;
use markstore::command::{
    add_summary, build_graph, documents_json, embed_targets, handle_graph, is_url, list_page,
    render_intent, render_list, render_results, render_stats, resolve_node, results_json,
    store_embedding,
};
use markstore::db::Db;
use markstore::document::Timestamp;
use markstore::error::MksError;
use markstore::ingest::ingest_file;
use markstore::search::SearchResult;

fn at(secs: i64) -> Timestamp {
    Timestamp { secs, nanos: 0 }
}

fn store() -> Db {
    let mut db = Db::init();
    ingest_file(&mut db, "# One\n[[Shared]] #tag", "one.md", "one", "x", false, at(86_400));
    ingest_file(&mut db, "# Two\n[[Shared]] [[Lone]]", "two.md", "two", "y", false, at(172_800));
    db
}

fn run(db: &mut Db, cmd: GraphCommand) -> String {
    match handle_graph(db, &cmd) {
        Ok(s) => s,
        Err(f) => panic!("{}: {}", f.context, f.error.message()),
    }
}

#[test]
fn graph_is_built_only_where_missing() {
    let mut db = store();
    assert_eq!(
        run(&mut db, GraphCommand::Build { force: false }),
        "Graph built/updated for 0 document(s).\n"
    );
    db.nodes.clear();
    db.edges.clear();
    assert_eq!(
        run(&mut db, GraphCommand::Build { force: false }),
        "Graph built/updated for 2 document(s).\n"
    );
    assert_eq!(db.edges.len(), 4);
    assert_eq!(build_graph(&mut db, true), 2);
    assert_eq!(db.edges.len(), 4);
}

#[test]
fn graph_query_shows_the_subgraph() {
    let mut db = store();
    let cmd = GraphCommand::Query { text: "lone".to_string(), depth: 1, budget: 2000 };
    assert_eq!(
        run(&mut db, cmd),
        "Subgraph (2 nodes, depth ≤1):\n\n  [  2 conn] document     — Two\n  [  1 conn] wikilink     — Lone\n"
    );
    let none = GraphCommand::Query { text: "zzz".to_string(), depth: 1, budget: 2000 };
    assert_eq!(run(&mut db, none), "No nodes found matching 'zzz'.\n");
}

#[test]
fn graph_path_shows_the_hops() {
    let mut db = store();
    let cmd = GraphCommand::Path { from: "One".to_string(), to: "Lone".to_string() };
    assert_eq!(
        run(&mut db, cmd),
        "Path (3 hops):\n  One [document]\n  ──[links_to]──> Shared [wikilink]\n  ──[links_to]──> Two [document]\n  ──[links_to]──> Lone [wikilink]\n"
    );
    let lost = GraphCommand::Path { from: "One".to_string(), to: "zzz".to_string() };
    match handle_graph(&mut db, &lost) {
        Err(f) => {
            assert_eq!(f.context, "Path search failed");
            assert_eq!(f.error.message(), "Graph node not found: 'zzz'");
        }
        Ok(_) => panic!("expected a failure"),
    }
}

#[test]
fn graph_path_may_not_exist() {
    let mut db = Db::init();
    ingest_file(&mut db, "# One\n[[A]]", "1", "1", "x", false, at(1));
    ingest_file(&mut db, "# Two\n[[B]]", "2", "2", "x", false, at(2));
    let cmd = GraphCommand::Path { from: "One".to_string(), to: "Two".to_string() };
    match handle_graph(&mut db, &cmd) {
        Err(f) => {
            assert_eq!(f.context, "Path search failed");
            assert_eq!(f.error.message(), "No path between 'One' and 'Two'");
        }
        Ok(_) => panic!("expected a failure"),
    }
}

#[test]
fn neighbours_are_found_by_label_or_identifier() {
    let mut db = store();
    let expected = "[  2 conn] document     — Two\n[  1 conn] wikilink     — Lone\n";
    let by_label = GraphCommand::Neighbors { node: "Lone".to_string(), depth: 1 };
    assert_eq!(run(&mut db, by_label), expected);
    let by_id = GraphCommand::Neighbors { node: "wikilink_lone".to_string(), depth: 1 };
    assert_eq!(run(&mut db, by_id), expected);
    let lost = GraphCommand::Neighbors { node: "zzz".to_string(), depth: 1 };
    match handle_graph(&mut db, &lost) {
        Err(f) => assert_eq!(f.context, "Node 'zzz' not found"),
        Ok(_) => panic!("expected a failure"),
    }
}

#[test]
fn names_resolve_to_nodes() {
    let db = store();
    assert_eq!(resolve_node(&db, "shared").unwrap(), "wikilink_shared");
    assert_eq!(resolve_node(&db, "tag_tag").unwrap(), "tag_tag");
    match resolve_node(&db, "zzz") {
        Err(MksError::NodeNotFound(n)) => assert_eq!(n, "zzz"),
        _ => panic!("expected an error"),
    }
}

#[test]
fn most_connected_nodes_are_listed() {
    let mut db = store();
    assert_eq!(
        run(&mut db, GraphCommand::GodNodes { limit: 2 }),
        "2 most connected nodes:\n\n     2 connections  document      One\n     2 connections  wikilink      Shared\n"
    );
    assert_eq!(
        run(&mut Db::init(), GraphCommand::GodNodes { limit: 2 }),
        "No graph nodes found. Run `mks graph build` first.\n"
    );
}

#[test]
fn backlinks_are_listed() {
    let mut db = store();
    assert_eq!(
        run(&mut db, GraphCommand::Backlinks { node: "Shared".to_string() }),
        "Backlinks to 'Shared' (2):\n\n  document      One ──[links_to]──>\n  document      Two ──[links_to]──>\n"
    );
    assert_eq!(
        run(&mut db, GraphCommand::Backlinks { node: "One".to_string() }),
        "No backlinks to 'One'.\n"
    );
    let lost = GraphCommand::Backlinks { node: "zzz".to_string() };
    assert!(handle_graph(&mut db, &lost).is_err());
}

#[test]
fn report_is_that_of_the_store() {
    let mut db = store();
    let text = db.graph_report();
    assert_eq!(run(&mut db, GraphCommand::Report), text);
}

#[test]
fn addresses_are_told_from_paths() {
    assert!(is_url("https://e.org"));
    assert!(is_url("http://e.org"));
    assert!(!is_url("httpx://e.org"));
    assert!(!is_url("notes/https://"));
}

#[test]
fn additions_are_summed_up() {
    assert_eq!(add_summary(12, 0, 3), "12 added, 0 skipped (unchanged), 3 errors\n");
}

#[test]
fn listings_are_paged() {
    let db = store();
    let titles = |limit: usize, offset: usize| -> Vec<String> {
        list_page(&db, None, limit, offset).into_iter().map(|d| d.title).collect()
    };
    assert_eq!(titles(10, 0), vec!["Two", "One"]);
    assert_eq!(titles(1, 1), vec!["One"]);
    assert!(titles(5, 7).is_empty());
    assert_eq!(titles(usize::MAX, 1), vec!["One"]);
    assert_eq!([titles(1, 0), titles(1, 1)].concat(), titles(2, 0));
}

#[test]
fn listings_are_printed_with_dates() {
    let db = store();
    let docs = list_page(&db, None, 10, 0);
    let expected = format!(
        "[y] Two — 1970-01-03 ({})\n[x] One — 1970-01-02 ({})\n",
        docs[0].id, docs[1].id
    );
    assert_eq!(render_list(&docs), expected);
    assert_eq!(render_list(&Vec::new()), "No documents.\n");
}

#[test]
fn results_are_printed() {
    let results = vec![
        SearchResult {
            doc_id: "1".to_string(),
            title: "A".to_string(),
            snippet: Some("**a** b".to_string()),
            collection: Some("x".to_string()),
        },
        SearchResult {
            doc_id: "2".to_string(),
            title: "B".to_string(),
            snippet: None,
            collection: None,
        },
    ];
    assert_eq!(render_results(&results), "[x] A (1)\n    **a** b\n[default] B (2)\n");
    assert_eq!(render_results(&Vec::new()), "No results.\n");
}

#[test]
fn intents_are_shown_back() {
    assert_eq!(render_intent("why"), "[intent context — not searched]\nwhy\n");
}

#[test]
fn counts_are_printed() {
    let db = store();
    assert_eq!(
        render_stats(&db.stats()),
        "Documents : 2\nChunks    : 2\nNodes     : 5\nEdges     : 4\n\nBy collection:\n     1  x\n     1  y\n"
    );
    assert_eq!(
        render_stats(&Db::init().stats()),
        "Documents : 0\nChunks    : 0\nNodes     : 0\nEdges     : 0\n"
    );
}

#[test]
fn documents_are_embedded_once() {
    let mut db = store();
    let all = embed_targets(&db, true);
    assert_eq!(all.len(), 2);
    assert_eq!(embed_targets(&db, false).len(), 2);
    store_embedding(&mut db, &all[0], "[0.5]", false);
    assert_eq!(embed_targets(&db, false), vec![all[1].clone()]);
    db.upsert_embedding(&all[0], "part", "[1]");
    store_embedding(&mut db, &all[0], "[0.25]", true);
    let rows = db.all_embeddings();
    assert_eq!(rows.len(), 1);
    assert_eq!((rows[0].chunk_id.as_str(), rows[0].vector.as_str()), ("full", "[0.25]"));
    assert_eq!(embed_targets(&db, true), all);
}

#[test]
fn results_and_listings_are_json() {
    let results = vec![
        SearchResult {
            doc_id: "1".to_string(),
            title: "A \"q\"".to_string(),
            snippet: Some("**a**".to_string()),
            collection: Some("x".to_string()),
        },
        SearchResult {
            doc_id: "2".to_string(),
            title: "B".to_string(),
            snippet: None,
            collection: None,
        },
    ];
    assert_eq!(
        results_json(&results),
        "[\n  {\n    \"collection\": \"x\",\n    \"id\": \"1\",\n    \"snippet\": \"**a**\",\n    \
         \"title\": \"A \\\"q\\\"\"\n  },\n  {\n    \"collection\": null,\n    \"id\": \"2\",\n    \
         \"title\": \"B\"\n  }\n]"
    );
    assert_eq!(results_json(&Vec::new()), "[]");
    let listed = documents_json(&list_page(&store(), None, 1, 0));
    assert!(listed.contains("\"added_at\": \"1970-01-03T00:00:00+00:00\""));
    assert!(listed.contains("\"path\": \"two.md\"") && !listed.contains("one.md"));
}

#[test]
fn labels_beyond_ascii_have_their_own_nodes() {
    let mut db = Db::init();
    ingest_file(&mut db, "[[日本]] [[中国]] [[Привет]] [[Café]] [[Caf]]", "a.md", "a", "x", false, at(1));
    assert_eq!(db.nodes.len(), 6);
    let shown = run(&mut db, GraphCommand::Backlinks { node: "中国".to_string() });
    assert!(shown.contains("a"));
    assert_eq!(db.find_node_by_label("привет").unwrap(), "wikilink_u00043fu000440u000438u000432u000435u000442");
}
