//! What the commands do to the store, and what they print.

use vstd::prelude::*;

use crate::cli::GraphCommand;
use crate::db;
use crate::db::{Db, DbView, StoreStats};
use crate::document;
use crate::document::{Document, DocumentView};
use crate::error::{MksError, MksResult};
use crate::graph;
use crate::graph::{EdgeView, GodNode, GraphStats, Node, NodeView, PathHop};
use crate::ingest;
use crate::order;
use crate::path;
use crate::reads;
use crate::report;
use crate::rows;
use crate::search;
use crate::search::{SearchResult, SearchResultView};
use crate::table;
use crate::text;
use crate::traverse;

verus! {

/// The token budget of a listing of neighbours.
pub const NEIGHBOR_BUDGET: usize = 5000;

/// A failed command: what failed, and why.
#[derive(Debug)]
pub struct Failure {
    pub context: String,
    pub error: MksError,
}

// ---------------------------------------------------------------------------
// Building the graph
// ---------------------------------------------------------------------------

/// The store with the graph of a document extracted anew.
pub open spec fn regraphed(store: DbView, doc: DocumentView) -> DbView {
    let body = document::body_of(doc.content);
    db::with_graph(
        db::without_graph(store, doc.id),
        graph::graph_nodes(doc.id, doc.title, body),
        graph::graph_edges(doc.id, doc.title, body),
    )
}

/// The store after the graphs of the first `n` documents were built, and how
/// many were: all of them, or those whose own node the graph does not hold.
pub open spec fn built(store: DbView, docs: Seq<DocumentView>, force: bool, n: int) -> (DbView, nat)
    decreases n,
{
    if n <= 0 {
        (store, 0)
    } else {
        let (so_far, count) = built(store, docs, force, n - 1);
        let doc = docs[n - 1];
        if !force && traverse::has_node(so_far, graph::doc_node_id(doc.id)) {
            (so_far, count)
        } else {
            (regraphed(so_far, doc), count + 1)
        }
    }
}

/// The store after the graphs of all documents were built, and how many were.
pub open spec fn all_built(store: DbView, force: bool) -> (DbView, nat) {
    let docs = db::newest_first(store, None);
    built(store, docs, force, docs.len() as int)
}

/// Extracts the graphs of all stored documents, or of those without one.
/// Returns how many were extracted.
pub fn build_graph(store: &mut Db, force: bool) -> (r: usize)
    ensures
        (final(store)@, r as nat) == all_built(old(store)@, force),
{
    let ghost before = store@;
    let docs = store.list_documents(None, usize::MAX);
    let ghost all = table::rows(docs@);
    let ghost listed = db::newest_first(before, None);
    let total: usize = store.documents.len();
    proof {
        lemma_listing_len(before, None);
        assert(listed.len() <= total);
        assert(all == listed);
    }
    let n: usize = docs.len();
    let mut rebuilt: usize = 0;
    let mut i: usize = 0;
    while i < n
        invariant
            i <= n == docs@.len(),
            all == table::rows(docs@),
            (store@, rebuilt as nat) == built(before, all, force, i as int),
            rebuilt <= i,
        decreases n - i,
    {
        assert(all[i as int] == docs@[i as int]@);
        let own = text::concat("doc_", docs[i].id.as_str());
        if force || store.node_at(own.as_str()).is_none() {
            store.delete_graph_for_doc(docs[i].id.as_str());
            let (fields, body) = document::parse_frontmatter(docs[i].content.as_str());
            let (nodes, edges) = graph::extract_graph(
                docs[i].id.as_str(),
                docs[i].title.as_str(),
                body,
            );
            store.insert_graph(&nodes, &edges);
            rebuilt += 1;
        }
        i += 1;
    }
    rebuilt
}

/// A listing holds no more documents than the store.
proof fn lemma_listing_len(store: DbView, collection: Option<Seq<char>>)
    ensures
        db::newest_first(store, collection).len() <= store.documents.len(),
        db::newest_first(store, collection).len() == store.documents.filter(
            db::doc_in(collection),
        ).len(),
{
    let docs = store.documents.filter(db::doc_in(collection));
    store.documents.lemma_filter_len(db::doc_in(collection));
    order::sorting_is_stable(docs, db::instants(docs));
}

// ---------------------------------------------------------------------------
// Lines of text
// ---------------------------------------------------------------------------

/// A node with its degree, as a line.
pub open spec fn conn_line(indent: Seq<char>, found: (NodeView, usize)) -> Seq<char> {
    indent + "["@ + text::padded_left(text::decimal(found.1 as nat), 3) + " conn] "@
        + text::padded_right(graph::kind_name(found.0.kind), 12) + " — "@ + found.0.label + "\n"@
}

/// The first `n` nodes with their degrees, as lines.
pub open spec fn conn_lines(indent: Seq<char>, found: Seq<(NodeView, usize)>, n: int) -> Seq<char>
    decreases n,
{
    if n <= 0 {
        Seq::empty()
    } else {
        conn_lines(indent, found, n - 1) + conn_line(indent, found[n - 1])
    }
}

/// A node with its degree, as a line.
fn render_conn(indent: &str, node: &Node, degree: usize) -> (r: String)
    ensures
        r@ == conn_line(indent@, (node@, degree)),
{
    let mut out = text::concat(indent, "[");
    report::append_right(&mut out, degree, 3);
    out.append(" conn] ");
    report::append_left(&mut out, node.kind.as_str(), 12);
    out.append(" — ");
    out.append(node.label.as_str());
    out.append("\n");
    out
}

/// Appends nodes with their degrees as lines.
fn append_conn_lines(out: &mut String, indent: &str, found: &Vec<(Node, usize)>)
    ensures
        final(out)@ == old(out)@ + conn_lines(
            indent@,
            traverse::degree_views(found@),
            found@.len() as int,
        ),
{
    let ghost start = out@;
    let ghost all = traverse::degree_views(found@);
    let n: usize = found.len();
    let mut i: usize = 0;
    assert(start + conn_lines(indent@, all, 0) =~= start);
    while i < n
        invariant
            i <= n == found@.len(),
            all == traverse::degree_views(found@),
            out@ == start + conn_lines(indent@, all, i as int),
        decreases n - i,
    {
        let line = render_conn(indent, &found[i].0, found[i].1);
        out.append(line.as_str());
        i += 1;
        assert(out@ =~= start + (conn_lines(indent@, all, i - 1) + conn_line(
            indent@,
            all[i - 1],
        )));
    }
}

/// The answer to a graph query whose matching nodes and neighbourhood are given.
pub open spec fn query_text(
    words: Seq<char>,
    depth: nat,
    seeds: Seq<Seq<char>>,
    found: Seq<(NodeView, usize)>,
) -> Seq<char> {
    if seeds.len() == 0 {
        "No nodes found matching '"@ + words + "'.\n"@
    } else if found.len() == 0 {
        "No results.\n"@
    } else {
        "Subgraph ("@ + text::decimal(found.len()) + " nodes, depth ≤"@ + text::decimal(depth)
            + "):\n\n"@ + conn_lines("  "@, found, found.len() as int)
    }
}

/// The neighbourhood of the seeds, the most connected nodes first.
pub open spec fn neighborhood(
    store: DbView,
    seeds: Seq<Seq<char>>,
    depth: int,
    budget: int,
) -> Seq<(NodeView, usize)> {
    let found = traverse::nearest(store, seeds, depth, budget);
    order::sorted_desc(found, traverse::degrees(found))
}

/// The nodes whose labels contain the words.
pub open spec fn matching(store: DbView, words: Seq<char>) -> Seq<Seq<char>> {
    db::node_ids(store.nodes.filter(db::label_holds(words)))
}

/// The answer to a graph query.
fn answer_query(store: &Db, words: &str, depth: usize, budget: usize) -> (r: String)
    ensures
        r@ == query_text(
            words@,
            depth as nat,
            matching(store@, words@),
            neighborhood(store@, matching(store@, words@), depth as int, budget as int),
        ),
{
    let seeds = store.search_nodes_by_label(words);
    if seeds.len() == 0 {
        let mut out = text::concat("No nodes found matching '", words);
        out.append("'.\n");
        return out;
    }
    let found = store.bfs_neighbors(&seeds, depth, budget);
    if found.len() == 0 {
        return "No results.\n".to_owned();
    }
    let mut out = "Subgraph (".to_owned();
    report::append_number(&mut out, found.len());
    out.append(" nodes, depth ≤");
    report::append_number(&mut out, depth);
    out.append("):\n\n");
    append_conn_lines(&mut out, "  ", &found);
    out
}

/// A hop of a path, as a line.
pub open spec fn hop_line(hop: (NodeView, Seq<char>), first: bool) -> Seq<char> {
    if first {
        "  "@ + hop.0.label + " ["@ + graph::kind_name(hop.0.kind) + "]\n"@
    } else {
        "  ──["@ + hop.1 + "]──> "@ + hop.0.label + " ["@ + graph::kind_name(hop.0.kind) + "]\n"@
    }
}

/// The first `n` hops of a path, as lines.
pub open spec fn hop_lines(hops: Seq<(NodeView, Seq<char>)>, n: int) -> Seq<char>
    decreases n,
{
    if n <= 0 {
        Seq::empty()
    } else {
        hop_lines(hops, n - 1) + hop_line(hops[n - 1], n == 1)
    }
}

/// The answer to a path query whose hops are given.
pub open spec fn path_text(hops: Seq<(NodeView, Seq<char>)>) -> Seq<char> {
    if hops.len() == 0 {
        "No path found.\n"@
    } else {
        "Path ("@ + text::decimal((hops.len() - 1) as nat) + " hops):\n"@ + hop_lines(
            hops,
            hops.len() as int,
        )
    }
}

/// A hop of a path, as a line.
fn render_hop(hop: &PathHop, first: bool) -> (r: String)
    ensures
        r@ == hop_line((hop.node@, hop.relation@), first),
{
    let mut out = if first {
        "  ".to_owned()
    } else {
        let mut lead = text::concat("  ──[", hop.relation.as_str());
        lead.append("]──> ");
        lead
    };
    out.append(hop.node.label.as_str());
    out.append(" [");
    out.append(hop.node.kind.as_str());
    out.append("]\n");
    out
}

/// The answer to a path query whose hops are given.
pub fn path_answer(hops: &Vec<PathHop>) -> (r: String)
    ensures
        r@ == path_text(path::hop_views(hops@)),
{
    let ghost all = path::hop_views(hops@);
    let n: usize = hops.len();
    if n == 0 {
        return "No path found.\n".to_owned();
    }
    let mut out = "Path (".to_owned();
    report::append_number(&mut out, n - 1);
    out.append(" hops):\n");
    let ghost start = out@;
    let mut i: usize = 0;
    assert(start + hop_lines(all, 0) =~= start);
    while i < n
        invariant
            i <= n == hops@.len(),
            all == path::hop_views(hops@),
            out@ == start + hop_lines(all, i as int),
        decreases n - i,
    {
        let line = render_hop(&hops[i], i == 0);
        out.append(line.as_str());
        i += 1;
        assert(out@ =~= start + (hop_lines(all, i - 1) + hop_line(all[i - 1], i == 1)));
    }
    out
}

// ---------------------------------------------------------------------------
// Nodes by label or identifier
// ---------------------------------------------------------------------------

/// The node that a name stands for: the one with that label, or else the one
/// with that identifier.
pub open spec fn named(store: DbView, name: Seq<char>) -> Option<Seq<char>> {
    match db::labelled(store.nodes, name) {
        Some(i) => Some(store.nodes[i].id),
        None => if traverse::has_node(store, name) {
            Some(name)
        } else {
            None
        },
    }
}

/// The identifier of the node that a name stands for.
pub fn resolve_node(store: &Db, name: &str) -> (r: MksResult<String>)
    ensures
        match named(store@, name@) {
            Some(id) => r matches Ok(found) && found@ == id,
            None => r matches Err(MksError::NodeNotFound(e)) && e@ == name@,
        },
        match r {
            Ok(found) => reads::is_best_match(store@.nodes, name@, Some(found@)) || (
            reads::is_best_match(store@.nodes, name@, None) && found@ == name@
                && traverse::is_stored(store@.nodes, name@)),
            Err(e) => reads::is_best_match(store@.nodes, name@, None) && !traverse::is_stored(
                store@.nodes,
                name@,
            ),
        },
{
    proof {
        traverse::lemma_has_node(store@, name@);
    }
    match store.find_node_by_label(name) {
        Ok(id) => Ok(id),
        Err(e) => if store.node_at(name).is_some() {
            Ok(name.to_owned())
        } else {
            Err(e)
        },
    }
}

/// The answer to a question for neighbours.
pub open spec fn neighbors_text(found: Seq<(NodeView, usize)>) -> Seq<char> {
    if found.len() == 0 {
        "No neighbors found.\n"@
    } else {
        conn_lines(""@, found, found.len() as int)
    }
}

/// A link into a node, as a line; nothing where the graph does not hold the
/// node that it comes from.
pub open spec fn backlink_line(store: DbView, link: (Seq<char>, Seq<char>, u32)) -> Seq<char> {
    if traverse::has_node(store, link.0) {
        let source = traverse::node_of(store, link.0);
        "  "@ + text::padded_right(graph::kind_name(source.kind), 12) + "  "@ + source.label
            + " ──["@ + link.1 + "]──>\n"@
    } else {
        Seq::empty()
    }
}

/// The first `n` links into a node, as lines.
pub open spec fn backlink_lines(
    store: DbView,
    links: Seq<(Seq<char>, Seq<char>, u32)>,
    n: int,
) -> Seq<char>
    decreases n,
{
    if n <= 0 {
        Seq::empty()
    } else {
        backlink_lines(store, links, n - 1) + backlink_line(store, links[n - 1])
    }
}

/// The answer to a question for the links into a node.
pub open spec fn backlinks_text(store: DbView, name: Seq<char>, id: Seq<char>) -> Seq<char> {
    let links = db::links_to(store.edges, id);
    if links.len() == 0 {
        "No backlinks to '"@ + name + "'.\n"@
    } else {
        "Backlinks to '"@ + name + "' ("@ + text::decimal(links.len()) + "):\n\n"@
            + backlink_lines(store, links, links.len() as int)
    }
}

/// A link into a node, as a line.
fn render_backlink(source: &Node, relation: &str) -> (r: String)
    ensures
        r@ == "  "@ + text::padded_right(graph::kind_name(source.kind), 12) + "  "@ + source.label@
            + " ──["@ + relation@ + "]──>\n"@,
{
    let mut out = "  ".to_owned();
    report::append_left(&mut out, source.kind.as_str(), 12);
    out.append("  ");
    out.append(source.label.as_str());
    out.append(" ──[");
    out.append(relation);
    out.append("]──>\n");
    out
}

/// The answer to a question for the links into a node.
fn answer_backlinks(store: &Db, name: &str, id: &str) -> (r: String)
    ensures
        r@ == backlinks_text(store@, name@, id@),
{
    let links = store.edges_to(id);
    let ghost all = db::link_views(links@);
    let n: usize = links.len();
    if n == 0 {
        let mut out = text::concat("No backlinks to '", name);
        out.append("'.\n");
        return out;
    }
    let mut out = text::concat("Backlinks to '", name);
    out.append("' (");
    report::append_number(&mut out, n);
    out.append("):\n\n");
    let ghost start = out@;
    let mut i: usize = 0;
    assert(start + backlink_lines(store@, all, 0) =~= start);
    while i < n
        invariant
            i <= n == links@.len(),
            all == db::link_views(links@),
            out@ == start + backlink_lines(store@, all, i as int),
        decreases n - i,
    {
        if let Some(at) = store.node_at(links[i].0.as_str()) {
            let line = render_backlink(&store.nodes[at], links[i].1.as_str());
            out.append(line.as_str());
        }
        i += 1;
        assert(out@ =~= start + (backlink_lines(store@, all, i - 1) + backlink_line(
            store@,
            all[i - 1],
        )));
    }
    out
}

/// A hub, as a line.
pub open spec fn god_line(hub: (NodeView, usize)) -> Seq<char> {
    "  "@ + text::padded_left(text::decimal(hub.1 as nat), 4) + " connections  "@
        + text::padded_right(graph::kind_name(hub.0.kind), 12) + "  "@ + hub.0.label + "\n"@
}

/// The first `n` hubs, as lines.
pub open spec fn god_lines(top: Seq<(NodeView, usize)>, n: int) -> Seq<char>
    decreases n,
{
    if n <= 0 {
        Seq::empty()
    } else {
        god_lines(top, n - 1) + god_line(top[n - 1])
    }
}

/// The answer to a question for the most connected nodes.
pub open spec fn god_text(top: Seq<(NodeView, usize)>) -> Seq<char> {
    if top.len() == 0 {
        "No graph nodes found. Run `mks graph build` first.\n"@
    } else {
        text::decimal(top.len()) + " most connected nodes:\n\n"@ + god_lines(
            top,
            top.len() as int,
        )
    }
}

/// A hub, as a line.
fn render_god(hub: &GodNode) -> (r: String)
    ensures
        r@ == god_line((hub.node@, hub.degree)),
{
    let mut out = "  ".to_owned();
    report::append_right(&mut out, hub.degree, 4);
    out.append(" connections  ");
    report::append_left(&mut out, hub.node.kind.as_str(), 12);
    out.append("  ");
    out.append(hub.node.label.as_str());
    out.append("\n");
    out
}

/// The answer to a question for the most connected nodes.
pub fn god_answer(top: &Vec<GodNode>) -> (r: String)
    ensures
        r@ == god_text(report::hub_views(top@)),
{
    let ghost all = report::hub_views(top@);
    let n: usize = top.len();
    if n == 0 {
        return "No graph nodes found. Run `mks graph build` first.\n".to_owned();
    }
    let mut out = String::new();
    report::append_number(&mut out, n);
    assert(out@ =~= text::decimal(n as nat));
    out.append(" most connected nodes:\n\n");
    let ghost start = out@;
    let mut i: usize = 0;
    assert(start + god_lines(all, 0) =~= start);
    while i < n
        invariant
            i <= n == top@.len(),
            all == report::hub_views(top@),
            out@ == start + god_lines(all, i as int),
        decreases n - i,
    {
        let line = render_god(&top[i]);
        out.append(line.as_str());
        i += 1;
        assert(out@ =~= start + (god_lines(all, i - 1) + god_line(all[i - 1])));
    }
    out
}

// ---------------------------------------------------------------------------
// Graph commands
// ---------------------------------------------------------------------------

/// What is printed after the graph was built.
pub open spec fn build_text(count: nat) -> Seq<char> {
    "Graph built/updated for "@ + text::decimal(count) + " document(s).\n"@
}

/// Whether `r` is the text, printed.
pub open spec fn prints(r: Result<String, Failure>, t: Seq<char>) -> bool {
    r matches Ok(s) && s@ == t
}

/// Whether `r` is the failure to find a node.
pub open spec fn fails_to_find(r: Result<String, Failure>, name: Seq<char>) -> bool {
    &&& r matches Err(f)
    &&& f.context@ == "Node '"@ + name + "' not found"@
    &&& f.error matches MksError::NodeNotFound(e)
    &&& e@ == name
}

/// Whether `r` answers a question for a path.
pub open spec fn answers_path(
    store: DbView,
    from_label: Seq<char>,
    to_label: Seq<char>,
    r: Result<String, Failure>,
) -> bool {
    match (db::labelled(store.nodes, from_label), db::labelled(store.nodes, to_label)) {
        (None, _) => {
            &&& r matches Err(f)
            &&& f.context@ == "Path search failed"@
            &&& f.error matches MksError::NodeNotFound(e)
            &&& e@ == from_label
        },
        (Some(a), None) => {
            &&& r matches Err(f)
            &&& f.context@ == "Path search failed"@
            &&& f.error matches MksError::NodeNotFound(e)
            &&& e@ == to_label
        },
        (Some(a), Some(b)) => {
            let from = store.nodes[a].id;
            let to = store.nodes[b].id;
            match r {
                Ok(s) => exists|hops: Seq<(NodeView, Seq<char>)>| #[trigger]
                    path::is_shortest_path(store, from, to, hops) && s@ == path_text(hops),
                Err(f) => {
                    &&& f.context@ == "Path search failed"@
                    &&& f.error matches MksError::NoPath(x, y)
                    &&& x@ == from_label
                    &&& y@ == to_label
                    &&& forall|steps: Seq<path::Step>| !#[trigger]
                        path::leads(store.edges, from, to, steps)
                },
            }
        },
    }
}

/// Whether `r` and the store after it answer a graph command.
pub open spec fn answers(
    store: DbView,
    cmd: GraphCommand,
    after: DbView,
    r: Result<String, Failure>,
) -> bool {
    match cmd {
        GraphCommand::Build { force } => {
            &&& after == all_built(store, force).0
            &&& prints(r, build_text(all_built(store, force).1))
        },
        GraphCommand::Query { text, depth, budget } => {
            let seeds = matching(store, text@);
            &&& after == store
            &&& prints(
                r,
                query_text(
                    text@,
                    depth as nat,
                    seeds,
                    neighborhood(store, seeds, depth as int, budget as int),
                ),
            )
        },
        GraphCommand::Path { from, to } => {
            &&& after == store
            &&& answers_path(store, from@, to@, r)
        },
        GraphCommand::Neighbors { node, depth } => {
            &&& after == store
            &&& match named(store, node@) {
                Some(id) => prints(
                    r,
                    neighbors_text(
                        neighborhood(store, seq![id], depth as int, NEIGHBOR_BUDGET as int),
                    ),
                ),
                None => fails_to_find(r, node@),
            }
        },
        GraphCommand::GodNodes { limit } => {
            &&& after == store
            &&& prints(r, god_text(db::limited(report::hubs(store), limit as int)))
        },
        GraphCommand::Backlinks { node } => {
            &&& after == store
            &&& match named(store, node@) {
                Some(id) => prints(r, backlinks_text(store, node@, id)),
                None => fails_to_find(r, node@),
            }
        },
        GraphCommand::Report => {
            &&& after == store
            &&& exists|s: GraphStats| #[trigger]
                db::is_graph_stats(store, s) && prints(
                    r,
                    report::report_text(s, db::limited(report::hubs(store), 10)),
                )
        },
    }
}

/// The failure to find a node.
fn not_found(name: &str, error: MksError) -> (r: Failure)
    ensures
        r.context@ == "Node '"@ + name@ + "' not found"@,
        r.error == error,
{
    let mut context = text::concat("Node '", name);
    context.append("' not found");
    Failure { context, error }
}

/// Performs a graph command and returns what it prints.
pub fn handle_graph(store: &mut Db, cmd: &GraphCommand) -> (r: Result<String, Failure>)
    ensures
        answers(old(store)@, *cmd, final(store)@, r),
{
    match cmd {
        GraphCommand::Build { force } => {
            let count: usize = build_graph(store, *force);
            let mut out = "Graph built/updated for ".to_owned();
            report::append_number(&mut out, count);
            out.append(" document(s).\n");
            Ok(out)
        },
        GraphCommand::Query { text, depth, budget } => {
            Ok(answer_query(store, text.as_str(), *depth, *budget))
        },
        GraphCommand::Path { from, to } => match store.shortest_path(from.as_str(), to.as_str()) {
            Ok(hops) => Ok(path_answer(&hops)),
            Err(error) => Err(Failure { context: "Path search failed".to_owned(), error }),
        },
        GraphCommand::Neighbors { node, depth } => match resolve_node(store, node.as_str()) {
            Ok(id) => {
                let mut seeds: Vec<String> = Vec::new();
                seeds.push(id);
                assert(table::rows(seeds@) =~= seq![id@]);
                let found = store.bfs_neighbors(&seeds, *depth, NEIGHBOR_BUDGET);
                if found.len() == 0 {
                    Ok("No neighbors found.\n".to_owned())
                } else {
                    let mut out = "".to_owned();
                    append_conn_lines(&mut out, "", &found);
                    proof {
                        reveal_strlit("");
                        let all = traverse::degree_views(found@);
                        assert(out@ =~= conn_lines(""@, all, all.len() as int));
                    }
                    Ok(out)
                }
            },
            Err(error) => Err(not_found(node.as_str(), error)),
        },
        GraphCommand::GodNodes { limit } => {
            let top = store.god_nodes(*limit);
            Ok(god_answer(&top))
        },
        GraphCommand::Backlinks { node } => match resolve_node(store, node.as_str()) {
            Ok(id) => Ok(answer_backlinks(store, node.as_str(), id.as_str())),
            Err(error) => Err(not_found(node.as_str(), error)),
        },
        GraphCommand::Report => Ok(store.graph_report()),
    }
}

// ---------------------------------------------------------------------------
// Adding, listing and searching
// ---------------------------------------------------------------------------

/// Whether an input is the address of a web page.
pub open spec fn is_address(input: Seq<char>) -> bool {
    text::begins_with(input, "https://"@) || text::begins_with(input, "http://"@)
}

/// Whether an input is the address of a web page.
pub fn is_url(input: &str) -> (r: bool)
    ensures
        r == is_address(input@),
{
    let chars = text::chars_of(input);
    text::starts_with(chars.as_slice(), "https://") || text::starts_with(
        chars.as_slice(),
        "http://",
    )
}

/// What is printed after files were added.
pub fn add_summary(added: usize, skipped: usize, errors: usize) -> (r: String)
    ensures
        r@ == text::decimal(added as nat) + " added, "@ + text::decimal(skipped as nat)
            + " skipped (unchanged), "@ + text::decimal(errors as nat) + " errors\n"@,
{
    let digits = text::decimal_of(added);
    let mut out = text::string_of(digits.as_slice());
    out.append(" added, ");
    report::append_number(&mut out, skipped);
    out.append(" skipped (unchanged), ");
    report::append_number(&mut out, errors);
    out.append(" errors\n");
    out
}

/// A page of a listing: at most `limit` documents, without the first `offset`
/// ones.
pub open spec fn page_of(
    store: DbView,
    collection: Option<Seq<char>>,
    limit: int,
    offset: int,
) -> Seq<DocumentView> {
    search::after_offset(
        db::limited(db::newest_first(store, collection), limit + offset),
        offset,
    )
}

/// A page of the documents, newest first, optionally filtered by collection.
pub fn list_page(store: &Db, collection: Option<&str>, limit: usize, offset: usize) -> (r: Vec<
    Document,
>)
    ensures
        table::rows(r@) == page_of(store@, db::opt_str(collection), limit as int, offset as int),
{
    let fetch: usize = limit.saturating_add(offset);
    let docs = store.list_documents(collection, fetch);
    let ghost all = table::rows(docs@);
    let total: usize = store.documents.len();
    proof {
        lemma_listing_len(store@, db::opt_str(collection));
        let full = db::newest_first(store@, db::opt_str(collection));
        assert(full.len() <= total);
        assert(db::limited(full, fetch as int) =~= db::limited(full, limit + offset));
    }
    let n: usize = docs.len();
    let mut out: Vec<Document> = Vec::new();
    if offset > n {
        assert(table::rows(out@) =~= Seq::empty());
        return out;
    }
    let mut i: usize = offset;
    assert(table::rows(out@) =~= all.subrange(offset as int, offset as int));
    while i < n
        invariant
            offset <= i <= n == docs@.len(),
            all == table::rows(docs@),
            table::rows(out@) == all.subrange(offset as int, i as int),
        decreases n - i,
    {
        let ghost had = out@;
        out.push(docs[i].clone());
        assert(table::rows(out@) =~= table::rows(had).push(all[i as int]));
        i += 1;
        assert(all.subrange(offset as int, i as int) =~= all.subrange(offset as int, i - 1).push(
            all[i - 1],
        ));
    }
    assert(all.subrange(offset as int, n as int) =~= all.skip(offset as int));
    out
}

/// A document of a listing, as a line.
pub open spec fn list_line(doc: DocumentView) -> Seq<char> {
    let date = match rows::time_text(doc.added_at.secs, doc.added_at.nanos, rows::DATE_FORMAT@) {
        Some(t) => t,
        None => Seq::empty(),
    };
    "["@ + doc.collection + "] "@ + doc.title + " — "@ + date + " ("@ + doc.id + ")\n"@
}

/// The first `n` documents of a listing, as lines.
pub open spec fn list_lines(docs: Seq<DocumentView>, n: int) -> Seq<char>
    decreases n,
{
    if n <= 0 {
        Seq::empty()
    } else {
        list_lines(docs, n - 1) + list_line(docs[n - 1])
    }
}

/// What is printed for a listing.
pub open spec fn list_text(docs: Seq<DocumentView>) -> Seq<char> {
    if docs.len() == 0 {
        "No documents.\n"@
    } else {
        list_lines(docs, docs.len() as int)
    }
}

/// A document of a listing, as a line.
fn render_listed(doc: &Document) -> (r: String)
    ensures
        r@ == list_line(doc@),
{
    let date = match doc.added_at.date() {
        Some(t) => t,
        None => String::new(),
    };
    let mut out = text::concat("[", doc.collection.as_str());
    out.append("] ");
    out.append(doc.title.as_str());
    out.append(" — ");
    out.append(date.as_str());
    out.append(" (");
    out.append(doc.id.as_str());
    out.append(")\n");
    out
}

/// What is printed for a listing.
pub fn render_list(docs: &Vec<Document>) -> (r: String)
    ensures
        r@ == list_text(table::rows(docs@)),
{
    let ghost all = table::rows(docs@);
    let n: usize = docs.len();
    if n == 0 {
        return "No documents.\n".to_owned();
    }
    let mut out = String::new();
    let mut i: usize = 0;
    assert(out@ =~= Seq::empty());
    while i < n
        invariant
            i <= n == docs@.len(),
            all == table::rows(docs@),
            out@ == list_lines(all, i as int),
        decreases n - i,
    {
        let ghost before = out@;
        let line = render_listed(&docs[i]);
        out.append(line.as_str());
        i += 1;
        assert(out@ =~= before + list_line(all[i - 1]));
    }
    out
}

/// A search result, as a line or two.
pub open spec fn result_lines(r: SearchResultView) -> Seq<char> {
    let col = match r.collection {
        Some(c) => c,
        None => "default"@,
    };
    let line = "["@ + col + "] "@ + r.title + " ("@ + r.doc_id + ")\n"@;
    match r.snippet {
        Some(s) => line + "    "@ + s + "\n"@,
        None => line,
    }
}

/// The first `n` search results, as lines.
pub open spec fn results_lines(results: Seq<SearchResultView>, n: int) -> Seq<char>
    decreases n,
{
    if n <= 0 {
        Seq::empty()
    } else {
        results_lines(results, n - 1) + result_lines(results[n - 1])
    }
}

/// What is printed for search results.
pub open spec fn results_text(results: Seq<SearchResultView>) -> Seq<char> {
    if results.len() == 0 {
        "No results.\n"@
    } else {
        results_lines(results, results.len() as int)
    }
}

/// A search result, as a line or two.
fn render_result(result: &SearchResult) -> (r: String)
    ensures
        r@ == result_lines(result@),
{
    let mut out = "[".to_owned();
    match &result.collection {
        Some(c) => out.append(c.as_str()),
        None => out.append("default"),
    }
    out.append("] ");
    out.append(result.title.as_str());
    out.append(" (");
    out.append(result.doc_id.as_str());
    out.append(")\n");
    if let Some(s) = &result.snippet {
        out.append("    ");
        out.append(s.as_str());
        out.append("\n");
    }
    out
}

/// What is printed for search results.
pub fn render_results(results: &Vec<SearchResult>) -> (r: String)
    ensures
        r@ == results_text(table::rows(results@)),
{
    let ghost all = table::rows(results@);
    let n: usize = results.len();
    if n == 0 {
        return "No results.\n".to_owned();
    }
    let mut out = String::new();
    let mut i: usize = 0;
    assert(out@ =~= Seq::empty());
    while i < n
        invariant
            i <= n == results@.len(),
            all == table::rows(results@),
            out@ == results_lines(all, i as int),
        decreases n - i,
    {
        let ghost before = out@;
        let line = render_result(&results[i]);
        out.append(line.as_str());
        i += 1;
        assert(out@ =~= before + result_lines(all[i - 1]));
    }
    out
}

/// A search result as the members of an object: a snippet only where there is one.
pub open spec fn result_members(r: SearchResultView) -> Seq<(Seq<char>, Option<Seq<char>>)> {
    let members = seq![
        ("id"@, Some(r.doc_id)),
        ("title"@, Some(r.title)),
        ("collection"@, r.collection),
    ];
    match r.snippet {
        Some(s) => members.push(("snippet"@, Some(s))),
        None => members,
    }
}

/// Search results as the members of objects.
pub open spec fn result_objects(results: Seq<SearchResultView>) -> Seq<
    Seq<(Seq<char>, Option<Seq<char>>)>,
> {
    Seq::new(results.len(), |i: int| result_members(results[i]))
}

/// Search results as JSON.
pub fn results_json(results: &Vec<SearchResult>) -> (r: String)
    ensures
        r@ == rows::indented_json(result_objects(table::rows(results@))),
{
    let ghost all = result_objects(table::rows(results@));
    let mut objects: Vec<Vec<(String, Option<String>)>> = Vec::new();
    let n: usize = results.len();
    let mut i: usize = 0;
    while i < n
        invariant
            i <= n == results@.len(),
            all == result_objects(table::rows(results@)),
            objects@.len() == i,
            forall|k: int|
                0 <= k < i ==> rows::member_views((#[trigger] objects@[k])@) == all[k],
        decreases n - i,
    {
        let mut members: Vec<(String, Option<String>)> = Vec::new();
        members.push(("id".to_owned(), Some(results[i].doc_id.clone())));
        members.push(("title".to_owned(), Some(results[i].title.clone())));
        members.push(("collection".to_owned(), document::clone_opt(&results[i].collection)));
        if let Some(s) = &results[i].snippet {
            members.push(("snippet".to_owned(), Some(s.clone())));
        }
        assert(rows::member_views(members@) =~= all[i as int]);
        objects.push(members);
        i += 1;
    }
    assert(rows::object_views(objects@) =~= all);
    rows::write_objects(&objects)
}

/// A listed document as the members of an object.
pub open spec fn document_members(d: DocumentView) -> Seq<(Seq<char>, Option<Seq<char>>)> {
    seq![
        ("id"@, Some(d.id)),
        ("title"@, Some(d.title)),
        ("collection"@, Some(d.collection)),
        ("path"@, Some(d.path)),
        ("added_at"@, rows::rfc3339_text(d.added_at.secs, d.added_at.nanos)),
    ]
}

/// Listed documents as the members of objects.
pub open spec fn document_objects(docs: Seq<DocumentView>) -> Seq<
    Seq<(Seq<char>, Option<Seq<char>>)>,
> {
    Seq::new(docs.len(), |i: int| document_members(docs[i]))
}

/// Listed documents as JSON. A time that cannot be told is null.
pub fn documents_json(docs: &Vec<Document>) -> (r: String)
    ensures
        r@ == rows::indented_json(document_objects(table::rows(docs@))),
{
    let ghost all = document_objects(table::rows(docs@));
    let mut objects: Vec<Vec<(String, Option<String>)>> = Vec::new();
    let n: usize = docs.len();
    let mut i: usize = 0;
    while i < n
        invariant
            i <= n == docs@.len(),
            all == document_objects(table::rows(docs@)),
            objects@.len() == i,
            forall|k: int|
                0 <= k < i ==> rows::member_views((#[trigger] objects@[k])@) == all[k],
        decreases n - i,
    {
        let mut members: Vec<(String, Option<String>)> = Vec::new();
        members.push(("id".to_owned(), Some(docs[i].id.clone())));
        members.push(("title".to_owned(), Some(docs[i].title.clone())));
        members.push(("collection".to_owned(), Some(docs[i].collection.clone())));
        members.push(("path".to_owned(), Some(docs[i].path.clone())));
        members.push(("added_at".to_owned(), docs[i].added_at.to_rfc3339()));
        assert(rows::member_views(members@) =~= all[i as int]);
        objects.push(members);
        i += 1;
    }
    assert(rows::object_views(objects@) =~= all);
    rows::write_objects(&objects)
}

/// What is printed for an intent: the context, which is not searched.
pub fn render_intent(context: &str) -> (r: String)
    ensures
        r@ == "[intent context — not searched]\n"@ + context@ + "\n"@,
{
    let mut out = text::concat("[intent context — not searched]\n", context);
    out.append("\n");
    out
}

/// A collection with its count, as a line.
pub open spec fn collection_line(count: (Seq<char>, int)) -> Seq<char> {
    "  "@ + text::padded_left(text::decimal(count.1 as nat), 4) + "  "@ + count.0 + "\n"@
}

/// The first `n` collections with their counts, as lines.
pub open spec fn collection_lines(counts: Seq<(Seq<char>, int)>, n: int) -> Seq<char>
    decreases n,
{
    if n <= 0 {
        Seq::empty()
    } else {
        collection_lines(counts, n - 1) + collection_line(counts[n - 1])
    }
}

/// What is printed for the store's counts.
pub open spec fn stats_text(s: StoreStats) -> Seq<char> {
    let counts = db::count_views(s.collections@);
    let head = "Documents : "@ + text::decimal(s.total_docs as nat) + "\nChunks    : "@
        + text::decimal(s.total_chunks as nat) + "\nNodes     : "@ + text::decimal(
        s.total_nodes as nat,
    ) + "\nEdges     : "@ + text::decimal(s.total_edges as nat) + "\n"@;
    if counts.len() == 0 {
        head
    } else {
        head + "\nBy collection:\n"@ + collection_lines(counts, counts.len() as int)
    }
}

/// A collection with its count, as a line.
fn render_collection(name: &str, count: usize) -> (r: String)
    ensures
        r@ == collection_line((name@, count as int)),
{
    let mut out = "  ".to_owned();
    report::append_right(&mut out, count, 4);
    out.append("  ");
    out.append(name);
    out.append("\n");
    out
}

/// What is printed for the store's counts.
pub fn render_stats(s: &StoreStats) -> (r: String)
    ensures
        r@ == stats_text(*s),
{
    let mut out = "Documents : ".to_owned();
    report::append_number(&mut out, s.total_docs);
    out.append("\nChunks    : ");
    report::append_number(&mut out, s.total_chunks);
    out.append("\nNodes     : ");
    report::append_number(&mut out, s.total_nodes);
    out.append("\nEdges     : ");
    report::append_number(&mut out, s.total_edges);
    out.append("\n");
    let ghost counts = db::count_views(s.collections@);
    let n: usize = s.collections.len();
    if n > 0 {
        out.append("\nBy collection:\n");
        let ghost start = out@;
        let mut i: usize = 0;
        assert(start + collection_lines(counts, 0) =~= start);
        while i < n
            invariant
                i <= n == s.collections@.len(),
                counts == db::count_views(s.collections@),
                out@ == start + collection_lines(counts, i as int),
            decreases n - i,
        {
            let line = render_collection(s.collections[i].0.as_str(), s.collections[i].1);
            out.append(line.as_str());
            i += 1;
            assert(out@ =~= start + (collection_lines(counts, i - 1) + collection_line(
                counts[i - 1],
            )));
        }
    }
    out
}

// ---------------------------------------------------------------------------
// Embedding
// ---------------------------------------------------------------------------

/// The chunk under which the embedding of a whole document is stored.
pub const WHOLE_DOCUMENT: &'static str = "full";

/// The documents to be embedded: all of them, newest first, or those without an
/// embedding.
pub fn embed_targets(store: &Db, force: bool) -> (r: Vec<String>)
    ensures
        table::rows(r@) == if force {
            db::doc_ids(db::newest_first(store@, None))
        } else {
            db::doc_ids(store@.documents.filter(db::doc_unembedded(store@.embeddings)))
        },
{
    if !force {
        return store.find_unembedded_docs();
    }
    let docs = store.list_documents(None, usize::MAX);
    let ghost all = table::rows(docs@);
    let total: usize = store.documents.len();
    proof {
        lemma_listing_len(store@, None);
        assert(all == db::newest_first(store@, None));
    }
    let n: usize = docs.len();
    let mut out: Vec<String> = Vec::new();
    let mut i: usize = 0;
    assert(table::rows(out@) =~= db::doc_ids(all).take(0));
    while i < n
        invariant
            i <= n == docs@.len(),
            all == table::rows(docs@),
            table::rows(out@) == db::doc_ids(all).take(i as int),
        decreases n - i,
    {
        let ghost had = out@;
        out.push(docs[i].id.clone());
        assert(table::rows(out@) =~= table::rows(had).push(db::doc_ids(all)[i as int]));
        i += 1;
        assert(db::doc_ids(all).take(i as int) =~= db::doc_ids(all).take(i - 1).push(
            db::doc_ids(all)[i - 1],
        ));
    }
    assert(db::doc_ids(all).take(n as int) =~= db::doc_ids(all));
    out
}

/// Stores the embedding of a whole document, as JSON text; where `force` is set,
/// in place of all its embeddings.
pub fn store_embedding(store: &mut Db, doc_id: &str, vector: &str, force: bool)
    ensures
        final(store)@ == db::with_embedding(
            if force {
                db::without_embeddings(old(store)@, doc_id@)
            } else {
                old(store)@
            },
            (db::EmbeddingRowView {
                doc_id: doc_id@,
                chunk_id: WHOLE_DOCUMENT@,
                vector: vector@,
            }),
        ),
{
    if force {
        store.delete_embeddings_for_doc(doc_id);
    }
    store.upsert_embedding(doc_id, WHOLE_DOCUMENT, vector);
}

// ---------------------------------------------------------------------------
// Laws
// ---------------------------------------------------------------------------

/// A page holds the documents from place `offset` on, `limit` of them at most.
pub proof fn pages_cut_the_listing(
    store: DbView,
    collection: Option<Seq<char>>,
    limit: int,
    offset: int,
)
    requires
        0 <= limit,
        0 <= offset,
    ensures
        ({
            let all = db::newest_first(store, collection);
            let page = page_of(store, collection, limit, offset);
            &&& page.len() <= limit
            &&& forall|k: int|
                0 <= k < page.len() ==> offset + k < all.len() && #[trigger] page[k] == all[offset
                    + k]
            &&& page.len() < limit ==> page.len() + offset >= all.len()
        }),
{
}

/// Two pages in a row are one page of both.
pub proof fn pages_join(
    store: DbView,
    collection: Option<Seq<char>>,
    a: int,
    b: int,
    offset: int,
)
    requires
        0 <= a,
        0 <= b,
        0 <= offset,
    ensures
        page_of(store, collection, a, offset) + page_of(store, collection, b, offset + a)
            == page_of(store, collection, a + b, offset),
{
    assert(page_of(store, collection, a, offset) + page_of(store, collection, b, offset + a)
        =~= page_of(store, collection, a + b, offset));
}

/// A listing is sorted: no document was added later than one listed before it.
pub proof fn listing_is_newest_first(store: DbView, collection: Option<Seq<char>>, i: int, j: int)
    requires
        0 <= i < j < db::newest_first(store, collection).len(),
    ensures
        document::instant(db::newest_first(store, collection)[i].added_at) >= document::instant(
            db::newest_first(store, collection)[j].added_at,
        ),
{
    let docs = store.documents.filter(db::doc_in(collection));
    order::sorting_is_stable(docs, db::instants(docs));
    let r = order::the_order(docs.len() as int, order::by_key_desc(db::instants(docs)));
    assert(0 <= r[i] < docs.len() && 0 <= r[j] < docs.len());
}

/// Once the graph was built, building it again without force rebuilds nothing
/// for documents whose own node is there.
pub proof fn built_documents_are_skipped(store: DbView, docs: Seq<DocumentView>, n: int)
    requires
        0 <= n <= docs.len(),
        forall|i: int|
            0 <= i < n ==> traverse::has_node(
                store,
                graph::doc_node_id((#[trigger] docs[i]).id),
            ),
    ensures
        built(store, docs, false, n) == (store, 0nat),
    decreases n,
{
    if n > 0 {
        built_documents_are_skipped(store, docs, n - 1);
    }
}

/// Whether the graph of a document is stored: each of its nodes is known, and of
/// the document's edges exactly those that its text gives rise to are there.
pub open spec fn is_graphed(store: DbView, doc: DocumentView) -> bool {
    let body = document::body_of(doc.content);
    let nodes = graph::graph_nodes(doc.id, doc.title, body);
    let edges = graph::graph_edges(doc.id, doc.title, body);
    &&& forall|k: int| 0 <= k < nodes.len() ==> graph::has_id(store.nodes, (#[trigger] nodes[k]).id)
    &&& forall|e: EdgeView|
        e.doc_id == doc.id ==> (#[trigger] store.edges.contains(e) <==> edges.contains(e))
}

/// Extracting a graph anew stores it, and keeps the store's edges sound.
proof fn lemma_regraphed(store: DbView, doc: DocumentView)
    requires
        db::edges_are_sound(store),
        table::pairwise(store.nodes, db::nodes_differ()),
    ensures
        db::edges_are_sound(regraphed(store, doc)),
        table::pairwise(regraphed(store, doc).nodes, db::nodes_differ()),
        regraphed(store, doc).documents == store.documents,
        is_graphed(regraphed(store, doc), doc),
{
    let body = document::body_of(doc.content);
    let edges = graph::graph_edges(doc.id, doc.title, body);
    let bare = db::without_graph(store, doc.id);
    let after = regraphed(store, doc);
    db::deleting_keeps_edges_sound(store, doc.id);
    db::deleting_keeps_nodes_distinct(store, doc.id);
    db::adding_keeps_edges_sound(bare, doc.id, doc.title, body);
    table::lemma_filter_holds(store.edges, db::edge_of_other(doc.id));
    assert forall|e: EdgeView| e.doc_id == doc.id implies (#[trigger] after.edges.contains(e)
        <==> edges.contains(e)) by {
        if after.edges.contains(e) {
            let i = choose|i: int| 0 <= i < after.edges.len() && after.edges[i] == e;
            if i < bare.edges.len() {
                assert(db::edge_of_other(doc.id)(bare.edges[i]));
            } else {
                assert(edges[i - bare.edges.len()] == e);
            }
        }
        if edges.contains(e) {
            let i = choose|i: int| 0 <= i < edges.len() && edges[i] == e;
            assert(after.edges[bare.edges.len() + i] == e);
        }
    }
}

/// Extracting the graph of a document anew leaves the graphs of the others.
proof fn lemma_regraphing_spares(store: DbView, doc: DocumentView, other: DocumentView)
    requires
        db::edges_are_sound(store),
        table::pairwise(store.nodes, db::nodes_differ()),
        doc.id != other.id,
        is_graphed(store, other),
    ensures
        is_graphed(regraphed(store, doc), other),
{
    let body = document::body_of(other.content);
    let nodes = graph::graph_nodes(other.id, other.title, body);
    let edges = graph::graph_edges(other.id, other.title, body);
    let bare = db::without_graph(store, doc.id);
    let after = regraphed(store, doc);
    let new_body = document::body_of(doc.content);
    let new_nodes = graph::graph_nodes(doc.id, doc.title, new_body);
    let new_edges = graph::graph_edges(doc.id, doc.title, new_body);
    db::deleting_keeps_nodes_distinct(store, doc.id);
    db::graph_nodes_are_known(bare.nodes, new_nodes, new_nodes.len() as int);
    table::lemma_filter_holds(store.edges, db::edge_of_other(doc.id));
    table::lemma_filter_holds(store.edges, db::edge_of(doc.id));
    table::lemma_filter_holds(store.nodes, db::node_outlasts(store.edges, doc.id));
    assert forall|k: int| 0 <= k < nodes.len() implies graph::has_id(
        after.nodes,
        (#[trigger] nodes[k]).id,
    ) by {
        let id = nodes[k].id;
        assert(graph::has_id(store.nodes, id));
        let a = choose|a: int| 0 <= a < store.nodes.len() && (#[trigger] store.nodes[a]).id == id;
        let n = store.nodes[a];
        if k == 0 {
            assert(id == graph::doc_node_id(other.id));
            db::doc_nodes_differ(other.id, doc.id);
            let gone = store.edges.filter(db::edge_of(doc.id));
            assert forall|i: int| 0 <= i < gone.len() implies !db::edge_at(id)(
                #[trigger] gone[i],
            ) by {
                assert(db::edge_of(doc.id)(gone[i]));
                assert(gone.contains(gone[i]));
                let x = choose|x: int| 0 <= x < store.edges.len() && store.edges[x] == gone[i];
                assert(db::is_sound(store.nodes, store.edges[x]));
                if gone[i].target == id {
                    assert(id.subrange(0, "doc_"@.len() as int) =~= "doc_"@);
                }
            }
        } else {
            let j = graph::nodes_of_the_graph_are_linked(
                other.id,
                other.title,
                graph::links_of(body),
                graph::tags_of(body),
                graph::concepts_of(body),
                k,
            );
            graph::edges_join_nodes_of_the_graph(
                other.id,
                other.title,
                graph::links_of(body),
                graph::tags_of(body),
                graph::concepts_of(body),
                j,
            );
            assert(edges.contains(edges[j]));
            assert(store.edges.contains(edges[j]));
            if id == graph::doc_node_id(doc.id) {
                assert(id.subrange(0, "doc_"@.len() as int) =~= "doc_"@);
            }
            db::deleting_spares_linked_nodes(store, doc.id, n);
        }
        assert(store.nodes.contains(n));
        assert(bare.nodes.contains(n));
        let b = choose|b: int| 0 <= b < bare.nodes.len() && bare.nodes[b] == n;
        assert(bare.nodes[b].id == id);
        assert(graph::has_id(bare.nodes, id));
    }
    assert forall|e: EdgeView| e.doc_id == other.id implies (#[trigger] after.edges.contains(e)
        <==> edges.contains(e)) by {
        assert(store.edges.contains(e) <==> edges.contains(e));
        assert(bare.edges.contains(e) <==> store.edges.contains(e));
        if after.edges.contains(e) {
            let i = choose|i: int| 0 <= i < after.edges.len() && after.edges[i] == e;
            if i < bare.edges.len() {
                assert(bare.edges[i] == e);
            } else {
                graph::edges_join_nodes_of_the_graph(
                    doc.id,
                    doc.title,
                    graph::links_of(new_body),
                    graph::tags_of(new_body),
                    graph::concepts_of(new_body),
                    i - bare.edges.len(),
                );
                assert(after.edges[i] == new_edges[i - bare.edges.len()]);
            }
        }
        if bare.edges.contains(e) {
            let i = choose|i: int| 0 <= i < bare.edges.len() && bare.edges[i] == e;
            assert(after.edges[i] == e);
        }
    }
}

/// Building the graphs of some documents keeps the store's edges sound; with
/// force, the graph of each of them is stored afterwards.
proof fn lemma_built(store: DbView, docs: Seq<DocumentView>, force: bool, n: int)
    requires
        0 <= n <= docs.len(),
        db::edges_are_sound(store),
        table::pairwise(store.nodes, db::nodes_differ()),
        table::pairwise(docs, ingest::ids_differ()),
    ensures
        ({
            let (after, count) = built(store, docs, force, n);
            &&& db::edges_are_sound(after)
            &&& table::pairwise(after.nodes, db::nodes_differ())
            &&& after.documents == store.documents
            &&& force ==> count == n
            &&& force ==> forall|i: int| 0 <= i < n ==> is_graphed(after, #[trigger] docs[i])
        }),
    decreases n,
{
    if n > 0 {
        lemma_built(store, docs, force, n - 1);
        let so_far = built(store, docs, force, n - 1).0;
        let after = built(store, docs, force, n).0;
        lemma_regraphed(so_far, docs[n - 1]);
        if force {
            assert forall|i: int| 0 <= i < n implies is_graphed(after, #[trigger] docs[i]) by {
                if i < n - 1 {
                    assert(ingest::ids_differ()(docs[i], docs[n - 1]));
                    lemma_regraphing_spares(so_far, docs[n - 1], docs[i]);
                }
            }
        }
    }
}

/// The listing of a store holds each of its documents, no two with one identifier.
proof fn lemma_listing(store: DbView)
    requires
        table::pairwise(store.documents, ingest::ids_differ()),
    ensures
        table::pairwise(db::newest_first(store, None), ingest::ids_differ()),
        db::newest_first(store, None).len() == store.documents.len(),
        forall|d: DocumentView| #[trigger]
            store.documents.contains(d) ==> db::newest_first(store, None).contains(d),
{
    let docs = store.documents.filter(db::doc_in(None));
    table::lemma_filter_all(store.documents, db::doc_in(None));
    let keys = db::instants(docs);
    let listed = db::newest_first(store, None);
    let r = order::the_order(docs.len() as int, order::by_key_desc(keys));
    order::sorting_is_stable(docs, keys);
    order::lemma_by_key_total(keys);
    order::the_order_is_an_order(docs.len() as int, order::by_key_desc(keys));
    assert forall|i: int, j: int| 0 <= i < j < listed.len() implies ingest::ids_differ()(
        #[trigger] listed[i],
        #[trigger] listed[j],
    ) by {
        assert(0 <= r[i] < docs.len() && 0 <= r[j] < docs.len());
        assert(r[i] != r[j]);
        assert(listed[i] == docs[r[i]]);
        assert(listed[j] == docs[r[j]]);
        if r[i] < r[j] {
            assert(ingest::ids_differ()(docs[r[i]], docs[r[j]]));
        } else {
            assert(ingest::ids_differ()(docs[r[j]], docs[r[i]]));
        }
    }
    assert forall|d: DocumentView| #[trigger] store.documents.contains(d) implies listed.contains(
        d,
    ) by {
        let k = choose|k: int| 0 <= k < docs.len() && docs[k] == d;
        assert(r.contains(k));
        let i = choose|i: int| 0 <= i < r.len() && r[i] == k;
        assert(listed[i] == d);
    }
}

/// Building the graph keeps a store valid: in particular, every edge still joins
/// stored nodes.
pub proof fn building_keeps_the_store_valid(store: DbView, force: bool)
    requires
        ingest::is_valid(store),
    ensures
        ingest::is_valid(all_built(store, force).0),
        all_built(store, force).0.documents == store.documents,
{
    let docs = db::newest_first(store, None);
    lemma_listing(store);
    lemma_built(store, docs, force, docs.len() as int);
}

/// A forced build rebuilds the graph of every stored document: afterwards each
/// node that its text gives rise to is known, and its edges are those that its
/// text gives rise to.
pub proof fn forced_build_covers_every_document(store: DbView, doc: DocumentView)
    requires
        ingest::is_valid(store),
        store.documents.contains(doc),
    ensures
        is_graphed(all_built(store, true).0, doc),
        all_built(store, true).1 == store.documents.len(),
{
    let docs = db::newest_first(store, None);
    lemma_listing(store);
    lemma_built(store, docs, true, docs.len() as int);
    assert(docs.contains(doc));
    let i = choose|i: int| 0 <= i < docs.len() && docs[i] == doc;
    assert(is_graphed(all_built(store, true).0, docs[i]));
}

/// A node that is known after nodes were added was known before or is one of them.
proof fn lemma_added_ids(nodes: Seq<NodeView>, added: Seq<NodeView>, k: int, id: Seq<char>)
    requires
        table::pairwise(nodes, db::nodes_differ()),
        0 <= k <= added.len(),
        graph::has_id(db::nodes_with_all(nodes, added, k), id),
    ensures
        graph::has_id(nodes, id) || exists|j: int| 0 <= j < k && (#[trigger] added[j]).id == id,
    decreases k,
{
    if k > 0 {
        let before = db::nodes_with_all(nodes, added, k - 1);
        db::graph_nodes_are_known(nodes, added, k - 1);
        db::occurrence_keeps_nodes_distinct(before, added[k - 1]);
        if id != added[k - 1].id {
            lemma_added_ids(nodes, added, k - 1, id);
        }
    }
}

/// Extracting the graph of a document anew neither adds nor takes the own node of
/// another.
proof fn lemma_own_nodes_stay(store: DbView, doc: DocumentView, other: Seq<char>)
    requires
        db::edges_are_sound(store),
        table::pairwise(store.nodes, db::nodes_differ()),
        doc.id != other,
    ensures
        graph::has_id(regraphed(store, doc).nodes, graph::doc_node_id(other)) == graph::has_id(
            store.nodes,
            graph::doc_node_id(other),
        ),
{
    let id = graph::doc_node_id(other);
    let body = document::body_of(doc.content);
    let nodes = graph::graph_nodes(doc.id, doc.title, body);
    let bare = db::without_graph(store, doc.id);
    let after = regraphed(store, doc);
    let gone = store.edges.filter(db::edge_of(doc.id));
    db::doc_nodes_differ(other, doc.id);
    db::deleting_keeps_nodes_distinct(store, doc.id);
    db::graph_nodes_are_known(bare.nodes, nodes, nodes.len() as int);
    table::lemma_filter_holds(store.edges, db::edge_of(doc.id));
    table::lemma_filter_holds(store.nodes, db::node_outlasts(store.edges, doc.id));
    assert(id.subrange(0, "doc_"@.len() as int) =~= "doc_"@);
    if graph::has_id(store.nodes, id) {
        let a = choose|a: int| 0 <= a < store.nodes.len() && (#[trigger] store.nodes[a]).id == id;
        assert forall|i: int| 0 <= i < gone.len() implies !db::edge_at(id)(#[trigger] gone[i]) by {
            assert(db::edge_of(doc.id)(gone[i]));
            assert(gone.contains(gone[i]));
            let x = choose|x: int| 0 <= x < store.edges.len() && store.edges[x] == gone[i];
            assert(db::is_sound(store.nodes, store.edges[x]));
        }
        assert(store.nodes.contains(store.nodes[a]));
        assert(bare.nodes.contains(store.nodes[a]));
        let b = choose|b: int| 0 <= b < bare.nodes.len() && bare.nodes[b] == store.nodes[a];
        assert(bare.nodes[b].id == id);
    }
    if graph::has_id(after.nodes, id) {
        lemma_added_ids(bare.nodes, nodes, nodes.len() as int, id);
        if graph::has_id(bare.nodes, id) {
            let b = choose|b: int| 0 <= b < bare.nodes.len() && (#[trigger] bare.nodes[b]).id == id;
            assert(bare.nodes.contains(bare.nodes[b]));
            let a = choose|a: int| 0 <= a < store.nodes.len() && store.nodes[a] == bare.nodes[b];
            assert(store.nodes[a].id == id);
        } else {
            let k = choose|k: int| 0 <= k < nodes.len() && (#[trigger] nodes[k]).id == id;
            assert(nodes[0] == graph::doc_node(doc.id, doc.title));
            if k > 0 {
                let j = graph::nodes_of_the_graph_are_linked(
                    doc.id,
                    doc.title,
                    graph::links_of(body),
                    graph::tags_of(body),
                    graph::concepts_of(body),
                    k,
                );
                graph::edges_join_nodes_of_the_graph(
                    doc.id,
                    doc.title,
                    graph::links_of(body),
                    graph::tags_of(body),
                    graph::concepts_of(body),
                    j,
                );
            }
        }
    }
}

/// Extracting the graph of a document anew leaves the edges of the others.
proof fn lemma_edges_stay(store: DbView, doc: DocumentView, e: EdgeView)
    requires
        e.doc_id != doc.id,
    ensures
        regraphed(store, doc).edges.contains(e) == store.edges.contains(e),
{
    let body = document::body_of(doc.content);
    let edges = graph::graph_edges(doc.id, doc.title, body);
    let bare = db::without_graph(store, doc.id);
    let after = regraphed(store, doc);
    table::lemma_filter_holds(store.edges, db::edge_of_other(doc.id));
    assert(bare.edges.contains(e) <==> store.edges.contains(e) && db::edge_of_other(doc.id)(e));
    if after.edges.contains(e) {
        let i = choose|i: int| 0 <= i < after.edges.len() && after.edges[i] == e;
        if i < bare.edges.len() {
            assert(bare.edges[i] == e);
        } else {
            assert(after.edges[i] == edges[i - bare.edges.len()]);
            graph::edges_join_nodes_of_the_graph(
                doc.id,
                doc.title,
                graph::links_of(body),
                graph::tags_of(body),
                graph::concepts_of(body),
                i - bare.edges.len(),
            );
        }
    }
    if bare.edges.contains(e) {
        let i = choose|i: int| 0 <= i < bare.edges.len() && bare.edges[i] == e;
        assert(after.edges[i] == e);
    }
}

/// Documents whose own node a graph does not hold.
pub open spec fn lacks_own_node(nodes: Seq<NodeView>) -> spec_fn(DocumentView) -> bool {
    |d: DocumentView| !graph::has_id(nodes, graph::doc_node_id(d.id))
}

/// Whether the edges of a document are those that another store holds.
pub open spec fn has_same_edges(a: DbView, b: DbView, doc: DocumentView) -> bool {
    forall|e: EdgeView|
        e.doc_id == doc.id ==> (#[trigger] a.edges.contains(e) <==> b.edges.contains(e))
}

proof fn lemma_missing_built(store: DbView, docs: Seq<DocumentView>, n: int)
    requires
        0 <= n <= docs.len(),
        db::edges_are_sound(store),
        table::pairwise(store.nodes, db::nodes_differ()),
        table::pairwise(docs, ingest::ids_differ()),
    ensures
        ({
            let (after, count) = built(store, docs, false, n);
            let missing = lacks_own_node(store.nodes);
            &&& count == docs.take(n).filter(missing).len()
            &&& forall|i: int|
                0 <= i < n && missing(#[trigger] docs[i]) ==> is_graphed(after, docs[i])
            &&& forall|i: int|
                0 <= i < docs.len() && !missing(#[trigger] docs[i]) ==> has_same_edges(
                    after,
                    store,
                    docs[i],
                )
            &&& forall|i: int|
                n <= i < docs.len() ==> missing(#[trigger] docs[i]) == lacks_own_node(after.nodes)(
                    docs[i],
                )
        }),
    decreases n,
{
    let missing = lacks_own_node(store.nodes);
    if n == 0 {
        assert(docs.take(0) =~= Seq::empty());
        table::lemma_filter_none(docs.take(0), missing);
    } else {
        lemma_missing_built(store, docs, n - 1);
        lemma_built(store, docs, false, n - 1);
        let so_far = built(store, docs, false, n - 1).0;
        let after = built(store, docs, false, n).0;
        let doc = docs[n - 1];
        assert(docs.take(n) =~= docs.take(n - 1).push(doc));
        table::lemma_filter_push(docs.take(n - 1), doc, missing);
        db::lemma_known_node(so_far.nodes, graph::doc_node_id(doc.id));
        assert(missing(doc) == lacks_own_node(so_far.nodes)(doc));
        if missing(doc) {
            lemma_regraphed(so_far, doc);
            assert forall|i: int| 0 <= i < n && missing(#[trigger] docs[i]) implies is_graphed(
                after,
                docs[i],
            ) by {
                if i < n - 1 {
                    assert(ingest::ids_differ()(docs[i], docs[n - 1]));
                    lemma_regraphing_spares(so_far, doc, docs[i]);
                }
            }
            assert forall|i: int|
                0 <= i < docs.len() && !missing(#[trigger] docs[i]) implies has_same_edges(
                after,
                store,
                docs[i],
            ) by {
                lemma_ids_apart(docs, i, n - 1);
                assert(has_same_edges(so_far, store, docs[i]));
                assert forall|e: EdgeView| e.doc_id == docs[i].id implies (
                #[trigger] after.edges.contains(e) <==> store.edges.contains(e)) by {
                    lemma_edges_stay(so_far, doc, e);
                    assert(so_far.edges.contains(e) <==> store.edges.contains(e));
                }
            }
            assert forall|i: int| n <= i < docs.len() implies missing(#[trigger] docs[i])
                == lacks_own_node(after.nodes)(docs[i]) by {
                lemma_ids_apart(docs, i, n - 1);
                lemma_own_nodes_stay(so_far, doc, docs[i].id);
                assert(missing(docs[i]) == lacks_own_node(so_far.nodes)(docs[i]));
            }
        }
    }
}

proof fn lemma_ids_apart(docs: Seq<DocumentView>, i: int, j: int)
    requires
        table::pairwise(docs, ingest::ids_differ()),
        0 <= i < docs.len(),
        0 <= j < docs.len(),
        i != j,
    ensures
        docs[i].id != docs[j].id,
{
    if i < j {
        assert(ingest::ids_differ()(docs[i], docs[j]));
    } else {
        assert(ingest::ids_differ()(docs[j], docs[i]));
    }
}

/// A build without force extracts the graph of every document whose own node is not there,
/// counts those, and leaves the edges of the others as they are.
pub proof fn builds_add_the_missing_graphs(store: DbView, doc: DocumentView)
    requires
        ingest::is_valid(store),
        store.documents.contains(doc),
    ensures
        ({
            let (after, count) = all_built(store, false);
            let missing = lacks_own_node(store.nodes);
            &&& missing(doc) ==> is_graphed(after, doc)
            &&& !missing(doc) ==> has_same_edges(after, store, doc)
            &&& count == db::newest_first(store, None).filter(missing).len()
        }),
{
    let docs = db::newest_first(store, None);
    lemma_listing(store);
    lemma_missing_built(store, docs, docs.len() as int);
    assert(docs.take(docs.len() as int) =~= docs);
    assert(docs.contains(doc));
    let i = choose|i: int| 0 <= i < docs.len() && docs[i] == doc;
    assert(docs[i] == doc);
}

/// Embedding by force leaves no stored document out, and takes none that is not stored.
pub proof fn forced_embedding_covers_every_document(store: DbView, id: Seq<char>)
    ensures
        db::doc_ids(db::newest_first(store, None)).contains(id) <==> exists|i: int|
            0 <= i < store.documents.len() && (#[trigger] store.documents[i]).id == id,
{
    let docs = store.documents.filter(db::doc_in(None));
    let keys = db::instants(docs);
    let listed = db::newest_first(store, None);
    let ids = db::doc_ids(listed);
    let r = order::the_order(docs.len() as int, order::by_key_desc(keys));
    table::lemma_filter_all(store.documents, db::doc_in(None));
    order::sorting_is_stable(docs, keys);
    if ids.contains(id) {
        let i = choose|i: int| 0 <= i < ids.len() && ids[i] == id;
        assert(0 <= r[i] < docs.len());
        assert(listed[i] == docs[r[i]]);
        assert(store.documents[r[i]].id == id);
    }
    if exists|i: int| 0 <= i < store.documents.len() && (#[trigger] store.documents[i]).id == id {
        let k = choose|k: int| 0 <= k < store.documents.len() && (#[trigger] store.documents[k]).id == id;
        assert(r.contains(k));
        let i = choose|i: int| 0 <= i < r.len() && r[i] == k;
        assert(listed[i] == docs[k]);
        assert(ids[i] == id);
    }
}

} // verus!
